//! The simulations in exact arithmetic: what an iteration convolves, and what it
//! conserves.
use crate::complex::{complex, one, Complex};
use crate::convolve::{
    column, convolution2, dft2, grid_spectral_product_convolves, inverse_dft2, lemma_cell,
    lemma_place, map_columns, map_rows, row,
};
use crate::dft::{complex_butterfly, dft, is_root, is_twiddle_table, passes_compute_dft, products};
use crate::fft::passes_out;
use crate::gpu_flow_lenia::{lemma_part_words, FlowBuffer, GpuFlowLenia};
use crate::gpu_lenia::{lemma_grid, GpuLenia, LeniaBuffer};
use crate::lenia_step::{lenia_potential, LeniaArithmetic};
use crate::mass::{
    channel_mass, mass_is_at_most_positive_mass, positive_mass, reintegrated,
    reintegrated_mass_is_not_negative, reintegration_conserves_mass, reintegration_creates_no_mass,
    Motion,
};
use crate::passes::{gradient_at, neighbours, Neighbours};
use crate::step::{
    channels_after, is_square, iterate_moves_channels, lemma_last_iteration, moved, next_channels,
    pairs, potential, run_all, run_steps_keeps_kernels_and_obstacles, sized, source_data,
    spectral_products, Arithmetic, Device,
};
use vstd::arithmetic::power2::*;
use vstd::prelude::*;

verus! {

/// Pairs of numbers as complex numbers.
pub open spec fn as_complex(data: Seq<(real, real)>) -> Seq<Complex> {
    Seq::new(data.len(), |i: int| complex(data[i].0, data[i].1))
}

/// Complex numbers as pairs of numbers.
pub open spec fn as_pairs(data: Seq<Complex>) -> Seq<(real, real)> {
    Seq::new(data.len(), |i: int| (data[i].re, data[i].im))
}

/// The transform of a lane by the passes of an FFT, given the twiddle factors of the
/// two directions.
pub open spec fn exact_lane(
    forward: Seq<Complex>,
    backward: Seq<Complex>,
) -> spec_fn(bool, int, Seq<(real, real)>) -> Seq<(real, real)> {
    |inverse: bool, axis: int, lane: Seq<(real, real)>|
        as_pairs(
            passes_out(
                as_complex(lane),
                if inverse {
                    backward
                } else {
                    forward
                },
                complex_butterfly(),
            ),
        )
}

/// The product of two complex numbers.
pub open spec fn exact_times() -> spec_fn((real, real), (real, real)) -> (real, real) {
    |a: (real, real), b: (real, real)|
        {
            let c = complex(a.0, a.1).times(complex(b.0, b.1));
            (c.re, c.im)
        }
}

/// The division by the square of the width.
pub open spec fn exact_normalize(n: nat) -> spec_fn((real, real)) -> (real, real) {
    |a: (real, real)|
        {
            let c = complex(a.0, a.1).scaled(1real / (n as real * n as real));
            (c.re, c.im)
        }
}

/// A channel as a grid of complex numbers.
pub open spec fn channel_grid(sim: GpuFlowLenia, channels: Seq<real>, c: int) -> Seq<Complex> {
    let total = sim.total_elements as int;
    Seq::new(total as nat, |i: int| complex(channels[c * total + i], 0real))
}

/// Mapping the rows of pairs is mapping the rows of complex numbers.
proof fn lemma_rows(
    data: Seq<(real, real)>,
    w: nat,
    h: nat,
    f: spec_fn(Seq<(real, real)>) -> Seq<(real, real)>,
    g: spec_fn(Seq<Complex>) -> Seq<Complex>,
)
    requires
        w > 0,
        data.len() == w * h,
        forall|lane: Seq<(real, real)>|
            lane.len() == w ==> #[trigger] f(lane) == as_pairs(g(as_complex(lane))),
        forall|lane: Seq<Complex>| lane.len() == w ==> (#[trigger] g(lane)).len() == w,
    ensures
        map_rows(data, w, f) == as_pairs(map_rows(as_complex(data), w, g)),
{
    let left = map_rows(data, w, f);
    let right = as_pairs(map_rows(as_complex(data), w, g));
    assert forall|p: int| 0 <= p < data.len() implies left[p] == right[p] by {
        lemma_place(w, h, p);
        let y = p / (w as int);
        assert(as_complex(row(data, w, y)) =~= row(as_complex(data), w, y)) by {
            assert forall|x: int| 0 <= x < w implies as_complex(row(data, w, y))[x] == row(
                as_complex(data),
                w,
                y,
            )[x] by {
                lemma_cell(w, h, x, y);
            }
        }
        assert(f(row(data, w, y)) == as_pairs(g(as_complex(row(data, w, y)))));
        assert(g(as_complex(row(data, w, y))).len() == w);
    }
    assert(left =~= right);
}

/// Mapping the columns of pairs is mapping the columns of complex numbers.
proof fn lemma_columns(
    data: Seq<(real, real)>,
    w: nat,
    h: nat,
    f: spec_fn(Seq<(real, real)>) -> Seq<(real, real)>,
    g: spec_fn(Seq<Complex>) -> Seq<Complex>,
)
    requires
        w > 0,
        data.len() == w * h,
        forall|lane: Seq<(real, real)>|
            lane.len() == h ==> #[trigger] f(lane) == as_pairs(g(as_complex(lane))),
        forall|lane: Seq<Complex>| lane.len() == h ==> (#[trigger] g(lane)).len() == h,
    ensures
        map_columns(data, w, h, f) == as_pairs(map_columns(as_complex(data), w, h, g)),
{
    let left = map_columns(data, w, h, f);
    let right = as_pairs(map_columns(as_complex(data), w, h, g));
    assert forall|p: int| 0 <= p < data.len() implies left[p] == right[p] by {
        lemma_place(w, h, p);
        let x = p % (w as int);
        assert(as_complex(column(data, w, h, x)) =~= column(as_complex(data), w, h, x)) by {
            assert forall|y: int| 0 <= y < h implies as_complex(column(data, w, h, x))[y]
                == column(as_complex(data), w, h, x)[y] by {
                lemma_cell(w, h, x, y);
            }
        }
        assert(f(column(data, w, h, x)) == as_pairs(g(as_complex(column(data, w, h, x)))));
        assert(g(as_complex(column(data, w, h, x))).len() == h);
    }
    assert(left =~= right);
}

/// The lanes are transformed by the discrete Fourier transform.
proof fn lemma_exact_lane(
    forward: Seq<Complex>,
    backward: Seq<Complex>,
    w: Complex,
    v: Complex,
    bits: nat,
    inverse: bool,
    axis: int,
    lane: Seq<(real, real)>,
)
    requires
        is_root(w, bits),
        is_root(v, bits),
        is_twiddle_table(forward, w, bits),
        is_twiddle_table(backward, v, bits),
        lane.len() == pow2(bits),
    ensures
        exact_lane(forward, backward)(inverse, axis, lane) == as_pairs(
            dft(
                as_complex(lane),
                if inverse {
                    v
                } else {
                    w
                },
            ),
        ),
{
    if inverse {
        passes_compute_dft(as_complex(lane), backward, v, bits);
    } else {
        passes_compute_dft(as_complex(lane), forward, w, bits);
    }
}

/// Transforming a square grid, multiplying by the transform of a kernel, transforming
/// back and dividing by the number of cells convolves the grid with the kernel.
proof fn lemma_filtered(
    data: Seq<(real, real)>,
    spectrum: Seq<(real, real)>,
    kernel: Seq<Complex>,
    forward: Seq<Complex>,
    backward: Seq<Complex>,
    w: Complex,
    v: Complex,
    bits: nat,
    fx: spec_fn(Seq<(real, real)>) -> Seq<(real, real)>,
    fy: spec_fn(Seq<(real, real)>) -> Seq<(real, real)>,
    ix: spec_fn(Seq<(real, real)>) -> Seq<(real, real)>,
    iy: spec_fn(Seq<(real, real)>) -> Seq<(real, real)>,
)
    requires
        is_root(w, bits),
        is_root(v, bits),
        bits == 0 ==> w == one(),
        w.times(v) == one(),
        is_twiddle_table(forward, w, bits),
        is_twiddle_table(backward, v, bits),
        data.len() == pow2(bits) * pow2(bits),
        kernel.len() == data.len(),
        spectrum == as_pairs(dft2(kernel, pow2(bits), pow2(bits), w, w)),
        fx == (|lane: Seq<(real, real)>| exact_lane(forward, backward)(false, 0, lane)),
        fy == (|lane: Seq<(real, real)>| exact_lane(forward, backward)(false, 1, lane)),
        ix == (|lane: Seq<(real, real)>| exact_lane(forward, backward)(true, 0, lane)),
        iy == (|lane: Seq<(real, real)>| exact_lane(forward, backward)(true, 1, lane)),
    ensures
        ({
            let n = pow2(bits);
            let there = map_columns(map_rows(data, n, fx), n, n, fy);
            let product = Seq::new(there.len(), |i: int| exact_times()(there[i], spectrum[i]));
            let back = map_rows(map_columns(product, n, n, iy), n, ix);
            back.map_values(exact_normalize(n)) == as_pairs(
                convolution2(as_complex(data), kernel, n, n),
            )
        }),
{
    let n = pow2(bits);
    lemma_pow2_pos(bits);
    let grid = as_complex(data);
    let f = |r: Seq<Complex>| dft(r, w);
    let g = |r: Seq<Complex>| dft(r, v);
    assert forall|lane: Seq<(real, real)>| lane.len() == n implies #[trigger] fx(lane)
        == as_pairs(f(as_complex(lane))) by {
        lemma_exact_lane(forward, backward, w, v, bits, false, 0, lane);
    }
    assert forall|lane: Seq<(real, real)>| lane.len() == n implies #[trigger] fy(lane)
        == as_pairs(f(as_complex(lane))) by {
        lemma_exact_lane(forward, backward, w, v, bits, false, 1, lane);
    }
    assert forall|lane: Seq<(real, real)>| lane.len() == n implies #[trigger] ix(lane)
        == as_pairs(g(as_complex(lane))) by {
        lemma_exact_lane(forward, backward, w, v, bits, true, 0, lane);
    }
    assert forall|lane: Seq<(real, real)>| lane.len() == n implies #[trigger] iy(lane)
        == as_pairs(g(as_complex(lane))) by {
        lemma_exact_lane(forward, backward, w, v, bits, true, 1, lane);
    }
    // forward
    lemma_rows(data, n, n, fx, f);
    let rows = map_rows(data, n, fx);
    assert(as_complex(rows) =~= map_rows(grid, n, f));
    lemma_columns(rows, n, n, fy, f);
    let there = map_columns(rows, n, n, fy);
    assert(as_complex(there) =~= dft2(grid, n, n, w, w));
    // the product
    let product = Seq::new(there.len(), |i: int| exact_times()(there[i], spectrum[i]));
    let transform = dft2(kernel, n, n, w, w);
    assert(as_complex(product) =~= products(dft2(grid, n, n, w, w), transform)) by {
        assert forall|i: int| 0 <= i < data.len() implies as_complex(product)[i] == products(
            dft2(grid, n, n, w, w),
            transform,
        )[i] by {
            assert(spectrum[i] == as_pairs(transform)[i]);
            assert(as_complex(there)[i] == dft2(grid, n, n, w, w)[i]);
        }
    }
    // and back
    lemma_columns(product, n, n, iy, g);
    let columns = map_columns(product, n, n, iy);
    assert(as_complex(columns) =~= map_columns(as_complex(product), n, n, g));
    lemma_rows(columns, n, n, ix, g);
    let back = map_rows(columns, n, ix);
    assert(as_complex(back) =~= inverse_dft2(as_complex(product), n, n, v, v));
    grid_spectral_product_convolves(grid, kernel, n, w, v, bits);
    let whole = inverse_dft2(as_complex(product), n, n, v, v);
    let scaled = whole.map_values(|e: Complex| e.scaled(1real / (n as real * n as real)));
    assert(back.map_values(exact_normalize(n)) =~= as_pairs(scaled)) by {
        assert forall|i: int| 0 <= i < data.len() implies back.map_values(exact_normalize(n))[i]
            == as_pairs(scaled)[i] by {
            assert(as_complex(back)[i] == whole[i]);
        }
    }
}

/// In exact arithmetic, the passes of a kernel convolve: if the kernel buffer holds
/// the two-dimensional transform of a kernel on a square grid, then what the growth
/// of the kernel is computed from is the circular convolution of its source channel
/// with the kernel.
pub proof fn potential_is_convolution(
    sim: GpuFlowLenia,
    ops: Arithmetic<real>,
    channels: Seq<real>,
    kernels: Seq<real>,
    k: int,
    kernel: Seq<Complex>,
    forward: Seq<Complex>,
    backward: Seq<Complex>,
    w: Complex,
    v: Complex,
    bits: nat,
)
    requires
        sim.can_iterate(),
        is_square(sim),
        sim.shape@[0] == pow2(bits),
        0 <= k < sim.num_kernels,
        4 * channels.len() == sim.size_of(FlowBuffer::Channel),
        4 * kernels.len() == sim.size_of(FlowBuffer::Kernel),
        is_root(w, bits),
        is_root(v, bits),
        bits == 0 ==> w == one(),
        w.times(v) == one(),
        is_twiddle_table(forward, w, bits),
        is_twiddle_table(backward, v, bits),
        ops.zero == 0real,
        ops.lane == exact_lane(forward, backward),
        ops.times == exact_times(),
        ops.normalize == exact_normalize(pow2(bits)),
        kernel.len() == sim.total_elements,
        pairs(kernels).subrange(
            k * sim.total_elements,
            k * sim.total_elements + sim.total_elements,
        ) == as_pairs(dft2(kernel, pow2(bits), pow2(bits), w, w)),
    ensures
        potential(sim, ops, channels, kernels, k) == as_pairs(
            convolution2(
                channel_grid(sim, channels, sim.c0@[k] as int),
                kernel,
                pow2(bits),
                pow2(bits),
            ),
        ),
{
    let n = pow2(bits);
    let total = sim.total_elements as int;
    assert(sim.c0@[k] < sim.num_channels);
    let c = sim.c0@[k] as int;
    lemma_part_words(c, sim.num_channels as int, total, 4);
    lemma_part_words(k, sim.num_kernels as int, total, 8);
    let data = source_data(sim, ops, channels, k);
    assert(as_complex(data) =~= channel_grid(sim, channels, c));
    let fx = |lane: Seq<(real, real)>| (ops.lane)(false, 0, lane);
    let fy = |lane: Seq<(real, real)>| (ops.lane)(false, 1, lane);
    let ix = |lane: Seq<(real, real)>| (ops.lane)(true, 0, lane);
    let iy = |lane: Seq<(real, real)>| (ops.lane)(true, 1, lane);
    let spectrum = pairs(kernels).subrange(k * total, k * total + total);
    lemma_filtered(data, spectrum, kernel, forward, backward, w, v, bits, fx, fy, ix, iy);
    let there = map_columns(map_rows(data, n, fx), n, n, fy);
    let product = Seq::new(there.len(), |i: int| exact_times()(there[i], spectrum[i]));
    assert(spectral_products(sim, ops, there, kernels, k) =~= product);
}

/// In exact arithmetic, the passes of the single-channel simulation convolve: if the
/// kernel buffer holds the two-dimensional transform of a kernel on a square grid, then
/// what the growth is computed from is the circular convolution of the state with the
/// kernel.
pub proof fn lenia_potential_is_convolution(
    sim: GpuLenia,
    ops: LeniaArithmetic<real>,
    channel: Seq<real>,
    kernels: Seq<real>,
    kernel: Seq<Complex>,
    forward: Seq<Complex>,
    backward: Seq<Complex>,
    w: Complex,
    v: Complex,
    bits: nat,
)
    requires
        sim.can_iterate(),
        sim.shape.len() == 2,
        sim.shape@[0] == pow2(bits),
        sim.shape@[1] == pow2(bits),
        4 * channel.len() == sim.size_of(LeniaBuffer::Channel),
        is_root(w, bits),
        is_root(v, bits),
        bits == 0 ==> w == one(),
        w.times(v) == one(),
        is_twiddle_table(forward, w, bits),
        is_twiddle_table(backward, v, bits),
        ops.zero == 0real,
        ops.lane == exact_lane(forward, backward),
        ops.times == exact_times(),
        ops.normalize == exact_normalize(pow2(bits)),
        kernel.len() == sim.total_elements,
        pairs(kernels) == as_pairs(dft2(kernel, pow2(bits), pow2(bits), w, w)),
    ensures
        lenia_potential(sim, ops, channel, kernels) == as_pairs(
            convolution2(
                Seq::new(channel.len(), |i: int| complex(channel[i], 0real)),
                kernel,
                pow2(bits),
                pow2(bits),
            ),
        ),
{
    let n = pow2(bits);
    lemma_grid(sim);
    let data = Seq::new(channel.len(), |i: int| (channel[i], ops.zero));
    assert(as_complex(data) =~= Seq::new(channel.len(), |i: int| complex(channel[i], 0real)));
    let fx = |lane: Seq<(real, real)>| (ops.lane)(false, 0, lane);
    let fy = |lane: Seq<(real, real)>| (ops.lane)(false, 1, lane);
    let ix = |lane: Seq<(real, real)>| (ops.lane)(true, 0, lane);
    let iy = |lane: Seq<(real, real)>| (ops.lane)(true, 1, lane);
    let spectrum = pairs(kernels);
    lemma_filtered(data, spectrum, kernel, forward, backward, w, v, bits, fx, fy, ix, iy);
    let there = map_columns(map_rows(data, n, fx), n, n, fy);
    let product = Seq::new(there.len(), |i: int| exact_times()(there[i], spectrum[i]));
    assert(product =~= Seq::new(there.len(), |i: int| (ops.times)(there[i], spectrum[i])));
}

/// The arithmetic moves mass as `motion` says, with the given costs.
pub open spec fn moves(
    sim: GpuFlowLenia,
    ops: Arithmetic<real>,
    motion: Motion,
    basal_rate: real,
    kinetic_cost: real,
    speed: spec_fn(real, real) -> real,
) -> bool {
    &&& motion.w == sim.shape@[0]
    &&& motion.h == sim.shape@[1]
    &&& motion.dd == sim.dd
    &&& ops.zero == 0real
    &&& ops.gather == motion.gather()
    &&& ops.finish == motion.finish(basal_rate, kinetic_cost, speed)
}

/// No element is negative.
pub open spec fn not_negative(channels: Seq<real>) -> bool {
    forall|i: int| 0 <= i < channels.len() ==> #[trigger] channels[i] >= 0real
}

/// Moved channels have as many elements as before, and none is negative.
proof fn lemma_moved(
    sim: GpuFlowLenia,
    ops: Arithmetic<real>,
    channels: Seq<real>,
    flow: (Seq<real>, Seq<real>),
    motion: Motion,
    basal_rate: real,
    kinetic_cost: real,
    speed: spec_fn(real, real) -> real,
)
    requires
        sim.can_iterate(),
        4 * channels.len() == sim.size_of(FlowBuffer::Channel),
        moves(sim, ops, motion, basal_rate, kinetic_cost, speed),
    ensures
        moved(sim, ops, channels, flow).len() == channels.len(),
        not_negative(moved(sim, ops, channels, flow)),
        moved(sim, ops, channels, flow) == reintegrated(
            motion,
            channels,
            flow.0,
            flow.1,
            basal_rate,
            kinetic_cost,
            speed,
        ),
{
    let next = moved(sim, ops, channels, flow);
    let same = reintegrated(
        motion,
        channels,
        flow.0,
        flow.1,
        basal_rate,
        kinetic_cost,
        speed,
    );
    assert(next =~= same);
    assert forall|i: int| 0 <= i < next.len() implies #[trigger] next[i] >= 0real by {
        reintegrated_mass_is_not_negative(
            motion,
            channels,
            flow.0,
            flow.1,
            basal_rate,
            kinetic_cost,
            speed,
            i,
        );
    }
}

/// The channels after a step are the channels moved along some flow.
proof fn lemma_step_moves(
    sim: GpuFlowLenia,
    ops: Arithmetic<real>,
    channels: Seq<real>,
    kernels: Seq<real>,
    obstacle: Seq<real>,
)
    ensures
        exists|flow: (Seq<real>, Seq<real>)|
            next_channels(sim, ops, channels, kernels, obstacle) == #[trigger] moved(
                sim,
                ops,
                channels,
                flow,
            ),
{
    let next = next_channels(sim, ops, channels, kernels, obstacle);
    let flow = choose|flow: (Seq<real>, Seq<real>)|
        next == #[trigger] moved(sim, ops, channels, flow);
    assert(next == moved(sim, ops, channels, flow));
}

/// Moving the channels along a flow conserves the mass of every channel, without
/// metabolic costs.
proof fn lemma_moving_conserves(
    sim: GpuFlowLenia,
    ops: Arithmetic<real>,
    channels: Seq<real>,
    flow: (Seq<real>, Seq<real>),
    motion: Motion,
    speed: spec_fn(real, real) -> real,
    c: int,
)
    requires
        sim.can_iterate(),
        4 * channels.len() == sim.size_of(FlowBuffer::Channel),
        motion.wf(),
        moves(sim, ops, motion, 0real, 0real, speed),
        not_negative(channels),
        0 <= c < sim.num_channels,
    ensures
        ({
            let next = moved(sim, ops, channels, flow);
            let cells = sim.total_elements as nat;
            &&& next.len() == channels.len()
            &&& not_negative(next)
            &&& channel_mass(next, cells, c) == channel_mass(channels, cells, c)
        }),
{
    lemma_moved(sim, ops, channels, flow, motion, 0real, 0real, speed);
    reintegration_conserves_mass(
        motion,
        channels,
        flow.0,
        flow.1,
        sim.num_channels as nat,
        c,
        speed,
    );
}

/// Moving the channels along a flow creates no mass.
proof fn lemma_moving_creates_none(
    sim: GpuFlowLenia,
    ops: Arithmetic<real>,
    channels: Seq<real>,
    flow: (Seq<real>, Seq<real>),
    motion: Motion,
    basal_rate: real,
    kinetic_cost: real,
    speed: spec_fn(real, real) -> real,
    c: int,
)
    requires
        sim.can_iterate(),
        4 * channels.len() == sim.size_of(FlowBuffer::Channel),
        motion.spreads(),
        moves(sim, ops, motion, basal_rate, kinetic_cost, speed),
        basal_rate >= 0real,
        kinetic_cost >= 0real,
        forall|a: real, b: real| #[trigger] speed(a, b) >= 0real,
        0 <= c < sim.num_channels,
    ensures
        ({
            let next = moved(sim, ops, channels, flow);
            let cells = sim.total_elements as nat;
            &&& next.len() == channels.len()
            &&& not_negative(next)
            &&& positive_mass(next, cells, c) <= positive_mass(channels, cells, c)
        }),
{
    let cells = sim.total_elements as nat;
    lemma_moved(sim, ops, channels, flow, motion, basal_rate, kinetic_cost, speed);
    let next = moved(sim, ops, channels, flow);
    reintegration_creates_no_mass(
        motion,
        channels,
        flow.0,
        flow.1,
        basal_rate,
        kinetic_cost,
        sim.num_channels as nat,
        c,
        speed,
    );
    assert forall|p: int| 0 <= p < cells implies #[trigger] next[c * cells + p] >= 0real by {
        lemma_part_words(c, sim.num_channels as int, cells as int, 4);
    }
    mass_is_at_most_positive_mass(next, cells, c);
}

/// Without metabolic costs, the simulation conserves the mass of every channel, for
/// any number of steps, whatever the kernels, the growth and the obstacles.
pub proof fn simulation_conserves_mass(
    sim: GpuFlowLenia,
    ops: Arithmetic<real>,
    channels: Seq<real>,
    kernels: Seq<real>,
    obstacle: Seq<real>,
    motion: Motion,
    speed: spec_fn(real, real) -> real,
    n: nat,
    c: int,
)
    requires
        sim.can_iterate(),
        4 * channels.len() == sim.size_of(FlowBuffer::Channel),
        motion.wf(),
        moves(sim, ops, motion, 0real, 0real, speed),
        not_negative(channels),
        0 <= c < sim.num_channels,
    ensures
        channels_after(sim, ops, channels, kernels, obstacle, n).len() == channels.len(),
        not_negative(channels_after(sim, ops, channels, kernels, obstacle, n)),
        channel_mass(
            channels_after(sim, ops, channels, kernels, obstacle, n),
            sim.total_elements as nat,
            c,
        ) == channel_mass(channels, sim.total_elements as nat, c),
    decreases n,
{
    if n > 0 {
        let m = (n - 1) as nat;
        simulation_conserves_mass(
            sim,
            ops,
            channels,
            kernels,
            obstacle,
            motion,
            speed,
            m,
            c,
        );
        let before = channels_after(sim, ops, channels, kernels, obstacle, m);
        lemma_step_moves(sim, ops, before, kernels, obstacle);
        let next = next_channels(sim, ops, before, kernels, obstacle);
        let flow = choose|flow: (Seq<real>, Seq<real>)|
            next == #[trigger] moved(sim, ops, before, flow);
        lemma_moving_conserves(sim, ops, before, flow, motion, speed, c);
    }
}

/// No number of steps creates mass, whatever the time step and the metabolic costs: a
/// channel never holds more mass than its positive cells did at the start, and no cell
/// holds negative mass after a step.
pub proof fn simulation_creates_no_mass(
    sim: GpuFlowLenia,
    ops: Arithmetic<real>,
    channels: Seq<real>,
    kernels: Seq<real>,
    obstacle: Seq<real>,
    motion: Motion,
    basal_rate: real,
    kinetic_cost: real,
    speed: spec_fn(real, real) -> real,
    n: nat,
    c: int,
)
    requires
        sim.can_iterate(),
        4 * channels.len() == sim.size_of(FlowBuffer::Channel),
        motion.spreads(),
        moves(sim, ops, motion, basal_rate, kinetic_cost, speed),
        basal_rate >= 0real,
        kinetic_cost >= 0real,
        forall|a: real, b: real| #[trigger] speed(a, b) >= 0real,
        0 <= c < sim.num_channels,
    ensures
        ({
            let after = channels_after(sim, ops, channels, kernels, obstacle, n);
            let cells = sim.total_elements as nat;
            &&& after.len() == channels.len()
            &&& n > 0 ==> not_negative(after)
            &&& channel_mass(after, cells, c) <= positive_mass(after, cells, c)
            &&& positive_mass(after, cells, c) <= positive_mass(channels, cells, c)
        }),
    decreases n,
{
    let cells = sim.total_elements as nat;
    let after = channels_after(sim, ops, channels, kernels, obstacle, n);
    mass_is_at_most_positive_mass(after, cells, c);
    if n > 0 {
        let m = (n - 1) as nat;
        simulation_creates_no_mass(
            sim,
            ops,
            channels,
            kernels,
            obstacle,
            motion,
            basal_rate,
            kinetic_cost,
            speed,
            m,
            c,
        );
        let before = channels_after(sim, ops, channels, kernels, obstacle, m);
        lemma_step_moves(sim, ops, before, kernels, obstacle);
        let next = next_channels(sim, ops, before, kernels, obstacle);
        let flow = choose|flow: (Seq<real>, Seq<real>)|
            next == #[trigger] moved(sim, ops, before, flow);
        lemma_moving_creates_none(
            sim,
            ops,
            before,
            flow,
            motion,
            basal_rate,
            kinetic_cost,
            speed,
            c,
        );
    }
}

/// Running the steps on a device whose buffers have their sizes conserves the mass of
/// every channel, without metabolic costs, on a grid of any shape.
pub proof fn run_steps_conserves_mass(
    sim: GpuFlowLenia,
    ops: Arithmetic<real>,
    device: Device<real>,
    motion: Motion,
    speed: spec_fn(real, real) -> real,
    n: nat,
    c: int,
)
    requires
        sim.can_iterate(),
        sized(sim, device.mem),
        motion.wf(),
        moves(sim, ops, motion, 0real, 0real, speed),
        not_negative(device.mem[FlowBuffer::Channel]),
        0 <= c < sim.num_channels,
    ensures
        ({
            let commands = sim.repeated_commands(n);
            let done = run_all(sim, ops, commands, device, commands.len()).mem;
            &&& not_negative(done[FlowBuffer::Channel])
            &&& channel_mass(done[FlowBuffer::Channel], sim.total_elements as nat, c)
                == channel_mass(device.mem[FlowBuffer::Channel], sim.total_elements as nat, c)
        }),
    decreases n,
{
    if n > 0 {
        let m = (n - 1) as nat;
        run_steps_conserves_mass(sim, ops, device, motion, speed, m, c);
        run_steps_keeps_kernels_and_obstacles(sim, ops, device, m);
        let before = sim.repeated_commands(m);
        let mid = run_all(sim, ops, before, device, before.len());
        iterate_moves_channels(sim, ops, mid);
        lemma_last_iteration(sim, ops, device, n);
        let channels = mid.mem[FlowBuffer::Channel];
        let commands = sim.commands();
        let next = run_all(sim, ops, commands, mid, commands.len()).mem[FlowBuffer::Channel];
        let flow = choose|flow: (Seq<real>, Seq<real>)|
            next == #[trigger] moved(sim, ops, channels, flow);
        lemma_moving_conserves(sim, ops, channels, flow, motion, speed, c);
    }
}

/// Running the steps on a device whose buffers have their sizes creates no mass, and
/// leaves no cell with negative mass, on a grid of any shape.
pub proof fn run_steps_creates_no_mass(
    sim: GpuFlowLenia,
    ops: Arithmetic<real>,
    device: Device<real>,
    motion: Motion,
    basal_rate: real,
    kinetic_cost: real,
    speed: spec_fn(real, real) -> real,
    n: nat,
    c: int,
)
    requires
        sim.can_iterate(),
        sized(sim, device.mem),
        motion.spreads(),
        moves(sim, ops, motion, basal_rate, kinetic_cost, speed),
        basal_rate >= 0real,
        kinetic_cost >= 0real,
        forall|a: real, b: real| #[trigger] speed(a, b) >= 0real,
        0 <= c < sim.num_channels,
    ensures
        ({
            let commands = sim.repeated_commands(n);
            let done = run_all(sim, ops, commands, device, commands.len()).mem;
            let cells = sim.total_elements as nat;
            &&& n > 0 ==> not_negative(done[FlowBuffer::Channel])
            &&& channel_mass(done[FlowBuffer::Channel], cells, c) <= positive_mass(
                done[FlowBuffer::Channel],
                cells,
                c,
            )
            &&& positive_mass(done[FlowBuffer::Channel], cells, c) <= positive_mass(
                device.mem[FlowBuffer::Channel],
                cells,
                c,
            )
        }),
    decreases n,
{
    let cells = sim.total_elements as nat;
    let commands = sim.repeated_commands(n);
    let done = run_all(sim, ops, commands, device, commands.len()).mem;
    mass_is_at_most_positive_mass(done[FlowBuffer::Channel], cells, c);
    if n > 0 {
        let m = (n - 1) as nat;
        run_steps_creates_no_mass(
            sim,
            ops,
            device,
            motion,
            basal_rate,
            kinetic_cost,
            speed,
            m,
            c,
        );
        run_steps_keeps_kernels_and_obstacles(sim, ops, device, m);
        let before = sim.repeated_commands(m);
        let mid = run_all(sim, ops, before, device, before.len());
        iterate_moves_channels(sim, ops, mid);
        lemma_last_iteration(sim, ops, device, n);
        let channels = mid.mem[FlowBuffer::Channel];
        let flow = choose|flow: (Seq<real>, Seq<real>)|
            done[FlowBuffer::Channel] == #[trigger] moved(sim, ops, channels, flow);
        lemma_moving_creates_none(
            sim,
            ops,
            channels,
            flow,
            motion,
            basal_rate,
            kinetic_cost,
            speed,
            c,
        );
    }
}

/// The gradient of the Sobel operator.
pub open spec fn exact_gradient() -> spec_fn(Neighbours<real>) -> (real, real) {
    |n: Neighbours<real>|
        (
            (0real - n.tl + n.tr) + 2real * (0real - n.ml + n.mr) + (0real - n.bl + n.br),
            (0real - n.tl - 2real * n.tc - n.tr) + (n.bl + 2real * n.bc + n.br),
        )
}

/// A field that is the same everywhere has no gradient, also at the edges.
pub proof fn flat_fields_have_no_gradient(
    field: Seq<real>,
    value: real,
    w: int,
    h: int,
    i: int,
)
    requires
        0 < w,
        0 < h,
        0 <= i < field.len(),
        field.len() % ((w * h) as nat) == 0,
        0 < w * h,
        forall|p: int| 0 <= p < field.len() ==> #[trigger] field[p] == value,
    ensures
        gradient_at(field, w, h, i, exact_gradient()) == (0real, 0real),
{
    let cells = w * h;
    let pixel = i % cells;
    let base = (i / cells) * cells;
    let (x, y) = (pixel % w, pixel / w);
    vstd::arithmetic::div_mod::lemma_fundamental_div_mod(i, cells);
    vstd::arithmetic::div_mod::lemma_mod_bound(i, cells);
    vstd::arithmetic::div_mod::lemma_fundamental_div_mod(field.len() as int, cells);
    vstd::arithmetic::mul::lemma_mul_is_commutative(cells, i / cells);
    let (q, fields) = (i / cells, field.len() as int / cells);
    assert(0 <= q < fields) by (nonlinear_arith)
        requires
            cells * q <= i,
            i < cells * q + cells,
            0 <= i,
            i < cells * fields,
            0 < cells,
    ;
    assert(base + cells <= field.len()) by (nonlinear_arith)
        requires
            base == q * cells,
            q + 1 <= fields,
            field.len() == cells * fields,
            0 < cells,
    ;
    assert(0 <= base) by (nonlinear_arith)
        requires
            base == q * cells,
            0 <= q,
            0 < cells,
    ;
    lemma_place(w as nat, h as nat, pixel);
    let around = neighbours(field, base, x, y, w, h);
    let (xl, xr) = (crate::passes::before(x), crate::passes::after(x, w));
    let (yu, yd) = (crate::passes::before(y), crate::passes::after(y, h));
    lemma_cell(w as nat, h as nat, xl, yu);
    lemma_cell(w as nat, h as nat, x, yu);
    lemma_cell(w as nat, h as nat, xr, yu);
    lemma_cell(w as nat, h as nat, xl, y);
    lemma_cell(w as nat, h as nat, xr, y);
    lemma_cell(w as nat, h as nat, xl, yd);
    lemma_cell(w as nat, h as nat, x, yd);
    lemma_cell(w as nat, h as nat, xr, yd);
    assert(around.tl == value && around.tc == value && around.tr == value && around.ml == value
        && around.mr == value && around.bl == value && around.bc == value && around.br == value);
}

} // verus!
