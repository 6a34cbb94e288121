//! What the commands of a transform compute.
//!
//! The shaders of a transform run one invocation for each element or each butterfly.
//! This module says what the passes do to the data, for any arithmetic, and shows
//! that together they are the passes of [`crate::fft`], for a single lane and for all
//! lanes of a batch.
use crate::complex::{one, zero, Complex};
use crate::convolve::{lemma_cell, lemma_place};
use crate::dft::{complex_butterfly, is_root, normalized};
use crate::fft::{
    bit_rev, bit_reversed, butterfly_of, lemma_bit_rev_bound, lemma_cell_butterfly, passes_out,
    stage_out, stages_out,
};
use crate::gpu::{groups_for, workgroups_cover};
use crate::power::log2_of;
use crate::step::batch_mapped;
use crate::wfft::{
    fft_1d_impulse, fft_1d_roundtrip, inverse_flag, is_turn_table, layout_cell, turn_values,
    BatchPass, FftCommand, FftShader, LaneLayout, Twiddle, WgpuFFT1D,
};
use vstd::arithmetic::div_mod::*;
use vstd::arithmetic::mul::*;
use vstd::arithmetic::power2::*;
use vstd::prelude::*;

verus! {

/// The invocation of the bit-reversal pass that decides about element `p`: that of
/// the smaller of the two elements that it may exchange.
pub open spec fn reversing_invocation(p: nat, bits: nat) -> nat {
    let j = bit_rev(p, bits);
    if p < j {
        p
    } else {
        j
    }
}

/// The data after a command of a transform.
pub open spec fn run_fft<T>(
    command: FftCommand,
    data: Seq<T>,
    twiddles: Seq<T>,
    f: spec_fn(T, T, T) -> (T, T),
) -> Seq<T> {
    match command {
        FftCommand::BitReverse { n, groups } => Seq::new(
            data.len(),
            |p: int|
                if reversing_invocation(p as nat, log2_of(n as nat)) < groups * 256 {
                    bit_reversed(data, log2_of(n as nat))[p]
                } else {
                    data[p]
                },
        ),
        FftCommand::Stage { n, stage, inverse, groups } => Seq::new(
            data.len(),
            |p: int|
                if butterfly_of(p as nat, stage as nat) < groups * 256 {
                    stage_out(data, twiddles, stage as nat, f)[p]
                } else {
                    data[p]
                },
        ),
        FftCommand::ReadBack { size } => data,
    }
}

/// The data after the first `count` commands.
pub open spec fn run_fft_all<T>(
    commands: Seq<FftCommand>,
    data: Seq<T>,
    twiddles: Seq<T>,
    f: spec_fn(T, T, T) -> (T, T),
    count: nat,
) -> Seq<T>
    decreases count,
{
    if count == 0 {
        data
    } else {
        run_fft(
            commands[count - 1],
            run_fft_all(commands, data, twiddles, f, (count - 1) as nat),
            twiddles,
            f,
        )
    }
}

/// Enough workgroups reverse all elements.
proof fn lemma_reversed<T>(data: Seq<T>, bits: nat, groups: u32)
    requires
        data.len() == pow2(bits),
        groups == groups_for(data.len()),
    ensures
        forall|p: int|
            0 <= p < data.len() ==> #[trigger] reversing_invocation(p as nat, bits) < groups * 256,
{
    workgroups_cover(data.len(), 0);
    assert forall|p: int| 0 <= p < data.len() implies #[trigger] reversing_invocation(
        p as nat,
        bits,
    ) < groups * 256 by {
        lemma_bit_rev_bound(p as nat, bits);
    }
}

/// The commands of a transform compute the passes of an FFT.
pub proof fn transform_computes_passes<T>(
    fft: WgpuFFT1D,
    data: Seq<T>,
    twiddles: Seq<T>,
    f: spec_fn(T, T, T) -> (T, T),
)
    requires
        fft.wf(),
        fft.n <= u32::MAX,
        data.len() == fft.n,
    ensures
        run_fft_all(fft.commands(), data, twiddles, f, fft.commands().len()) == passes_out(
            data,
            twiddles,
            f,
        ),
{
    let bits = log2_of(fft.n as nat);
    lemma_stage_commands(fft, data, twiddles, f, bits);
    assert(fft.commands().len() == bits + 2);
    assert(fft.commands()[bits as int + 1] == (FftCommand::ReadBack { size: (fft.n * 8) as u64 }));
}

/// The bit-reversal pass and the first `count` stages.
proof fn lemma_stage_commands<T>(
    fft: WgpuFFT1D,
    data: Seq<T>,
    twiddles: Seq<T>,
    f: spec_fn(T, T, T) -> (T, T),
    count: nat,
)
    requires
        fft.wf(),
        fft.n <= u32::MAX,
        data.len() == fft.n,
        count <= log2_of(fft.n as nat),
    ensures
        run_fft_all(fft.commands(), data, twiddles, f, count + 1) == stages_out(
            bit_reversed(data, log2_of(fft.n as nat)),
            twiddles,
            f,
            count,
        ),
    decreases count,
{
    let n = fft.n as nat;
    let bits = log2_of(n);
    let commands = fft.commands();
    if count == 0 {
        reveal_with_fuel(run_fft_all, 2);
        let groups = groups_for(n) as u32;
        lemma_reversed(data, bits, groups);
        assert(commands[0] == (FftCommand::BitReverse { n: n as u32, groups }));
        assert(run_fft(commands[0], data, twiddles, f) =~= bit_reversed(data, bits));
    } else {
        let stage = (count - 1) as nat;
        lemma_stage_commands(fft, data, twiddles, f, stage);
        let before = stages_out(bit_reversed(data, bits), twiddles, f, stage);
        lemma_stages_len(bit_reversed(data, bits), twiddles, f, stage);
        let command = commands[count as int];
        assert(command == (FftCommand::Stage {
            n: n as u32,
            stage: stage as u32,
            inverse: inverse_flag(fft.inverse),
            groups: groups_for(n / 2) as u32,
        }));
        let after = stage_out(before, twiddles, stage, f);
        workgroups_cover(n / 2, 0);
        assert(stage as u32 == stage);
        assert forall|p: int| 0 <= p < n implies run_fft(command, before, twiddles, f)[p]
            == after[p] by {
            lemma_cell_butterfly(p as nat, n, bits, stage);
        }
        assert(run_fft(command, before, twiddles, f) =~= after);
    }
}

/// The stages keep the number of elements.
proof fn lemma_stages_len<T>(
    data: Seq<T>,
    twiddles: Seq<T>,
    f: spec_fn(T, T, T) -> (T, T),
    count: nat,
)
    ensures
        stages_out(data, twiddles, f, count).len() == data.len(),
    decreases count,
{
    if count > 0 {
        lemma_stages_len(data, twiddles, f, (count - 1) as nat);
    }
}

/// The commands of a forward transform and then those of an inverse transform of the
/// same length, divided by the length, give every input back, in exact arithmetic; and
/// so do those of the inverse transform, divided by the length, and then those of the
/// forward transform.
pub proof fn planned_transforms_undo_each_other(
    forward: WgpuFFT1D,
    backward: WgpuFFT1D,
    x: Seq<Complex>,
    forward_table: Seq<Twiddle>,
    backward_table: Seq<Twiddle>,
    w: Complex,
    v: Complex,
)
    requires
        forward.wf(),
        backward.wf(),
        forward.n == backward.n,
        forward.n <= u32::MAX,
        x.len() == forward.n,
        is_turn_table(forward_table, forward.n as nat, false),
        is_turn_table(backward_table, forward.n as nat, true),
        is_root(w, log2_of(forward.n as nat)),
        w.times(v) == one(),
    ensures
        ({
            let spectrum = run_fft_all(
                forward.commands(),
                x,
                turn_values(forward_table, w, v),
                complex_butterfly(),
                forward.commands().len(),
            );
            normalized(
                run_fft_all(
                    backward.commands(),
                    spectrum,
                    turn_values(backward_table, w, v),
                    complex_butterfly(),
                    backward.commands().len(),
                ),
            ) == x
        }),
        ({
            let signal = normalized(
                run_fft_all(
                    backward.commands(),
                    x,
                    turn_values(backward_table, w, v),
                    complex_butterfly(),
                    backward.commands().len(),
                ),
            );
            run_fft_all(
                forward.commands(),
                signal,
                turn_values(forward_table, w, v),
                complex_butterfly(),
                forward.commands().len(),
            ) == x
        }),
{
    let bits = log2_of(forward.n as nat);
    let there = turn_values(forward_table, w, v);
    let back = turn_values(backward_table, w, v);
    transform_computes_passes(forward, x, there, complex_butterfly());
    lemma_stages_len(bit_reversed(x, bits), there, complex_butterfly(), bits);
    transform_computes_passes(
        backward,
        passes_out(x, there, complex_butterfly()),
        back,
        complex_butterfly(),
    );
    transform_computes_passes(backward, x, back, complex_butterfly());
    lemma_stages_len(bit_reversed(x, bits), back, complex_butterfly(), bits);
    transform_computes_passes(
        forward,
        normalized(passes_out(x, back, complex_butterfly())),
        there,
        complex_butterfly(),
    );
    fft_1d_roundtrip(x, forward.n, forward_table, backward_table, w, v);
}

/// The commands of a forward transform turn an impulse at index 0 into one at every
/// frequency, in exact arithmetic.
pub proof fn planned_transform_of_impulse(
    fft: WgpuFFT1D,
    x: Seq<Complex>,
    table: Seq<Twiddle>,
    w: Complex,
    v: Complex,
    k: int,
)
    requires
        fft.wf(),
        fft.n <= u32::MAX,
        x.len() == fft.n,
        x[0] == one(),
        forall|t: int| 0 < t < fft.n ==> #[trigger] x[t] == zero(),
        is_turn_table(table, fft.n as nat, false),
        is_root(w, log2_of(fft.n as nat)),
        0 <= k < fft.n,
    ensures
        run_fft_all(
            fft.commands(),
            x,
            turn_values(table, w, v),
            complex_butterfly(),
            fft.commands().len(),
        )[k] == one(),
{
    transform_computes_passes(fft, x, turn_values(table, w, v), complex_butterfly());
    fft_1d_impulse(x, fft.n, table, w, v, k);
}

/// Every one of `len` cells is an element of exactly one lane of length `d`.
pub open spec fn tiles(lanes: LaneLayout, d: nat, len: nat) -> bool {
    &&& forall|l: nat, i: nat|
        l < lanes.num_lanes && i < d ==> (#[trigger] layout_cell(lanes, l, i)) < len
    &&& forall|l: nat, i: nat, m: nat, j: nat|
        l < lanes.num_lanes && i < d && m < lanes.num_lanes && j < d && #[trigger] layout_cell(
            lanes,
            l,
            i,
        ) == #[trigger] layout_cell(lanes, m, j) ==> l == m && i == j
    &&& forall|p: int| 0 <= p < len ==> #[trigger] in_lane(lanes, d, p)
}

/// Cell `p` is an element of a lane of length `d`.
pub open spec fn in_lane(lanes: LaneLayout, d: nat, p: int) -> bool {
    exists|l: nat, i: nat|
        l < lanes.num_lanes && i < d && #[trigger] layout_cell(lanes, l, i) == p
}

/// The layout of the lanes of a pass.
pub open spec fn pass_lanes(pass: BatchPass) -> LaneLayout {
    LaneLayout {
        num_lanes: pass.num_lanes as usize,
        lane_stride: pass.lane_stride,
        elem_stride: pass.elem_stride,
    }
}

/// What a pass makes of a lane.
pub open spec fn pass_of_lane<T>(
    pass: BatchPass,
    twiddles: Seq<T>,
    f: spec_fn(T, T, T) -> (T, T),
) -> spec_fn(Seq<T>) -> Seq<T> {
    |lane: Seq<T>|
        match pass.shader {
            FftShader::BitReverse => bit_reversed(lane, log2_of(pass.n as nat)),
            FftShader::Stage => stage_out(lane, twiddles, pass.stage as nat, f),
        }
}

/// The invocation of a pass that decides about element `i` of lane `l`. Each lane has
/// as many invocations as elements or as butterflies.
pub open spec fn pass_invocation(pass: BatchPass, l: nat, i: nat) -> nat {
    match pass.shader {
        FftShader::BitReverse => l * pass.n as nat + reversing_invocation(
            i,
            log2_of(pass.n as nat),
        ),
        FftShader::Stage => l * (pass.n as nat / 2) + butterfly_of(i, pass.stage as nat),
    }
}

/// The data after a pass over a batch.
pub open spec fn run_batch<T>(
    pass: BatchPass,
    data: Seq<T>,
    twiddles: Seq<T>,
    f: spec_fn(T, T, T) -> (T, T),
) -> Seq<T> {
    let lanes = pass_lanes(pass);
    let d = pass.n as nat;
    Seq::new(
        data.len(),
        |p: int|
            {
                let (l, i) = choose|l: nat, i: nat|
                    l < lanes.num_lanes && i < d && #[trigger] layout_cell(lanes, l, i) == p;
                if pass_invocation(pass, l, i) < pass.groups * 256 {
                    batch_mapped(data, lanes, d, pass_of_lane(pass, twiddles, f))[p]
                } else {
                    data[p]
                }
            },
    )
}

/// The data after the first `count` passes.
pub open spec fn run_batch_all<T>(
    passes: Seq<BatchPass>,
    data: Seq<T>,
    twiddles: Seq<T>,
    f: spec_fn(T, T, T) -> (T, T),
    count: nat,
) -> Seq<T>
    decreases count,
{
    if count == 0 {
        data
    } else {
        run_batch(
            passes[count - 1],
            run_batch_all(passes, data, twiddles, f, (count - 1) as nat),
            twiddles,
            f,
        )
    }
}

/// An invocation of lane `l` comes before those of the next lane.
proof fn lemma_invocation_bound(l: nat, count: nat, per_lane: nat, i: nat)
    requires
        l < count,
        i < per_lane,
    ensures
        l * per_lane + i < count * per_lane,
{
    assert(l * per_lane + per_lane <= count * per_lane) by (nonlinear_arith)
        requires
            l + 1 <= count,
    ;
}

/// A pass with enough workgroups maps every lane.
proof fn lemma_batch_pass<T>(
    fft: WgpuFFT1D,
    lanes: LaneLayout,
    k: int,
    data: Seq<T>,
    twiddles: Seq<T>,
    f: spec_fn(T, T, T) -> (T, T),
)
    requires
        fft.wf(),
        lanes.num_lanes * fft.n + 255 <= u32::MAX,
        lanes.num_lanes > 0,
        tiles(lanes, fft.n as nat, data.len()),
        0 <= k < fft.batch_passes(lanes).len(),
    ensures
        run_batch(fft.batch_passes(lanes)[k], data, twiddles, f) == batch_mapped(
            data,
            lanes,
            fft.n as nat,
            pass_of_lane(fft.batch_passes(lanes)[k], twiddles, f),
        ),
{
    let pass = fft.batch_passes(lanes)[k];
    let n = fft.n as nat;
    let bits = log2_of(n);
    let (c, m) = (lanes.num_lanes as int, fft.n as int);
    lemma_pow2_pos(bits);
    assert(c <= c * m && m <= c * m) by (nonlinear_arith)
        requires
            c >= 1,
            m >= 1,
    ;
    assert(0 <= c * (m / 2) <= c * m) by (nonlinear_arith)
        requires
            c >= 1,
            m >= 1,
            0 <= m / 2 <= m,
    ;
    assert(pass_lanes(pass) == lanes);
    assert(pass.n == n);
    let g = pass_of_lane(pass, twiddles, f);
    let left = run_batch(pass, data, twiddles, f);
    let right = batch_mapped(data, lanes, n, g);
    workgroups_cover((lanes.num_lanes * fft.n) as nat, 0);
    workgroups_cover((lanes.num_lanes * (fft.n / 2)) as nat, 0);
    assert forall|p: int| 0 <= p < data.len() implies left[p] == right[p] by {
        assert(in_lane(lanes, n, p));
        let (l, i) = choose|l: nat, i: nat|
            l < lanes.num_lanes && i < n && #[trigger] layout_cell(lanes, l, i) == p;
        if k == 0 {
            lemma_bit_rev_bound(i, bits);
            lemma_invocation_bound(
                l,
                lanes.num_lanes as nat,
                n,
                reversing_invocation(i, bits),
            );
        } else {
            let stage = (k - 1) as nat;
            assert(pass.stage == stage);
            lemma_cell_butterfly(i, n, bits, stage);
            lemma_invocation_bound(
                l,
                lanes.num_lanes as nat,
                n / 2,
                butterfly_of(i, stage),
            );
        }
    }
    assert(left =~= right);
}

/// Mapping lanes one function after the other.
proof fn lemma_batch_composes<T>(
    data: Seq<T>,
    lanes: LaneLayout,
    d: nat,
    f: spec_fn(Seq<T>) -> Seq<T>,
    g: spec_fn(Seq<T>) -> Seq<T>,
    h: spec_fn(Seq<T>) -> Seq<T>,
)
    requires
        tiles(lanes, d, data.len()),
        forall|lane: Seq<T>| lane.len() == d ==> (#[trigger] f(lane)).len() == d,
        forall|lane: Seq<T>| lane.len() == d ==> g(f(lane)) == #[trigger] h(lane),
    ensures
        batch_mapped(batch_mapped(data, lanes, d, f), lanes, d, g) == batch_mapped(
            data,
            lanes,
            d,
            h,
        ),
{
    let mid = batch_mapped(data, lanes, d, f);
    let left = batch_mapped(mid, lanes, d, g);
    let right = batch_mapped(data, lanes, d, h);
    assert forall|p: int| 0 <= p < data.len() implies left[p] == right[p] by {
        assert(in_lane(lanes, d, p));
        let (l, i) = choose|l: nat, i: nat|
            l < lanes.num_lanes && i < d && #[trigger] layout_cell(lanes, l, i) == p;
        let lane = Seq::new(d, |j: int| data[layout_cell(lanes, l, j as nat) as int]);
        let mapped = Seq::new(d, |j: int| mid[layout_cell(lanes, l, j as nat) as int]);
        assert(mapped =~= f(lane)) by {
            assert forall|j: int| 0 <= j < d implies mapped[j] == f(lane)[j] by {
                let q = layout_cell(lanes, l, j as nat) as int;
                let (m, e) = choose|m: nat, e: nat|
                    m < lanes.num_lanes && e < d && #[trigger] layout_cell(lanes, m, e) == q;
                assert(layout_cell(lanes, m, e) == layout_cell(lanes, l, j as nat));
                assert(m == l && e == j);
                assert(Seq::new(d, |t: int| data[layout_cell(lanes, m, t as nat) as int])
                    =~= lane);
            }
        }
        assert(h(lane) == g(f(lane)));
    }
    assert(left =~= right);
}

/// The passes over a batch transform every lane by the passes of an FFT.
pub proof fn batch_computes_passes<T>(
    fft: WgpuFFT1D,
    lanes: LaneLayout,
    data: Seq<T>,
    twiddles: Seq<T>,
    f: spec_fn(T, T, T) -> (T, T),
)
    requires
        fft.wf(),
        lanes.num_lanes > 0,
        lanes.num_lanes * fft.n + 255 <= u32::MAX,
        tiles(lanes, fft.n as nat, data.len()),
    ensures
        run_batch_all(
            fft.batch_passes(lanes),
            data,
            twiddles,
            f,
            fft.batch_passes(lanes).len(),
        ) == batch_mapped(
            data,
            lanes,
            fft.n as nat,
            |lane: Seq<T>| passes_out(lane, twiddles, f),
        ),
{
    let bits = log2_of(fft.n as nat);
    lemma_batch_stages(fft, lanes, data, twiddles, f, bits);
    let all = |lane: Seq<T>| passes_out(lane, twiddles, f);
    let last = |lane: Seq<T>| stages_out(bit_reversed(lane, bits), twiddles, f, bits);
    assert(fft.batch_passes(lanes).len() == bits + 1);
    assert forall|p: int| 0 <= p < data.len() implies batch_mapped(
        data,
        lanes,
        fft.n as nat,
        last,
    )[p] == batch_mapped(data, lanes, fft.n as nat, all)[p] by {}
    assert(batch_mapped(data, lanes, fft.n as nat, last) =~= batch_mapped(
        data,
        lanes,
        fft.n as nat,
        all,
    ));
}

/// The bit-reversal pass and the first `count` stages over a batch.
proof fn lemma_batch_stages<T>(
    fft: WgpuFFT1D,
    lanes: LaneLayout,
    data: Seq<T>,
    twiddles: Seq<T>,
    f: spec_fn(T, T, T) -> (T, T),
    count: nat,
)
    requires
        fft.wf(),
        lanes.num_lanes > 0,
        lanes.num_lanes * fft.n + 255 <= u32::MAX,
        tiles(lanes, fft.n as nat, data.len()),
        count <= log2_of(fft.n as nat),
    ensures
        run_batch_all(fft.batch_passes(lanes), data, twiddles, f, count + 1) == batch_mapped(
            data,
            lanes,
            fft.n as nat,
            |lane: Seq<T>|
                stages_out(bit_reversed(lane, log2_of(fft.n as nat)), twiddles, f, count),
        ),
    decreases count,
{
    let n = fft.n as nat;
    let bits = log2_of(n);
    let passes = fft.batch_passes(lanes);
    let so_far = |lane: Seq<T>| stages_out(bit_reversed(lane, bits), twiddles, f, count);
    if count == 0 {
        reveal_with_fuel(run_batch_all, 2);
        lemma_batch_pass(fft, lanes, 0, data, twiddles, f);
        let first = pass_of_lane(passes[0], twiddles, f);
        lemma_first_pass(fft, lanes);
        assert(batch_mapped(data, lanes, n, first) =~= batch_mapped(data, lanes, n, so_far));
    } else {
        let stage = (count - 1) as nat;
        lemma_batch_stages(fft, lanes, data, twiddles, f, stage);
        let before = |lane: Seq<T>| stages_out(bit_reversed(lane, bits), twiddles, f, stage);
        let mid = batch_mapped(data, lanes, n, before);
        let step = pass_of_lane(passes[count as int], twiddles, f);
        lemma_batch_pass(fft, lanes, count as int, mid, twiddles, f);
        assert(passes[count as int].stage == stage);
        assert forall|lane: Seq<T>| lane.len() == n implies (#[trigger] before(lane)).len()
            == n by {
            lemma_stages_len(bit_reversed(lane, bits), twiddles, f, stage);
        }
        lemma_batch_composes(data, lanes, n, before, step, so_far);
    }
}

/// The first pass of a batch is the bit-reversal pass, for the length of the lanes.
proof fn lemma_first_pass(fft: WgpuFFT1D, lanes: LaneLayout)
    requires
        fft.wf(),
        lanes.num_lanes > 0,
        lanes.num_lanes * fft.n + 255 <= u32::MAX,
    ensures
        fft.batch_passes(lanes)[0].shader == FftShader::BitReverse,
        fft.batch_passes(lanes)[0].n == fft.n,
{
    let (c, m) = (lanes.num_lanes as int, fft.n as int);
    assert(m <= c * m) by (nonlinear_arith)
        requires
            c >= 1,
            m >= 0,
    ;
}

/// Lanes that lie next to each other tile a grid of width `w` and height `h`.
pub proof fn row_lanes_tile(lanes: LaneLayout, w: nat, h: nat)
    requires
        0 < w,
        lanes.num_lanes == h,
        lanes.lane_stride == w,
        lanes.elem_stride == 1,
    ensures
        tiles(lanes, w, w * h),
{
    assert forall|l: nat, i: nat| l < lanes.num_lanes && i < w implies (#[trigger] layout_cell(
        lanes,
        l,
        i,
    )) < w * h by {
        lemma_cell(w, h, i as int, l as int);
    }
    assert forall|l: nat, i: nat, m: nat, j: nat|
        l < lanes.num_lanes && i < w && m < lanes.num_lanes && j < w && #[trigger] layout_cell(
            lanes,
            l,
            i,
        ) == #[trigger] layout_cell(lanes, m, j) implies l == m && i == j by {
        lemma_cell(w, h, i as int, l as int);
        lemma_cell(w, h, j as int, m as int);
    }
    assert forall|p: int| 0 <= p < w * h implies #[trigger] in_lane(lanes, w, p) by {
        lemma_place(w, h, p);
        let (x, y) = (p % (w as int), p / (w as int));
        assert(layout_cell(lanes, y as nat, x as nat) == p);
    }
}

/// Lanes that are interleaved tile a grid of width `w` and height `h`.
pub proof fn column_lanes_tile(lanes: LaneLayout, w: nat, h: nat)
    requires
        0 < w,
        lanes.num_lanes == w,
        lanes.lane_stride == 1,
        lanes.elem_stride == w,
    ensures
        tiles(lanes, h, w * h),
{
    assert forall|l: nat, i: nat| l < lanes.num_lanes && i < h implies (#[trigger] layout_cell(
        lanes,
        l,
        i,
    )) < w * h by {
        lemma_cell(w, h, l as int, i as int);
    }
    assert forall|l: nat, i: nat, m: nat, j: nat|
        l < lanes.num_lanes && i < h && m < lanes.num_lanes && j < h && #[trigger] layout_cell(
            lanes,
            l,
            i,
        ) == #[trigger] layout_cell(lanes, m, j) implies l == m && i == j by {
        lemma_cell(w, h, l as int, i as int);
        lemma_cell(w, h, m as int, j as int);
    }
    assert forall|p: int| 0 <= p < w * h implies #[trigger] in_lane(lanes, h, p) by {
        lemma_place(w, h, p);
        let (x, y) = (p % (w as int), p / (w as int));
        assert(layout_cell(lanes, x as nat, y as nat) == p);
    }
}

} // verus!
