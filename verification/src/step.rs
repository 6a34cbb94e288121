//! What an iteration of Flow Lenia computes.
//!
//! A device runs the commands of [`GpuFlowLenia::iterate`] one after the other, each
//! pass on the buffers that are bound to it. This module says what each command does
//! to the buffers, for any arithmetic, and shows that an iteration as a whole
//! replaces the channels by the next state of the automaton.
use crate::convolve::{column, lemma_cell, lemma_place, map_columns, map_rows, row};
use crate::gpu::{groups_for, loaded, stored, workgroups_cover, Extent};
use crate::gpu_flow_lenia::{
    lemma_part_fits, lemma_part_words, FlowBuffer, FlowCommand, FlowPass, GpuFlowLenia,
};
use crate::passes::{
    aggregated, channels_summed, gradient_at, reintegrated_at, walled_at, Neighbours, Source,
};
use crate::power::log2_of;
use crate::wfft::{layout_cell, LaneLayout};
use vstd::arithmetic::div_mod::*;
use vstd::arithmetic::mul::*;
use vstd::arithmetic::power2::*;
use vstd::prelude::*;

verus! {

/// The arithmetic of the passes.
#[verifier::reject_recursive_types(T)]
pub struct Arithmetic<T> {
    pub zero: T,
    pub plus: spec_fn(T, T) -> T,
    /// The transform of a lane, by direction and axis.
    pub lane: spec_fn(bool, int, Seq<(T, T)>) -> Seq<(T, T)>,
    /// The product of two complex numbers.
    pub times: spec_fn((T, T), (T, T)) -> (T, T),
    /// The division by the length of the transforms.
    pub normalize: spec_fn((T, T)) -> (T, T),
    /// The growth for the parameters `m`, `s` and `h` of a kernel.
    pub growth: spec_fn(u32, u32, u32, T) -> T,
    pub wall: spec_fn(T, int, T) -> T,
    pub walled: spec_fn(T, T) -> T,
    pub gradient: spec_fn(Neighbours<T>) -> (T, T),
    /// The flow from the mass, the gradient of the growth and that of all mass.
    pub flow: spec_fn(T, T, T, T, T) -> (T, T),
    pub gather: spec_fn(T, (int, int), (int, int), Source<T>) -> T,
    pub finish: spec_fn(T, Source<T>) -> T,
}

/// A device: the contents of its buffers, and the kernel whose growth parameters
/// were written last.
pub struct Device<T> {
    pub mem: Map<FlowBuffer, Seq<T>>,
    pub kernel: int,
}

/// The complex numbers that lie in a buffer.
pub open spec fn pairs<T>(words: Seq<T>) -> Seq<(T, T)> {
    Seq::new(words.len() / 2, |i: int| (words[2 * i], words[2 * i + 1]))
}

/// Complex numbers as they lie in a buffer.
pub open spec fn unpaired<T>(data: Seq<(T, T)>) -> Seq<T> {
    Seq::new(
        2 * data.len(),
        |i: int|
            if i % 2 == 0 {
                data[i / 2].0
            } else {
                data[i / 2].1
            },
    )
}

/// Complex numbers are read from a buffer as they were laid out.
pub proof fn lemma_pairs_of_unpaired<T>(data: Seq<(T, T)>)
    ensures
        pairs(unpaired(data)) == data,
{
    assert(pairs(unpaired(data)) =~= data);
}

/// What a pass sees through a binding.
pub open spec fn bound<T>(mem: Map<FlowBuffer, Seq<T>>, binding: (FlowBuffer, Extent)) -> Seq<T> {
    match binding.1 {
        Extent::Entire => mem[binding.0],
        Extent::Range { offset, size } => loaded(mem[binding.0], offset as int, size as int),
    }
}

/// The buffers after a pass wrote through a binding.
pub open spec fn put<T>(
    mem: Map<FlowBuffer, Seq<T>>,
    binding: (FlowBuffer, Extent),
    values: Seq<T>,
) -> Map<FlowBuffer, Seq<T>> {
    match binding.1 {
        Extent::Entire => mem.insert(binding.0, values),
        Extent::Range { offset, size } => mem.insert(
            binding.0,
            stored(mem[binding.0], offset as int, values),
        ),
    }
}

/// What `groups` workgroups make of `old` when each invocation computes its element
/// of `new`.
pub open spec fn dispatched<T>(old: Seq<T>, new: Seq<T>, groups: u32) -> Seq<T> {
    Seq::new(
        new.len(),
        |i: int|
            if i < groups * 256 {
                new[i]
            } else {
                old[i]
            },
    )
}

/// Enough workgroups compute everything.
pub proof fn lemma_dispatched<T>(old: Seq<T>, new: Seq<T>, groups: u32)
    requires
        groups == groups_for(new.len()),
    ensures
        dispatched(old, new, groups) == new,
{
    workgroups_cover(new.len(), 0);
    assert(dispatched(old, new, groups) =~= new);
}

/// The lanes of a batch, each replaced by what `f` makes of it: element `i` of lane
/// `l` of length `d` is the cell that the layout gives it.
pub open spec fn batch_mapped<T>(
    data: Seq<T>,
    lanes: LaneLayout,
    d: nat,
    f: spec_fn(Seq<T>) -> Seq<T>,
) -> Seq<T> {
    Seq::new(
        data.len(),
        |p: int|
            {
                let (l, i) = choose|l: nat, i: nat|
                    l < lanes.num_lanes && i < d && #[trigger] layout_cell(lanes, l, i) == p;
                f(Seq::new(d, |j: int| data[layout_cell(lanes, l, j as nat) as int]))[i as int]
            },
    )
}

/// The buffers after a pass.
#[verifier::opaque]
pub open spec fn run_pass<T>(
    sim: GpuFlowLenia,
    ops: Arithmetic<T>,
    pass: FlowPass,
    groups: u32,
    device: Device<T>,
) -> Map<FlowBuffer, Seq<T>> {
    let b = sim.bindings_of(pass);
    let mem = device.mem;
    let w = sim.shape@[0] as int;
    let h = sim.shape@[1] as int;
    let channels = sim.num_channels as int;
    match pass {
        FlowPass::CopyToConv { kernel } => {
            let channel = bound(mem, b[0]);
            let new = Seq::new(channel.len(), |i: int| (channel[i], ops.zero));
            put(mem, b[1], unpaired(dispatched(pairs(bound(mem, b[1])), new, groups)))
        },
        FlowPass::ComplexMul { kernel } => {
            let conv = pairs(bound(mem, b[0]));
            let spectrum = pairs(bound(mem, b[1]));
            let new = Seq::new(conv.len(), |i: int| (ops.times)(conv[i], spectrum[i]));
            put(mem, b[0], unpaired(dispatched(conv, new, groups)))
        },
        FlowPass::Normalize => {
            let conv = pairs(bound(mem, b[0]));
            let new = conv.map_values(ops.normalize);
            put(mem, b[0], unpaired(dispatched(conv, new, groups)))
        },
        FlowPass::Growth { kernel } => {
            let conv = pairs(bound(mem, b[0]));
            let k = device.kernel;
            let (m, s, h) = (sim.kernel_m@[k], sim.kernel_s@[k], sim.kernel_h@[k]);
            let growth = Seq::new(conv.len(), |i: int| (ops.growth)(m, s, h, conv[i].0));
            let kept = Seq::new(conv.len(), |i: int| conv[i].0);
            put(
                put(mem, b[1], dispatched(bound(mem, b[1]), growth, groups)),
                b[2],
                dispatched(bound(mem, b[2]), kept, groups),
            )
        },
        FlowPass::ChannelAggregate => {
            let new = aggregated(
                bound(mem, b[0]),
                sim.c1_flat@,
                sim.c1_offsets@,
                (w * w) as nat,
                channels as nat,
                ops.zero,
                ops.plus,
            );
            put(mem, b[1], dispatched(bound(mem, b[1]), new, groups))
        },
        FlowPass::WallInteraction => {
            let u = bound(mem, b[1]);
            let obstacle = bound(mem, b[0]);
            let new = Seq::new(
                (w * h * channels) as nat,
                |i: int| walled_at(obstacle, u, w, h, i, ops.zero, ops.wall, ops.walled),
            );
            put(mem, b[1], dispatched(u, new, groups))
        },
        FlowPass::SumChannels => {
            let new = channels_summed(
                bound(mem, b[0]),
                (w * w) as nat,
                channels as nat,
                ops.zero,
                ops.plus,
            );
            put(mem, b[1], dispatched(bound(mem, b[1]), new, groups))
        },
        FlowPass::SobelU | FlowPass::SobelA => {
            let field = bound(mem, b[0]);
            let fields = if pass == FlowPass::SobelU {
                channels
            } else {
                1
            };
            let count = (w * h * fields) as nat;
            let x = Seq::new(count, |i: int| gradient_at(field, w, h, i, ops.gradient).0);
            let y = Seq::new(count, |i: int| gradient_at(field, w, h, i, ops.gradient).1);
            put(
                put(mem, b[1], dispatched(bound(mem, b[1]), x, groups)),
                b[2],
                dispatched(bound(mem, b[2]), y, groups),
            )
        },
        FlowPass::FlowField => {
            let (channel, ux, uy) = (bound(mem, b[0]), bound(mem, b[1]), bound(mem, b[2]));
            let (ax, ay) = (bound(mem, b[3]), bound(mem, b[4]));
            let flow = |i: int|
                (ops.flow)(channel[i], ux[i], uy[i], ax[i % (w * w)], ay[i % (w * w)]);
            let count = (w * w * channels) as nat;
            let x = Seq::new(count, |i: int| flow(i).0);
            let y = Seq::new(count, |i: int| flow(i).1);
            put(
                put(mem, b[5], dispatched(bound(mem, b[5]), x, groups)),
                b[6],
                dispatched(bound(mem, b[6]), y, groups),
            )
        },
        FlowPass::Reintegration => {
            let (channel, fx, fy) = (bound(mem, b[0]), bound(mem, b[1]), bound(mem, b[2]));
            let new = Seq::new(
                (w * h * channels) as nat,
                |i: int|
                    reintegrated_at(
                        channel,
                        fx,
                        fy,
                        w,
                        h,
                        sim.dd as int,
                        i,
                        ops.zero,
                        ops.gather,
                        ops.finish,
                    ),
            );
            put(mem, b[3], dispatched(bound(mem, b[3]), new, groups))
        },
    }
}

/// The device after a command.
pub open spec fn run<T>(
    sim: GpuFlowLenia,
    ops: Arithmetic<T>,
    command: FlowCommand,
    device: Device<T>,
) -> Device<T> {
    match command {
        FlowCommand::WriteGrowthParams { kernel } => Device { kernel: kernel as int, ..device },
        FlowCommand::Dispatch { pass, groups } => Device {
            mem: run_pass(sim, ops, pass, groups, device),
            ..device
        },
        FlowCommand::Transform { inverse, axis, lanes } => Device {
            mem: device.mem.insert(
                FlowBuffer::Conv,
                unpaired(
                    batch_mapped(
                        pairs(device.mem[FlowBuffer::Conv]),
                        lanes,
                        sim.shape@[axis as int] as nat,
                        |lane: Seq<(T, T)>| (ops.lane)(inverse, axis as int, lane),
                    ),
                ),
            ),
            ..device
        },
        FlowCommand::Copy { source, target, size } => Device {
            mem: device.mem.insert(
                target,
                stored(
                    device.mem[target],
                    0,
                    loaded(device.mem[source], 0, size as int),
                ),
            ),
            ..device
        },
        FlowCommand::Submit => device,
    }
}

/// The device after the first `count` commands.
pub open spec fn run_all<T>(
    sim: GpuFlowLenia,
    ops: Arithmetic<T>,
    commands: Seq<FlowCommand>,
    device: Device<T>,
    count: nat,
) -> Device<T>
    decreases count,
{
    if count == 0 {
        device
    } else {
        run(
            sim,
            ops,
            commands[count - 1],
            run_all(sim, ops, commands, device, (count - 1) as nat),
        )
    }
}

/// Lanes that lie next to each other are the rows of a grid.
pub proof fn row_lanes_are_rows<T>(
    lanes: LaneLayout,
    w: nat,
    h: nat,
    data: Seq<T>,
    f: spec_fn(Seq<T>) -> Seq<T>,
)
    requires
        0 < w,
        lanes.num_lanes == h,
        lanes.lane_stride == w,
        lanes.elem_stride == 1,
        data.len() == w * h,
    ensures
        batch_mapped(data, lanes, w, f) == map_rows(data, w, f),
{
    let left = batch_mapped(data, lanes, w, f);
    let right = map_rows(data, w, f);
    assert forall|p: int| 0 <= p < data.len() implies left[p] == right[p] by {
        lemma_place(w, h, p);
        let (x, y) = (p % (w as int), p / (w as int));
        assert(layout_cell(lanes, y as nat, x as nat) == p);
        let (l, i) = choose|l: nat, i: nat|
            l < lanes.num_lanes && i < w && #[trigger] layout_cell(lanes, l, i) == p;
        assert(l < lanes.num_lanes && i < w && layout_cell(lanes, l, i) == p);
        lemma_cell(w, h, i as int, l as int);
        assert(l * w + i == p);
        assert(Seq::new(w, |j: int| data[layout_cell(lanes, l, j as nat) as int]) =~= row(
            data,
            w,
            y,
        ));
    }
    assert(left =~= right);
}

/// Lanes that are interleaved are the columns of a grid.
pub proof fn column_lanes_are_columns<T>(
    lanes: LaneLayout,
    w: nat,
    h: nat,
    data: Seq<T>,
    f: spec_fn(Seq<T>) -> Seq<T>,
)
    requires
        0 < w,
        lanes.num_lanes == w,
        lanes.lane_stride == 1,
        lanes.elem_stride == w,
        data.len() == w * h,
    ensures
        batch_mapped(data, lanes, h, f) == map_columns(data, w, h, f),
{
    let left = batch_mapped(data, lanes, h, f);
    let right = map_columns(data, w, h, f);
    assert forall|p: int| 0 <= p < data.len() implies left[p] == right[p] by {
        lemma_place(w, h, p);
        let (x, y) = (p % (w as int), p / (w as int));
        assert(layout_cell(lanes, x as nat, y as nat) == p);
        let (l, i) = choose|l: nat, i: nat|
            l < lanes.num_lanes && i < h && #[trigger] layout_cell(lanes, l, i) == p;
        assert(l < lanes.num_lanes && i < h && layout_cell(lanes, l, i) == p);
        lemma_cell(w, h, l as int, i as int);
        assert(i * w + l == p);
        assert(Seq::new(h, |j: int| data[layout_cell(lanes, l, j as nat) as int]) =~= column(
            data,
            w,
            h,
            x,
        ));
    }
    assert(left =~= right);
}

/// The sides of the grid are positive and fit in 32 bits.
proof fn lemma_shape(sim: GpuFlowLenia)
    requires
        sim.can_iterate(),
    ensures
        0 < sim.shape@[0] <= u32::MAX,
        0 < sim.shape@[1] <= u32::MAX,
        sim.total_elements == sim.shape@[0] * sim.shape@[1],
{
    lemma_pow2_pos(log2_of(sim.shape@[0] as nat));
    lemma_pow2_pos(log2_of(sim.shape@[1] as nat));
    let (w, h) = (sim.shape@[0] as int, sim.shape@[1] as int);
    assert(w <= w * h && h <= w * h) by (nonlinear_arith)
        requires
            w > 0,
            h > 0,
    ;
}

/// The convolution of the source channel of kernel `k` with the kernel: transform
/// the rows and the columns, multiply by the spectrum of the kernel, transform back
/// and divide.
pub open spec fn potential<T>(
    sim: GpuFlowLenia,
    ops: Arithmetic<T>,
    channels: Seq<T>,
    kernels: Seq<T>,
    k: int,
) -> Seq<(T, T)> {
    let (w, h) = (sim.shape@[0] as nat, sim.shape@[1] as nat);
    let there = map_columns(
        map_rows(
            source_data(sim, ops, channels, k),
            w,
            |lane: Seq<(T, T)>| (ops.lane)(false, 0, lane),
        ),
        w,
        h,
        |lane: Seq<(T, T)>| (ops.lane)(false, 1, lane),
    );
    let back = map_rows(
        map_columns(
            spectral_products(sim, ops, there, kernels, k),
            w,
            h,
            |lane: Seq<(T, T)>| (ops.lane)(true, 1, lane),
        ),
        w,
        |lane: Seq<(T, T)>| (ops.lane)(true, 0, lane),
    );
    back.map_values(ops.normalize)
}

/// The growth of kernel `k`.
pub open spec fn kernel_growth<T>(
    sim: GpuFlowLenia,
    ops: Arithmetic<T>,
    channels: Seq<T>,
    kernels: Seq<T>,
    k: int,
) -> Seq<T> {
    growth_of(sim, ops, potential(sim, ops, channels, kernels, k), k)
}

/// The growth of all kernels, one after the other.
pub open spec fn all_growth<T>(
    sim: GpuFlowLenia,
    ops: Arithmetic<T>,
    channels: Seq<T>,
    kernels: Seq<T>,
) -> Seq<T> {
    let total = sim.total_elements as int;
    Seq::new(
        (total * sim.num_kernels) as nat,
        |i: int| kernel_growth(sim, ops, channels, kernels, i / total)[i % total],
    )
}

/// The channels after one step of the automaton: the growth of every kernel, summed
/// for each channel and lowered near obstacles; its gradient and that of all mass;
/// the flow from both; and the channels moved along the flow.
pub open spec fn next_channels<T>(
    sim: GpuFlowLenia,
    ops: Arithmetic<T>,
    channels: Seq<T>,
    kernels: Seq<T>,
    obstacle: Seq<T>,
) -> Seq<T> {
    let cells = sim.total_elements as nat;
    let count = sim.num_channels as nat;
    let growth = aggregated(
        all_growth(sim, ops, channels, kernels),
        sim.c1_flat@,
        sim.c1_offsets@,
        cells,
        count,
        ops.zero,
        ops.plus,
    );
    let mass = channels_summed(channels, cells, count, ops.zero, ops.plus);
    let flow = flows(
        sim,
        ops,
        channels,
        gradients(sim, ops, walled_growth(sim, ops, growth, obstacle), count as int),
        gradients(sim, ops, mass, 1),
    );
    moved(sim, ops, channels, flow)
}

/// The buffers have their sizes.
pub open spec fn sized<T>(sim: GpuFlowLenia, mem: Map<FlowBuffer, Seq<T>>) -> bool {
    &&& 4 * mem[FlowBuffer::Channel].len() == sim.size_of(FlowBuffer::Channel)
    &&& 4 * mem[FlowBuffer::Conv].len() == sim.size_of(FlowBuffer::Conv)
    &&& 4 * mem[FlowBuffer::Kernel].len() == sim.size_of(FlowBuffer::Kernel)
    &&& 4 * mem[FlowBuffer::U].len() == sim.size_of(FlowBuffer::U)
    &&& 4 * mem[FlowBuffer::ConvX].len() == sim.size_of(FlowBuffer::ConvX)
}

/// Running commands one list after the other.
proof fn lemma_run_concat<T>(
    sim: GpuFlowLenia,
    ops: Arithmetic<T>,
    a: Seq<FlowCommand>,
    b: Seq<FlowCommand>,
    device: Device<T>,
    count: nat,
)
    requires
        count <= b.len(),
    ensures
        run_all(sim, ops, a + b, device, a.len() + count) == run_all(
            sim,
            ops,
            b,
            run_all(sim, ops, a, device, a.len()),
            count,
        ),
    decreases count,
{
    if count == 0 {
        lemma_run_prefix(sim, ops, a, b, device, a.len());
    } else {
        lemma_run_concat(sim, ops, a, b, device, (count - 1) as nat);
        assert((a + b)[a.len() + count - 1] == b[count - 1]);
    }
}

/// Commands that are not reached do not matter.
proof fn lemma_run_prefix<T>(
    sim: GpuFlowLenia,
    ops: Arithmetic<T>,
    a: Seq<FlowCommand>,
    b: Seq<FlowCommand>,
    device: Device<T>,
    count: nat,
)
    requires
        count <= a.len(),
    ensures
        run_all(sim, ops, a + b, device, count) == run_all(sim, ops, a, device, count),
    decreases count,
{
    if count > 0 {
        lemma_run_prefix(sim, ops, a, b, device, (count - 1) as nat);
        assert((a + b)[count - 1] == a[count - 1]);
    }
}

/// The source channel of kernel `k`, as complex numbers.
pub open spec fn source_data<T>(
    sim: GpuFlowLenia,
    ops: Arithmetic<T>,
    channels: Seq<T>,
    k: int,
) -> Seq<(T, T)> {
    let total = sim.total_elements as int;
    let c = sim.c0@[k] as int;
    let source = channels.subrange(c * total, c * total + total);
    Seq::new(total as nat, |i: int| (source[i], ops.zero))
}

/// The copy pass fills the transform grid with the source channel.
proof fn lemma_copy_pass<T>(
    sim: GpuFlowLenia,
    ops: Arithmetic<T>,
    device: Device<T>,
    k: int,
)
    requires
        sim.can_iterate(),
        sized(sim, device.mem),
        0 <= k < sim.num_kernels,
    ensures
        run_pass(
            sim,
            ops,
            FlowPass::CopyToConv { kernel: k as usize },
            groups_for(sim.total_elements as nat) as u32,
            device,
        ) == device.mem.insert(
            FlowBuffer::Conv,
            unpaired(source_data(sim, ops, device.mem[FlowBuffer::Channel], k)),
        ),
{
    reveal(run_pass);
    let total = sim.total_elements as int;
    let groups = groups_for(total as nat) as u32;
    let mem = device.mem;
    assert(sim.c0@[k] < sim.num_channels);
    let c = sim.c0@[k] as int;
    lemma_part_words(c, sim.num_channels as int, total, 4);
    lemma_part_fits(c, sim.num_channels as int, total, 4);
    let b = sim.bindings_of(FlowPass::CopyToConv { kernel: k as usize });
    let channel = bound(mem, b[0]);
    let channels = mem[FlowBuffer::Channel];
    assert(channel =~= channels.subrange(c * total, c * total + total));
    let new = Seq::new(channel.len(), |i: int| (channel[i], ops.zero));
    assert(new =~= source_data(sim, ops, channels, k));
    lemma_dispatched(pairs(bound(mem, b[1])), new, groups);
}

/// The products of the numbers on the transform grid and the spectrum of kernel `k`.
pub open spec fn spectral_products<T>(
    sim: GpuFlowLenia,
    ops: Arithmetic<T>,
    data: Seq<(T, T)>,
    kernels: Seq<T>,
    k: int,
) -> Seq<(T, T)> {
    let total = sim.total_elements as int;
    let spectrum = pairs(kernels).subrange(k * total, k * total + total);
    Seq::new(total as nat, |i: int| (ops.times)(data[i], spectrum[i]))
}

/// The multiplication pass multiplies by the spectrum of the kernel.
proof fn lemma_multiply_pass<T>(
    sim: GpuFlowLenia,
    ops: Arithmetic<T>,
    device: Device<T>,
    k: int,
    data: Seq<(T, T)>,
)
    requires
        sim.can_iterate(),
        sized(sim, device.mem),
        0 <= k < sim.num_kernels,
        data.len() == sim.total_elements,
        device.mem[FlowBuffer::Conv] == unpaired(data),
    ensures
        run_pass(
            sim,
            ops,
            FlowPass::ComplexMul { kernel: k as usize },
            groups_for(sim.total_elements as nat) as u32,
            device,
        ) == device.mem.insert(
            FlowBuffer::Conv,
            unpaired(spectral_products(sim, ops, data, device.mem[FlowBuffer::Kernel], k)),
        ),
{
    reveal(run_pass);
    let total = sim.total_elements as int;
    let groups = groups_for(total as nat) as u32;
    let kernels = device.mem[FlowBuffer::Kernel];
    lemma_part_words(k, sim.num_kernels as int, total, 8);
    lemma_part_fits(k, sim.num_kernels as int, total, 8);
    lemma_pairs_of_unpaired(data);
    let b = sim.bindings_of(FlowPass::ComplexMul { kernel: k as usize });
    let seen = pairs(bound(device.mem, b[1]));
    assert(seen =~= pairs(kernels).subrange(k * total, k * total + total));
    let new = Seq::new(data.len(), |i: int| (ops.times)(data[i], seen[i]));
    assert(new =~= spectral_products(sim, ops, data, kernels, k));
    lemma_dispatched(data, new, groups);
}

/// The normalization pass divides every number.
proof fn lemma_normalize_pass<T>(
    sim: GpuFlowLenia,
    ops: Arithmetic<T>,
    device: Device<T>,
    data: Seq<(T, T)>,
)
    requires
        sim.can_iterate(),
        data.len() == sim.total_elements,
        device.mem[FlowBuffer::Conv] == unpaired(data),
    ensures
        run_pass(
            sim,
            ops,
            FlowPass::Normalize,
            groups_for(sim.total_elements as nat) as u32,
            device,
        ) == device.mem.insert(FlowBuffer::Conv, unpaired(data.map_values(ops.normalize))),
{
    reveal(run_pass);
    lemma_pairs_of_unpaired(data);
    lemma_dispatched(
        data,
        data.map_values(ops.normalize),
        groups_for(sim.total_elements as nat) as u32,
    );
}

/// The growth of the numbers on the transform grid, by the parameters of kernel `k`.
pub open spec fn growth_of<T>(
    sim: GpuFlowLenia,
    ops: Arithmetic<T>,
    data: Seq<(T, T)>,
    k: int,
) -> Seq<T> {
    let (m, s, h) = (sim.kernel_m@[k], sim.kernel_s@[k], sim.kernel_h@[k]);
    Seq::new(data.len(), |i: int| (ops.growth)(m, s, h, data[i].0))
}

/// The growth pass puts the growth of the kernel in its place.
proof fn lemma_growth_pass<T>(
    sim: GpuFlowLenia,
    ops: Arithmetic<T>,
    device: Device<T>,
    k: int,
    data: Seq<(T, T)>,
)
    requires
        sim.can_iterate(),
        sized(sim, device.mem),
        0 <= k < sim.num_kernels,
        device.kernel == k,
        data.len() == sim.total_elements,
        device.mem[FlowBuffer::Conv] == unpaired(data),
    ensures
        ({
            let mem = device.mem;
            let done = run_pass(
                sim,
                ops,
                FlowPass::Growth { kernel: k as usize },
                groups_for(sim.total_elements as nat) as u32,
                device,
            );
            &&& done[FlowBuffer::U] == stored(
                mem[FlowBuffer::U],
                k * sim.total_elements * 4,
                growth_of(sim, ops, data, k),
            )
            &&& done[FlowBuffer::ConvX] == stored(
                mem[FlowBuffer::ConvX],
                k * sim.total_elements * 4,
                Seq::new(data.len(), |i: int| data[i].0),
            )
            &&& done[FlowBuffer::Conv] == mem[FlowBuffer::Conv]
            &&& done[FlowBuffer::Channel] == mem[FlowBuffer::Channel]
            &&& done[FlowBuffer::Kernel] == mem[FlowBuffer::Kernel]
            &&& done[FlowBuffer::Obstacle] == mem[FlowBuffer::Obstacle]
        }),
{
    let total = sim.total_elements as int;
    let groups = groups_for(total as nat) as u32;
    let mem = device.mem;
    let pass = FlowPass::Growth { kernel: k as usize };
    let growth = growth_of(sim, ops, data, k);
    let kept = Seq::new(data.len(), |i: int| data[i].0);
    let part = Extent::Range { offset: (k * total * 4) as u64, size: (total * 4) as u64 };
    let (u, x) = ((FlowBuffer::U, part), (FlowBuffer::ConvX, part));
    lemma_part_fits(k, sim.num_kernels as int, total, 8);
    lemma_part_fits(k, sim.num_kernels as int, total, 4);
    let done = run_pass(sim, ops, pass, groups, device);
    assert(done == put(
        put(mem, u, dispatched(bound(mem, u), growth, groups)),
        x,
        dispatched(bound(mem, x), kept, groups),
    )) by {
        reveal(run_pass);
        lemma_pairs_of_unpaired(data);
        let b = sim.bindings_of(pass);
        assert(b[1] == u && b[2] == x && b[0] == (FlowBuffer::Conv, Extent::Entire));
        assert(pairs(bound(mem, b[0])) == data);
    }
    lemma_dispatched(bound(mem, u), growth, groups);
    lemma_dispatched(bound(mem, x), kept, groups);
}

/// A transform along the first axis transforms the rows.
proof fn lemma_transform_rows<T>(
    sim: GpuFlowLenia,
    ops: Arithmetic<T>,
    device: Device<T>,
    inverse: bool,
    data: Seq<(T, T)>,
)
    requires
        sim.can_iterate(),
        data.len() == sim.total_elements,
        device.mem[FlowBuffer::Conv] == unpaired(data),
    ensures
        run(
            sim,
            ops,
            FlowCommand::Transform { inverse, axis: 0, lanes: sim.row_lanes() },
            device,
        ).mem == device.mem.insert(
            FlowBuffer::Conv,
            unpaired(
                map_rows(
                    data,
                    sim.shape@[0] as nat,
                    |lane: Seq<(T, T)>| (ops.lane)(inverse, 0, lane),
                ),
            ),
        ),
{
    lemma_pairs_of_unpaired(data);
    lemma_shape(sim);
    row_lanes_are_rows(
        sim.row_lanes(),
        sim.shape@[0] as nat,
        sim.shape@[1] as nat,
        data,
        |lane: Seq<(T, T)>| (ops.lane)(inverse, 0, lane),
    );
}

/// A transform along the second axis transforms the columns.
proof fn lemma_transform_columns<T>(
    sim: GpuFlowLenia,
    ops: Arithmetic<T>,
    device: Device<T>,
    inverse: bool,
    data: Seq<(T, T)>,
)
    requires
        sim.can_iterate(),
        data.len() == sim.total_elements,
        device.mem[FlowBuffer::Conv] == unpaired(data),
    ensures
        run(
            sim,
            ops,
            FlowCommand::Transform { inverse, axis: 1, lanes: sim.column_lanes() },
            device,
        ).mem == device.mem.insert(
            FlowBuffer::Conv,
            unpaired(
                map_columns(
                    data,
                    sim.shape@[0] as nat,
                    sim.shape@[1] as nat,
                    |lane: Seq<(T, T)>| (ops.lane)(inverse, 1, lane),
                ),
            ),
        ),
{
    lemma_pairs_of_unpaired(data);
    lemma_shape(sim);
    column_lanes_are_columns(
        sim.column_lanes(),
        sim.shape@[0] as nat,
        sim.shape@[1] as nat,
        data,
        |lane: Seq<(T, T)>| (ops.lane)(inverse, 1, lane),
    );
}

/// The real part of the convolution of kernel `k`.
pub open spec fn kernel_potential<T>(
    sim: GpuFlowLenia,
    ops: Arithmetic<T>,
    channels: Seq<T>,
    kernels: Seq<T>,
    k: int,
) -> Seq<T> {
    let data = potential(sim, ops, channels, kernels, k);
    Seq::new(data.len(), |i: int| data[i].0)
}

/// The commands of a kernel put its growth in its place and leave all else that
/// later commands read alone.
proof fn lemma_kernel_commands<T>(
    sim: GpuFlowLenia,
    ops: Arithmetic<T>,
    device: Device<T>,
    k: int,
)
    requires
        sim.can_iterate(),
        sized(sim, device.mem),
        0 <= k < sim.num_kernels,
    ensures
        ({
            let done = run_all(sim, ops, sim.kernel_commands(k), device, 10).mem;
            let mem = device.mem;
            &&& sized(sim, done)
            &&& done[FlowBuffer::U] == stored(
                mem[FlowBuffer::U],
                k * sim.total_elements * 4,
                kernel_growth(sim, ops, mem[FlowBuffer::Channel], mem[FlowBuffer::Kernel], k),
            )
            &&& done[FlowBuffer::ConvX] == stored(
                mem[FlowBuffer::ConvX],
                k * sim.total_elements * 4,
                kernel_potential(sim, ops, mem[FlowBuffer::Channel], mem[FlowBuffer::Kernel], k),
            )
            &&& kernel_growth(
                sim,
                ops,
                mem[FlowBuffer::Channel],
                mem[FlowBuffer::Kernel],
                k,
            ).len() == sim.total_elements
            &&& done[FlowBuffer::Channel] == mem[FlowBuffer::Channel]
            &&& done[FlowBuffer::Kernel] == mem[FlowBuffer::Kernel]
            &&& done[FlowBuffer::Obstacle] == mem[FlowBuffer::Obstacle]
        }),
{
    let (w, h) = (sim.shape@[0] as nat, sim.shape@[1] as nat);
    let mem = device.mem;
    let channels = mem[FlowBuffer::Channel];
    let kernels = mem[FlowBuffer::Kernel];
    let commands = sim.kernel_commands(k);
    let d1 = run(sim, ops, commands[0], device);
    let d2 = run(sim, ops, commands[1], d1);
    let d3 = run(sim, ops, commands[2], d2);
    let d4 = run(sim, ops, commands[3], d3);
    let d5 = run(sim, ops, commands[4], d4);
    let d6 = run(sim, ops, commands[5], d5);
    let d7 = run(sim, ops, commands[6], d6);
    let d8 = run(sim, ops, commands[7], d7);
    let d9 = run(sim, ops, commands[8], d8);
    assert(run_all(sim, ops, commands, device, 10) == d9) by {
        reveal_with_fuel(run_all, 11);
    }
    let data = source_data(sim, ops, channels, k);
    lemma_copy_pass(sim, ops, d1, k);
    let rows = map_rows(data, w, |lane: Seq<(T, T)>| (ops.lane)(false, 0, lane));
    lemma_transform_rows(sim, ops, d2, false, data);
    let there = map_columns(rows, w, h, |lane: Seq<(T, T)>| (ops.lane)(false, 1, lane));
    lemma_transform_columns(sim, ops, d3, false, rows);
    let product = spectral_products(sim, ops, there, kernels, k);
    lemma_multiply_pass(sim, ops, d4, k, there);
    let columns = map_columns(product, w, h, |lane: Seq<(T, T)>| (ops.lane)(true, 1, lane));
    lemma_transform_columns(sim, ops, d5, true, product);
    let back = map_rows(columns, w, |lane: Seq<(T, T)>| (ops.lane)(true, 0, lane));
    lemma_transform_rows(sim, ops, d6, true, columns);
    let conv = back.map_values(ops.normalize);
    lemma_normalize_pass(sim, ops, d7, back);
    assert(conv == potential(sim, ops, channels, kernels, k));
    lemma_growth_pass(sim, ops, d8, k, conv);
}

/// The commands of the first `count` kernels put their growth in place.
proof fn lemma_kernels_commands<T>(
    sim: GpuFlowLenia,
    ops: Arithmetic<T>,
    device: Device<T>,
    count: nat,
)
    requires
        sim.can_iterate(),
        sized(sim, device.mem),
        count <= sim.num_kernels,
    ensures
        ({
            let commands = sim.kernels_commands(count);
            let done = run_all(sim, ops, commands, device, commands.len()).mem;
            let mem = device.mem;
            let growth = all_growth(
                sim,
                ops,
                mem[FlowBuffer::Channel],
                mem[FlowBuffer::Kernel],
            );
            &&& sized(sim, done)
            &&& forall|i: int|
                0 <= i < sim.total_elements * count ==> #[trigger] done[FlowBuffer::U][i]
                    == growth[i]
            &&& forall|i: int|
                0 <= i < sim.total_elements * count ==> #[trigger] done[FlowBuffer::ConvX][i]
                    == kernel_potential(
                    sim,
                    ops,
                    mem[FlowBuffer::Channel],
                    mem[FlowBuffer::Kernel],
                    i / sim.total_elements as int,
                )[i % sim.total_elements as int]
            &&& done[FlowBuffer::Channel] == mem[FlowBuffer::Channel]
            &&& done[FlowBuffer::Kernel] == mem[FlowBuffer::Kernel]
            &&& done[FlowBuffer::Obstacle] == mem[FlowBuffer::Obstacle]
        }),
    decreases count,
{
    let total = sim.total_elements as int;
    if count == 0 {
        assert(total * count == 0) by (nonlinear_arith)
            requires
                count == 0,
        ;
    } else {
        let k = count - 1;
        lemma_kernels_commands(sim, ops, device, k as nat);
        let before = sim.kernels_commands(k as nat);
        let mid = run_all(sim, ops, before, device, before.len());
        lemma_kernel_commands(sim, ops, mid, k);
        lemma_run_concat(sim, ops, before, sim.kernel_commands(k), device, 10);
        let channels = device.mem[FlowBuffer::Channel];
        let kernels = device.mem[FlowBuffer::Kernel];
        let growth = all_growth(sim, ops, channels, kernels);
        let commands = sim.kernels_commands(count);
        let done = run_all(sim, ops, commands, device, commands.len()).mem;
        lemma_part_words(k, sim.num_kernels as int, total, 4);
        assert(total * count == k * total + total) by (nonlinear_arith)
            requires
                count == k + 1,
        ;
        assert(total * k == k * total) by (nonlinear_arith);
        assert forall|i: int| 0 <= i < total * count implies #[trigger] done[FlowBuffer::U][i]
            == growth[i] by {
            if i < k * total {
                assert(mid.mem[FlowBuffer::U][i] == growth[i]);
            } else {
                lemma_fundamental_div_mod_converse(i, total, k, i - k * total);
            }
        }
        assert forall|i: int|
            0 <= i < total * count implies #[trigger] done[FlowBuffer::ConvX][i]
            == kernel_potential(sim, ops, channels, kernels, i / total)[i % total] by {
            if i < k * total {
                assert(mid.mem[FlowBuffer::ConvX][i] == kernel_potential(
                    sim,
                    ops,
                    channels,
                    kernels,
                    i / total,
                )[i % total]);
            } else {
                lemma_fundamental_div_mod_converse(i, total, k, i - k * total);
            }
        }
    }
}

/// On a square grid, `w * w` is the number of cells.
pub open spec fn is_square(sim: GpuFlowLenia) -> bool {
    sim.shape@[0] == sim.shape@[1]
}

/// The number of workgroups of a pass over all channels.
pub open spec fn all_groups(sim: GpuFlowLenia) -> u32 {
    groups_for((sim.total_elements * sim.num_channels) as nat) as u32
}

/// The aggregation pass sums the growth of the kernels of each channel.
proof fn lemma_aggregate_pass<T>(sim: GpuFlowLenia, ops: Arithmetic<T>, device: Device<T>)
    requires
        sim.can_iterate(),
        is_square(sim),
    ensures
        run_pass(sim, ops, FlowPass::ChannelAggregate, all_groups(sim), device)
            == device.mem.insert(
            FlowBuffer::UChannel,
            aggregated(
                device.mem[FlowBuffer::U],
                sim.c1_flat@,
                sim.c1_offsets@,
                sim.total_elements as nat,
                sim.num_channels as nat,
                ops.zero,
                ops.plus,
            ),
        ),
{
    reveal(run_pass);
    lemma_all_groups(sim);
    let b = sim.bindings_of(FlowPass::ChannelAggregate);
    let new = aggregated(
        device.mem[FlowBuffer::U],
        sim.c1_flat@,
        sim.c1_offsets@,
        sim.total_elements as nat,
        sim.num_channels as nat,
        ops.zero,
        ops.plus,
    );
    lemma_dispatched(bound(device.mem, b[1]), new, all_groups(sim));
}

/// The workgroup counts of an iteration are not truncated.
proof fn lemma_all_groups(sim: GpuFlowLenia)
    requires
        sim.can_iterate(),
    ensures
        all_groups(sim) == groups_for((sim.total_elements * sim.num_channels) as nat),
        groups_for(sim.total_elements as nat) as u32 == groups_for(sim.total_elements as nat),
        0 <= sim.total_elements * sim.num_channels,
{
    let (t, c) = (sim.total_elements as int, sim.num_channels as int);
    assert(0 <= t * c) by (nonlinear_arith)
        requires
            t >= 0,
            c >= 0,
    ;
}

/// The growth of the channels with the effect of the obstacles.
pub open spec fn walled_growth<T>(
    sim: GpuFlowLenia,
    ops: Arithmetic<T>,
    u: Seq<T>,
    obstacle: Seq<T>,
) -> Seq<T> {
    let (w, h) = (sim.shape@[0] as int, sim.shape@[1] as int);
    Seq::new(
        (w * h * sim.num_channels) as nat,
        |i: int| walled_at(obstacle, u, w, h, i, ops.zero, ops.wall, ops.walled),
    )
}

proof fn lemma_wall_pass<T>(sim: GpuFlowLenia, ops: Arithmetic<T>, device: Device<T>)
    requires
        sim.can_iterate(),
    ensures
        run_pass(sim, ops, FlowPass::WallInteraction, all_groups(sim), device)
            == device.mem.insert(
            FlowBuffer::UChannel,
            walled_growth(
                sim,
                ops,
                device.mem[FlowBuffer::UChannel],
                device.mem[FlowBuffer::Obstacle],
            ),
        ),
{
    reveal(run_pass);
    lemma_all_groups(sim);
    let u = device.mem[FlowBuffer::UChannel];
    let new = walled_growth(sim, ops, u, device.mem[FlowBuffer::Obstacle]);
    lemma_dispatched(u, new, all_groups(sim));
}

proof fn lemma_sum_pass<T>(sim: GpuFlowLenia, ops: Arithmetic<T>, device: Device<T>)
    requires
        sim.can_iterate(),
        is_square(sim),
    ensures
        run_pass(
            sim,
            ops,
            FlowPass::SumChannels,
            groups_for(sim.total_elements as nat) as u32,
            device,
        ) == device.mem.insert(
            FlowBuffer::SumA,
            channels_summed(
                device.mem[FlowBuffer::Channel],
                sim.total_elements as nat,
                sim.num_channels as nat,
                ops.zero,
                ops.plus,
            ),
        ),
{
    reveal(run_pass);
    let new = channels_summed(
        device.mem[FlowBuffer::Channel],
        sim.total_elements as nat,
        sim.num_channels as nat,
        ops.zero,
        ops.plus,
    );
    lemma_dispatched(
        device.mem[FlowBuffer::SumA],
        new,
        groups_for(sim.total_elements as nat) as u32,
    );
}

/// One part of the gradient of packed fields.
pub open spec fn gradients<T>(
    sim: GpuFlowLenia,
    ops: Arithmetic<T>,
    field: Seq<T>,
    fields: int,
) -> (Seq<T>, Seq<T>) {
    let (w, h) = (sim.shape@[0] as int, sim.shape@[1] as int);
    let count = (w * h * fields) as nat;
    (
        Seq::new(count, |i: int| gradient_at(field, w, h, i, ops.gradient).0),
        Seq::new(count, |i: int| gradient_at(field, w, h, i, ops.gradient).1),
    )
}

proof fn lemma_sobel_u_pass<T>(sim: GpuFlowLenia, ops: Arithmetic<T>, device: Device<T>)
    requires
        sim.can_iterate(),
    ensures
        ({
            let grad = gradients(
                sim,
                ops,
                device.mem[FlowBuffer::UChannel],
                sim.num_channels as int,
            );
            run_pass(sim, ops, FlowPass::SobelU, all_groups(sim), device) == device.mem.insert(
                FlowBuffer::NablaUX,
                grad.0,
            ).insert(FlowBuffer::NablaUY, grad.1)
        }),
{
    reveal(run_pass);
    lemma_all_groups(sim);
    let grad = gradients(
        sim,
        ops,
        device.mem[FlowBuffer::UChannel],
        sim.num_channels as int,
    );
    lemma_dispatched(device.mem[FlowBuffer::NablaUX], grad.0, all_groups(sim));
    lemma_dispatched(device.mem[FlowBuffer::NablaUY], grad.1, all_groups(sim));
}

proof fn lemma_sobel_a_pass<T>(sim: GpuFlowLenia, ops: Arithmetic<T>, device: Device<T>)
    requires
        sim.can_iterate(),
    ensures
        ({
            let grad = gradients(sim, ops, device.mem[FlowBuffer::SumA], 1);
            run_pass(
                sim,
                ops,
                FlowPass::SobelA,
                groups_for(sim.total_elements as nat) as u32,
                device,
            ) == device.mem.insert(FlowBuffer::NablaAX, grad.0).insert(
                FlowBuffer::NablaAY,
                grad.1,
            )
        }),
{
    reveal(run_pass);
    let grad = gradients(sim, ops, device.mem[FlowBuffer::SumA], 1);
    let groups = groups_for(sim.total_elements as nat) as u32;
    lemma_dispatched(device.mem[FlowBuffer::NablaAX], grad.0, groups);
    lemma_dispatched(device.mem[FlowBuffer::NablaAY], grad.1, groups);
}

/// The flow from the masses and the two gradients.
pub open spec fn flows<T>(
    sim: GpuFlowLenia,
    ops: Arithmetic<T>,
    channels: Seq<T>,
    up: (Seq<T>, Seq<T>),
    away: (Seq<T>, Seq<T>),
) -> (Seq<T>, Seq<T>) {
    let w = sim.shape@[0] as int;
    let count = (w * w * sim.num_channels) as nat;
    let flow = |i: int|
        (ops.flow)(
            channels[i],
            up.0[i],
            up.1[i],
            away.0[i % (w * w)],
            away.1[i % (w * w)],
        );
    (Seq::new(count, |i: int| flow(i).0), Seq::new(count, |i: int| flow(i).1))
}

proof fn lemma_flow_pass<T>(sim: GpuFlowLenia, ops: Arithmetic<T>, device: Device<T>)
    requires
        sim.can_iterate(),
        is_square(sim),
    ensures
        ({
            let mem = device.mem;
            let flow = flows(
                sim,
                ops,
                mem[FlowBuffer::Channel],
                (mem[FlowBuffer::NablaUX], mem[FlowBuffer::NablaUY]),
                (mem[FlowBuffer::NablaAX], mem[FlowBuffer::NablaAY]),
            );
            run_pass(sim, ops, FlowPass::FlowField, all_groups(sim), device) == mem.insert(
                FlowBuffer::FlowX,
                flow.0,
            ).insert(FlowBuffer::FlowY, flow.1)
        }),
{
    reveal(run_pass);
    lemma_all_groups(sim);
    let mem = device.mem;
    let flow = flows(
        sim,
        ops,
        mem[FlowBuffer::Channel],
        (mem[FlowBuffer::NablaUX], mem[FlowBuffer::NablaUY]),
        (mem[FlowBuffer::NablaAX], mem[FlowBuffer::NablaAY]),
    );
    lemma_dispatched(mem[FlowBuffer::FlowX], flow.0, all_groups(sim));
    lemma_dispatched(mem[FlowBuffer::FlowY], flow.1, all_groups(sim));
}

/// The channels moved along the flow.
pub open spec fn moved<T>(
    sim: GpuFlowLenia,
    ops: Arithmetic<T>,
    channels: Seq<T>,
    flow: (Seq<T>, Seq<T>),
) -> Seq<T> {
    let (w, h) = (sim.shape@[0] as int, sim.shape@[1] as int);
    Seq::new(
        (w * h * sim.num_channels) as nat,
        |i: int|
            reintegrated_at(
                channels,
                flow.0,
                flow.1,
                w,
                h,
                sim.dd as int,
                i,
                ops.zero,
                ops.gather,
                ops.finish,
            ),
    )
}

proof fn lemma_reintegration_pass<T>(sim: GpuFlowLenia, ops: Arithmetic<T>, device: Device<T>)
    requires
        sim.can_iterate(),
    ensures
        run_pass(sim, ops, FlowPass::Reintegration, all_groups(sim), device)
            == device.mem.insert(
            FlowBuffer::NewChannel,
            moved(
                sim,
                ops,
                device.mem[FlowBuffer::Channel],
                (device.mem[FlowBuffer::FlowX], device.mem[FlowBuffer::FlowY]),
            ),
        ),
{
    reveal(run_pass);
    lemma_all_groups(sim);
    let new = moved(
        sim,
        ops,
        device.mem[FlowBuffer::Channel],
        (device.mem[FlowBuffer::FlowX], device.mem[FlowBuffer::FlowY]),
    );
    lemma_dispatched(device.mem[FlowBuffer::NewChannel], new, all_groups(sim));
}

/// The commands of the second phase move the channels along the flow.
proof fn lemma_flow_commands<T>(sim: GpuFlowLenia, ops: Arithmetic<T>, device: Device<T>)
    requires
        sim.can_iterate(),
        is_square(sim),
        sized(sim, device.mem),
    ensures
        ({
            let done = run_all(sim, ops, sim.flow_commands(), device, 10).mem;
            let mem = device.mem;
            let channels = mem[FlowBuffer::Channel];
            let cells = sim.total_elements as nat;
            let count = sim.num_channels as nat;
            let growth = aggregated(
                mem[FlowBuffer::U],
                sim.c1_flat@,
                sim.c1_offsets@,
                cells,
                count,
                ops.zero,
                ops.plus,
            );
            let mass = channels_summed(channels, cells, count, ops.zero, ops.plus);
            let flow = flows(
                sim,
                ops,
                channels,
                gradients(
                    sim,
                    ops,
                    walled_growth(sim, ops, growth, mem[FlowBuffer::Obstacle]),
                    count as int,
                ),
                gradients(sim, ops, mass, 1),
            );
            &&& sized(sim, done)
            &&& done[FlowBuffer::Channel] == moved(sim, ops, channels, flow)
            &&& done[FlowBuffer::Kernel] == mem[FlowBuffer::Kernel]
            &&& done[FlowBuffer::Obstacle] == mem[FlowBuffer::Obstacle]
        }),
{
    let commands = sim.flow_commands();
    lemma_shape(sim);
    lemma_all_groups(sim);
    let d1 = run(sim, ops, commands[0], device);
    let d2 = run(sim, ops, commands[1], d1);
    let d3 = run(sim, ops, commands[2], d2);
    let d4 = run(sim, ops, commands[3], d3);
    let d5 = run(sim, ops, commands[4], d4);
    let d6 = run(sim, ops, commands[5], d5);
    let d7 = run(sim, ops, commands[6], d6);
    let d9 = run(sim, ops, commands[8], d7);
    assert(run_all(sim, ops, commands, device, 10) == d9) by {
        reveal_with_fuel(run_all, 11);
    }
    lemma_aggregate_pass(sim, ops, device);
    lemma_wall_pass(sim, ops, d1);
    lemma_sum_pass(sim, ops, d2);
    lemma_sobel_u_pass(sim, ops, d3);
    lemma_sobel_a_pass(sim, ops, d4);
    lemma_flow_pass(sim, ops, d5);
    lemma_reintegration_pass(sim, ops, d6);
    let channels = device.mem[FlowBuffer::Channel];
    assert(d7.mem[FlowBuffer::Channel] == channels);
    let new = d7.mem[FlowBuffer::NewChannel];
    assert(new.len() == channels.len());
    let size = sim.total_elements * sim.num_channels * 4;
    assert(size as u64 == size);
    assert(loaded(new, 0, size) =~= new);
    assert(stored(channels, 0, new) =~= new);
}

/// An iteration computes one step of the automaton. Run on a device whose buffers
/// have their sizes, the commands of an iteration replace the channels by
/// [`next_channels`] of the channels, kernels and obstacles, and leave the kernels
/// and obstacles as they are.
pub proof fn iterate_computes_step<T>(
    sim: GpuFlowLenia,
    ops: Arithmetic<T>,
    device: Device<T>,
)
    requires
        sim.can_iterate(),
        is_square(sim),
        sized(sim, device.mem),
    ensures
        ({
            let done = run_all(sim, ops, sim.commands(), device, sim.commands().len()).mem;
            let mem = device.mem;
            &&& sized(sim, done)
            &&& done[FlowBuffer::Channel] == next_channels(
                sim,
                ops,
                mem[FlowBuffer::Channel],
                mem[FlowBuffer::Kernel],
                mem[FlowBuffer::Obstacle],
            )
            &&& done[FlowBuffer::Kernel] == mem[FlowBuffer::Kernel]
            &&& done[FlowBuffer::Obstacle] == mem[FlowBuffer::Obstacle]
        }),
{
    let count = sim.num_kernels as nat;
    lemma_kernels_commands(sim, ops, device, count);
    let first = sim.kernels_commands(count);
    let mid = run_all(sim, ops, first, device, first.len());
    lemma_flow_commands(sim, ops, mid);
    lemma_run_concat(sim, ops, first, sim.flow_commands(), device, 10);
    assert(mid.mem[FlowBuffer::U] =~= all_growth(
        sim,
        ops,
        device.mem[FlowBuffer::Channel],
        device.mem[FlowBuffer::Kernel],
    ));
}

/// The commands of the second phase leave every field on the device.
proof fn lemma_flow_fields<T>(sim: GpuFlowLenia, ops: Arithmetic<T>, device: Device<T>)
    requires
        sim.can_iterate(),
        is_square(sim),
        sized(sim, device.mem),
    ensures
        ({
            let done = run_all(sim, ops, sim.flow_commands(), device, 10).mem;
            let mem = device.mem;
            let channels = mem[FlowBuffer::Channel];
            let cells = sim.total_elements as nat;
            let count = sim.num_channels as nat;
            &&& done[FlowBuffer::U] == mem[FlowBuffer::U]
            &&& done[FlowBuffer::ConvX] == mem[FlowBuffer::ConvX]
            &&& done[FlowBuffer::UChannel] == walled_growth(
                sim,
                ops,
                aggregated(
                    mem[FlowBuffer::U],
                    sim.c1_flat@,
                    sim.c1_offsets@,
                    cells,
                    count,
                    ops.zero,
                    ops.plus,
                ),
                mem[FlowBuffer::Obstacle],
            )
            &&& done[FlowBuffer::SumA] == channels_summed(
                channels,
                cells,
                count,
                ops.zero,
                ops.plus,
            )
            &&& (done[FlowBuffer::NablaUX], done[FlowBuffer::NablaUY]) == gradients(
                sim,
                ops,
                done[FlowBuffer::UChannel],
                count as int,
            )
            &&& (done[FlowBuffer::NablaAX], done[FlowBuffer::NablaAY]) == gradients(
                sim,
                ops,
                done[FlowBuffer::SumA],
                1,
            )
            &&& (done[FlowBuffer::FlowX], done[FlowBuffer::FlowY]) == flows(
                sim,
                ops,
                channels,
                (done[FlowBuffer::NablaUX], done[FlowBuffer::NablaUY]),
                (done[FlowBuffer::NablaAX], done[FlowBuffer::NablaAY]),
            )
            &&& done[FlowBuffer::Channel] == moved(
                sim,
                ops,
                channels,
                (done[FlowBuffer::FlowX], done[FlowBuffer::FlowY]),
            )
        }),
{
    let commands = sim.flow_commands();
    lemma_shape(sim);
    lemma_all_groups(sim);
    let d1 = run(sim, ops, commands[0], device);
    let d2 = run(sim, ops, commands[1], d1);
    let d3 = run(sim, ops, commands[2], d2);
    let d4 = run(sim, ops, commands[3], d3);
    let d5 = run(sim, ops, commands[4], d4);
    let d6 = run(sim, ops, commands[5], d5);
    let d7 = run(sim, ops, commands[6], d6);
    let d9 = run(sim, ops, commands[8], d7);
    assert(run_all(sim, ops, commands, device, 10) == d9) by {
        reveal_with_fuel(run_all, 11);
    }
    lemma_aggregate_pass(sim, ops, device);
    lemma_wall_pass(sim, ops, d1);
    lemma_sum_pass(sim, ops, d2);
    lemma_sobel_u_pass(sim, ops, d3);
    lemma_sobel_a_pass(sim, ops, d4);
    lemma_flow_pass(sim, ops, d5);
    lemma_reintegration_pass(sim, ops, d6);
    let channels = device.mem[FlowBuffer::Channel];
    let new = d7.mem[FlowBuffer::NewChannel];
    assert(new.len() == channels.len());
    let size = sim.total_elements * sim.num_channels * 4;
    assert(size as u64 == size);
    assert(loaded(new, 0, size) =~= new);
    assert(stored(channels, 0, new) =~= new);
}

/// After an iteration the fields on the device belong together, cell by cell: the growth
/// of kernel `k` to its convolution, the growth of channel `c` to that of its kernels and
/// to the obstacles, the gradients to the growth of the channel and to the sum of the
/// channels before the iteration, the flow to both gradients at the same cell, and the
/// new channel to the old one and the flow.
pub proof fn iterate_leaves_fields_that_belong_together<T>(
    sim: GpuFlowLenia,
    ops: Arithmetic<T>,
    device: Device<T>,
    k: int,
    c: int,
    p: int,
)
    requires
        sim.can_iterate(),
        is_square(sim),
        sized(sim, device.mem),
        0 <= k < sim.num_kernels,
        0 <= c < sim.num_channels,
        0 <= p < sim.total_elements,
    ensures
        ({
            let mem = device.mem;
            let done = run_all(sim, ops, sim.commands(), device, sim.commands().len()).mem;
            let (w, h) = (sim.shape@[0] as int, sim.shape@[1] as int);
            let cells = w * h;
            let own = c * cells + p;
            let of_kernel = k * cells + p;
            let old = mem[FlowBuffer::Channel];
            let (m, s, height) = (sim.kernel_m@[k], sim.kernel_s@[k], sim.kernel_h@[k]);
            &&& done[FlowBuffer::ConvX][of_kernel] == potential(
                sim,
                ops,
                old,
                mem[FlowBuffer::Kernel],
                k,
            )[p].0
            &&& done[FlowBuffer::U][of_kernel] == (ops.growth)(
                m,
                s,
                height,
                done[FlowBuffer::ConvX][of_kernel],
            )
            &&& done[FlowBuffer::UChannel][own] == walled_at(
                mem[FlowBuffer::Obstacle],
                aggregated(
                    done[FlowBuffer::U],
                    sim.c1_flat@,
                    sim.c1_offsets@,
                    cells as nat,
                    sim.num_channels as nat,
                    ops.zero,
                    ops.plus,
                ),
                w,
                h,
                own,
                ops.zero,
                ops.wall,
                ops.walled,
            )
            &&& done[FlowBuffer::SumA][p] == channels_summed(
                old,
                cells as nat,
                sim.num_channels as nat,
                ops.zero,
                ops.plus,
            )[p]
            &&& (done[FlowBuffer::NablaUX][own], done[FlowBuffer::NablaUY][own]) == gradient_at(
                done[FlowBuffer::UChannel],
                w,
                h,
                own,
                ops.gradient,
            )
            &&& (done[FlowBuffer::NablaAX][p], done[FlowBuffer::NablaAY][p]) == gradient_at(
                done[FlowBuffer::SumA],
                w,
                h,
                p,
                ops.gradient,
            )
            &&& (done[FlowBuffer::FlowX][own], done[FlowBuffer::FlowY][own]) == (ops.flow)(
                old[own],
                done[FlowBuffer::NablaUX][own],
                done[FlowBuffer::NablaUY][own],
                done[FlowBuffer::NablaAX][p],
                done[FlowBuffer::NablaAY][p],
            )
            &&& done[FlowBuffer::Channel][own] == reintegrated_at(
                old,
                done[FlowBuffer::FlowX],
                done[FlowBuffer::FlowY],
                w,
                h,
                sim.dd as int,
                own,
                ops.zero,
                ops.gather,
                ops.finish,
            )
        }),
{
    let count = sim.num_kernels as nat;
    let total = sim.total_elements as int;
    lemma_shape(sim);
    lemma_kernels_commands(sim, ops, device, count);
    let first = sim.kernels_commands(count);
    let mid = run_all(sim, ops, first, device, first.len());
    lemma_flow_fields(sim, ops, mid);
    lemma_run_concat(sim, ops, first, sim.flow_commands(), device, 10);
    let (channels, kernels) = (device.mem[FlowBuffer::Channel], device.mem[FlowBuffer::Kernel]);
    lemma_part_words(k, sim.num_kernels as int, total, 4);
    lemma_part_words(c, sim.num_channels as int, total, 4);
    let of_kernel = k * total + p;
    lemma_fundamental_div_mod_converse(of_kernel, total, k, p);
    lemma_fundamental_div_mod_converse(c * total + p, total, c, p);
    assert(total * count >= of_kernel + 1);
    assert(mid.mem[FlowBuffer::ConvX][of_kernel] == kernel_potential(
        sim,
        ops,
        channels,
        kernels,
        k,
    )[p]);
    assert(mid.mem[FlowBuffer::U][of_kernel] == kernel_growth(sim, ops, channels, kernels, k)[p]);
    assert(potential(sim, ops, channels, kernels, k).len() == total);
}

/// Whether `done` holds the channels, kernels and obstacles of `mem`, and has its sizes.
pub open spec fn keeps_inputs<T>(
    sim: GpuFlowLenia,
    mem: Map<FlowBuffer, Seq<T>>,
    done: Map<FlowBuffer, Seq<T>>,
) -> bool {
    &&& sized(sim, done)
    &&& done[FlowBuffer::Channel] == mem[FlowBuffer::Channel]
    &&& done[FlowBuffer::Kernel] == mem[FlowBuffer::Kernel]
    &&& done[FlowBuffer::Obstacle] == mem[FlowBuffer::Obstacle]
}

/// No pass changes the channels, the kernels or the obstacles, on a grid of any shape.
proof fn lemma_pass_keeps_inputs<T>(
    sim: GpuFlowLenia,
    ops: Arithmetic<T>,
    pass: FlowPass,
    device: Device<T>,
)
    requires
        sim.can_iterate(),
        sized(sim, device.mem),
        sim.has_pass(pass),
    ensures
        keeps_inputs(
            sim,
            device.mem,
            run_pass(
                sim,
                ops,
                pass,
                groups_for(sim.total_elements as nat) as u32,
                device,
            ),
        ),
        keeps_inputs(sim, device.mem, run_pass(sim, ops, pass, all_groups(sim), device)),
{
    reveal(run_pass);
    match pass {
        FlowPass::CopyToConv { kernel } => {
            let c = sim.c0@[kernel as int] as int;
            lemma_part_words(c, sim.num_channels as int, sim.total_elements as int, 4);
            lemma_part_fits(c, sim.num_channels as int, sim.total_elements as int, 4);
        },
        _ => {},
    }
}

/// Commands that copy nothing leave the channels, kernels and obstacles as they are.
proof fn lemma_commands_keep_inputs<T>(
    sim: GpuFlowLenia,
    ops: Arithmetic<T>,
    commands: Seq<FlowCommand>,
    device: Device<T>,
    count: nat,
)
    requires
        sim.can_iterate(),
        sized(sim, device.mem),
        count <= commands.len(),
        forall|i: int| 0 <= i < count ==> keeping_command(sim, #[trigger] commands[i]),
    ensures
        keeps_inputs(sim, device.mem, run_all(sim, ops, commands, device, count).mem),
    decreases count,
{
    if count > 0 {
        lemma_commands_keep_inputs(sim, ops, commands, device, (count - 1) as nat);
        let before = run_all(sim, ops, commands, device, (count - 1) as nat);
        let command = commands[count - 1];
        assert(keeping_command(sim, command));
        match command {
            FlowCommand::Dispatch { pass, groups } => {
                lemma_pass_keeps_inputs(sim, ops, pass, before);
            },
            _ => {},
        }
    }
}

/// A command of an iteration that copies nothing.
spec fn keeping_command(sim: GpuFlowLenia, command: FlowCommand) -> bool {
    match command {
        FlowCommand::Dispatch { pass, groups } => {
            &&& sim.has_pass(pass)
            &&& groups == groups_for(sim.total_elements as nat) as u32 || groups == all_groups(
                sim,
            )
        },
        FlowCommand::Copy { .. } => false,
        _ => true,
    }
}

/// The commands of the kernels copy nothing.
proof fn lemma_kernels_commands_keep(sim: GpuFlowLenia, count: nat)
    requires
        sim.can_iterate(),
        count <= sim.num_kernels,
    ensures
        forall|i: int|
            0 <= i < sim.kernels_commands(count).len() ==> keeping_command(
                sim,
                #[trigger] sim.kernels_commands(count)[i],
            ),
    decreases count,
{
    if count > 0 {
        let k = count - 1;
        lemma_kernels_commands_keep(sim, k as nat);
        let before = sim.kernels_commands(k as nat);
        assert(sim.c0@[k] < sim.num_channels);
        let own = sim.kernel_commands(k);
        assert forall|i: int|
            0 <= i < sim.kernels_commands(count).len() implies keeping_command(
            sim,
            #[trigger] sim.kernels_commands(count)[i],
        ) by {
            if i < before.len() {
                assert(sim.kernels_commands(count)[i] == before[i]);
            } else {
                assert(sim.kernels_commands(count)[i] == own[i - before.len()]);
            }
        }
    }
}

/// On a grid of any shape, an iteration moves the channels along some flow and leaves
/// the kernels and obstacles as they are.
pub proof fn iterate_moves_channels<T>(
    sim: GpuFlowLenia,
    ops: Arithmetic<T>,
    device: Device<T>,
)
    requires
        sim.can_iterate(),
        sized(sim, device.mem),
    ensures
        ({
            let done = run_all(sim, ops, sim.commands(), device, sim.commands().len()).mem;
            let mem = device.mem;
            &&& sized(sim, done)
            &&& exists|flow: (Seq<T>, Seq<T>)|
                done[FlowBuffer::Channel] == #[trigger] moved(
                    sim,
                    ops,
                    mem[FlowBuffer::Channel],
                    flow,
                )
            &&& done[FlowBuffer::Kernel] == mem[FlowBuffer::Kernel]
            &&& done[FlowBuffer::Obstacle] == mem[FlowBuffer::Obstacle]
        }),
{
    let count = sim.num_kernels as nat;
    let first = sim.kernels_commands(count);
    let commands = sim.flow_commands();
    let channels = device.mem[FlowBuffer::Channel];
    lemma_shape(sim);
    lemma_all_groups(sim);
    lemma_kernels_commands_keep(sim, count);
    lemma_commands_keep_inputs(sim, ops, first, device, first.len());
    let mid = run_all(sim, ops, first, device, first.len());
    lemma_commands_keep_inputs(sim, ops, commands, mid, 6);
    let d6 = run_all(sim, ops, commands, mid, 6);
    let d7 = run(sim, ops, commands[6], d6);
    let d9 = run(sim, ops, commands[8], d7);
    assert(run_all(sim, ops, commands, mid, 10) == d9) by {
        reveal_with_fuel(run_all, 5);
    }
    lemma_run_concat(sim, ops, first, commands, device, 10);
    lemma_reintegration_pass(sim, ops, d6);
    let flow = (d6.mem[FlowBuffer::FlowX], d6.mem[FlowBuffer::FlowY]);
    let new = moved(sim, ops, channels, flow);
    let size = sim.total_elements * sim.num_channels * 4;
    assert(size as u64 == size);
    assert(loaded(new, 0, size) =~= new);
    assert(stored(channels, 0, new) =~= new);
}

/// On a grid of any shape, no number of steps changes the kernels or the obstacles.
pub proof fn run_steps_keeps_kernels_and_obstacles<T>(
    sim: GpuFlowLenia,
    ops: Arithmetic<T>,
    device: Device<T>,
    n: nat,
)
    requires
        sim.can_iterate(),
        sized(sim, device.mem),
    ensures
        ({
            let commands = sim.repeated_commands(n);
            let done = run_all(sim, ops, commands, device, commands.len()).mem;
            &&& sized(sim, done)
            &&& done[FlowBuffer::Kernel] == device.mem[FlowBuffer::Kernel]
            &&& done[FlowBuffer::Obstacle] == device.mem[FlowBuffer::Obstacle]
        }),
    decreases n,
{
    if n > 0 {
        let m = (n - 1) as nat;
        run_steps_keeps_kernels_and_obstacles(sim, ops, device, m);
        let before = sim.repeated_commands(m);
        iterate_moves_channels(sim, ops, run_all(sim, ops, before, device, before.len()));
        lemma_last_iteration(sim, ops, device, n);
    }
}

/// Running `n` steps is running all but one and then an iteration.
pub(crate) proof fn lemma_last_iteration<T>(
    sim: GpuFlowLenia,
    ops: Arithmetic<T>,
    device: Device<T>,
    n: nat,
)
    requires
        n > 0,
    ensures
        ({
            let commands = sim.repeated_commands(n);
            let before = sim.repeated_commands((n - 1) as nat);
            run_all(sim, ops, commands, device, commands.len()) == run_all(
                sim,
                ops,
                sim.commands(),
                run_all(sim, ops, before, device, before.len()),
                sim.commands().len(),
            )
        }),
{
    let before = sim.repeated_commands((n - 1) as nat);
    lemma_run_concat(sim, ops, before, sim.commands(), device, sim.commands().len());
}

/// The channels after `n` steps of the automaton.
pub open spec fn channels_after<T>(
    sim: GpuFlowLenia,
    ops: Arithmetic<T>,
    channels: Seq<T>,
    kernels: Seq<T>,
    obstacle: Seq<T>,
    n: nat,
) -> Seq<T>
    decreases n,
{
    if n == 0 {
        channels
    } else {
        next_channels(
            sim,
            ops,
            channels_after(sim, ops, channels, kernels, obstacle, (n - 1) as nat),
            kernels,
            obstacle,
        )
    }
}

/// Running `n` steps computes `n` steps of the automaton.
pub proof fn run_steps_computes_steps<T>(
    sim: GpuFlowLenia,
    ops: Arithmetic<T>,
    device: Device<T>,
    n: nat,
)
    requires
        sim.can_iterate(),
        is_square(sim),
        sized(sim, device.mem),
    ensures
        ({
            let commands = sim.repeated_commands(n);
            let done = run_all(sim, ops, commands, device, commands.len()).mem;
            let mem = device.mem;
            &&& sized(sim, done)
            &&& done[FlowBuffer::Channel] == channels_after(
                sim,
                ops,
                mem[FlowBuffer::Channel],
                mem[FlowBuffer::Kernel],
                mem[FlowBuffer::Obstacle],
                n,
            )
            &&& done[FlowBuffer::Kernel] == mem[FlowBuffer::Kernel]
            &&& done[FlowBuffer::Obstacle] == mem[FlowBuffer::Obstacle]
        }),
    decreases n,
{
    if n > 0 {
        run_steps_computes_steps(sim, ops, device, (n - 1) as nat);
        let before = sim.repeated_commands((n - 1) as nat);
        iterate_computes_step(sim, ops, run_all(sim, ops, before, device, before.len()));
        lemma_last_iteration(sim, ops, device, n);
    }
}

} // verus!
