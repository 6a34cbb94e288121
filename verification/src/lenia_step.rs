//! What an iteration of the single-channel simulation computes.
//!
//! As in [`crate::step`], for any arithmetic: what each command does to the buffers
//! of a device, and what the commands of an iteration do together.
use crate::convolve::{map_columns, map_rows};
use crate::gpu::{groups_for, Word};
use crate::gpu_lenia::{
    covered_cells, lemma_grid, lenia_bindings, updates_cover_the_grid, GpuLenia, LeniaBuffer,
    LeniaCommand, LeniaPass,
};
use crate::mass::{distance, limited};
use crate::step::{
    batch_mapped, column_lanes_are_columns, dispatched, lemma_dispatched, lemma_pairs_of_unpaired,
    pairs, row_lanes_are_rows, unpaired,
};
use vstd::prelude::*;

verus! {

/// The arithmetic of the passes.
#[verifier::reject_recursive_types(T)]
pub struct LeniaArithmetic<T> {
    pub zero: T,
    /// The transform of a lane, by direction and axis.
    pub lane: spec_fn(bool, int, Seq<(T, T)>) -> Seq<(T, T)>,
    /// The product of two complex numbers.
    pub times: spec_fn((T, T), (T, T)) -> (T, T),
    /// The division by the length of the transforms.
    pub normalize: spec_fn((T, T)) -> (T, T),
    pub growth: spec_fn(T) -> T,
    /// The change of a cell and its new state, from the parameters of the update pass,
    /// its state and its growth.
    pub update: spec_fn(Seq<Word>, T, T) -> (T, T),
}

/// A device: the contents of its buffers, and the parameters of the update pass that
/// were written last.
pub struct LeniaDevice<T> {
    pub mem: Map<LeniaBuffer, Seq<T>>,
    pub params: Seq<Word>,
}

/// The buffers after a pass.
#[verifier::opaque]
pub open spec fn run_lenia_pass<T>(
    ops: LeniaArithmetic<T>,
    pass: LeniaPass,
    groups: u32,
    device: LeniaDevice<T>,
) -> Map<LeniaBuffer, Seq<T>> {
    let mem = device.mem;
    let b = lenia_bindings(pass);
    match pass {
        LeniaPass::CopyToConv => {
            let channel = mem[b[0].0];
            let new = Seq::new(channel.len(), |i: int| (channel[i], ops.zero));
            mem.insert(b[1].0, unpaired(dispatched(pairs(mem[b[1].0]), new, groups)))
        },
        LeniaPass::ComplexMul => {
            let conv = pairs(mem[b[0].0]);
            let spectrum = pairs(mem[b[1].0]);
            let new = Seq::new(conv.len(), |i: int| (ops.times)(conv[i], spectrum[i]));
            mem.insert(b[0].0, unpaired(dispatched(conv, new, groups)))
        },
        LeniaPass::Normalize => {
            let conv = pairs(mem[b[0].0]);
            let new = conv.map_values(ops.normalize);
            mem.insert(b[0].0, unpaired(dispatched(conv, new, groups)))
        },
        LeniaPass::Growth => {
            let conv = pairs(mem[b[0].0]);
            let new = Seq::new(conv.len(), |i: int| (ops.growth)(conv[i].0));
            mem.insert(b[1].0, dispatched(mem[b[1].0], new, groups))
        },
        LeniaPass::Update => {
            let (channel, delta, growth) = (mem[b[0].0], mem[b[1].0], mem[b[2].0]);
            let changed = |i: int| i < covered_cells(device.params);
            let state = Seq::new(
                channel.len(),
                |i: int|
                    if changed(i) {
                        (ops.update)(device.params, channel[i], growth[i]).1
                    } else {
                        channel[i]
                    },
            );
            let change = Seq::new(
                channel.len(),
                |i: int|
                    if changed(i) {
                        (ops.update)(device.params, channel[i], growth[i]).0
                    } else {
                        delta[i]
                    },
            );
            mem.insert(b[1].0, dispatched(delta, change, groups)).insert(
                b[0].0,
                dispatched(channel, state, groups),
            )
        },
    }
}

/// The device after a command.
pub open spec fn run_lenia<T>(
    sim: GpuLenia,
    ops: LeniaArithmetic<T>,
    command: LeniaCommand,
    device: LeniaDevice<T>,
) -> LeniaDevice<T> {
    match command {
        LeniaCommand::Dispatch { pass, groups } => LeniaDevice {
            mem: run_lenia_pass(ops, pass, groups, device),
            ..device
        },
        LeniaCommand::Transform { inverse, axis, lanes } => LeniaDevice {
            mem: device.mem.insert(
                LeniaBuffer::Conv,
                unpaired(
                    batch_mapped(
                        pairs(device.mem[LeniaBuffer::Conv]),
                        lanes,
                        sim.shape@[axis as int] as nat,
                        |lane: Seq<(T, T)>| (ops.lane)(inverse, axis as int, lane),
                    ),
                ),
            ),
            ..device
        },
        LeniaCommand::WriteNormalizeParams | LeniaCommand::Submit => device,
    }
}

/// The device after the first `count` commands.
pub open spec fn run_lenia_all<T>(
    sim: GpuLenia,
    ops: LeniaArithmetic<T>,
    commands: Seq<LeniaCommand>,
    device: LeniaDevice<T>,
    count: nat,
) -> LeniaDevice<T>
    decreases count,
{
    if count == 0 {
        device
    } else {
        run_lenia(
            sim,
            ops,
            commands[count - 1],
            run_lenia_all(sim, ops, commands, device, (count - 1) as nat),
        )
    }
}

/// The convolution of the state with the kernel.
pub open spec fn lenia_potential<T>(
    sim: GpuLenia,
    ops: LeniaArithmetic<T>,
    channel: Seq<T>,
    kernel: Seq<T>,
) -> Seq<(T, T)> {
    let (w, h) = (sim.shape@[0] as nat, sim.shape@[1] as nat);
    let data = Seq::new(channel.len(), |i: int| (channel[i], ops.zero));
    let there = map_columns(
        map_rows(data, w, |lane: Seq<(T, T)>| (ops.lane)(false, 0, lane)),
        w,
        h,
        |lane: Seq<(T, T)>| (ops.lane)(false, 1, lane),
    );
    let product = Seq::new(there.len(), |i: int| (ops.times)(there[i], pairs(kernel)[i]));
    let back = map_rows(
        map_columns(product, w, h, |lane: Seq<(T, T)>| (ops.lane)(true, 1, lane)),
        w,
        |lane: Seq<(T, T)>| (ops.lane)(true, 0, lane),
    );
    back.map_values(ops.normalize)
}

/// The state after one step: every cell that the parameters of the update pass cover
/// changes by its growth.
pub open spec fn next_state<T>(
    sim: GpuLenia,
    ops: LeniaArithmetic<T>,
    channel: Seq<T>,
    kernel: Seq<T>,
    params: Seq<Word>,
) -> Seq<T> {
    let conv = lenia_potential(sim, ops, channel, kernel);
    Seq::new(
        channel.len(),
        |i: int|
            if i < covered_cells(params) {
                (ops.update)(params, channel[i], (ops.growth)(conv[i].0)).1
            } else {
                channel[i]
            },
    )
}

/// The copy pass fills the transform grid with the state.
proof fn lemma_copy<T>(ops: LeniaArithmetic<T>, device: LeniaDevice<T>, groups: u32)
    requires
        groups == groups_for(device.mem[LeniaBuffer::Channel].len()),
    ensures
        ({
            let channel = device.mem[LeniaBuffer::Channel];
            run_lenia_pass(ops, LeniaPass::CopyToConv, groups, device) == device.mem.insert(
                LeniaBuffer::Conv,
                unpaired(Seq::new(channel.len(), |i: int| (channel[i], ops.zero))),
            )
        }),
{
    reveal(run_lenia_pass);
    let channel = device.mem[LeniaBuffer::Channel];
    let data = Seq::new(channel.len(), |i: int| (channel[i], ops.zero));
    lemma_dispatched(pairs(device.mem[LeniaBuffer::Conv]), data, groups);
}

/// The multiplication pass multiplies by the spectrum of the kernel.
proof fn lemma_multiply<T>(
    ops: LeniaArithmetic<T>,
    device: LeniaDevice<T>,
    groups: u32,
    data: Seq<(T, T)>,
)
    requires
        groups == groups_for(data.len()),
        device.mem[LeniaBuffer::Conv] == unpaired(data),
    ensures
        ({
            let kernel = device.mem[LeniaBuffer::Kernel];
            run_lenia_pass(ops, LeniaPass::ComplexMul, groups, device) == device.mem.insert(
                LeniaBuffer::Conv,
                unpaired(
                    Seq::new(data.len(), |i: int| (ops.times)(data[i], pairs(kernel)[i])),
                ),
            )
        }),
{
    reveal(run_lenia_pass);
    lemma_pairs_of_unpaired(data);
    let kernel = device.mem[LeniaBuffer::Kernel];
    let new = Seq::new(data.len(), |i: int| (ops.times)(data[i], pairs(kernel)[i]));
    lemma_dispatched(data, new, groups);
}

/// The normalization pass divides every number.
proof fn lemma_normalize<T>(
    ops: LeniaArithmetic<T>,
    device: LeniaDevice<T>,
    groups: u32,
    data: Seq<(T, T)>,
)
    requires
        groups == groups_for(data.len()),
        device.mem[LeniaBuffer::Conv] == unpaired(data),
    ensures
        run_lenia_pass(ops, LeniaPass::Normalize, groups, device) == device.mem.insert(
            LeniaBuffer::Conv,
            unpaired(data.map_values(ops.normalize)),
        ),
{
    reveal(run_lenia_pass);
    lemma_pairs_of_unpaired(data);
    lemma_dispatched(data, data.map_values(ops.normalize), groups);
}

/// The growth pass computes the growth of every cell.
proof fn lemma_growth<T>(
    ops: LeniaArithmetic<T>,
    device: LeniaDevice<T>,
    groups: u32,
    data: Seq<(T, T)>,
)
    requires
        groups == groups_for(data.len()),
        device.mem[LeniaBuffer::Conv] == unpaired(data),
    ensures
        run_lenia_pass(ops, LeniaPass::Growth, groups, device) == device.mem.insert(
            LeniaBuffer::GrowthResult,
            Seq::new(data.len(), |i: int| (ops.growth)(data[i].0)),
        ),
{
    reveal(run_lenia_pass);
    lemma_pairs_of_unpaired(data);
    let new = Seq::new(data.len(), |i: int| (ops.growth)(data[i].0));
    lemma_dispatched(device.mem[LeniaBuffer::GrowthResult], new, groups);
}

/// The update pass changes the state.
proof fn lemma_update<T>(ops: LeniaArithmetic<T>, device: LeniaDevice<T>, groups: u32)
    requires
        groups == groups_for(device.mem[LeniaBuffer::Channel].len()),
    ensures
        ({
            let channel = device.mem[LeniaBuffer::Channel];
            let growth = device.mem[LeniaBuffer::GrowthResult];
            let done = run_lenia_pass(ops, LeniaPass::Update, groups, device);
            &&& done[LeniaBuffer::Channel] == Seq::new(
                channel.len(),
                |i: int|
                    if i < covered_cells(device.params) {
                        (ops.update)(device.params, channel[i], growth[i]).1
                    } else {
                        channel[i]
                    },
            )
            &&& done[LeniaBuffer::Kernel] == device.mem[LeniaBuffer::Kernel]
        }),
{
    reveal(run_lenia_pass);
    let channel = device.mem[LeniaBuffer::Channel];
    let growth = device.mem[LeniaBuffer::GrowthResult];
    let state = Seq::new(
        channel.len(),
        |i: int|
            if i < covered_cells(device.params) {
                (ops.update)(device.params, channel[i], growth[i]).1
            } else {
                channel[i]
            },
    );
    let done = run_lenia_pass(ops, LeniaPass::Update, groups, device);
    lemma_dispatched(channel, state, groups);
    assert(done[LeniaBuffer::Channel] =~= dispatched(channel, state, groups));
}

/// An iteration computes one step. Run on a device whose buffers have their sizes,
/// the commands of an iteration replace the state by [`next_state`] of the state and
/// the kernel, and leave the kernel as it is.
pub proof fn lenia_iterate_computes_step<T>(
    sim: GpuLenia,
    ops: LeniaArithmetic<T>,
    device: LeniaDevice<T>,
)
    requires
        sim.can_iterate(),
        sim.shape.len() == 2,
        4 * device.mem[LeniaBuffer::Channel].len() == sim.size_of(LeniaBuffer::Channel),
        4 * device.mem[LeniaBuffer::Conv].len() == sim.size_of(LeniaBuffer::Conv),
        4 * device.mem[LeniaBuffer::Kernel].len() == sim.size_of(LeniaBuffer::Kernel),
    ensures
        ({
            let done = run_lenia_all(sim, ops, sim.commands(), device, 11).mem;
            &&& done[LeniaBuffer::Channel] == next_state(
                sim,
                ops,
                device.mem[LeniaBuffer::Channel],
                device.mem[LeniaBuffer::Kernel],
                device.params,
            )
            &&& done[LeniaBuffer::Kernel] == device.mem[LeniaBuffer::Kernel]
        }),
{
    let (w, h) = (sim.shape@[0] as nat, sim.shape@[1] as nat);
    lemma_grid(sim);
    let total = sim.total_elements as nat;
    let groups = groups_for(total) as u32;
    let commands = sim.commands();
    let channel = device.mem[LeniaBuffer::Channel];
    let kernel = device.mem[LeniaBuffer::Kernel];
    let d2 = run_lenia(sim, ops, commands[1], device);
    let d3 = run_lenia(sim, ops, commands[2], d2);
    let d4 = run_lenia(sim, ops, commands[3], d3);
    let d5 = run_lenia(sim, ops, commands[4], d4);
    let d6 = run_lenia(sim, ops, commands[5], d5);
    let d7 = run_lenia(sim, ops, commands[6], d6);
    let d8 = run_lenia(sim, ops, commands[7], d7);
    let d9 = run_lenia(sim, ops, commands[8], d8);
    let d10 = run_lenia(sim, ops, commands[9], d9);
    assert(run_lenia_all(sim, ops, commands, device, 11) == d10) by {
        reveal_with_fuel(run_lenia_all, 12);
    }
    let fx = |lane: Seq<(T, T)>| (ops.lane)(false, 0, lane);
    let fy = |lane: Seq<(T, T)>| (ops.lane)(false, 1, lane);
    let ix = |lane: Seq<(T, T)>| (ops.lane)(true, 0, lane);
    let iy = |lane: Seq<(T, T)>| (ops.lane)(true, 1, lane);
    let data = Seq::new(channel.len(), |i: int| (channel[i], ops.zero));
    lemma_copy(ops, device, groups);
    assert(d2.mem == device.mem.insert(LeniaBuffer::Conv, unpaired(data)));
    lemma_pairs_of_unpaired(data);
    let rows = map_rows(data, w, fx);
    row_lanes_are_rows(sim.row_lanes(), w, h, data, fx);
    assert(d3.mem == d2.mem.insert(LeniaBuffer::Conv, unpaired(rows)));
    lemma_pairs_of_unpaired(rows);
    let there = map_columns(rows, w, h, fy);
    column_lanes_are_columns(sim.column_lanes(), w, h, rows, fy);
    assert(d4.mem == d3.mem.insert(LeniaBuffer::Conv, unpaired(there)));
    lemma_pairs_of_unpaired(there);
    let product = Seq::new(there.len(), |i: int| (ops.times)(there[i], pairs(kernel)[i]));
    lemma_multiply(ops, d4, groups, there);
    assert(d5.mem == d4.mem.insert(LeniaBuffer::Conv, unpaired(product)));
    lemma_pairs_of_unpaired(product);
    let columns = map_columns(product, w, h, iy);
    column_lanes_are_columns(sim.column_lanes(), w, h, product, iy);
    assert(d6.mem == d5.mem.insert(LeniaBuffer::Conv, unpaired(columns)));
    lemma_pairs_of_unpaired(columns);
    let back = map_rows(columns, w, ix);
    row_lanes_are_rows(sim.row_lanes(), w, h, columns, ix);
    assert(d7.mem == d6.mem.insert(LeniaBuffer::Conv, unpaired(back)));
    lemma_pairs_of_unpaired(back);
    let conv = back.map_values(ops.normalize);
    lemma_normalize(ops, d7, groups, back);
    assert(d8.mem == d7.mem.insert(LeniaBuffer::Conv, unpaired(conv)));
    assert(conv == lenia_potential(sim, ops, channel, kernel));
    let growth = Seq::new(conv.len(), |i: int| (ops.growth)(conv[i].0));
    lemma_growth(ops, d8, groups, conv);
    assert(d9.mem == d8.mem.insert(LeniaBuffer::GrowthResult, growth));
    lemma_update(ops, d9, groups);
    assert(d10.mem[LeniaBuffer::Channel] =~= next_state(
        sim,
        ops,
        channel,
        kernel,
        device.params,
    ));
}

/// An iteration changes every cell by the parameters of the simulation: on a device
/// that holds them, each cell of the state becomes its update by its own growth.
pub proof fn iterations_update_every_cell<T>(
    sim: GpuLenia,
    ops: LeniaArithmetic<T>,
    device: LeniaDevice<T>,
    i: int,
)
    requires
        sim.can_iterate(),
        sim.shape.len() == 2,
        4 * device.mem[LeniaBuffer::Channel].len() == sim.size_of(LeniaBuffer::Channel),
        4 * device.mem[LeniaBuffer::Conv].len() == sim.size_of(LeniaBuffer::Conv),
        4 * device.mem[LeniaBuffer::Kernel].len() == sim.size_of(LeniaBuffer::Kernel),
        device.params == sim.update_words(),
        0 <= i < sim.total_elements,
    ensures
        ({
            let channel = device.mem[LeniaBuffer::Channel];
            let conv = lenia_potential(sim, ops, channel, device.mem[LeniaBuffer::Kernel]);
            let done = run_lenia_all(sim, ops, sim.commands(), device, 11).mem;
            done[LeniaBuffer::Channel][i] == (ops.update)(
                sim.update_words(),
                channel[i],
                (ops.growth)(conv[i].0),
            ).1
        }),
{
    lenia_iterate_computes_step(sim, ops, device);
    updates_cover_the_grid(sim, sim.dt);
}

/// Setting the time step takes effect on every cell: once the block that
/// [`GpuLenia::set_dt`] returns is written, an iteration updates each cell with the new
/// time step, and with nothing else changed.
pub proof fn new_time_step_takes_effect<T>(
    before: GpuLenia,
    dt: u32,
    ops: LeniaArithmetic<T>,
    device: LeniaDevice<T>,
    i: int,
)
    requires
        before.can_iterate(),
        before.shape.len() == 2,
        4 * device.mem[LeniaBuffer::Channel].len() == before.size_of(LeniaBuffer::Channel),
        4 * device.mem[LeniaBuffer::Conv].len() == before.size_of(LeniaBuffer::Conv),
        4 * device.mem[LeniaBuffer::Kernel].len() == before.size_of(LeniaBuffer::Kernel),
        device.params == before.update_words().update(1, Word::Float(dt)),
        0 <= i < before.total_elements,
    ensures
        ({
            let sim = GpuLenia { dt, ..before };
            let channel = device.mem[LeniaBuffer::Channel];
            let conv = lenia_potential(sim, ops, channel, device.mem[LeniaBuffer::Kernel]);
            let done = run_lenia_all(sim, ops, sim.commands(), device, 11).mem;
            &&& device.params == sim.update_words()
            &&& sim.commands() == before.commands()
            &&& conv == lenia_potential(before, ops, channel, device.mem[LeniaBuffer::Kernel])
            &&& done[LeniaBuffer::Channel][i] == (ops.update)(
                sim.update_words(),
                channel[i],
                (ops.growth)(conv[i].0),
            ).1
        }),
{
    let sim = GpuLenia { dt, ..before };
    assert(sim.can_iterate()) by {
        assert forall|a: int| 0 <= a < sim.shape.len() implies #[trigger] sim.axis_planned(a) by {
            assert(before.axis_planned(a));
        }
    }
    assert(device.params =~= sim.update_words());
    assert(sim.row_lanes() == before.row_lanes() && sim.column_lanes() == before.column_lanes());
    assert(sim.commands() =~= before.commands());
    iterations_update_every_cell(sim, ops, device, i);
}

/// The change of a cell in exact arithmetic: its growth, and its state after a time
/// step, limited to the range from zero to one. `value` gives the number that a
/// parameter word stands for.
pub open spec fn exact_update(
    value: spec_fn(Word) -> real,
) -> spec_fn(Seq<Word>, real, real) -> (real, real) {
    |params: Seq<Word>, state: real, growth: real|
        {
            let change = growth * value(params[2]) * value(params[3]);
            (change, limited(state + change * value(params[1]), 0real, 1real))
        }
}

/// Every cell that the update pass covers is between zero and one after a step,
/// whatever it held before and whatever the kernel and the growth function; a cell
/// that was between zero and one stays there in any case.
pub proof fn states_stay_in_range(
    sim: GpuLenia,
    ops: LeniaArithmetic<real>,
    channel: Seq<real>,
    kernel: Seq<real>,
    params: Seq<Word>,
    value: spec_fn(Word) -> real,
    i: int,
)
    requires
        ops.update == exact_update(value),
        0 <= i < channel.len(),
        i < covered_cells(params) || 0real <= channel[i] && channel[i] <= 1real,
    ensures
        0real <= next_state(sim, ops, channel, kernel, params)[i],
        next_state(sim, ops, channel, kernel, params)[i] <= 1real,
{
}

/// A step changes no cell by more than the time step, as long as the growth is between
/// minus one and one and the weights are one.
pub proof fn steps_change_states_by_dt_at_most(
    sim: GpuLenia,
    ops: LeniaArithmetic<real>,
    channel: Seq<real>,
    kernel: Seq<real>,
    params: Seq<Word>,
    value: spec_fn(Word) -> real,
    i: int,
)
    requires
        ops.update == exact_update(value),
        0 <= i < channel.len(),
        0real <= channel[i] && channel[i] <= 1real,
        value(params[2]) == 1real,
        value(params[3]) == 1real,
        forall|x: real|
            0real - 1real <= #[trigger] (ops.growth)(x) && (ops.growth)(x) <= 1real,
    ensures
        distance(next_state(sim, ops, channel, kernel, params)[i], channel[i]) <= distance(
            value(params[1]),
            0real,
        ),
{
    let dt = value(params[1]);
    let g = (ops.growth)(lenia_potential(sim, ops, channel, kernel)[i].0);
    assert(g * 1real == g) by (nonlinear_arith);
    let most = distance(dt, 0real);
    assert(g * dt <= most && 0real - most <= g * dt) by (nonlinear_arith)
        requires
            0real - 1real <= g,
            g <= 1real,
            dt <= most,
            0real - most <= dt,
            0real <= most,
    ;
}

} // verus!
