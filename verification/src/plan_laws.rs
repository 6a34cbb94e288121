//! What the plan of a Flow Lenia simulation sends to the device: the parameters, sizes
//! and bindings of the buffers, word by word and byte by byte.
use crate::bytes::ByteOrder;
use crate::gpu::{groups_for, Access, BufferKind, Extent, Word};
use crate::gpu_flow_lenia::{
    kind_of, layout_of, lemma_part_fits, order_of, shader_of, FlowBuffer, FlowCommand, FlowPass,
    FlowShader, GpuFlowLenia,
};
use crate::gpu_lenia::GpuLenia;
use crate::wfft::{LaneLayout, WgpuFFT1D, WgpuFFTND};
use vstd::arithmetic::power2::*;
use vstd::prelude::*;

verus! {

/// The reintegration pass is sent the motion of the simulation: the sides of the grid,
/// the reach `dd`, `sigma`, the time step, the number of channels, the limit `dd - sigma`
/// of the flow, and the two costs.
pub proof fn reintegration_is_sent_the_motion(sim: GpuFlowLenia)
    requires
        sim.wf(),
    ensures
        ({
            let words = sim.words_of(FlowBuffer::ReintegrationParams);
            &&& words.len() == 9
            &&& words[0] == Word::Unsigned(sim.shape@[0] as u32)
            &&& words[1] == Word::Unsigned(sim.shape@[1] as u32)
            &&& words[2] == Word::Signed(sim.dd)
            &&& words[3] == Word::Float(sim.sigma)
            &&& words[4] == Word::Float(sim.dt)
            &&& words[5] == Word::Unsigned(sim.num_channels as u32)
            &&& words[6] == (Word::FloatDifference { whole: sim.dd, minus: sim.sigma })
            &&& words[7] == Word::Float(sim.basal_metabolic_rate)
            &&& words[8] == Word::Float(sim.kinetic_cost)
        }),
{
}

/// The number of channels reaches the reintegration pass as the number of channels alone:
/// simulations that differ in it are sent the same motion.
pub proof fn motion_does_not_depend_on_channels(a: GpuFlowLenia, b: GpuFlowLenia, i: int)
    requires
        a.wf(),
        b.wf(),
        a.shape@ == b.shape@,
        a.dd == b.dd,
        a.sigma == b.sigma,
        a.dt == b.dt,
        a.basal_metabolic_rate == b.basal_metabolic_rate,
        a.kinetic_cost == b.kinetic_cost,
        0 <= i < 9,
        i != 5,
    ensures
        a.words_of(FlowBuffer::ReintegrationParams)[i] == b.words_of(
            FlowBuffer::ReintegrationParams,
        )[i],
{
}

/// Every parameter of the motion reaches the reintegration pass: simulations that are
/// sent the same words have the same motion.
pub proof fn reintegration_words_determine_the_motion(a: GpuFlowLenia, b: GpuFlowLenia)
    requires
        a.wf(),
        b.wf(),
        a.words_of(FlowBuffer::ReintegrationParams) == b.words_of(FlowBuffer::ReintegrationParams),
    ensures
        a.shape@[0] as u32 == b.shape@[0] as u32,
        a.shape@[1] as u32 == b.shape@[1] as u32,
        a.dd == b.dd,
        a.sigma == b.sigma,
        a.dt == b.dt,
        a.num_channels as u32 == b.num_channels as u32,
        a.basal_metabolic_rate == b.basal_metabolic_rate,
        a.kinetic_cost == b.kinetic_cost,
{
    reintegration_is_sent_the_motion(a);
    reintegration_is_sent_the_motion(b);
}

/// The other passes are sent the sides of the grid and how many fields they work on.
pub proof fn passes_are_sent_their_dimensions(sim: GpuFlowLenia)
    requires
        sim.wf(),
    ensures
        ({
            let w = Word::Unsigned(sim.shape@[0] as u32);
            let h = Word::Unsigned(sim.shape@[1] as u32);
            let channels = Word::Unsigned(sim.num_channels as u32);
            let aggregate = sim.words_of(FlowBuffer::AggregateParams);
            let sobel_u = sim.words_of(FlowBuffer::SobelUParams);
            let sobel_a = sim.words_of(FlowBuffer::SobelAParams);
            let wall = sim.words_of(FlowBuffer::WallParams);
            let sum = sim.words_of(FlowBuffer::SumChannelsParams);
            let flow = sim.words_of(FlowBuffer::FlowFieldParams);
            &&& aggregate.len() == 3
            &&& aggregate[0] == w
            &&& aggregate[1] == Word::Unsigned(sim.num_kernels as u32)
            &&& aggregate[2] == channels
            &&& sobel_u.len() == 3
            &&& sobel_u[0] == w
            &&& sobel_u[1] == h
            &&& sobel_u[2] == channels
            &&& sobel_a.len() == 3
            &&& sobel_a[0] == w
            &&& sobel_a[1] == h
            &&& sobel_a[2] == Word::Unsigned(1)
            &&& wall.len() == 3
            &&& wall[0] == w
            &&& wall[1] == h
            &&& wall[2] == channels
            &&& sum.len() == 2
            &&& sum[0] == w
            &&& sum[1] == channels
            &&& flow.len() == 3
            &&& flow[0] == w
            &&& flow[1] == channels
            &&& flow[2] == Word::FloatOf(sim.num_channels as u64)
        }),
{
}

/// On a square grid, the normalization divides by the number of cells of the grid: it is
/// sent the side of the grid, squared.
pub proof fn normalization_divides_by_the_cells(sim: GpuFlowLenia)
    requires
        sim.wf(),
        sim.shape@[0] == sim.shape@[1],
    ensures
        sim.words_of(FlowBuffer::NormalizeParams).len() == 1,
        sim.words_of(FlowBuffer::NormalizeParams)[0] matches Word::InversePower { base, exponent }
            && exponent == 2 && base * base == sim.total_elements,
{
}

/// The words of a parameter block fill its buffer, except for the growth parameters,
/// which are written for each kernel; buffers of other kinds have none.
pub proof fn parameter_words_fill_their_buffers(sim: GpuFlowLenia, buffer: FlowBuffer)
    requires
        sim.wf(),
    ensures
        kind_of(buffer) == BufferKind::Uniform && buffer != FlowBuffer::GrowthParams
            ==> sim.words_of(buffer).len() * 4 == sim.size_of(buffer),
        kind_of(buffer) != BufferKind::Uniform ==> sim.words_of(buffer).len() == 0,
        sim.size_of(FlowBuffer::GrowthParams) == 3 * 4,
{
}

/// The blocks that mix integers and floats are little-endian, and no others.
pub proof fn mixed_blocks_are_little_endian(sim: GpuFlowLenia, buffer: FlowBuffer)
    ensures
        order_of(buffer) == ByteOrder::Little <==> exists|i: int, j: int|
            0 <= i < sim.words_of(buffer).len() && 0 <= j < sim.words_of(buffer).len()
                && #[trigger] sim.words_of(buffer)[i] is Unsigned && !(
            #[trigger] sim.words_of(buffer)[j] is Unsigned),
{
    let words = sim.words_of(buffer);
    match buffer {
        FlowBuffer::FlowFieldParams => {
            assert(words[0] is Unsigned && !(words[2] is Unsigned));
        },
        FlowBuffer::ReintegrationParams => {
            assert(words[0] is Unsigned && !(words[2] is Unsigned));
        },
        _ => {},
    }
}

/// The fields have four bytes for each of their numbers: one number for each cell of each
/// channel or kernel, or of the grid alone; complex numbers take two.
pub proof fn fields_have_a_number_for_each_cell(sim: GpuFlowLenia)
    requires
        sim.wf(),
    ensures
        ({
            let cells = sim.total_elements as int;
            &&& cells == sim.shape@[0] * sim.shape@[1]
            &&& sim.size_of(FlowBuffer::Channel) == 4 * (cells * sim.num_channels)
            &&& sim.size_of(FlowBuffer::NewChannel) == 4 * (cells * sim.num_channels)
            &&& sim.size_of(FlowBuffer::UChannel) == 4 * (cells * sim.num_channels)
            &&& sim.size_of(FlowBuffer::NablaUX) == 4 * (cells * sim.num_channels)
            &&& sim.size_of(FlowBuffer::NablaUY) == 4 * (cells * sim.num_channels)
            &&& sim.size_of(FlowBuffer::FlowX) == 4 * (cells * sim.num_channels)
            &&& sim.size_of(FlowBuffer::FlowY) == 4 * (cells * sim.num_channels)
            &&& sim.size_of(FlowBuffer::U) == 4 * (cells * sim.num_kernels)
            &&& sim.size_of(FlowBuffer::ConvX) == 4 * (cells * sim.num_kernels)
            &&& sim.size_of(FlowBuffer::Kernel) == 8 * (cells * sim.num_kernels)
            &&& sim.size_of(FlowBuffer::Conv) == 8 * cells
            &&& sim.size_of(FlowBuffer::NablaAX) == 4 * cells
            &&& sim.size_of(FlowBuffer::NablaAY) == 4 * cells
            &&& sim.size_of(FlowBuffer::SumA) == 4 * cells
            &&& sim.size_of(FlowBuffer::Obstacle) == 4 * cells
            &&& sim.size_of(FlowBuffer::Readback) == 4 * cells
            &&& sim.size_of(FlowBuffer::C1Flat) == 4 * sim.c1_flat.len()
            &&& sim.size_of(FlowBuffer::C1Offsets) == 4 * (sim.num_channels + 1)
        }),
{
}

/// Shaders fill buffers that the host and other passes read; the host fills those that
/// shaders only read.
pub proof fn buffers_are_of_their_kinds(buffer: FlowBuffer)
    ensures
        kind_of(buffer) == BufferKind::StorageInput <==> buffer == FlowBuffer::C1Flat || buffer
            == FlowBuffer::C1Offsets,
        kind_of(buffer) == BufferKind::Readback <==> buffer == FlowBuffer::Readback,
        kind_of(buffer) != BufferKind::Staging,
        kind_of(buffer) == BufferKind::Uniform <==> buffer == FlowBuffer::GrowthParams || buffer
            == FlowBuffer::NormalizeParams || buffer == FlowBuffer::AggregateParams || buffer
            == FlowBuffer::SobelUParams || buffer == FlowBuffer::SobelAParams || buffer
            == FlowBuffer::SumChannelsParams || buffer == FlowBuffer::FlowFieldParams || buffer
            == FlowBuffer::ReintegrationParams || buffer == FlowBuffer::WallParams,
{
}

/// What kernel `k` convolves is read where its source channel was uploaded, and its
/// transform where that was uploaded; its growth goes to its own part of the growth.
pub proof fn passes_of_a_kernel_use_its_own_parts(sim: GpuFlowLenia, k: int)
    requires
        sim.can_iterate(),
        0 <= k < sim.num_kernels,
    ensures
        ({
            let kernel = k as usize;
            let cells = sim.shape@[0] * sim.shape@[1];
            let source = sim.c0@[k] as int;
            let copy = sim.bindings_of(FlowPass::CopyToConv { kernel });
            let multiply = sim.bindings_of(FlowPass::ComplexMul { kernel });
            let growth = sim.bindings_of(FlowPass::Growth { kernel });
            &&& copy[0].0 == FlowBuffer::Channel
            &&& copy[0].1 matches Extent::Range { offset, size } && offset == 4 * (source * cells)
                && offset == sim.channel_offset(source) && size == 4 * cells
            &&& multiply[1].0 == FlowBuffer::Kernel
            &&& multiply[1].1 matches Extent::Range { offset, size } && offset == 8 * (k * cells)
                && offset == sim.kernel_offset(k) && size == 8 * cells
            &&& growth[1].0 == FlowBuffer::U
            &&& growth[1].1 matches Extent::Range { offset, size } && offset == 4 * (k * cells)
                && size == 4 * cells
            &&& growth[2] == (FlowBuffer::ConvX, growth[1].1)
        }),
{
    let cells = sim.total_elements as int;
    assert(sim.c0@[k] < sim.num_channels);
    let source = sim.c0@[k] as int;
    lemma_part_fits(source, sim.num_channels as int, cells, 4);
    lemma_part_fits(k, sim.num_kernels as int, cells, 4);
    lemma_part_fits(k, sim.num_kernels as int, cells, 8);
    assert(cells * sim.num_channels * 4 <= usize::MAX);
    assert(cells * sim.num_kernels * 8 <= usize::MAX);
}

/// Channels and kernels lie one after the other in their buffers, from the first byte on.
pub proof fn parts_lie_one_after_the_other(sim: GpuFlowLenia, i: int)
    requires
        0 <= i,
    ensures
        sim.channel_offset(0) == 0,
        sim.channel_offset(i + 1) == sim.channel_offset(i) + 4 * sim.total_elements,
        sim.kernel_offset(0) == 0,
        sim.kernel_offset(i + 1) == sim.kernel_offset(i) + 8 * sim.total_elements,
{
    let t = sim.total_elements as int;
    assert((i + 1) * t == i * t + t) by (nonlinear_arith);
}

/// Every pass but the first two of a kernel binds a parameter block, as the last of its
/// bindings, and it is its own.
pub proof fn passes_bind_their_own_parameters(sim: GpuFlowLenia, pass: FlowPass)
    ensures
        ({
            let bindings = sim.bindings_of(pass);
            let last = bindings[bindings.len() - 1];
            let own = match pass {
                FlowPass::Normalize => FlowBuffer::NormalizeParams,
                FlowPass::Growth { .. } => FlowBuffer::GrowthParams,
                FlowPass::ChannelAggregate => FlowBuffer::AggregateParams,
                FlowPass::WallInteraction => FlowBuffer::WallParams,
                FlowPass::SumChannels => FlowBuffer::SumChannelsParams,
                FlowPass::SobelU => FlowBuffer::SobelUParams,
                FlowPass::SobelA => FlowBuffer::SobelAParams,
                FlowPass::FlowField => FlowBuffer::FlowFieldParams,
                _ => FlowBuffer::ReintegrationParams,
            };
            if pass is CopyToConv || pass is ComplexMul {
                forall|i: int|
                    0 <= i < bindings.len() ==> kind_of((#[trigger] bindings[i]).0)
                        != BufferKind::Uniform
            } else {
                last == (own, Extent::Entire)
            }
        }),
{
}

/// The growth of the channels is summed by the lists of kernels, and obstacles act on
/// what was summed.
pub proof fn growth_is_summed_by_the_lists(sim: GpuFlowLenia)
    ensures
        ({
            let sum = sim.bindings_of(FlowPass::ChannelAggregate);
            let wall = sim.bindings_of(FlowPass::WallInteraction);
            &&& sum[0] == (FlowBuffer::U, Extent::Entire)
            &&& sum[1] == (FlowBuffer::UChannel, Extent::Entire)
            &&& sum[2] == (FlowBuffer::C1Flat, Extent::Entire)
            &&& sum[3] == (FlowBuffer::C1Offsets, Extent::Entire)
            &&& wall[0] == (FlowBuffer::Obstacle, Extent::Entire)
            &&& wall[1] == sum[1]
        }),
{
}

/// Each pass writes the buffers that the passes after it read, and those alone: the
/// bindings that its shader writes.
pub proof fn passes_write_their_results(sim: GpuFlowLenia, pass: FlowPass, i: int)
    requires
        0 <= i < sim.bindings_of(pass).len(),
    ensures
        sim.bindings_of(pass).len() == layout_of(shader_of(pass)).len(),
        layout_of(shader_of(pass))[i] == Access::ReadWrite <==> {
            let buffer = sim.bindings_of(pass)[i].0;
            match pass {
                FlowPass::CopyToConv { .. } | FlowPass::ComplexMul { .. } | FlowPass::Normalize =>
                    buffer == FlowBuffer::Conv,
                FlowPass::Growth { .. } => buffer == FlowBuffer::U || buffer == FlowBuffer::ConvX,
                FlowPass::ChannelAggregate | FlowPass::WallInteraction => buffer
                    == FlowBuffer::UChannel,
                FlowPass::SumChannels => buffer == FlowBuffer::SumA,
                FlowPass::SobelU => buffer == FlowBuffer::NablaUX || buffer == FlowBuffer::NablaUY,
                FlowPass::SobelA => buffer == FlowBuffer::NablaAX || buffer == FlowBuffer::NablaAY,
                FlowPass::FlowField => buffer == FlowBuffer::FlowX || buffer == FlowBuffer::FlowY,
                FlowPass::Reintegration => buffer == FlowBuffer::NewChannel,
            }
        },
{
}

/// Every pass runs the shader of its name; both gradients run the same one.
pub proof fn passes_run_their_own_shaders(pass: FlowPass)
    ensures
        shader_of(pass) == FlowShader::CopyToConv <==> pass is CopyToConv,
        shader_of(pass) == FlowShader::ComplexMul <==> pass is ComplexMul,
        shader_of(pass) == FlowShader::Normalize <==> pass is Normalize,
        shader_of(pass) == FlowShader::Growth <==> pass is Growth,
        shader_of(pass) == FlowShader::ChannelAggregate <==> pass is ChannelAggregate,
        shader_of(pass) == FlowShader::WallInteraction <==> pass is WallInteraction,
        shader_of(pass) == FlowShader::SumChannels <==> pass is SumChannels,
        shader_of(pass) == FlowShader::Sobel <==> pass is SobelU || pass is SobelA,
        shader_of(pass) == FlowShader::FlowField <==> pass is FlowField,
        shader_of(pass) == FlowShader::Reintegration <==> pass is Reintegration,
{
}

/// A planned simulation has a forward and an inverse transform for each of its two axes,
/// each of the length of the axis, which is a power of two, and with a stage for each of
/// its digits.
pub proof fn every_axis_has_both_transforms(sim: GpuFlowLenia, axis: int)
    requires
        sim.wf(),
        axis == 0 || axis == 1,
    ensures
        sim.shape.len() == 2,
        sim.total_elements == sim.shape@[0] * sim.shape@[1],
        is_transform_of(sim.forward_fft_1d@[axis], sim.shape@[axis] as int, false),
        is_transform_of(sim.inverse_fft_1d@[axis], sim.shape@[axis] as int, true),
{
}

/// Whether `fft` transforms `n` numbers in the given direction.
pub open spec fn is_transform_of(fft: WgpuFFT1D, n: int, inverse: bool) -> bool {
    &&& fft.n == n
    &&& fft.inverse == inverse
    &&& n == pow2(fft.num_stages as nat)
}

/// The same holds of every axis of a simulation with a single channel, and of a plan for
/// arrays.
pub proof fn every_axis_has_its_transform(sim: GpuLenia, fft: WgpuFFTND, axis: int)
    ensures
        sim.wf() && 0 <= axis < sim.shape.len() ==> is_transform_of(
            sim.forward_fft_1d@[axis],
            sim.shape@[axis] as int,
            false,
        ) && is_transform_of(sim.inverse_fft_1d@[axis], sim.shape@[axis] as int, true),
        fft.wf() && 0 <= axis < fft.shape.len() ==> is_transform_of(
            fft.fft_1d_instances@[axis],
            fft.shape@[axis] as int,
            fft.inverse,
        ),
{
    if sim.wf() && 0 <= axis < sim.shape.len() {
        assert(sim.axis_planned(axis));
    }
    if fft.wf() && 0 <= axis < fft.shape.len() {
        assert(fft.fft_1d_instances@[axis].wf());
    }
}

/// Channels are re-initialized one after the other until there is no list left, no channel
/// left, or a list that does not have one number for each cell.
pub proof fn channels_are_filled_up_to_the_first_misfit(
    sim: GpuFlowLenia,
    data: Seq<Vec<u32>>,
    count: int,
    n: int,
)
    requires
        sim.is_fitting_prefix(data, count),
        0 <= n,
    ensures
        n <= count <==> n <= data.len() && n <= sim.num_channels && forall|c: int|
            0 <= c < n ==> (#[trigger] data[c]).len() == sim.total_elements,
{
    if n > count {
        if n <= data.len() && n <= sim.num_channels {
            assert(data[count].len() != sim.total_elements);
        }
    }
}

/// An iteration convolves every kernel in turn, in ten steps each, and then moves the
/// channels in ten steps more.
pub proof fn iterations_take_the_kernels_in_turn(sim: GpuFlowLenia, k: int)
    requires
        0 <= k < sim.num_kernels,
    ensures
        ({
            let commands = sim.commands();
            let kernel = k as usize;
            let (w, h) = (sim.shape@[0], sim.shape@[1]);
            let rows = LaneLayout { num_lanes: h, lane_stride: w as u32, elem_stride: 1 };
            let columns = LaneLayout { num_lanes: w, lane_stride: 1, elem_stride: w as u32 };
            let groups = groups_for(sim.total_elements as nat) as u32;
            let pass = |pass: FlowPass| FlowCommand::Dispatch { pass, groups };
            &&& commands.len() == 10 * sim.num_kernels + 10
            &&& commands[10 * k] == (FlowCommand::WriteGrowthParams { kernel })
            &&& commands[10 * k + 1] == pass(FlowPass::CopyToConv { kernel })
            &&& commands[10 * k + 2] == (FlowCommand::Transform {
                inverse: false,
                axis: 0,
                lanes: rows,
            })
            &&& commands[10 * k + 3] == (FlowCommand::Transform {
                inverse: false,
                axis: 1,
                lanes: columns,
            })
            &&& commands[10 * k + 4] == pass(FlowPass::ComplexMul { kernel })
            &&& commands[10 * k + 5] == (FlowCommand::Transform {
                inverse: true,
                axis: 1,
                lanes: columns,
            })
            &&& commands[10 * k + 6] == (FlowCommand::Transform {
                inverse: true,
                axis: 0,
                lanes: rows,
            })
            &&& commands[10 * k + 7] == pass(FlowPass::Normalize)
            &&& commands[10 * k + 8] == pass(FlowPass::Growth { kernel })
            &&& commands[10 * k + 9] == FlowCommand::Submit
        }),
{
    lemma_kernel_places(sim, sim.num_kernels as nat, k);
    let before = sim.kernels_commands(sim.num_kernels as nat);
    assert forall|j: int| 0 <= j < 10 implies #[trigger] sim.commands()[10 * k + j]
        == before[10 * k + j] by {}
    let own = sim.kernel_commands(k);
    assert(before[10 * k + 0] == own[0]);
    assert(before[10 * k + 1] == own[1]);
    assert(before[10 * k + 2] == own[2]);
    assert(before[10 * k + 3] == own[3]);
    assert(before[10 * k + 4] == own[4]);
    assert(before[10 * k + 5] == own[5]);
    assert(before[10 * k + 6] == own[6]);
    assert(before[10 * k + 7] == own[7]);
    assert(before[10 * k + 8] == own[8]);
    assert(before[10 * k + 9] == own[9]);
}

/// Where the steps of a kernel are.
proof fn lemma_kernel_places(sim: GpuFlowLenia, count: nat, k: int)
    requires
        0 <= k < count,
    ensures
        sim.kernels_commands(count).len() == 10 * count,
        forall|j: int|
            0 <= j < 10 ==> sim.kernels_commands(count)[10 * k + j]
                == #[trigger] sim.kernel_commands(k)[j],
    decreases count,
{
    let m = (count - 1) as nat;
    lemma_kernel_count(sim, m);
    if k < m {
        lemma_kernel_places(sim, m, k);
        assert forall|j: int| 0 <= j < 10 implies sim.kernels_commands(count)[10 * k + j]
            == #[trigger] sim.kernel_commands(k)[j] by {
            assert(sim.kernels_commands(count)[10 * k + j] == sim.kernels_commands(m)[10 * k + j]);
        }
    }
}

/// The kernels take ten steps each.
proof fn lemma_kernel_count(sim: GpuFlowLenia, count: nat)
    ensures
        sim.kernels_commands(count).len() == 10 * count,
    decreases count,
{
    if count > 0 {
        lemma_kernel_count(sim, (count - 1) as nat);
    }
}

/// After the kernels, the growth of the channels is summed, obstacles act on it, the
/// gradients and the flow are computed, the channels are moved and the result is copied
/// over them.
pub proof fn iterations_move_the_channels_last(sim: GpuFlowLenia)
    requires
        sim.can_iterate(),
    ensures
        ({
            let commands = sim.commands();
            let n = 10 * sim.num_kernels as int;
            let groups = groups_for(sim.total_elements as nat) as u32;
            let all = groups_for((sim.total_elements * sim.num_channels) as nat) as u32;
            &&& commands.len() == n + 10
            &&& commands[n] == (FlowCommand::Dispatch {
                pass: FlowPass::ChannelAggregate,
                groups: all,
            })
            &&& commands[n + 1] == (FlowCommand::Dispatch {
                pass: FlowPass::WallInteraction,
                groups: all,
            })
            &&& commands[n + 2] == (FlowCommand::Dispatch { pass: FlowPass::SumChannels, groups })
            &&& commands[n + 3] == (FlowCommand::Dispatch { pass: FlowPass::SobelU, groups: all })
            &&& commands[n + 4] == (FlowCommand::Dispatch { pass: FlowPass::SobelA, groups })
            &&& commands[n + 5] == (FlowCommand::Dispatch {
                pass: FlowPass::FlowField,
                groups: all,
            })
            &&& commands[n + 6] == (FlowCommand::Dispatch {
                pass: FlowPass::Reintegration,
                groups: all,
            })
            &&& commands[n + 7] == FlowCommand::Submit
            &&& commands[n + 8] matches FlowCommand::Copy { source, target, size } && source
                == FlowBuffer::NewChannel && target == FlowBuffer::Channel && size
                == sim.size_of(FlowBuffer::Channel)
            &&& commands[n + 9] == FlowCommand::Submit
        }),
{
    lemma_kernel_count(sim, sim.num_kernels as nat);
    let first = sim.kernels_commands(sim.num_kernels as nat);
    let n = first.len() as int;
    let last = sim.flow_commands();
    assert forall|j: int| 0 <= j < 10 implies #[trigger] sim.commands()[n + j] == last[j] by {}
    assert(sim.commands()[n + 0] == last[0]);
}

/// Running `n` steps repeats the steps of an iteration.
pub proof fn steps_repeat_the_iteration(sim: GpuFlowLenia, n: nat, m: nat)
    ensures
        sim.repeated_commands(0).len() == 0,
        sim.repeated_commands(1) == sim.commands(),
        sim.repeated_commands(n + m) == sim.repeated_commands(n) + sim.repeated_commands(m),
    decreases m,
{
    reveal_with_fuel(GpuFlowLenia::repeated_commands, 2);
    assert(sim.repeated_commands(1) =~= sim.commands());
    if m > 0 {
        steps_repeat_the_iteration(sim, n, (m - 1) as nat);
        assert(sim.repeated_commands(n + m) =~= sim.repeated_commands(n) + sim.repeated_commands(
            m,
        ));
    } else {
        assert(sim.repeated_commands(n + m) =~= sim.repeated_commands(n) + sim.repeated_commands(
            m,
        ));
    }
}

} // verus!
