//! What the plan of a Lenia simulation with a single channel sends to the device, and when
//! simulations are ready to run.
use crate::gpu::{groups_for, BufferKind, Word};
use crate::gpu_flow_lenia::GpuFlowLenia;
use crate::gpu_lenia::{
    growth_words, lenia_bindings, lenia_kind, GpuGrowthFn, GpuLenia, LeniaBuffer, LeniaCommand,
    LeniaPass,
};
use crate::lanes::volume;
use crate::wfft::LaneLayout;
use vstd::prelude::*;

verus! {

/// The update pass is sent the number of cells, the time step, a weight of one, and one as
/// the reciprocal of the sum of weights.
pub proof fn updates_are_sent_the_time_step(sim: GpuLenia)
    requires
        sim.wf(),
    ensures
        ({
            let words = sim.update_words();
            &&& words.len() == 4
            &&& words[0] == Word::FloatOf(volume(sim.shape@) as u64)
            &&& words[1] == Word::Float(sim.dt)
            &&& words[2] == Word::Float(0x3f80_0000)
            &&& words[3] == Word::Float(0x3f80_0000)
        }),
{
}

/// The growth pass is sent the parameters of its growth function.
pub proof fn growth_is_sent_its_parameters(mu: u32, sigma: u32, multiplier: u32)
    ensures
        ({
            let bump = growth_words(GpuGrowthFn::StandardLenia { mu, sigma });
            let multiple = growth_words(GpuGrowthFn::Pass { multiplier });
            &&& bump.len() == 2
            &&& bump[0] == Word::Float(mu)
            &&& bump[1] == Word::Float(sigma)
            &&& multiple.len() == 1
            &&& multiple[0] == Word::Float(multiplier)
        }),
{
}

/// The fields of the grid have four bytes for each cell, complex ones eight, and the
/// parameter blocks four bytes for each of their words.
pub proof fn lenia_fields_have_a_number_for_each_cell(sim: GpuLenia)
    requires
        sim.wf(),
    ensures
        ({
            let cells = volume(sim.shape@);
            &&& sim.size_of(LeniaBuffer::Channel) == 4 * cells
            &&& sim.size_of(LeniaBuffer::Delta) == 4 * cells
            &&& sim.size_of(LeniaBuffer::GrowthResult) == 4 * cells
            &&& sim.size_of(LeniaBuffer::Staging) == 4 * cells
            &&& sim.size_of(LeniaBuffer::Readback) == 4 * cells
            &&& sim.size_of(LeniaBuffer::Conv) == 8 * cells
            &&& sim.size_of(LeniaBuffer::Kernel) == 8 * cells
            &&& sim.size_of(LeniaBuffer::UpdateParams) == 4 * sim.update_words().len()
            &&& sim.size_of(LeniaBuffer::GrowthParams) == 4 * 2int
            &&& sim.size_of(LeniaBuffer::NormalizeParams) == 4
        }),
{
}

/// The buffers are of the kinds that their use asks for.
pub proof fn lenia_buffers_are_of_their_kinds(buffer: LeniaBuffer)
    ensures
        lenia_kind(buffer) == BufferKind::Uniform <==> buffer == LeniaBuffer::GrowthParams || buffer
            == LeniaBuffer::UpdateParams || buffer == LeniaBuffer::NormalizeParams,
        lenia_kind(buffer) == BufferKind::Staging <==> buffer == LeniaBuffer::Staging,
        lenia_kind(buffer) == BufferKind::Readback <==> buffer == LeniaBuffer::Readback,
        lenia_kind(buffer) != BufferKind::StorageInput,
{
}

/// Each pass reads what the passes before it wrote: the state is copied to the transform
/// grid, multiplied there by the kernel and divided, its growth is taken, and the state is
/// changed by it.
pub proof fn lenia_passes_hand_on_their_results()
    ensures
        ({
            let copy = lenia_bindings(LeniaPass::CopyToConv);
            let multiply = lenia_bindings(LeniaPass::ComplexMul);
            let normalize = lenia_bindings(LeniaPass::Normalize);
            let growth = lenia_bindings(LeniaPass::Growth);
            let update = lenia_bindings(LeniaPass::Update);
            &&& copy.len() == 2 && multiply.len() == 2 && normalize.len() == 2
            &&& growth.len() == 3 && update.len() == 4
            &&& copy[0].0 == LeniaBuffer::Channel && copy[1].0 == LeniaBuffer::Conv
            &&& multiply[0].0 == copy[1].0 && multiply[1].0 == LeniaBuffer::Kernel
            &&& normalize[0].0 == copy[1].0 && normalize[1].0 == LeniaBuffer::NormalizeParams
            &&& growth[0].0 == copy[1].0 && growth[1].0 == LeniaBuffer::GrowthResult
            &&& growth[2].0 == LeniaBuffer::GrowthParams
            &&& update[0].0 == copy[0].0 && update[1].0 == LeniaBuffer::Delta
            &&& update[2].0 == growth[1].0 && update[3].0 == LeniaBuffer::UpdateParams
        }),
{
}

/// An iteration transforms the state along both axes, multiplies, transforms back in the
/// opposite order, divides, takes the growth and updates the state.
pub proof fn lenia_iterations_convolve_and_update(sim: GpuLenia)
    requires
        sim.can_iterate(),
    ensures
        ({
            let commands = sim.commands();
            let (cells, w, h) = (sim.total_elements, sim.shape@[0], sim.shape@[1]);
            let groups = groups_for(cells as nat) as u32;
            let pass = |pass: LeniaPass| LeniaCommand::Dispatch { pass, groups };
            let rows = LaneLayout { num_lanes: cells / w, lane_stride: w as u32, elem_stride: 1 };
            let columns = LaneLayout {
                num_lanes: cells / h,
                lane_stride: 1,
                elem_stride: w as u32,
            };
            &&& commands.len() == 11
            &&& commands[0] == LeniaCommand::WriteNormalizeParams
            &&& commands[1] == pass(LeniaPass::CopyToConv)
            &&& commands[2] == (LeniaCommand::Transform { inverse: false, axis: 0, lanes: rows })
            &&& commands[3] == (LeniaCommand::Transform { inverse: false, axis: 1, lanes: columns })
            &&& commands[4] == pass(LeniaPass::ComplexMul)
            &&& commands[5] == (LeniaCommand::Transform { inverse: true, axis: 1, lanes: columns })
            &&& commands[6] == (LeniaCommand::Transform { inverse: true, axis: 0, lanes: rows })
            &&& commands[7] == pass(LeniaPass::Normalize)
            &&& commands[8] == pass(LeniaPass::Growth)
            &&& commands[9] == pass(LeniaPass::Update)
            &&& commands[10] == LeniaCommand::Submit
        }),
{
}

/// A simulation is ready just if it is planned, has two axes to transform, and its
/// workgroup counts fit in 32 bits.
pub proof fn lenia_is_ready_with_two_axes(sim: GpuLenia)
    requires
        sim.wf(),
    ensures
        sim.can_iterate() <==> sim.shape.len() >= 2 && sim.total_elements <= u32::MAX - 255,
{
}

/// A Flow Lenia simulation is ready just if every kernel has its parameters and a source
/// channel that exists, and its workgroup counts fit in 32 bits.
pub proof fn flow_lenia_is_ready_with_complete_tables(sim: GpuFlowLenia)
    requires
        sim.wf(),
    ensures
        sim.can_iterate() <==> {
            &&& sim.c0.len() >= sim.num_kernels
            &&& sim.kernel_m.len() >= sim.num_kernels
            &&& sim.kernel_s.len() >= sim.num_kernels
            &&& sim.kernel_h.len() >= sim.num_kernels
            &&& forall|k: int|
                0 <= k < sim.num_kernels ==> (#[trigger] sim.c0@[k]) < sim.num_channels
            &&& sim.total_elements <= u32::MAX - 255
            &&& sim.total_elements * sim.num_channels <= u32::MAX - 255
        },
{
}

} // verus!
