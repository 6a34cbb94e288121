//! The Flow Lenia simulation: several kernels and channels, a flow field from Sobel
//! gradients, and reintegration tracking.
//!
//! The state of a simulation lives in device buffers. This module plans what happens
//! to them: their sizes, the parameter blocks, the bindings and workgroup counts of
//! every compute pass, the order of the passes, and the places of channels and
//! kernels within the packed buffers.
use crate::bytes::ByteOrder;
use crate::gpu::{
    copy_words, extent_bounds, groups_for, interleave, interleaved, kind_allows, load_beside_store,
    load_of_store, loaded, pair_up, paired, pairs_of_interleaved, stored, workgroups, Access,
    BufferKind, Complex32Bits, Download, Extent, ParamBlock, Upload, Word,
};
use crate::power::{is_power_of_two, log2_of};
use crate::wfft::{LaneLayout, WgpuFFT1D};
use vstd::arithmetic::div_mod::*;
use vstd::arithmetic::mul::*;
use vstd::arithmetic::power2::*;
use vstd::prelude::*;

pub use crate::kernels::generate_flow_kernels;

verus! {

/// The device buffers of a simulation.
#[derive(Clone, Copy, Debug, PartialEq, Eq, Structural)]
pub enum FlowBuffer {
    /// All channels, one after the other.
    Channel,
    /// The channels after reintegration.
    NewChannel,
    /// The grid that the transforms work on.
    Conv,
    /// The real part of the convolution of each kernel.
    ConvX,
    /// The transforms of all kernels, one after the other.
    Kernel,
    /// The growth of each kernel.
    U,
    /// The growth of each channel.
    UChannel,
    /// The gradient of the growth of each channel.
    NablaUX,
    NablaUY,
    /// The gradient of the sum of the channels.
    NablaAX,
    NablaAY,
    /// The sum of the channels.
    SumA,
    /// The flow field of each channel.
    FlowX,
    FlowY,
    /// The obstacles.
    Obstacle,
    /// The parameters of the passes.
    GrowthParams,
    NormalizeParams,
    AggregateParams,
    SobelUParams,
    SobelAParams,
    SumChannelsParams,
    FlowFieldParams,
    ReintegrationParams,
    WallParams,
    /// The kernels that contribute to each channel, one channel after the other.
    C1Flat,
    /// Where the kernels of each channel start.
    C1Offsets,
    /// One channel, copied for the host to read.
    Readback,
}

/// The compute shaders of a simulation.
#[derive(Clone, Copy, Debug, PartialEq, Eq, Structural)]
pub enum FlowShader {
    CopyToConv,
    ComplexMul,
    Normalize,
    Growth,
    ChannelAggregate,
    Sobel,
    SumChannels,
    FlowField,
    Reintegration,
    WallInteraction,
}

/// The compute passes of an iteration.
#[derive(Clone, Copy, Debug, PartialEq, Eq, Structural)]
pub enum FlowPass {
    /// Copy the source channel of a kernel to the transform grid.
    CopyToConv { kernel: usize },
    /// Multiply the transform by that of a kernel.
    ComplexMul { kernel: usize },
    /// Divide by the length of the transforms.
    Normalize,
    /// The growth of a kernel.
    Growth { kernel: usize },
    /// Sum the growth of the kernels of each channel.
    ChannelAggregate,
    /// Negative growth near obstacles.
    WallInteraction,
    /// Sum the channels.
    SumChannels,
    /// The gradient of the growth of each channel.
    SobelU,
    /// The gradient of the sum of the channels.
    SobelA,
    /// The flow field.
    FlowField,
    /// Move the channels along the flow.
    Reintegration,
}

/// A step of an iteration.
#[derive(Clone, Copy, Debug, PartialEq, Eq, Structural)]
pub enum FlowCommand {
    /// Write the growth parameters of a kernel.
    WriteGrowthParams { kernel: usize },
    /// Run a compute pass.
    Dispatch { pass: FlowPass, groups: u32 },
    /// Transform the lanes of the transform grid along an axis.
    Transform { inverse: bool, axis: usize, lanes: LaneLayout },
    /// Copy the start of a buffer to the start of another.
    Copy { source: FlowBuffer, target: FlowBuffer, size: u64 },
    /// Submit what has been recorded.
    Submit,
}

/// What re-initializing the channels comes to.
#[derive(Debug)]
pub struct ChannelLoad {
    /// One for every channel that is put in place, in order.
    pub uploads: Vec<Upload<FlowBuffer>>,
    /// Whether every list was put in place.
    pub complete: bool,
}

/// A planned simulation. Single-precision parameters are held as bit patterns.
#[derive(Debug)]
pub struct GpuFlowLenia {
    pub shape: Vec<usize>,
    pub total_elements: usize,
    pub dt: u32,
    pub num_channels: usize,
    pub num_kernels: usize,
    pub dd: i32,
    pub sigma: u32,
    pub basal_metabolic_rate: u32,
    pub kinetic_cost: u32,
    /// The source channel of each kernel.
    pub c0: Vec<u32>,
    pub c1_flat: Vec<u32>,
    pub c1_offsets: Vec<u32>,
    /// The growth parameters of each kernel.
    pub kernel_m: Vec<u32>,
    pub kernel_s: Vec<u32>,
    pub kernel_h: Vec<u32>,
    pub forward_fft_1d: Vec<WgpuFFT1D>,
    pub inverse_fft_1d: Vec<WgpuFFT1D>,
}

/// The first `count` lists, one after the other.
pub open spec fn flattened(lists: Seq<Vec<u32>>, count: nat) -> Seq<u32>
    decreases count,
{
    if count == 0 {
        Seq::empty()
    } else {
        flattened(lists, (count - 1) as nat) + lists[count - 1]@
    }
}

/// Where each of the first `count` lists starts in their concatenation, and where
/// the last one ends.
pub open spec fn list_offsets(lists: Seq<Vec<u32>>, count: nat) -> Seq<u32> {
    Seq::new(count + 1, |c: int| flattened(lists, c as nat).len() as u32)
}

/// A longer concatenation starts with a shorter one.
proof fn lemma_flattened_prefix(lists: Seq<Vec<u32>>, a: nat, b: nat)
    requires
        a <= b,
    ensures
        flattened(lists, a).len() <= flattened(lists, b).len(),
        flattened(lists, b).take(flattened(lists, a).len() as int) == flattened(lists, a),
    decreases b,
{
    if a == b {
        assert(flattened(lists, b).take(flattened(lists, a).len() as int) =~= flattened(lists, a));
    } else {
        lemma_flattened_prefix(lists, a, (b - 1) as nat);
        let short = flattened(lists, (b - 1) as nat);
        let n = flattened(lists, a).len() as int;
        assert(flattened(lists, b).take(n) =~= short.take(n));
    }
}

/// The part of the concatenation between two neighbouring offsets is the list of
/// that channel, as long as the offsets fit in 32 bits.
pub proof fn flattened_lists_are_found(lists: Seq<Vec<u32>>, count: nat, c: int)
    requires
        0 <= c < count,
        flattened(lists, count).len() <= u32::MAX,
    ensures
        flattened(lists, count).subrange(
            list_offsets(lists, count)[c] as int,
            list_offsets(lists, count)[c + 1] as int,
        ) == lists[c]@,
{
    lemma_flattened_prefix(lists, c as nat, count);
    lemma_flattened_prefix(lists, (c + 1) as nat, count);
    let all = flattened(lists, count);
    let upto = flattened(lists, (c + 1) as nat);
    let from = flattened(lists, c as nat).len() as int;
    assert(upto == flattened(lists, c as nat) + lists[c]@);
    assert(all.subrange(from, upto.len() as int) =~= all.take(upto.len() as int).subrange(
        from,
        upto.len() as int,
    ));
    assert(upto.subrange(from, upto.len() as int) =~= lists[c]@);
}

/// Concatenates the first `count` lists, and notes where each of them starts.
pub fn flatten_lists(lists: &Vec<Vec<u32>>, count: usize) -> (r: (Vec<u32>, Vec<u32>))
    requires
        count <= lists.len(),
    ensures
        r.0@ == flattened(lists@, count as nat),
        r.1@ == list_offsets(lists@, count as nat),
{
    let mut flat: Vec<u32> = Vec::new();
    let mut offsets: Vec<u32> = Vec::new();
    offsets.push(0);
    let mut c: usize = 0;
    assert(offsets@ =~= list_offsets(lists@, 0));
    while c < count
        invariant
            c <= count <= lists.len(),
            flat@ == flattened(lists@, c as nat),
            offsets@ == list_offsets(lists@, c as nat),
        decreases count - c,
    {
        let list: &Vec<u32> = &lists[c];
        let mut i: usize = 0;
        assert(list@.take(0) =~= Seq::empty());
        while i < list.len()
            invariant
                i <= list.len(),
                list@ == lists@[c as int]@,
                flat@ == flattened(lists@, c as nat) + list@.take(i as int),
            decreases list.len() - i,
        {
            flat.push(list[i]);
            i = i + 1;
            assert(flat@ =~= flattened(lists@, c as nat) + list@.take(i as int));
        }
        assert(list@.take(i as int) =~= list@);
        offsets.push(flat.len() as u32);
        c = c + 1;
        assert(offsets@ =~= list_offsets(lists@, c as nat));
    }
    (flat, offsets)
}

/// The buffers of a simulation, in the order they are created.
pub open spec fn all_buffers() -> Seq<FlowBuffer> {
    seq![
        FlowBuffer::Channel,
        FlowBuffer::NewChannel,
        FlowBuffer::Conv,
        FlowBuffer::Kernel,
        FlowBuffer::U,
        FlowBuffer::ConvX,
        FlowBuffer::UChannel,
        FlowBuffer::NablaUX,
        FlowBuffer::NablaUY,
        FlowBuffer::NablaAX,
        FlowBuffer::NablaAY,
        FlowBuffer::SumA,
        FlowBuffer::FlowX,
        FlowBuffer::FlowY,
        FlowBuffer::Obstacle,
        FlowBuffer::GrowthParams,
        FlowBuffer::NormalizeParams,
        FlowBuffer::AggregateParams,
        FlowBuffer::SobelUParams,
        FlowBuffer::SobelAParams,
        FlowBuffer::SumChannelsParams,
        FlowBuffer::FlowFieldParams,
        FlowBuffer::ReintegrationParams,
        FlowBuffer::WallParams,
        FlowBuffer::C1Flat,
        FlowBuffer::C1Offsets,
        FlowBuffer::Readback,
    ]
}

/// The parameter buffers that are filled when a simulation is created, in order.
pub open spec fn initial_buffers() -> Seq<FlowBuffer> {
    seq![
        FlowBuffer::NormalizeParams,
        FlowBuffer::AggregateParams,
        FlowBuffer::SobelUParams,
        FlowBuffer::SobelAParams,
        FlowBuffer::SumChannelsParams,
        FlowBuffer::FlowFieldParams,
        FlowBuffer::ReintegrationParams,
        FlowBuffer::WallParams,
    ]
}

/// Every buffer is created, and none twice.
pub proof fn every_buffer_is_created(buffer: FlowBuffer)
    ensures
        all_buffers().contains(buffer),
        all_buffers().no_duplicates(),
{
    let place: int = match buffer {
        FlowBuffer::Channel => 0,
        FlowBuffer::NewChannel => 1,
        FlowBuffer::Conv => 2,
        FlowBuffer::Kernel => 3,
        FlowBuffer::U => 4,
        FlowBuffer::ConvX => 5,
        FlowBuffer::UChannel => 6,
        FlowBuffer::NablaUX => 7,
        FlowBuffer::NablaUY => 8,
        FlowBuffer::NablaAX => 9,
        FlowBuffer::NablaAY => 10,
        FlowBuffer::SumA => 11,
        FlowBuffer::FlowX => 12,
        FlowBuffer::FlowY => 13,
        FlowBuffer::Obstacle => 14,
        FlowBuffer::GrowthParams => 15,
        FlowBuffer::NormalizeParams => 16,
        FlowBuffer::AggregateParams => 17,
        FlowBuffer::SobelUParams => 18,
        FlowBuffer::SobelAParams => 19,
        FlowBuffer::SumChannelsParams => 20,
        FlowBuffer::FlowFieldParams => 21,
        FlowBuffer::ReintegrationParams => 22,
        FlowBuffer::WallParams => 23,
        FlowBuffer::C1Flat => 24,
        FlowBuffer::C1Offsets => 25,
        FlowBuffer::Readback => 26,
    };
    assert(all_buffers()[place] == buffer);
}

/// When a simulation is created, every parameter buffer is filled but that of the
/// growth, which is written for each kernel.
pub proof fn initial_parameters_are_complete(buffer: FlowBuffer)
    ensures
        initial_buffers().contains(buffer) <==> is_param_buffer(buffer) && buffer
            != FlowBuffer::GrowthParams,
{
    let filled = initial_buffers();
    if is_param_buffer(buffer) && buffer != FlowBuffer::GrowthParams {
        let place: int = match buffer {
            FlowBuffer::NormalizeParams => 0,
            FlowBuffer::AggregateParams => 1,
            FlowBuffer::SobelUParams => 2,
            FlowBuffer::SobelAParams => 3,
            FlowBuffer::SumChannelsParams => 4,
            FlowBuffer::FlowFieldParams => 5,
            FlowBuffer::ReintegrationParams => 6,
            _ => 7,
        };
        assert(filled[place] == buffer);
    }
}

/// Whether a buffer holds the parameters of a pass.
pub open spec fn is_param_buffer(buffer: FlowBuffer) -> bool {
    match buffer {
        FlowBuffer::GrowthParams
        | FlowBuffer::NormalizeParams
        | FlowBuffer::AggregateParams
        | FlowBuffer::SobelUParams
        | FlowBuffer::SobelAParams
        | FlowBuffer::SumChannelsParams
        | FlowBuffer::FlowFieldParams
        | FlowBuffer::ReintegrationParams
        | FlowBuffer::WallParams => true,
        _ => false,
    }
}

/// The byte order of a parameter block: blocks that mix integers and floats are
/// little-endian, the others in the order of the machine.
pub open spec fn order_of(buffer: FlowBuffer) -> ByteOrder {
    match buffer {
        FlowBuffer::FlowFieldParams | FlowBuffer::ReintegrationParams => ByteOrder::Little,
        _ => ByteOrder::Native,
    }
}

/// What a buffer is used for.
pub open spec fn kind_of(buffer: FlowBuffer) -> BufferKind {
    if is_param_buffer(buffer) {
        BufferKind::Uniform
    } else {
        match buffer {
            FlowBuffer::C1Flat | FlowBuffer::C1Offsets => BufferKind::StorageInput,
            FlowBuffer::Readback => BufferKind::Readback,
            _ => BufferKind::Storage,
        }
    }
}

/// The shader of a pass.
pub open spec fn shader_of(pass: FlowPass) -> FlowShader {
    match pass {
        FlowPass::CopyToConv { .. } => FlowShader::CopyToConv,
        FlowPass::ComplexMul { .. } => FlowShader::ComplexMul,
        FlowPass::Normalize => FlowShader::Normalize,
        FlowPass::Growth { .. } => FlowShader::Growth,
        FlowPass::ChannelAggregate => FlowShader::ChannelAggregate,
        FlowPass::WallInteraction => FlowShader::WallInteraction,
        FlowPass::SumChannels => FlowShader::SumChannels,
        FlowPass::SobelU | FlowPass::SobelA => FlowShader::Sobel,
        FlowPass::FlowField => FlowShader::FlowField,
        FlowPass::Reintegration => FlowShader::Reintegration,
    }
}

/// How a shader accesses its bindings, by index.
pub open spec fn layout_of(shader: FlowShader) -> Seq<Access> {
    match shader {
        FlowShader::CopyToConv => seq![Access::ReadOnly, Access::ReadWrite],
        FlowShader::ComplexMul => seq![Access::ReadWrite, Access::ReadOnly],
        FlowShader::Normalize => seq![Access::ReadWrite, Access::Uniform],
        FlowShader::Growth | FlowShader::Sobel => seq![
            Access::ReadOnly,
            Access::ReadWrite,
            Access::ReadWrite,
            Access::Uniform,
        ],
        FlowShader::ChannelAggregate => seq![
            Access::ReadOnly,
            Access::ReadWrite,
            Access::ReadOnly,
            Access::ReadOnly,
            Access::Uniform,
        ],
        FlowShader::SumChannels | FlowShader::WallInteraction => seq![
            Access::ReadOnly,
            Access::ReadWrite,
            Access::Uniform,
        ],
        FlowShader::FlowField => seq![
            Access::ReadOnly,
            Access::ReadOnly,
            Access::ReadOnly,
            Access::ReadOnly,
            Access::ReadOnly,
            Access::ReadWrite,
            Access::ReadWrite,
            Access::Uniform,
        ],
        FlowShader::Reintegration => seq![
            Access::ReadOnly,
            Access::ReadOnly,
            Access::ReadOnly,
            Access::ReadWrite,
            Access::Uniform,
        ],
    }
}

impl GpuFlowLenia {
    /// The transforms of an axis are planned.
    pub open spec fn axis_planned(&self, axis: int) -> bool {
        &&& self.forward_fft_1d@[axis].wf()
        &&& self.forward_fft_1d@[axis].n == self.shape@[axis]
        &&& !self.forward_fft_1d@[axis].inverse
        &&& self.inverse_fft_1d@[axis].wf()
        &&& self.inverse_fft_1d@[axis].n == self.shape@[axis]
        &&& self.inverse_fft_1d@[axis].inverse
    }

    /// The grid has two axes whose lengths are powers of two, and every buffer has a
    /// size.
    pub open spec fn wf(&self) -> bool {
        &&& self.shape.len() == 2
        &&& self.forward_fft_1d.len() == 2
        &&& self.inverse_fft_1d.len() == 2
        &&& self.axis_planned(0)
        &&& self.axis_planned(1)
        &&& self.total_elements == self.shape@[0] * self.shape@[1]
        &&& self.total_elements * 8 <= usize::MAX
        &&& self.total_elements * self.num_channels * 4 <= usize::MAX
        &&& self.total_elements * self.num_kernels * 8 <= usize::MAX
        &&& self.c1_flat.len() * 4 <= usize::MAX
        &&& self.c1_offsets.len() == self.num_channels + 1
        &&& self.c1_offsets.len() * 4 <= usize::MAX
    }

    /// The size of a buffer in bytes.
    pub open spec fn size_of(&self, buffer: FlowBuffer) -> int {
        match buffer {
            FlowBuffer::Channel
            | FlowBuffer::NewChannel
            | FlowBuffer::UChannel
            | FlowBuffer::NablaUX
            | FlowBuffer::NablaUY
            | FlowBuffer::FlowX
            | FlowBuffer::FlowY => self.total_elements * self.num_channels * 4,
            FlowBuffer::Conv => self.total_elements * 8,
            FlowBuffer::Kernel => self.total_elements * self.num_kernels * 8,
            FlowBuffer::U | FlowBuffer::ConvX => self.total_elements * self.num_kernels * 4,
            FlowBuffer::NablaAX
            | FlowBuffer::NablaAY
            | FlowBuffer::SumA
            | FlowBuffer::Obstacle
            | FlowBuffer::Readback => self.total_elements * 4,
            FlowBuffer::NormalizeParams => 4,
            FlowBuffer::SumChannelsParams => 8,
            FlowBuffer::GrowthParams
            | FlowBuffer::AggregateParams
            | FlowBuffer::SobelUParams
            | FlowBuffer::SobelAParams
            | FlowBuffer::FlowFieldParams
            | FlowBuffer::WallParams => 12,
            FlowBuffer::ReintegrationParams => 36,
            FlowBuffer::C1Flat => self.c1_flat.len() * 4,
            FlowBuffer::C1Offsets => self.c1_offsets.len() * 4,
        }
    }

    /// The words of the parameters of a pass that do not change from kernel to
    /// kernel.
    pub open spec fn words_of(&self, buffer: FlowBuffer) -> Seq<Word> {
        let w = Word::Unsigned(self.shape@[0] as u32);
        let h = Word::Unsigned(self.shape@[1] as u32);
        let channels = Word::Unsigned(self.num_channels as u32);
        match buffer {
            FlowBuffer::NormalizeParams => seq![
                Word::InversePower { base: self.shape@[0] as u64, exponent: 2 },
            ],
            FlowBuffer::AggregateParams => seq![
                w,
                Word::Unsigned(self.num_kernels as u32),
                channels,
            ],
            FlowBuffer::SobelUParams | FlowBuffer::WallParams => seq![w, h, channels],
            FlowBuffer::SobelAParams => seq![w, h, Word::Unsigned(1)],
            FlowBuffer::SumChannelsParams => seq![w, channels],
            FlowBuffer::FlowFieldParams => seq![
                w,
                channels,
                Word::FloatOf(self.num_channels as u64),
            ],
            FlowBuffer::ReintegrationParams => seq![
                w,
                h,
                Word::Signed(self.dd),
                Word::Float(self.sigma),
                Word::Float(self.dt),
                channels,
                Word::FloatDifference { whole: self.dd, minus: self.sigma },
                Word::Float(self.basal_metabolic_rate),
                Word::Float(self.kinetic_cost),
            ],
            _ => seq![],
        }
    }

    /// The bindings of a pass: at each index the buffer and the bound part of it.
    pub open spec fn bindings_of(&self, pass: FlowPass) -> Seq<(FlowBuffer, Extent)> {
        let total = self.total_elements as int;
        match pass {
            FlowPass::CopyToConv { kernel } => seq![
                (
                    FlowBuffer::Channel,
                    Extent::Range {
                        offset: (self.c0@[kernel as int] * total * 4) as u64,
                        size: (total * 4) as u64,
                    },
                ),
                (FlowBuffer::Conv, Extent::Entire),
            ],
            FlowPass::ComplexMul { kernel } => seq![
                (FlowBuffer::Conv, Extent::Entire),
                (
                    FlowBuffer::Kernel,
                    Extent::Range {
                        offset: (kernel * total * 8) as u64,
                        size: (total * 8) as u64,
                    },
                ),
            ],
            FlowPass::Normalize => seq![
                (FlowBuffer::Conv, Extent::Entire),
                (FlowBuffer::NormalizeParams, Extent::Entire),
            ],
            FlowPass::Growth { kernel } => {
                let part = Extent::Range {
                    offset: (kernel * total * 4) as u64,
                    size: (total * 4) as u64,
                };
                seq![
                    (FlowBuffer::Conv, Extent::Entire),
                    (FlowBuffer::U, part),
                    (FlowBuffer::ConvX, part),
                    (FlowBuffer::GrowthParams, Extent::Entire),
                ]
            },
            FlowPass::ChannelAggregate => seq![
                (FlowBuffer::U, Extent::Entire),
                (FlowBuffer::UChannel, Extent::Entire),
                (FlowBuffer::C1Flat, Extent::Entire),
                (FlowBuffer::C1Offsets, Extent::Entire),
                (FlowBuffer::AggregateParams, Extent::Entire),
            ],
            FlowPass::WallInteraction => seq![
                (FlowBuffer::Obstacle, Extent::Entire),
                (FlowBuffer::UChannel, Extent::Entire),
                (FlowBuffer::WallParams, Extent::Entire),
            ],
            FlowPass::SumChannels => seq![
                (FlowBuffer::Channel, Extent::Entire),
                (FlowBuffer::SumA, Extent::Entire),
                (FlowBuffer::SumChannelsParams, Extent::Entire),
            ],
            FlowPass::SobelU => seq![
                (FlowBuffer::UChannel, Extent::Entire),
                (FlowBuffer::NablaUX, Extent::Entire),
                (FlowBuffer::NablaUY, Extent::Entire),
                (FlowBuffer::SobelUParams, Extent::Entire),
            ],
            FlowPass::SobelA => seq![
                (FlowBuffer::SumA, Extent::Entire),
                (FlowBuffer::NablaAX, Extent::Entire),
                (FlowBuffer::NablaAY, Extent::Entire),
                (FlowBuffer::SobelAParams, Extent::Entire),
            ],
            FlowPass::FlowField => seq![
                (FlowBuffer::Channel, Extent::Entire),
                (FlowBuffer::NablaUX, Extent::Entire),
                (FlowBuffer::NablaUY, Extent::Entire),
                (FlowBuffer::NablaAX, Extent::Entire),
                (FlowBuffer::NablaAY, Extent::Entire),
                (FlowBuffer::FlowX, Extent::Entire),
                (FlowBuffer::FlowY, Extent::Entire),
                (FlowBuffer::FlowFieldParams, Extent::Entire),
            ],
            FlowPass::Reintegration => seq![
                (FlowBuffer::Channel, Extent::Entire),
                (FlowBuffer::FlowX, Extent::Entire),
                (FlowBuffer::FlowY, Extent::Entire),
                (FlowBuffer::NewChannel, Extent::Entire),
                (FlowBuffer::ReintegrationParams, Extent::Entire),
            ],
        }
    }

    /// The pass is one of this simulation: its kernel exists and has a source
    /// channel.
    pub open spec fn has_pass(&self, pass: FlowPass) -> bool {
        match pass {
            FlowPass::CopyToConv { kernel } => {
                &&& kernel < self.num_kernels
                &&& kernel < self.c0.len()
                &&& self.c0@[kernel as int] < self.num_channels
            },
            FlowPass::ComplexMul { kernel } | FlowPass::Growth { kernel } => kernel
                < self.num_kernels,
            _ => true,
        }
    }

    /// Plans a simulation on a grid of two axes. `c0` gives the source channel of
    /// each kernel, `c1` the kernels that contribute to each channel.
    #[allow(clippy::too_many_arguments)]
    pub fn new(
        shape: &Vec<usize>,
        num_channels: usize,
        num_kernels: usize,
        c0: &Vec<u32>,
        c1: &Vec<Vec<u32>>,
        kernel_m: &Vec<u32>,
        kernel_s: &Vec<u32>,
        kernel_h: &Vec<u32>,
        dt: u32,
        dd: i32,
        sigma: u32,
        basal_metabolic_rate: u32,
        kinetic_cost: u32,
    ) -> (sim: GpuFlowLenia)
        requires
            shape.len() == 2,
            is_power_of_two(shape@[0] as nat),
            is_power_of_two(shape@[1] as nat),
            shape@[0] * shape@[1] * 8 <= usize::MAX,
            shape@[0] * shape@[1] * num_channels * 4 <= usize::MAX,
            shape@[0] * shape@[1] * num_kernels * 8 <= usize::MAX,
            num_channels <= c1.len(),
            flattened(c1@, num_channels as nat).len() * 4 <= usize::MAX,
            (num_channels + 1) * 4 <= usize::MAX,
        ensures
            sim.wf(),
            sim.shape@ == shape@,
            sim.total_elements == shape@[0] * shape@[1],
            sim.num_channels == num_channels,
            sim.num_kernels == num_kernels,
            sim.c0@ == c0@,
            sim.c1_flat@ == flattened(c1@, num_channels as nat),
            sim.c1_offsets@ == list_offsets(c1@, num_channels as nat),
            sim.kernel_m@ == kernel_m@,
            sim.kernel_s@ == kernel_s@,
            sim.kernel_h@ == kernel_h@,
            sim.dt == dt,
            sim.dd == dd,
            sim.sigma == sigma,
            sim.basal_metabolic_rate == basal_metabolic_rate,
            sim.kinetic_cost == kinetic_cost,
    {
        let w: usize = shape[0];
        let h: usize = shape[1];
        proof {
            lemma_pow2_pos(log2_of(w as nat));
            lemma_pow2_pos(log2_of(h as nat));
            assert(w * 8 <= w * h * 8 && h * 8 <= w * h * 8 && w * h <= w * h * 8)
                by (nonlinear_arith)
                requires
                    w > 0,
                    h > 0,
            ;
        }
        let total_elements: usize = w * h;
        let (c1_flat, c1_offsets) = flatten_lists(c1, num_channels);
        let mut forward_fft_1d: Vec<WgpuFFT1D> = Vec::new();
        let mut inverse_fft_1d: Vec<WgpuFFT1D> = Vec::new();
        forward_fft_1d.push(WgpuFFT1D::new(w, false));
        inverse_fft_1d.push(WgpuFFT1D::new(w, true));
        forward_fft_1d.push(WgpuFFT1D::new(h, false));
        inverse_fft_1d.push(WgpuFFT1D::new(h, true));
        let dims: Vec<usize> = vec![w, h];
        assert(dims@ =~= shape@);
        GpuFlowLenia {
            shape: dims,
            total_elements,
            dt,
            num_channels,
            num_kernels,
            dd,
            sigma,
            basal_metabolic_rate,
            kinetic_cost,
            c0: copy_words(c0),
            c1_flat,
            c1_offsets,
            kernel_m: copy_words(kernel_m),
            kernel_s: copy_words(kernel_s),
            kernel_h: copy_words(kernel_h),
            forward_fft_1d,
            inverse_fft_1d,
        }
    }

    /// The size of a buffer in bytes.
    pub fn buffer_size(&self, buffer: FlowBuffer) -> (size: u64)
        requires
            self.wf(),
        ensures
            size == self.size_of(buffer),
    {
        let total: usize = self.total_elements;
        proof {
            let (t, c, k) = (total as int, self.num_channels as int, self.num_kernels as int);
            assert(t * c <= t * c * 4 && t * k <= t * k * 8 && t * k * 4 <= t * k * 8)
                by (nonlinear_arith)
                requires
                    t >= 0,
                    c >= 0,
                    k >= 0,
            ;
        }
        match buffer {
            FlowBuffer::Channel
            | FlowBuffer::NewChannel
            | FlowBuffer::UChannel
            | FlowBuffer::NablaUX
            | FlowBuffer::NablaUY
            | FlowBuffer::FlowX
            | FlowBuffer::FlowY => (total * self.num_channels * 4) as u64,
            FlowBuffer::Conv => (total * 8) as u64,
            FlowBuffer::Kernel => (total * self.num_kernels * 8) as u64,
            FlowBuffer::U | FlowBuffer::ConvX => (total * self.num_kernels * 4) as u64,
            FlowBuffer::NablaAX
            | FlowBuffer::NablaAY
            | FlowBuffer::SumA
            | FlowBuffer::Obstacle
            | FlowBuffer::Readback => (total * 4) as u64,
            FlowBuffer::NormalizeParams => 4,
            FlowBuffer::SumChannelsParams => 8,
            FlowBuffer::GrowthParams
            | FlowBuffer::AggregateParams
            | FlowBuffer::SobelUParams
            | FlowBuffer::SobelAParams
            | FlowBuffer::FlowFieldParams
            | FlowBuffer::WallParams => 12,
            FlowBuffer::ReintegrationParams => 36,
            FlowBuffer::C1Flat => (self.c1_flat.len() * 4) as u64,
            FlowBuffer::C1Offsets => (self.c1_offsets.len() * 4) as u64,
        }
    }

    /// What a buffer is used for.
    pub fn buffer_kind(buffer: FlowBuffer) -> (kind: BufferKind)
        ensures
            kind == kind_of(buffer),
    {
        match buffer {
            FlowBuffer::GrowthParams
            | FlowBuffer::NormalizeParams
            | FlowBuffer::AggregateParams
            | FlowBuffer::SobelUParams
            | FlowBuffer::SobelAParams
            | FlowBuffer::SumChannelsParams
            | FlowBuffer::FlowFieldParams
            | FlowBuffer::ReintegrationParams
            | FlowBuffer::WallParams => BufferKind::Uniform,
            FlowBuffer::C1Flat | FlowBuffer::C1Offsets => BufferKind::StorageInput,
            FlowBuffer::Readback => BufferKind::Readback,
            _ => BufferKind::Storage,
        }
    }

    /// The shader of a pass.
    pub fn shader(pass: FlowPass) -> (shader: FlowShader)
        ensures
            shader == shader_of(pass),
    {
        match pass {
            FlowPass::CopyToConv { .. } => FlowShader::CopyToConv,
            FlowPass::ComplexMul { .. } => FlowShader::ComplexMul,
            FlowPass::Normalize => FlowShader::Normalize,
            FlowPass::Growth { .. } => FlowShader::Growth,
            FlowPass::ChannelAggregate => FlowShader::ChannelAggregate,
            FlowPass::WallInteraction => FlowShader::WallInteraction,
            FlowPass::SumChannels => FlowShader::SumChannels,
            FlowPass::SobelU | FlowPass::SobelA => FlowShader::Sobel,
            FlowPass::FlowField => FlowShader::FlowField,
            FlowPass::Reintegration => FlowShader::Reintegration,
        }
    }

    /// How a shader accesses its bindings, by index.
    pub fn layout(shader: FlowShader) -> (layout: Vec<Access>)
        ensures
            layout@ == layout_of(shader),
    {
        match shader {
            FlowShader::CopyToConv => vec![Access::ReadOnly, Access::ReadWrite],
            FlowShader::ComplexMul => vec![Access::ReadWrite, Access::ReadOnly],
            FlowShader::Normalize => vec![Access::ReadWrite, Access::Uniform],
            FlowShader::Growth | FlowShader::Sobel => vec![
                Access::ReadOnly,
                Access::ReadWrite,
                Access::ReadWrite,
                Access::Uniform,
            ],
            FlowShader::ChannelAggregate => vec![
                Access::ReadOnly,
                Access::ReadWrite,
                Access::ReadOnly,
                Access::ReadOnly,
                Access::Uniform,
            ],
            FlowShader::SumChannels | FlowShader::WallInteraction => vec![
                Access::ReadOnly,
                Access::ReadWrite,
                Access::Uniform,
            ],
            FlowShader::FlowField => vec![
                Access::ReadOnly,
                Access::ReadOnly,
                Access::ReadOnly,
                Access::ReadOnly,
                Access::ReadOnly,
                Access::ReadWrite,
                Access::ReadWrite,
                Access::Uniform,
            ],
            FlowShader::Reintegration => vec![
                Access::ReadOnly,
                Access::ReadOnly,
                Access::ReadOnly,
                Access::ReadWrite,
                Access::Uniform,
            ],
        }
    }

    /// The parameters of a pass that do not change from kernel to kernel.
    pub fn params(&self, buffer: FlowBuffer) -> (block: ParamBlock)
        requires
            self.wf(),
        ensures
            block.words@ == self.words_of(buffer),
            is_param_buffer(buffer) && buffer != FlowBuffer::GrowthParams ==> block.words.len() * 4
                == self.size_of(buffer),
            block.order == order_of(buffer),
    {
        let w: Word = Word::Unsigned(self.shape[0] as u32);
        let h: Word = Word::Unsigned(self.shape[1] as u32);
        let channels: Word = Word::Unsigned(self.num_channels as u32);
        let words: Vec<Word> = match buffer {
            FlowBuffer::NormalizeParams => vec![
                Word::InversePower {
                    base: self.forward_fft_1d[0].padded_len() as u64,
                    exponent: self.shape.len() as u64,
                },
            ],
            FlowBuffer::AggregateParams => vec![
                w,
                Word::Unsigned(self.num_kernels as u32),
                channels,
            ],
            FlowBuffer::SobelUParams | FlowBuffer::WallParams => vec![w, h, channels],
            FlowBuffer::SobelAParams => vec![w, h, Word::Unsigned(1)],
            FlowBuffer::SumChannelsParams => vec![w, channels],
            FlowBuffer::FlowFieldParams => vec![
                w,
                channels,
                Word::FloatOf(self.num_channels as u64),
            ],
            FlowBuffer::ReintegrationParams => vec![
                w,
                h,
                Word::Signed(self.dd),
                Word::Float(self.sigma),
                Word::Float(self.dt),
                channels,
                Word::FloatDifference { whole: self.dd, minus: self.sigma },
                Word::Float(self.basal_metabolic_rate),
                Word::Float(self.kinetic_cost),
            ],
            _ => Vec::new(),
        };
        let order: ByteOrder = match buffer {
            FlowBuffer::FlowFieldParams | FlowBuffer::ReintegrationParams => ByteOrder::Little,
            _ => ByteOrder::Native,
        };
        assert(words@ =~= self.words_of(buffer));
        ParamBlock { order, words }
    }

    /// The buffers of a simulation, in the order they are created.
    pub fn buffers() -> (buffers: Vec<FlowBuffer>)
        ensures
            buffers@ == all_buffers(),
    {
        vec![
            FlowBuffer::Channel,
            FlowBuffer::NewChannel,
            FlowBuffer::Conv,
            FlowBuffer::Kernel,
            FlowBuffer::U,
            FlowBuffer::ConvX,
            FlowBuffer::UChannel,
            FlowBuffer::NablaUX,
            FlowBuffer::NablaUY,
            FlowBuffer::NablaAX,
            FlowBuffer::NablaAY,
            FlowBuffer::SumA,
            FlowBuffer::FlowX,
            FlowBuffer::FlowY,
            FlowBuffer::Obstacle,
            FlowBuffer::GrowthParams,
            FlowBuffer::NormalizeParams,
            FlowBuffer::AggregateParams,
            FlowBuffer::SobelUParams,
            FlowBuffer::SobelAParams,
            FlowBuffer::SumChannelsParams,
            FlowBuffer::FlowFieldParams,
            FlowBuffer::ReintegrationParams,
            FlowBuffer::WallParams,
            FlowBuffer::C1Flat,
            FlowBuffer::C1Offsets,
            FlowBuffer::Readback,
        ]
    }

    /// The writes of the mapping from channels to kernels to a new simulation.
    pub fn mapping_uploads(&self) -> (uploads: Vec<Upload<FlowBuffer>>)
        ensures
            uploads.len() == 2,
            uploads@[0].buffer == FlowBuffer::C1Flat,
            uploads@[0].offset == 0,
            uploads@[0].words@ == self.c1_flat@,
            uploads@[1].buffer == FlowBuffer::C1Offsets,
            uploads@[1].offset == 0,
            uploads@[1].words@ == self.c1_offsets@,
    {
        let flat: Upload<FlowBuffer> = Upload {
            buffer: FlowBuffer::C1Flat,
            offset: 0,
            words: copy_words(&self.c1_flat),
        };
        let offsets: Upload<FlowBuffer> = Upload {
            buffer: FlowBuffer::C1Offsets,
            offset: 0,
            words: copy_words(&self.c1_offsets),
        };
        vec![flat, offsets]
    }

    /// The parameter blocks that are written to a new simulation, each with its
    /// buffer.
    pub fn initial_params(&self) -> (blocks: Vec<(FlowBuffer, ParamBlock)>)
        requires
            self.wf(),
        ensures
            blocks.len() == initial_buffers().len(),
            forall|i: int|
                0 <= i < blocks.len() ==> {
                    &&& (#[trigger] blocks@[i]).0 == initial_buffers()[i]
                    &&& blocks@[i].1.words@ == self.words_of(initial_buffers()[i])
                    &&& blocks@[i].1.order == order_of(initial_buffers()[i])
                },
    {
        let buffers: Vec<FlowBuffer> = vec![
            FlowBuffer::NormalizeParams,
            FlowBuffer::AggregateParams,
            FlowBuffer::SobelUParams,
            FlowBuffer::SobelAParams,
            FlowBuffer::SumChannelsParams,
            FlowBuffer::FlowFieldParams,
            FlowBuffer::ReintegrationParams,
            FlowBuffer::WallParams,
        ];
        assert(buffers@ =~= initial_buffers());
        let mut blocks: Vec<(FlowBuffer, ParamBlock)> = Vec::new();
        let mut i: usize = 0;
        while i < buffers.len()
            invariant
                i <= buffers.len(),
                buffers@ == initial_buffers(),
                self.wf(),
                blocks.len() == i,
                forall|j: int|
                    0 <= j < i ==> {
                        &&& (#[trigger] blocks@[j]).0 == initial_buffers()[j]
                        &&& blocks@[j].1.words@ == self.words_of(initial_buffers()[j])
                        &&& blocks@[j].1.order == order_of(initial_buffers()[j])
                    },
            decreases buffers.len() - i,
        {
            blocks.push((buffers[i], self.params(buffers[i])));
            i = i + 1;
        }
        blocks
    }

    /// The growth parameters of a kernel, which are written before its passes.
    pub fn growth_params(&self, kernel: usize) -> (block: ParamBlock)
        requires
            kernel < self.kernel_m.len(),
            kernel < self.kernel_s.len(),
            kernel < self.kernel_h.len(),
        ensures
            block.words@ == seq![
                Word::Float(self.kernel_m@[kernel as int]),
                Word::Float(self.kernel_s@[kernel as int]),
                Word::Float(self.kernel_h@[kernel as int]),
            ],
            block.words.len() * 4 == self.size_of(FlowBuffer::GrowthParams),
            block.order == ByteOrder::Native,
    {
        ParamBlock {
            order: ByteOrder::Native,
            words: vec![
                Word::Float(self.kernel_m[kernel]),
                Word::Float(self.kernel_s[kernel]),
                Word::Float(self.kernel_h[kernel]),
            ],
        }
    }
}

impl GpuFlowLenia {
    /// The kernels and channels of the passes exist, and the workgroup counts of an
    /// iteration fit in 32 bits.
    pub open spec fn can_iterate(&self) -> bool {
        &&& self.wf()
        &&& self.num_kernels <= self.c0.len()
        &&& self.num_kernels <= self.kernel_m.len()
        &&& self.num_kernels <= self.kernel_s.len()
        &&& self.num_kernels <= self.kernel_h.len()
        &&& forall|k: int|
            0 <= k < self.num_kernels ==> (#[trigger] self.c0@[k]) < self.num_channels
        &&& self.total_elements + 255 <= u32::MAX
        &&& self.total_elements * self.num_channels + 255 <= u32::MAX
    }

    /// Whether the simulation can iterate: its tables are complete and its workgroup
    /// counts fit.
    pub fn is_ready(&self) -> (ready: bool)
        requires
            self.wf(),
        ensures
            ready == self.can_iterate(),
    {
        let count: usize = self.num_kernels;
        if count > self.c0.len() || count > self.kernel_m.len() || count > self.kernel_s.len()
            || count > self.kernel_h.len() {
            return false;
        }
        let mut k: usize = 0;
        while k < count
            invariant
                k <= count == self.num_kernels <= self.c0.len(),
                forall|j: int| 0 <= j < k ==> (#[trigger] self.c0@[j]) < self.num_channels,
            decreases count - k,
        {
            if self.c0[k] as usize >= self.num_channels {
                assert(!(self.c0@[k as int] < self.num_channels));
                return false;
            }
            k = k + 1;
        }
        proof {
            let (t, c) = (self.total_elements as int, self.num_channels as int);
            assert(t * c <= t * c * 4) by (nonlinear_arith)
                requires
                    t >= 0,
                    c >= 0,
            ;
        }
        let most: usize = u32::MAX as usize - 255;
        self.total_elements <= most && self.total_elements * self.num_channels <= most
    }

    /// The lanes along the first axis, which lie next to each other.
    pub open spec fn row_lanes(&self) -> LaneLayout {
        LaneLayout {
            num_lanes: self.shape@[1],
            lane_stride: self.shape@[0] as u32,
            elem_stride: 1,
        }
    }

    /// The lanes along the second axis, which are interleaved.
    pub open spec fn column_lanes(&self) -> LaneLayout {
        LaneLayout {
            num_lanes: self.shape@[0],
            lane_stride: 1,
            elem_stride: self.shape@[0] as u32,
        }
    }

    /// The steps that convolve a channel with kernel `k` and compute its growth.
    pub open spec fn kernel_commands(&self, k: int) -> Seq<FlowCommand> {
        let kernel = k as usize;
        let groups = groups_for(self.total_elements as nat) as u32;
        let rows = self.row_lanes();
        let columns = self.column_lanes();
        seq![
            FlowCommand::WriteGrowthParams { kernel },
            FlowCommand::Dispatch { pass: FlowPass::CopyToConv { kernel }, groups },
            FlowCommand::Transform { inverse: false, axis: 0, lanes: rows },
            FlowCommand::Transform { inverse: false, axis: 1, lanes: columns },
            FlowCommand::Dispatch { pass: FlowPass::ComplexMul { kernel }, groups },
            FlowCommand::Transform { inverse: true, axis: 1, lanes: columns },
            FlowCommand::Transform { inverse: true, axis: 0, lanes: rows },
            FlowCommand::Dispatch { pass: FlowPass::Normalize, groups },
            FlowCommand::Dispatch { pass: FlowPass::Growth { kernel }, groups },
            FlowCommand::Submit,
        ]
    }

    /// The steps of the first `count` kernels.
    pub open spec fn kernels_commands(&self, count: nat) -> Seq<FlowCommand>
        decreases count,
    {
        if count == 0 {
            Seq::empty()
        } else {
            self.kernels_commands((count - 1) as nat) + self.kernel_commands(count - 1)
        }
    }

    /// The steps that turn the growth of the kernels into a flow, move the channels
    /// along it and make the result the new state.
    pub open spec fn flow_commands(&self) -> Seq<FlowCommand> {
        let groups = groups_for(self.total_elements as nat) as u32;
        let all = groups_for((self.total_elements * self.num_channels) as nat) as u32;
        seq![
            FlowCommand::Dispatch { pass: FlowPass::ChannelAggregate, groups: all },
            FlowCommand::Dispatch { pass: FlowPass::WallInteraction, groups: all },
            FlowCommand::Dispatch { pass: FlowPass::SumChannels, groups },
            FlowCommand::Dispatch { pass: FlowPass::SobelU, groups: all },
            FlowCommand::Dispatch { pass: FlowPass::SobelA, groups },
            FlowCommand::Dispatch { pass: FlowPass::FlowField, groups: all },
            FlowCommand::Dispatch { pass: FlowPass::Reintegration, groups: all },
            FlowCommand::Submit,
            FlowCommand::Copy {
                source: FlowBuffer::NewChannel,
                target: FlowBuffer::Channel,
                size: (self.total_elements * self.num_channels * 4) as u64,
            },
            FlowCommand::Submit,
        ]
    }

    /// The steps of an iteration.
    pub open spec fn commands(&self) -> Seq<FlowCommand> {
        self.kernels_commands(self.num_kernels as nat) + self.flow_commands()
    }

    /// The steps of `n` iterations.
    pub open spec fn repeated_commands(&self, n: nat) -> Seq<FlowCommand>
        decreases n,
    {
        if n == 0 {
            Seq::empty()
        } else {
            self.repeated_commands((n - 1) as nat) + self.commands()
        }
    }

    /// The bindings of a pass: at each index the buffer and the bound part of it.
    pub fn bindings(&self, pass: FlowPass) -> (bindings: Vec<(FlowBuffer, Extent)>)
        requires
            self.wf(),
            self.has_pass(pass),
        ensures
            bindings@ == self.bindings_of(pass),
    {
        let total: usize = self.total_elements;
        let bindings: Vec<(FlowBuffer, Extent)> = match pass {
            FlowPass::CopyToConv { kernel } => {
                let channel: usize = self.c0[kernel] as usize;
                proof {
                    lemma_part_fits(channel as int, self.num_channels as int, total as int, 4);
                }
                let part: Extent = Extent::Range {
                    offset: (channel * total * 4) as u64,
                    size: (total * 4) as u64,
                };
                vec![(FlowBuffer::Channel, part), (FlowBuffer::Conv, Extent::Entire)]
            },
            FlowPass::ComplexMul { kernel } => {
                proof {
                    lemma_part_fits(kernel as int, self.num_kernels as int, total as int, 8);
                }
                let part: Extent = Extent::Range {
                    offset: (kernel * total * 8) as u64,
                    size: (total * 8) as u64,
                };
                vec![(FlowBuffer::Conv, Extent::Entire), (FlowBuffer::Kernel, part)]
            },
            FlowPass::Normalize => vec![
                (FlowBuffer::Conv, Extent::Entire),
                (FlowBuffer::NormalizeParams, Extent::Entire),
            ],
            FlowPass::Growth { kernel } => {
                proof {
                    lemma_part_fits(kernel as int, self.num_kernels as int, total as int, 8);
                }
                let part: Extent = Extent::Range {
                    offset: (kernel * total * 4) as u64,
                    size: (total * 4) as u64,
                };
                vec![
                    (FlowBuffer::Conv, Extent::Entire),
                    (FlowBuffer::U, part),
                    (FlowBuffer::ConvX, part),
                    (FlowBuffer::GrowthParams, Extent::Entire),
                ]
            },
            FlowPass::ChannelAggregate => vec![
                (FlowBuffer::U, Extent::Entire),
                (FlowBuffer::UChannel, Extent::Entire),
                (FlowBuffer::C1Flat, Extent::Entire),
                (FlowBuffer::C1Offsets, Extent::Entire),
                (FlowBuffer::AggregateParams, Extent::Entire),
            ],
            FlowPass::WallInteraction => vec![
                (FlowBuffer::Obstacle, Extent::Entire),
                (FlowBuffer::UChannel, Extent::Entire),
                (FlowBuffer::WallParams, Extent::Entire),
            ],
            FlowPass::SumChannels => vec![
                (FlowBuffer::Channel, Extent::Entire),
                (FlowBuffer::SumA, Extent::Entire),
                (FlowBuffer::SumChannelsParams, Extent::Entire),
            ],
            FlowPass::SobelU => vec![
                (FlowBuffer::UChannel, Extent::Entire),
                (FlowBuffer::NablaUX, Extent::Entire),
                (FlowBuffer::NablaUY, Extent::Entire),
                (FlowBuffer::SobelUParams, Extent::Entire),
            ],
            FlowPass::SobelA => vec![
                (FlowBuffer::SumA, Extent::Entire),
                (FlowBuffer::NablaAX, Extent::Entire),
                (FlowBuffer::NablaAY, Extent::Entire),
                (FlowBuffer::SobelAParams, Extent::Entire),
            ],
            FlowPass::FlowField => vec![
                (FlowBuffer::Channel, Extent::Entire),
                (FlowBuffer::NablaUX, Extent::Entire),
                (FlowBuffer::NablaUY, Extent::Entire),
                (FlowBuffer::NablaAX, Extent::Entire),
                (FlowBuffer::NablaAY, Extent::Entire),
                (FlowBuffer::FlowX, Extent::Entire),
                (FlowBuffer::FlowY, Extent::Entire),
                (FlowBuffer::FlowFieldParams, Extent::Entire),
            ],
            FlowPass::Reintegration => vec![
                (FlowBuffer::Channel, Extent::Entire),
                (FlowBuffer::FlowX, Extent::Entire),
                (FlowBuffer::FlowY, Extent::Entire),
                (FlowBuffer::NewChannel, Extent::Entire),
                (FlowBuffer::ReintegrationParams, Extent::Entire),
            ],
        };
        assert(bindings@ =~= self.bindings_of(pass));
        bindings
    }

    /// The steps of an iteration.
    pub fn iterate(&self) -> (commands: Vec<FlowCommand>)
        requires
            self.can_iterate(),
        ensures
            commands@ == self.commands(),
    {
        let total: u32 = self.total_elements as u32;
        let groups: u32 = workgroups(total);
        proof {
            lemma_pow2_pos(log2_of(self.shape@[0] as nat));
            lemma_pow2_pos(log2_of(self.shape@[1] as nat));
            let (w, h) = (self.shape@[0] as int, self.shape@[1] as int);
            assert(w <= w * h && h <= w * h) by (nonlinear_arith)
                requires
                    w > 0,
                    h > 0,
            ;
            lemma_div_by_multiple(h, w);
            lemma_div_by_multiple(w, h);
            assert(h * w == w * h) by (nonlinear_arith);
            assert(self.num_channels <= u32::MAX) by {
                let (t, c) = (self.total_elements as int, self.num_channels as int);
                assert(c <= t * c) by (nonlinear_arith)
                    requires
                        t >= 1,
                        c >= 0,
                ;
            }
        }
        let all: u32 = workgroups(total * self.num_channels as u32);
        let axis0: u32 = self.shape[0] as u32;
        let axis1: u32 = self.shape[1] as u32;
        let lanes0: usize = self.total_elements / axis0 as usize;
        let lanes1: usize = self.total_elements / axis1 as usize;
        let rows: LaneLayout = LaneLayout {
            num_lanes: lanes0,
            lane_stride: axis0,
            elem_stride: 1,
        };
        let columns: LaneLayout = LaneLayout {
            num_lanes: lanes1,
            lane_stride: 1,
            elem_stride: axis0,
        };
        let mut commands: Vec<FlowCommand> = Vec::new();
        let mut kernel: usize = 0;
        while kernel < self.num_kernels
            invariant
                kernel <= self.num_kernels,
                self.can_iterate(),
                groups == groups_for(self.total_elements as nat),
                rows == self.row_lanes(),
                columns == self.column_lanes(),
                commands@ == self.kernels_commands(kernel as nat),
            decreases self.num_kernels - kernel,
        {
            commands.push(FlowCommand::WriteGrowthParams { kernel });
            commands.push(FlowCommand::Dispatch { pass: FlowPass::CopyToConv { kernel }, groups });
            commands.push(FlowCommand::Transform { inverse: false, axis: 0, lanes: rows });
            commands.push(FlowCommand::Transform { inverse: false, axis: 1, lanes: columns });
            commands.push(FlowCommand::Dispatch { pass: FlowPass::ComplexMul { kernel }, groups });
            commands.push(FlowCommand::Transform { inverse: true, axis: 1, lanes: columns });
            commands.push(FlowCommand::Transform { inverse: true, axis: 0, lanes: rows });
            commands.push(FlowCommand::Dispatch { pass: FlowPass::Normalize, groups });
            commands.push(FlowCommand::Dispatch { pass: FlowPass::Growth { kernel }, groups });
            commands.push(FlowCommand::Submit);
            kernel = kernel + 1;
            assert(commands@ =~= self.kernels_commands(kernel as nat));
        }
        commands.push(FlowCommand::Dispatch { pass: FlowPass::ChannelAggregate, groups: all });
        commands.push(FlowCommand::Dispatch { pass: FlowPass::WallInteraction, groups: all });
        commands.push(FlowCommand::Dispatch { pass: FlowPass::SumChannels, groups });
        commands.push(FlowCommand::Dispatch { pass: FlowPass::SobelU, groups: all });
        commands.push(FlowCommand::Dispatch { pass: FlowPass::SobelA, groups });
        commands.push(FlowCommand::Dispatch { pass: FlowPass::FlowField, groups: all });
        commands.push(FlowCommand::Dispatch { pass: FlowPass::Reintegration, groups: all });
        commands.push(FlowCommand::Submit);
        commands.push(
            FlowCommand::Copy {
                source: FlowBuffer::NewChannel,
                target: FlowBuffer::Channel,
                size: self.buffer_size(FlowBuffer::Channel),
            },
        );
        commands.push(FlowCommand::Submit);
        assert(commands@ =~= self.commands());
        commands
    }

    /// The steps of `n` iterations.
    pub fn run_steps(&self, n: usize) -> (commands: Vec<FlowCommand>)
        requires
            self.can_iterate(),
        ensures
            commands@ == self.repeated_commands(n as nat),
    {
        let mut commands: Vec<FlowCommand> = Vec::new();
        let mut i: usize = 0;
        while i < n
            invariant
                i <= n,
                self.can_iterate(),
                commands@ == self.repeated_commands(i as nat),
            decreases n - i,
        {
            let mut step: Vec<FlowCommand> = self.iterate();
            commands.append(&mut step);
            i = i + 1;
        }
        commands
    }
}

impl GpuFlowLenia {
    /// Where a channel starts in the channel buffer, in bytes.
    pub open spec fn channel_offset(&self, channel: int) -> int {
        channel * self.total_elements * 4
    }

    /// Where the transform of a kernel starts in the kernel buffer, in bytes.
    pub open spec fn kernel_offset(&self, kernel: int) -> int {
        kernel * self.total_elements * 8
    }

    /// The lengths of the axes.
    pub fn shape(&self) -> (shape: &Vec<usize>)
        ensures
            shape@ == self.shape@,
    {
        &self.shape
    }

    /// The buffer that holds the channels.
    pub fn channel_buffer(&self) -> (buffer: FlowBuffer)
        ensures
            buffer == FlowBuffer::Channel,
    {
        FlowBuffer::Channel
    }

    /// The buffer that holds the obstacles.
    pub fn obstacle_buffer(&self) -> (buffer: FlowBuffer)
        ensures
            buffer == FlowBuffer::Obstacle,
    {
        FlowBuffer::Obstacle
    }

    /// The number of channels.
    pub fn num_channels(&self) -> (count: usize)
        ensures
            count == self.num_channels,
    {
        self.num_channels
    }

    /// The number of kernels.
    pub fn num_kernels(&self) -> (count: usize)
        ensures
            count == self.num_kernels,
    {
        self.num_kernels
    }

    /// The number of cells of the grid.
    pub fn total_elements(&self) -> (total: usize)
        ensures
            total == self.total_elements,
    {
        self.total_elements
    }

    /// The centre of the growth function of each kernel.
    pub fn kernel_m_slice(&self) -> (m: &Vec<u32>)
        ensures
            m@ == self.kernel_m@,
    {
        &self.kernel_m
    }

    /// The width of the growth function of each kernel.
    pub fn kernel_s_slice(&self) -> (s: &Vec<u32>)
        ensures
            s@ == self.kernel_s@,
    {
        &self.kernel_s
    }

    /// The height of the growth function of each kernel.
    pub fn kernel_h_slice(&self) -> (h: &Vec<u32>)
        ensures
            h@ == self.kernel_h@,
    {
        &self.kernel_h
    }

    /// Sets the time step. The returned block replaces the parameters of the
    /// reintegration pass.
    pub fn set_dt(&mut self, dt: u32) -> (block: ParamBlock)
        requires
            old(self).wf(),
        ensures
            *final(self) == (GpuFlowLenia { dt, ..*old(self) }),
            final(self).wf(),
            block.words@ == final(self).words_of(FlowBuffer::ReintegrationParams),
            block.words@ == old(self).words_of(FlowBuffer::ReintegrationParams).update(
                4,
                Word::Float(dt),
            ),
            block.order == ByteOrder::Little,
    {
        let ghost before = self.words_of(FlowBuffer::ReintegrationParams);
        self.dt = dt;
        let block: ParamBlock = self.params(FlowBuffer::ReintegrationParams);
        assert(block.words@ =~= before.update(4, Word::Float(dt)));
        block
    }

    /// Sets the growth parameters of one kernel.
    pub fn set_growth_param(&mut self, k: usize, m: u32, s: u32, h: u32)
        requires
            k < old(self).kernel_m.len(),
            k < old(self).kernel_s.len(),
            k < old(self).kernel_h.len(),
        ensures
            final(self).kernel_m@ == old(self).kernel_m@.update(k as int, m),
            final(self).kernel_s@ == old(self).kernel_s@.update(k as int, s),
            final(self).kernel_h@ == old(self).kernel_h@.update(k as int, h),
            *final(self) == (GpuFlowLenia {
                kernel_m: final(self).kernel_m,
                kernel_s: final(self).kernel_s,
                kernel_h: final(self).kernel_h,
                ..*old(self)
            }),
            old(self).wf() ==> final(self).wf(),
            old(self).can_iterate() ==> final(self).can_iterate(),
    {
        self.kernel_m.set(k, m);
        self.kernel_s.set(k, s);
        self.kernel_h.set(k, h);
    }

    /// Sets the growth parameters of all kernels.
    pub fn set_all_growth_params(&mut self, m: &Vec<u32>, s: &Vec<u32>, h: &Vec<u32>)
        requires
            m.len() == old(self).kernel_m.len(),
            s.len() == old(self).kernel_s.len(),
            h.len() == old(self).kernel_h.len(),
        ensures
            final(self).kernel_m@ == m@,
            final(self).kernel_s@ == s@,
            final(self).kernel_h@ == h@,
            *final(self) == (GpuFlowLenia {
                kernel_m: final(self).kernel_m,
                kernel_s: final(self).kernel_s,
                kernel_h: final(self).kernel_h,
                ..*old(self)
            }),
            old(self).wf() ==> final(self).wf(),
            old(self).can_iterate() ==> final(self).can_iterate(),
    {
        self.kernel_m = copy_words(m);
        self.kernel_s = copy_words(s);
        self.kernel_h = copy_words(h);
    }

    /// The write that puts the transform of a kernel in its place.
    pub fn set_kernel(&self, kernel_fft: &Vec<Complex32Bits>, kernel_idx: usize) -> (upload: Upload<
        FlowBuffer,
    >)
        requires
            self.wf(),
            kernel_fft.len() == self.total_elements,
            kernel_idx < self.num_kernels,
        ensures
            upload.buffer == FlowBuffer::Kernel,
            upload.offset == self.kernel_offset(kernel_idx as int),
            upload.words@ == interleaved(kernel_fft@),
    {
        proof {
            lemma_part_fits(
                kernel_idx as int,
                self.num_kernels as int,
                self.total_elements as int,
                8,
            );
        }
        Upload {
            buffer: FlowBuffer::Kernel,
            offset: (kernel_idx * self.total_elements * 8) as u64,
            words: interleave(kernel_fft),
        }
    }

    /// The write that puts a channel in its place.
    pub fn upload_channel(&self, data: &Vec<u32>, channel: usize) -> (upload: Upload<FlowBuffer>)
        requires
            self.wf(),
            data.len() == self.total_elements,
            channel < self.num_channels,
        ensures
            upload.buffer == FlowBuffer::Channel,
            upload.offset == self.channel_offset(channel as int),
            upload.words@ == data@,
    {
        proof {
            lemma_part_fits(
                channel as int,
                self.num_channels as int,
                self.total_elements as int,
                4,
            );
        }
        Upload {
            buffer: FlowBuffer::Channel,
            offset: (channel * self.total_elements * 4) as u64,
            words: copy_words(data),
        }
    }

    /// The write that puts the obstacles in place.
    pub fn upload_obstacles(&self, data: &Vec<u32>) -> (upload: Upload<FlowBuffer>)
        requires
            data.len() == self.total_elements,
        ensures
            upload.buffer == FlowBuffer::Obstacle,
            upload.offset == 0,
            upload.words@ == data@,
    {
        Upload { buffer: FlowBuffer::Obstacle, offset: 0, words: copy_words(data) }
    }

    /// Whether the first `count` lists of `data`, and no more, can be put in place one
    /// after the other: the next one does not fit a channel, or has no channel left, or
    /// is not there.
    pub open spec fn is_fitting_prefix(&self, data: Seq<Vec<u32>>, count: int) -> bool {
        &&& 0 <= count <= data.len()
        &&& count <= self.num_channels
        &&& forall|c: int| 0 <= c < count ==> (#[trigger] data[c]).len() == self.total_elements
        &&& count == data.len() || count == self.num_channels || data[count].len()
            != self.total_elements
    }

    /// The writes that put the first channels in place, one for each list of `data` up
    /// to the first that does not fit, and whether that was all.
    pub fn reinit_channels(&self, data: &Vec<Vec<u32>>) -> (r: ChannelLoad)
        requires
            self.wf(),
        ensures
            self.is_fitting_prefix(data@, r.uploads.len() as int),
            r.complete == (r.uploads.len() == data.len()),
            forall|c: int|
                0 <= c < r.uploads.len() ==> {
                    &&& (#[trigger] r.uploads@[c]).buffer == FlowBuffer::Channel
                    &&& r.uploads@[c].offset == self.channel_offset(c)
                    &&& r.uploads@[c].words@ == data@[c]@
                },
    {
        let mut uploads: Vec<Upload<FlowBuffer>> = Vec::new();
        let mut c: usize = 0;
        while c < data.len() && c < self.num_channels && data[c].len() == self.total_elements
            invariant
                c <= data.len(),
                c <= self.num_channels,
                self.wf(),
                forall|i: int|
                    0 <= i < c ==> (#[trigger] data@[i]).len() == self.total_elements,
                uploads.len() == c,
                forall|i: int|
                    0 <= i < c ==> {
                        &&& (#[trigger] uploads@[i]).buffer == FlowBuffer::Channel
                        &&& uploads@[i].offset == self.channel_offset(i)
                        &&& uploads@[i].words@ == data@[i]@
                    },
            decreases data.len() - c,
        {
            uploads.push(self.upload_channel(&data[c], c));
            c = c + 1;
        }
        ChannelLoad { uploads, complete: c == data.len() }
    }

    /// The part of the channel buffer that holds a channel.
    pub fn download_channel(&self, channel: usize) -> (download: Download<FlowBuffer>)
        requires
            self.wf(),
            channel < self.num_channels,
        ensures
            download.buffer == FlowBuffer::Channel,
            download.offset == self.channel_offset(channel as int),
            download.size == self.total_elements * 4,
    {
        proof {
            lemma_part_fits(
                channel as int,
                self.num_channels as int,
                self.total_elements as int,
                4,
            );
        }
        Download {
            buffer: FlowBuffer::Channel,
            offset: (channel * self.total_elements * 4) as u64,
            size: (self.total_elements * 4) as u64,
        }
    }

    /// The whole channel buffer.
    pub fn download_all_channels(&self) -> (download: Download<FlowBuffer>)
        requires
            self.wf(),
        ensures
            download.buffer == FlowBuffer::Channel,
            download.offset == 0,
            download.size == self.size_of(FlowBuffer::Channel),
    {
        Download {
            buffer: FlowBuffer::Channel,
            offset: 0,
            size: self.buffer_size(FlowBuffer::Channel),
        }
    }

    /// The part of the kernel buffer that holds the transform of a kernel.
    pub fn download_kernel(&self, k: usize) -> (download: Download<FlowBuffer>)
        requires
            self.wf(),
            k < self.num_kernels,
        ensures
            download.buffer == FlowBuffer::Kernel,
            download.offset == self.kernel_offset(k as int),
            download.size == self.total_elements * 8,
    {
        proof {
            lemma_part_fits(k as int, self.num_kernels as int, self.total_elements as int, 8);
        }
        Download {
            buffer: FlowBuffer::Kernel,
            offset: (k * self.total_elements * 8) as u64,
            size: (self.total_elements * 8) as u64,
        }
    }

    /// The transform of a kernel, from the words that were read for it.
    pub fn kernel_of_words(&self, words: &Vec<u32>) -> (kernel_fft: Vec<Complex32Bits>)
        requires
            words.len() == 2 * self.total_elements,
        ensures
            kernel_fft@ == paired(words@),
            kernel_fft.len() == self.total_elements,
    {
        pair_up(words)
    }
}

/// A part of a buffer of `count` equal parts has a place in it.
pub(crate) proof fn lemma_part_fits(i: int, count: int, total: int, width: int)
    requires
        0 <= i < count,
        0 <= total,
        0 < width,
    ensures
        0 <= i * total,
        0 <= i * total * width,
        i * total <= i * total * width,
        i * total * width + total * width <= total * count * width,
{
    assert(i * total >= 0) by (nonlinear_arith)
        requires
            i >= 0,
            total >= 0,
    ;
    let p = i * total;
    assert(p <= p * width) by (nonlinear_arith)
        requires
            p >= 0,
            width >= 1,
    ;
    assert(p + total <= total * count) by (nonlinear_arith)
        requires
            p == i * total,
            i + 1 <= count,
            total >= 0,
    ;
    let q = total * count;
    assert(p * width + total * width <= q * width) by (nonlinear_arith)
        requires
            p + total <= q,
            width > 0,
    ;
}

/// Where two different parts of a packed buffer lie.
proof fn lemma_parts_apart(i: int, j: int, total: int, width: int)
    requires
        i != j,
        0 <= i,
        0 <= j,
        0 <= total,
        0 < width,
    ensures
        i * total * width + total * width <= j * total * width || j * total * width + total * width
            <= i * total * width,
{
    if i < j {
        lemma_part_fits(i, j, total, width);
        assert(total * j == j * total) by (nonlinear_arith);
    } else {
        lemma_part_fits(j, i, total, width);
        assert(total * i == i * total) by (nonlinear_arith);
    }
}

/// The places of a packed buffer, in words.
pub(crate) proof fn lemma_part_words(i: int, count: int, total: int, width: int)
    requires
        0 <= i < count,
        0 <= total,
        width == 4 || width == 8,
    ensures
        0 <= i * total * width,
        (i * total * width) % 4 == 0,
        (total * width) % 4 == 0,
        (i * total * width) / 4 == i * total * (width / 4),
        (total * width) / 4 == total * (width / 4),
        (i * total * width + total * width) / 4 <= total * count * (width / 4),
        total * count * (width / 4) == (total * count * width) / 4,
        i * total * (width / 4) + total * (width / 4) <= total * count * (width / 4),
{
    lemma_part_fits(i, count, total, width);
    let p = i * total;
    let q = total * count;
    if width == 4 {
        assert(p * width == 4 * p && total * width == 4 * total && q * width == 4 * q);
        assert(width / 4 == 1);
    } else {
        assert(p * width == 8 * p && total * width == 8 * total && q * width == 8 * q);
        assert(width / 4 == 2);
    }
    assert(p * (width / 4) == (p * width) / 4);
}

/// A channel that was uploaded reads back as it was.
pub proof fn uploaded_channel_reads_back(
    sim: GpuFlowLenia,
    contents: Seq<u32>,
    data: Seq<u32>,
    channel: int,
)
    requires
        sim.wf(),
        0 <= channel < sim.num_channels,
        4 * contents.len() == sim.size_of(FlowBuffer::Channel),
        data.len() == sim.total_elements,
    ensures
        loaded(
            stored(contents, sim.channel_offset(channel), data),
            sim.channel_offset(channel),
            sim.total_elements * 4,
        ) == data,
{
    lemma_part_words(channel, sim.num_channels as int, sim.total_elements as int, 4);
    load_of_store(contents, sim.channel_offset(channel), data);
}

/// Uploading a channel leaves the other channels as they were.
pub proof fn upload_keeps_other_channels(
    sim: GpuFlowLenia,
    contents: Seq<u32>,
    data: Seq<u32>,
    channel: int,
    other: int,
)
    requires
        sim.wf(),
        0 <= channel < sim.num_channels,
        0 <= other < sim.num_channels,
        channel != other,
        4 * contents.len() == sim.size_of(FlowBuffer::Channel),
        data.len() == sim.total_elements,
    ensures
        loaded(
            stored(contents, sim.channel_offset(channel), data),
            sim.channel_offset(other),
            sim.total_elements * 4,
        ) == loaded(contents, sim.channel_offset(other), sim.total_elements * 4),
{
    lemma_part_words(channel, sim.num_channels as int, sim.total_elements as int, 4);
    lemma_part_words(other, sim.num_channels as int, sim.total_elements as int, 4);
    lemma_parts_apart(channel, other, sim.total_elements as int, 4);
    load_beside_store(
        contents,
        sim.channel_offset(channel),
        data,
        sim.channel_offset(other),
        sim.total_elements * 4,
    );
}

/// The transform of a kernel that was set reads back as it was.
pub proof fn set_kernel_reads_back(
    sim: GpuFlowLenia,
    contents: Seq<u32>,
    kernel_fft: Seq<Complex32Bits>,
    kernel: int,
)
    requires
        sim.wf(),
        0 <= kernel < sim.num_kernels,
        4 * contents.len() == sim.size_of(FlowBuffer::Kernel),
        kernel_fft.len() == sim.total_elements,
    ensures
        paired(
            loaded(
                stored(contents, sim.kernel_offset(kernel), interleaved(kernel_fft)),
                sim.kernel_offset(kernel),
                sim.total_elements * 8,
            ),
        ) == kernel_fft,
{
    lemma_part_words(kernel, sim.num_kernels as int, sim.total_elements as int, 8);
    load_of_store(contents, sim.kernel_offset(kernel), interleaved(kernel_fft));
    pairs_of_interleaved(kernel_fft);
}

/// Setting a kernel leaves the other kernels as they were.
pub proof fn set_kernel_keeps_other_kernels(
    sim: GpuFlowLenia,
    contents: Seq<u32>,
    kernel_fft: Seq<Complex32Bits>,
    kernel: int,
    other: int,
)
    requires
        sim.wf(),
        0 <= kernel < sim.num_kernels,
        0 <= other < sim.num_kernels,
        kernel != other,
        4 * contents.len() == sim.size_of(FlowBuffer::Kernel),
        kernel_fft.len() == sim.total_elements,
    ensures
        loaded(
            stored(contents, sim.kernel_offset(kernel), interleaved(kernel_fft)),
            sim.kernel_offset(other),
            sim.total_elements * 8,
        ) == loaded(contents, sim.kernel_offset(other), sim.total_elements * 8),
{
    lemma_part_words(kernel, sim.num_kernels as int, sim.total_elements as int, 8);
    lemma_part_words(other, sim.num_kernels as int, sim.total_elements as int, 8);
    lemma_parts_apart(kernel, other, sim.total_elements as int, 8);
    load_beside_store(
        contents,
        sim.kernel_offset(kernel),
        interleaved(kernel_fft),
        sim.kernel_offset(other),
        sim.total_elements * 8,
    );
}

/// The download of all channels is the concatenation of the downloads of each.
pub proof fn all_channels_hold_each_channel(sim: GpuFlowLenia, contents: Seq<u32>, channel: int)
    requires
        sim.wf(),
        0 <= channel < sim.num_channels,
        4 * contents.len() == sim.size_of(FlowBuffer::Channel),
    ensures
        loaded(contents, 0, sim.size_of(FlowBuffer::Channel)) == contents,
        loaded(contents, 0, sim.size_of(FlowBuffer::Channel)).subrange(
            channel * sim.total_elements,
            channel * sim.total_elements + sim.total_elements,
        ) == loaded(contents, sim.channel_offset(channel), sim.total_elements * 4),
{
    lemma_part_words(channel, sim.num_channels as int, sim.total_elements as int, 4);
    assert(loaded(contents, 0, sim.size_of(FlowBuffer::Channel)) =~= contents);
}

/// The channel buffer after the first `count` uploads of [`GpuFlowLenia::reinit_channels`].
pub open spec fn reinitialized(
    sim: GpuFlowLenia,
    contents: Seq<u32>,
    data: Seq<Vec<u32>>,
    count: nat,
) -> Seq<u32>
    decreases count,
{
    if count == 0 {
        contents
    } else {
        stored(
            reinitialized(sim, contents, data, (count - 1) as nat),
            sim.channel_offset(count - 1),
            data[count - 1]@,
        )
    }
}

/// After the first channels were re-initialized, each reads back as it was given, and
/// the other channels are as they were.
pub proof fn reinitialized_channels_read_back(
    sim: GpuFlowLenia,
    contents: Seq<u32>,
    data: Seq<Vec<u32>>,
    count: nat,
    channel: int,
)
    requires
        sim.wf(),
        count <= data.len(),
        count <= sim.num_channels,
        forall|c: int| 0 <= c < count ==> (#[trigger] data[c]).len() == sim.total_elements,
        0 <= channel < sim.num_channels,
        4 * contents.len() == sim.size_of(FlowBuffer::Channel),
    ensures
        reinitialized(sim, contents, data, count).len() == contents.len(),
        loaded(
            reinitialized(sim, contents, data, count),
            sim.channel_offset(channel),
            sim.total_elements * 4,
        ) == if channel < count {
            data[channel]@
        } else {
            loaded(contents, sim.channel_offset(channel), sim.total_elements * 4)
        },
    decreases count,
{
    if count > 0 {
        let last = count - 1;
        reinitialized_channels_read_back(sim, contents, data, last as nat, channel);
        let before = reinitialized(sim, contents, data, last as nat);
        if channel == last {
            uploaded_channel_reads_back(sim, before, data[last]@, last);
        } else {
            upload_keeps_other_channels(sim, before, data[last]@, last, channel);
        }
    }
}

/// The bindings of every pass match the layout of its shader one for one: each
/// buffer is of a kind that allows the access, and the bound part lies within it.
pub proof fn bindings_match_layout(sim: GpuFlowLenia, pass: FlowPass, i: int)
    requires
        sim.wf(),
        sim.has_pass(pass),
    ensures
        sim.bindings_of(pass).len() == layout_of(shader_of(pass)).len(),
        0 <= i < sim.bindings_of(pass).len() ==> {
            let (buffer, extent) = sim.bindings_of(pass)[i];
            let (first, end) = extent_bounds(sim.size_of(buffer), extent);
            &&& kind_allows(kind_of(buffer), layout_of(shader_of(pass))[i])
            &&& 0 <= first <= end <= sim.size_of(buffer)
            &&& first % 4 == 0
            &&& end % 4 == 0
        },
{
    let total = sim.total_elements as int;
    let (c, k) = (sim.num_channels as int, sim.num_kernels as int);
    assert(total * c >= 0) by (nonlinear_arith)
        requires
            total >= 0,
            c >= 0,
    ;
    assert(total * k >= 0) by (nonlinear_arith)
        requires
            total >= 0,
            k >= 0,
    ;
    match pass {
        FlowPass::CopyToConv { kernel } => {
            lemma_part_words(sim.c0@[kernel as int] as int, c, total, 4);
            lemma_part_fits(sim.c0@[kernel as int] as int, c, total, 4);
        },
        FlowPass::ComplexMul { kernel } => {
            lemma_part_words(kernel as int, k, total, 8);
            lemma_part_fits(kernel as int, k, total, 8);
        },
        FlowPass::Growth { kernel } => {
            lemma_part_words(kernel as int, k, total, 4);
            lemma_part_fits(kernel as int, k, total, 4);
            lemma_part_fits(kernel as int, k, total, 8);
        },
        _ => {},
    }
}

/// A buffer that a pass writes is bound only once, so no invocation reads through
/// another binding what it or another one writes.
pub proof fn written_buffers_are_bound_once(sim: GpuFlowLenia, pass: FlowPass, i: int, j: int)
    requires
        0 <= i < sim.bindings_of(pass).len(),
        0 <= j < sim.bindings_of(pass).len(),
        i != j,
        layout_of(shader_of(pass))[i] == Access::ReadWrite,
    ensures
        sim.bindings_of(pass)[i].0 != sim.bindings_of(pass)[j].0,
{
}

/// The bound parts of the packed buffers start at multiples of 256 bytes, as devices
/// ask for, on every grid of at least 64 cells.
pub proof fn bound_parts_are_aligned(sim: GpuFlowLenia, pass: FlowPass, i: int)
    requires
        sim.wf(),
        sim.has_pass(pass),
        sim.total_elements >= 64,
        0 <= i < sim.bindings_of(pass).len(),
    ensures
        extent_bounds(sim.size_of(sim.bindings_of(pass)[i].0), sim.bindings_of(pass)[i].1).0 % 256
            == 0,
{
    bindings_match_layout(sim, pass, i);
    let total = sim.total_elements as int;
    assert(total % 64 == 0) by {
        let (a, b) = (log2_of(sim.shape@[0] as nat), log2_of(sim.shape@[1] as nat));
        lemma_pow2_adds(a, b);
        lemma2_to64();
        if a + b < 6 {
            lemma_pow2_strictly_increases(a + b, 6);
        }
        lemma_pow2_adds(6, (a + b - 6) as nat);
        lemma_mod_multiples_basic(pow2((a + b - 6) as nat) as int, 64);
    }
    let q = total / 64;
    match pass {
        FlowPass::CopyToConv { kernel } => {
            lemma_part_aligned(sim.c0@[kernel as int] as int, q, 4);
            lemma_part_fits(
                sim.c0@[kernel as int] as int,
                sim.num_channels as int,
                total,
                4,
            );
        },
        FlowPass::ComplexMul { kernel } => {
            lemma_part_aligned(kernel as int, q, 8);
            lemma_part_fits(kernel as int, sim.num_kernels as int, total, 8);
        },
        FlowPass::Growth { kernel } => {
            lemma_part_aligned(kernel as int, q, 4);
            lemma_part_fits(kernel as int, sim.num_kernels as int, total, 8);
        },
        _ => {},
    }
}

/// Parts of `64 * q` elements start at multiples of 256 bytes.
proof fn lemma_part_aligned(i: int, q: int, width: int)
    requires
        width == 4 || width == 8,
    ensures
        (i * (64 * q) * width) % 256 == 0,
{
    assert(i * (64 * q) == 64 * (i * q)) by (nonlinear_arith);
}

/// On a square grid the transforms are divided by the number of cells.
pub proof fn square_grids_divide_by_total(sim: GpuFlowLenia)
    requires
        sim.wf(),
        sim.shape@[0] == sim.shape@[1],
    ensures
        sim.words_of(FlowBuffer::NormalizeParams) == seq![
            Word::InversePower { base: sim.shape@[0] as u64, exponent: 2 },
        ],
        vstd::arithmetic::power::pow(sim.shape@[0] as int, 2) == sim.total_elements,
{
    vstd::arithmetic::power::lemma_pow1(sim.shape@[0] as int);
    vstd::arithmetic::power::lemma_pow_adds(sim.shape@[0] as int, 1, 1);
}

} // verus!
