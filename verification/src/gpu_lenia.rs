//! The Lenia simulation with a single channel and kernel.
//!
//! As in [`crate::gpu_flow_lenia`], this module plans what happens to the device
//! buffers of a simulation.
use crate::bytes::ByteOrder;
use crate::gpu::{
    copy_words, groups_for, interleave, interleaved, kind_allows, workgroups, Access, BufferKind,
    Complex32Bits, Download, ParamBlock, Upload, Word, F32_ONE, F32_ZERO,
};
use crate::lanes::{all_positive, lemma_volume_positive, lemma_volume_split, volume};
use crate::power::{is_power_of_two, lemma_log2_of_pow2, log2_of};
use crate::wfft::{LaneLayout, WgpuFFT1D};
use vstd::arithmetic::div_mod::*;
use vstd::arithmetic::mul::*;
use vstd::arithmetic::power2::*;
use vstd::prelude::*;

verus! {

/// The growth functions. Single-precision parameters are held as bit patterns.
#[derive(Clone, Copy, Debug, PartialEq, Eq, Structural)]
pub enum GpuGrowthFn {
    /// A gaussian bump: `2 * exp(-(x - mu)^2 / (2 * sigma^2)) - 1`.
    StandardLenia { mu: u32, sigma: u32 },
    /// A multiple: `x * multiplier`.
    Pass { multiplier: u32 },
}

/// The device buffers of a simulation.
#[derive(Clone, Copy, Debug, PartialEq, Eq, Structural)]
pub enum LeniaBuffer {
    /// The state.
    Channel,
    /// The last change of the state.
    Delta,
    /// The grid that the transforms work on.
    Conv,
    /// The transform of the kernel.
    Kernel,
    /// The growth.
    GrowthResult,
    /// The parameters of the passes.
    GrowthParams,
    UpdateParams,
    NormalizeParams,
    /// Written by the host, copied from.
    Staging,
    /// Copied to, read by the host.
    Readback,
}

/// The compute shaders of a simulation.
#[derive(Clone, Copy, Debug, PartialEq, Eq, Structural)]
pub enum LeniaShader {
    CopyToConv,
    ComplexMul,
    Normalize,
    GrowthStandard,
    GrowthPass,
    Update,
}

/// The compute passes of an iteration.
#[derive(Clone, Copy, Debug, PartialEq, Eq, Structural)]
pub enum LeniaPass {
    /// Copy the state to the transform grid.
    CopyToConv,
    /// Multiply the transform by that of the kernel.
    ComplexMul,
    /// Divide by the length of the transforms.
    Normalize,
    /// The growth.
    Growth,
    /// Change the state by the growth.
    Update,
}

/// A step of an iteration.
#[derive(Clone, Copy, Debug, PartialEq, Eq, Structural)]
pub enum LeniaCommand {
    /// Write the parameters of the normalization.
    WriteNormalizeParams,
    /// Run a compute pass.
    Dispatch { pass: LeniaPass, groups: u32 },
    /// Transform the lanes of the transform grid along an axis.
    Transform { inverse: bool, axis: usize, lanes: LaneLayout },
    /// Submit what has been recorded.
    Submit,
}

/// A planned simulation.
#[derive(Debug)]
pub struct GpuLenia {
    pub shape: Vec<usize>,
    pub total_elements: usize,
    pub dt: u32,
    pub num_conv_channels: usize,
    pub growth_fn: GpuGrowthFn,
    pub weight_sum_reciprocal: u32,
    pub forward_fft_1d: Vec<WgpuFFT1D>,
    pub inverse_fft_1d: Vec<WgpuFFT1D>,
}

/// The buffers of a simulation, in the order they are created.
pub open spec fn all_lenia_buffers() -> Seq<LeniaBuffer> {
    seq![
        LeniaBuffer::Channel,
        LeniaBuffer::Delta,
        LeniaBuffer::Conv,
        LeniaBuffer::Kernel,
        LeniaBuffer::GrowthResult,
        LeniaBuffer::GrowthParams,
        LeniaBuffer::UpdateParams,
        LeniaBuffer::NormalizeParams,
        LeniaBuffer::Staging,
        LeniaBuffer::Readback,
    ]
}

/// Every buffer is created, and none twice.
pub proof fn every_lenia_buffer_is_created(buffer: LeniaBuffer)
    ensures
        all_lenia_buffers().contains(buffer),
        all_lenia_buffers().no_duplicates(),
{
    let place: int = match buffer {
        LeniaBuffer::Channel => 0,
        LeniaBuffer::Delta => 1,
        LeniaBuffer::Conv => 2,
        LeniaBuffer::Kernel => 3,
        LeniaBuffer::GrowthResult => 4,
        LeniaBuffer::GrowthParams => 5,
        LeniaBuffer::UpdateParams => 6,
        LeniaBuffer::NormalizeParams => 7,
        LeniaBuffer::Staging => 8,
        LeniaBuffer::Readback => 9,
    };
    assert(all_lenia_buffers()[place] == buffer);
}

/// What a buffer is used for.
pub open spec fn lenia_kind(buffer: LeniaBuffer) -> BufferKind {
    match buffer {
        LeniaBuffer::GrowthParams | LeniaBuffer::UpdateParams | LeniaBuffer::NormalizeParams =>
            BufferKind::Uniform,
        LeniaBuffer::Staging => BufferKind::Staging,
        LeniaBuffer::Readback => BufferKind::Readback,
        _ => BufferKind::Storage,
    }
}

/// The bindings of a pass: at each index the buffer and how it is accessed.
pub open spec fn lenia_bindings(pass: LeniaPass) -> Seq<(LeniaBuffer, Access)> {
    match pass {
        LeniaPass::CopyToConv => seq![
            (LeniaBuffer::Channel, Access::ReadOnly),
            (LeniaBuffer::Conv, Access::ReadWrite),
        ],
        LeniaPass::ComplexMul => seq![
            (LeniaBuffer::Conv, Access::ReadWrite),
            (LeniaBuffer::Kernel, Access::ReadOnly),
        ],
        LeniaPass::Normalize => seq![
            (LeniaBuffer::Conv, Access::ReadWrite),
            (LeniaBuffer::NormalizeParams, Access::Uniform),
        ],
        LeniaPass::Growth => seq![
            (LeniaBuffer::Conv, Access::ReadOnly),
            (LeniaBuffer::GrowthResult, Access::ReadWrite),
            (LeniaBuffer::GrowthParams, Access::Uniform),
        ],
        LeniaPass::Update => seq![
            (LeniaBuffer::Channel, Access::ReadWrite),
            (LeniaBuffer::Delta, Access::ReadWrite),
            (LeniaBuffer::GrowthResult, Access::ReadOnly),
            (LeniaBuffer::UpdateParams, Access::Uniform),
        ],
    }
}

/// The words of the parameters of a growth function.
pub open spec fn growth_words(growth_fn: GpuGrowthFn) -> Seq<Word> {
    match growth_fn {
        GpuGrowthFn::StandardLenia { mu, sigma } => seq![Word::Float(mu), Word::Float(sigma)],
        GpuGrowthFn::Pass { multiplier } => seq![Word::Float(multiplier)],
    }
}

impl GpuLenia {
    /// Every axis has its transforms, and every buffer has a size.
    pub open spec fn wf(&self) -> bool {
        &&& self.forward_fft_1d.len() == self.shape.len()
        &&& self.inverse_fft_1d.len() == self.shape.len()
        &&& forall|a: int| 0 <= a < self.shape.len() ==> #[trigger] self.axis_planned(a)
        &&& self.total_elements == volume(self.shape@)
        &&& self.total_elements * 8 <= usize::MAX
        &&& self.num_conv_channels == 1
        &&& self.weight_sum_reciprocal == F32_ONE
    }

    /// The transforms of an axis are planned.
    pub open spec fn axis_planned(&self, axis: int) -> bool {
        &&& self.forward_fft_1d@[axis].wf()
        &&& self.forward_fft_1d@[axis].n == self.shape@[axis]
        &&& !self.forward_fft_1d@[axis].inverse
        &&& self.inverse_fft_1d@[axis].wf()
        &&& self.inverse_fft_1d@[axis].n == self.shape@[axis]
        &&& self.inverse_fft_1d@[axis].inverse
    }

    /// The size of a buffer in bytes.
    pub open spec fn size_of(&self, buffer: LeniaBuffer) -> int {
        match buffer {
            LeniaBuffer::Conv | LeniaBuffer::Kernel => self.total_elements * 8,
            LeniaBuffer::GrowthParams => 8,
            LeniaBuffer::UpdateParams => 16,
            LeniaBuffer::NormalizeParams => 4,
            _ => self.total_elements * 4,
        }
    }

    /// The words of the parameters of the update pass: the number of cells, the time
    /// step, the weight and the reciprocal of the sum of weights.
    pub open spec fn update_words(&self) -> Seq<Word> {
        seq![
            Word::FloatOf(self.total_elements as u64),
            Word::Float(self.dt),
            Word::Float(F32_ONE),
            Word::Float(self.weight_sum_reciprocal),
        ]
    }

    /// Plans a simulation on a grid.
    pub fn new(shape: &Vec<usize>, growth_fn: GpuGrowthFn, dt: u32) -> (sim: GpuLenia)
        requires
            forall|a: int| 0 <= a < shape.len() ==> is_power_of_two(#[trigger] shape@[a] as nat),
            volume(shape@) * 8 <= usize::MAX,
        ensures
            sim.wf(),
            sim.shape@ == shape@,
            sim.dt == dt,
            sim.growth_fn == growth_fn,
    {
        let mut dims: Vec<usize> = Vec::new();
        let mut forward_fft_1d: Vec<WgpuFFT1D> = Vec::new();
        let mut inverse_fft_1d: Vec<WgpuFFT1D> = Vec::new();
        let mut total_elements: usize = 1;
        let mut a: usize = 0;
        proof {
            assert forall|b: int| 0 <= b < shape.len() implies #[trigger] shape@[b] > 0 by {
                lemma_pow2_pos(log2_of(shape@[b] as nat));
            }
            assert(shape@.take(0) =~= Seq::empty());
        }
        while a < shape.len()
            invariant
                a <= shape.len(),
                forall|b: int|
                    0 <= b < shape.len() ==> is_power_of_two(#[trigger] shape@[b] as nat),
                all_positive(shape@),
                volume(shape@) * 8 <= usize::MAX,
                dims@ == shape@.take(a as int),
                total_elements == volume(shape@.take(a as int)),
                forward_fft_1d.len() == a,
                inverse_fft_1d.len() == a,
                forall|b: int|
                    0 <= b < a ==> {
                        &&& (#[trigger] forward_fft_1d@[b]).wf()
                        &&& forward_fft_1d@[b].n == shape@[b]
                        &&& !forward_fft_1d@[b].inverse
                        &&& inverse_fft_1d@[b].wf()
                        &&& inverse_fft_1d@[b].n == shape@[b]
                        &&& inverse_fft_1d@[b].inverse
                    },
            decreases shape.len() - a,
        {
            proof {
                lemma_prefix_fits(shape@, a as int);
            }
            let dim: usize = shape[a];
            total_elements = total_elements * dim;
            forward_fft_1d.push(WgpuFFT1D::new(dim, false));
            inverse_fft_1d.push(WgpuFFT1D::new(dim, true));
            dims.push(dim);
            a = a + 1;
            assert(dims@ =~= shape@.take(a as int));
            assert(shape@.take(a as int).drop_last() =~= shape@.take(a - 1));
        }
        assert(dims@ =~= shape@);
        let sim: GpuLenia = GpuLenia {
            shape: dims,
            total_elements,
            dt,
            num_conv_channels: 1,
            growth_fn,
            weight_sum_reciprocal: F32_ONE,
            forward_fft_1d,
            inverse_fft_1d,
        };
        proof {
            assert forall|b: int| 0 <= b < sim.shape.len() implies #[trigger] sim.axis_planned(
                b,
            ) by {
                assert(sim.forward_fft_1d@[b].wf());
            }
        }
        sim
    }

    /// The lengths of the axes.
    pub fn shape(&self) -> (shape: &Vec<usize>)
        ensures
            shape@ == self.shape@,
    {
        &self.shape
    }

    /// The buffer that holds the state.
    pub fn channel_buffer(&self) -> (buffer: LeniaBuffer)
        ensures
            buffer == LeniaBuffer::Channel,
    {
        LeniaBuffer::Channel
    }

    /// The time step.
    pub fn dt(&self) -> (dt: u32)
        ensures
            dt == self.dt,
    {
        self.dt
    }

    /// The size of a buffer in bytes.
    pub fn buffer_size(&self, buffer: LeniaBuffer) -> (size: u64)
        requires
            self.wf(),
        ensures
            size == self.size_of(buffer),
    {
        match buffer {
            LeniaBuffer::Conv | LeniaBuffer::Kernel => (self.total_elements * 8) as u64,
            LeniaBuffer::GrowthParams => 8,
            LeniaBuffer::UpdateParams => 16,
            LeniaBuffer::NormalizeParams => 4,
            _ => (self.total_elements * 4) as u64,
        }
    }

    /// What a buffer is used for.
    pub fn buffer_kind(buffer: LeniaBuffer) -> (kind: BufferKind)
        ensures
            kind == lenia_kind(buffer),
    {
        match buffer {
            LeniaBuffer::GrowthParams
            | LeniaBuffer::UpdateParams
            | LeniaBuffer::NormalizeParams => BufferKind::Uniform,
            LeniaBuffer::Staging => BufferKind::Staging,
            LeniaBuffer::Readback => BufferKind::Readback,
            _ => BufferKind::Storage,
        }
    }

    /// The shader of a pass. The shader of the growth is that of the growth function.
    pub fn shader(&self, pass: LeniaPass) -> (shader: LeniaShader)
        ensures
            shader == match pass {
                LeniaPass::CopyToConv => LeniaShader::CopyToConv,
                LeniaPass::ComplexMul => LeniaShader::ComplexMul,
                LeniaPass::Normalize => LeniaShader::Normalize,
                LeniaPass::Growth => match self.growth_fn {
                    GpuGrowthFn::StandardLenia { .. } => LeniaShader::GrowthStandard,
                    GpuGrowthFn::Pass { .. } => LeniaShader::GrowthPass,
                },
                LeniaPass::Update => LeniaShader::Update,
            },
    {
        match pass {
            LeniaPass::CopyToConv => LeniaShader::CopyToConv,
            LeniaPass::ComplexMul => LeniaShader::ComplexMul,
            LeniaPass::Normalize => LeniaShader::Normalize,
            LeniaPass::Growth => match self.growth_fn {
                GpuGrowthFn::StandardLenia { .. } => LeniaShader::GrowthStandard,
                GpuGrowthFn::Pass { .. } => LeniaShader::GrowthPass,
            },
            LeniaPass::Update => LeniaShader::Update,
        }
    }

    /// The bindings of a pass: at each index the buffer and how it is accessed.
    pub fn bindings(pass: LeniaPass) -> (bindings: Vec<(LeniaBuffer, Access)>)
        ensures
            bindings@ == lenia_bindings(pass),
    {
        match pass {
            LeniaPass::CopyToConv => vec![
                (LeniaBuffer::Channel, Access::ReadOnly),
                (LeniaBuffer::Conv, Access::ReadWrite),
            ],
            LeniaPass::ComplexMul => vec![
                (LeniaBuffer::Conv, Access::ReadWrite),
                (LeniaBuffer::Kernel, Access::ReadOnly),
            ],
            LeniaPass::Normalize => vec![
                (LeniaBuffer::Conv, Access::ReadWrite),
                (LeniaBuffer::NormalizeParams, Access::Uniform),
            ],
            LeniaPass::Growth => vec![
                (LeniaBuffer::Conv, Access::ReadOnly),
                (LeniaBuffer::GrowthResult, Access::ReadWrite),
                (LeniaBuffer::GrowthParams, Access::Uniform),
            ],
            LeniaPass::Update => vec![
                (LeniaBuffer::Channel, Access::ReadWrite),
                (LeniaBuffer::Delta, Access::ReadWrite),
                (LeniaBuffer::GrowthResult, Access::ReadOnly),
                (LeniaBuffer::UpdateParams, Access::Uniform),
            ],
        }
    }

    /// The write that fills a buffer of the grid with zeros.
    pub fn zero_fill(&self, buffer: LeniaBuffer) -> (upload: Upload<LeniaBuffer>)
        ensures
            upload.buffer == buffer,
            upload.offset == 0,
            upload.words@ == Seq::new(self.total_elements as nat, |i: int| F32_ZERO),
    {
        let mut words: Vec<u32> = Vec::new();
        let mut i: usize = 0;
        while i < self.total_elements
            invariant
                i <= self.total_elements,
                words@ == Seq::new(i as nat, |j: int| F32_ZERO),
            decreases self.total_elements - i,
        {
            words.push(F32_ZERO);
            i = i + 1;
            assert(words@ =~= Seq::new(i as nat, |j: int| F32_ZERO));
        }
        Upload { buffer, offset: 0, words }
    }

    /// The buffers of a simulation, in the order they are created.
    pub fn buffers() -> (buffers: Vec<LeniaBuffer>)
        ensures
            buffers@ == all_lenia_buffers(),
    {
        vec![
            LeniaBuffer::Channel,
            LeniaBuffer::Delta,
            LeniaBuffer::Conv,
            LeniaBuffer::Kernel,
            LeniaBuffer::GrowthResult,
            LeniaBuffer::GrowthParams,
            LeniaBuffer::UpdateParams,
            LeniaBuffer::NormalizeParams,
            LeniaBuffer::Staging,
            LeniaBuffer::Readback,
        ]
    }

    /// The writes that clear a new simulation: the state, its last change and the
    /// growth are zero.
    pub fn clearing_uploads(&self) -> (uploads: Vec<Upload<LeniaBuffer>>)
        ensures
            uploads.len() == 3,
            uploads@[0].buffer == LeniaBuffer::Channel,
            uploads@[1].buffer == LeniaBuffer::Delta,
            uploads@[2].buffer == LeniaBuffer::GrowthResult,
            forall|i: int|
                0 <= i < 3 ==> {
                    &&& (#[trigger] uploads@[i]).offset == 0
                    &&& uploads@[i].words@ == Seq::new(
                        self.total_elements as nat,
                        |j: int| F32_ZERO,
                    )
                },
    {
        vec![
            self.zero_fill(LeniaBuffer::Channel),
            self.zero_fill(LeniaBuffer::Delta),
            self.zero_fill(LeniaBuffer::GrowthResult),
        ]
    }

    /// The parameters of the update pass: the number of cells, the time step, the
    /// weight and the reciprocal of the sum of weights.
    pub fn update_params(&self) -> (block: ParamBlock)
        ensures
            block.order == ByteOrder::Native,
            block.words@ == self.update_words(),
            block.words.len() * 4 == self.size_of(LeniaBuffer::UpdateParams),
    {
        ParamBlock {
            order: ByteOrder::Native,
            words: vec![
                Word::FloatOf(self.total_elements as u64),
                Word::Float(self.dt),
                Word::Float(F32_ONE),
                Word::Float(self.weight_sum_reciprocal),
            ],
        }
    }

    /// The parameters of the growth function.
    pub fn growth_params(&self) -> (block: ParamBlock)
        ensures
            block.order == ByteOrder::Native,
            block.words@ == growth_words(self.growth_fn),
            block.words.len() * 4 <= self.size_of(LeniaBuffer::GrowthParams),
    {
        let words: Vec<Word> = match self.growth_fn {
            GpuGrowthFn::StandardLenia { mu, sigma } => vec![Word::Float(mu), Word::Float(sigma)],
            GpuGrowthFn::Pass { multiplier } => vec![Word::Float(multiplier)],
        };
        ParamBlock { order: ByteOrder::Native, words }
    }

    /// The parameters of the normalization: one divided by the length of the first
    /// axis, to the power of the number of axes.
    pub fn normalize_params(&self) -> (block: ParamBlock)
        requires
            self.wf(),
            self.shape.len() > 0,
        ensures
            block.order == ByteOrder::Native,
            block.words@ == seq![
                Word::InversePower {
                    base: self.shape@[0] as u64,
                    exponent: self.shape.len() as u64,
                },
            ],
            block.words.len() * 4 == self.size_of(LeniaBuffer::NormalizeParams),
    {
        assert(self.axis_planned(0));
        ParamBlock {
            order: ByteOrder::Native,
            words: vec![
                Word::InversePower {
                    base: self.forward_fft_1d[0].padded_len() as u64,
                    exponent: self.shape.len() as u64,
                },
            ],
        }
    }

    /// Sets the time step. The returned block replaces the parameters of the update
    /// pass, of which only the time step changes.
    pub fn set_dt(&mut self, dt: u32) -> (block: ParamBlock)
        ensures
            *final(self) == (GpuLenia { dt, ..*old(self) }),
            old(self).wf() ==> final(self).wf(),
            block.order == ByteOrder::Native,
            block.words@ == seq![
                Word::FloatOf(old(self).total_elements as u64),
                Word::Float(dt),
                Word::Float(F32_ONE),
                Word::Float(old(self).weight_sum_reciprocal),
            ],
            block.words@ == final(self).update_words(),
            block.words@ == old(self).update_words().update(1, Word::Float(dt)),
    {
        let ghost before = *self;
        self.dt = dt;
        proof {
            if before.wf() {
                assert forall|a: int|
                    0 <= a < self.shape.len() implies #[trigger] self.axis_planned(a) by {
                    assert(before.axis_planned(a));
                }
            }
        }
        let block: ParamBlock = self.update_params();
        assert(block.words@ =~= before.update_words().update(1, Word::Float(dt)));
        block
    }

    /// The write that puts the transform of the kernel of a convolution in place.
    pub fn set_kernel(
        &self,
        kernel_fft: &Vec<Complex32Bits>,
        conv_channel: usize,
    ) -> (upload: Upload<LeniaBuffer>)
        requires
            kernel_fft.len() == self.total_elements,
            conv_channel < self.num_conv_channels,
        ensures
            upload.buffer == LeniaBuffer::Kernel,
            upload.offset == 0,
            upload.words@ == interleaved(kernel_fft@),
    {
        Upload { buffer: LeniaBuffer::Kernel, offset: 0, words: interleave(kernel_fft) }
    }

    /// The write that puts the state in place.
    pub fn upload_channel(&self, data: &Vec<u32>, channel: usize) -> (upload: Upload<LeniaBuffer>)
        requires
            data.len() == self.total_elements,
            channel == 0,
        ensures
            upload.buffer == LeniaBuffer::Channel,
            upload.offset == 0,
            upload.words@ == data@,
    {
        Upload { buffer: LeniaBuffer::Channel, offset: 0, words: copy_words(data) }
    }

    /// The part of the state that is read: all of it.
    pub fn download_channel(&self, channel: usize) -> (download: Download<LeniaBuffer>)
        requires
            self.wf(),
            channel == 0,
        ensures
            download.buffer == LeniaBuffer::Channel,
            download.offset == 0,
            download.size == self.size_of(LeniaBuffer::Channel),
    {
        Download {
            buffer: LeniaBuffer::Channel,
            offset: 0,
            size: (self.total_elements * 4) as u64,
        }
    }

    /// There are two axes to transform, and the workgroup counts of an iteration fit
    /// in 32 bits.
    pub open spec fn can_iterate(&self) -> bool {
        &&& self.wf()
        &&& self.shape.len() >= 2
        &&& self.total_elements + 255 <= u32::MAX
    }

    /// Whether the simulation can iterate: it has two axes or more, and its workgroup
    /// counts fit.
    pub fn is_ready(&self) -> (ready: bool)
        requires
            self.wf(),
        ensures
            ready == self.can_iterate(),
    {
        self.shape.len() >= 2 && self.total_elements <= u32::MAX as usize - 255
    }

    /// The lanes along the first axis, which lie next to each other.
    pub open spec fn row_lanes(&self) -> LaneLayout {
        LaneLayout {
            num_lanes: self.total_elements / self.shape@[0],
            lane_stride: self.shape@[0] as u32,
            elem_stride: 1,
        }
    }

    /// The lanes along the second axis, which are interleaved.
    pub open spec fn column_lanes(&self) -> LaneLayout {
        LaneLayout {
            num_lanes: self.total_elements / self.shape@[1],
            lane_stride: 1,
            elem_stride: self.shape@[0] as u32,
        }
    }

    /// The steps of an iteration.
    pub open spec fn commands(&self) -> Seq<LeniaCommand> {
        let groups = groups_for(self.total_elements as nat) as u32;
        let rows = self.row_lanes();
        let columns = self.column_lanes();
        seq![
            LeniaCommand::WriteNormalizeParams,
            LeniaCommand::Dispatch { pass: LeniaPass::CopyToConv, groups },
            LeniaCommand::Transform { inverse: false, axis: 0, lanes: rows },
            LeniaCommand::Transform { inverse: false, axis: 1, lanes: columns },
            LeniaCommand::Dispatch { pass: LeniaPass::ComplexMul, groups },
            LeniaCommand::Transform { inverse: true, axis: 1, lanes: columns },
            LeniaCommand::Transform { inverse: true, axis: 0, lanes: rows },
            LeniaCommand::Dispatch { pass: LeniaPass::Normalize, groups },
            LeniaCommand::Dispatch { pass: LeniaPass::Growth, groups },
            LeniaCommand::Dispatch { pass: LeniaPass::Update, groups },
            LeniaCommand::Submit,
        ]
    }

    /// The steps of an iteration.
    pub fn iterate(&self) -> (commands: Vec<LeniaCommand>)
        requires
            self.can_iterate(),
        ensures
            commands@ == self.commands(),
    {
        proof {
            assert(self.axis_planned(0));
            assert(self.axis_planned(1));
            lemma_axes_fit(*self);
        }
        let groups: u32 = workgroups(self.total_elements as u32);
        let axis0: u32 = self.shape[0] as u32;
        let axis1: u32 = self.shape[1] as u32;
        let rows: LaneLayout = LaneLayout {
            num_lanes: self.total_elements / axis0 as usize,
            lane_stride: axis0,
            elem_stride: 1,
        };
        let columns: LaneLayout = LaneLayout {
            num_lanes: self.total_elements / axis1 as usize,
            lane_stride: 1,
            elem_stride: axis0,
        };
        let commands: Vec<LeniaCommand> = vec![
            LeniaCommand::WriteNormalizeParams,
            LeniaCommand::Dispatch { pass: LeniaPass::CopyToConv, groups },
            LeniaCommand::Transform { inverse: false, axis: 0, lanes: rows },
            LeniaCommand::Transform { inverse: false, axis: 1, lanes: columns },
            LeniaCommand::Dispatch { pass: LeniaPass::ComplexMul, groups },
            LeniaCommand::Transform { inverse: true, axis: 1, lanes: columns },
            LeniaCommand::Transform { inverse: true, axis: 0, lanes: rows },
            LeniaCommand::Dispatch { pass: LeniaPass::Normalize, groups },
            LeniaCommand::Dispatch { pass: LeniaPass::Growth, groups },
            LeniaCommand::Dispatch { pass: LeniaPass::Update, groups },
            LeniaCommand::Submit,
        ];
        assert(commands@ =~= self.commands());
        commands
    }
}

/// The volume of the first axes and one more is at most that of all.
proof fn lemma_prefix_fits(shape: Seq<usize>, a: int)
    requires
        0 <= a < shape.len(),
        all_positive(shape),
    ensures
        volume(shape.take(a)) * shape[a] as nat <= volume(shape),
        shape[a] <= volume(shape),
        volume(shape.take(a + 1)) == volume(shape.take(a)) * shape[a] as nat,
{
    let head = shape.take(a + 1);
    assert(head.drop_last() =~= shape.take(a));
    assert(head.last() == shape[a]);
    lemma_volume_split(shape, a + 1);
    let rest = shape.skip(a + 1);
    assert forall|b: int| 0 <= b < rest.len() implies #[trigger] rest[b] > 0 by {
        assert(rest[b] == shape[a + 1 + b]);
    }
    lemma_volume_positive(rest);
    let (p, q) = (volume(head) as int, volume(rest) as int);
    assert(p <= p * q) by (nonlinear_arith)
        requires
            p >= 0,
            q >= 1,
    ;
    let first = shape.take(a);
    assert forall|b: int| 0 <= b < first.len() implies #[trigger] first[b] > 0 by {
        assert(first[b] == shape[b]);
    }
    lemma_volume_positive(first);
    let (u, d) = (volume(first) as int, shape[a] as int);
    assert(d <= u * d) by (nonlinear_arith)
        requires
            u >= 1,
            d >= 0,
    ;
}

/// The axes of a simulation are positive and no longer than the grid.
proof fn lemma_axes_fit(sim: GpuLenia)
    requires
        sim.can_iterate(),
    ensures
        0 < sim.shape@[0] <= sim.total_elements,
        0 < sim.shape@[1] <= sim.total_elements,
        all_positive(sim.shape@),
{
    assert forall|b: int| 0 <= b < sim.shape.len() implies #[trigger] sim.shape@[b] > 0 by {
        assert(sim.axis_planned(b));
        lemma_pow2_pos(log2_of(sim.shape@[b] as nat));
    }
    lemma_prefix_fits(sim.shape@, 0);
    lemma_prefix_fits(sim.shape@, 1);
}

/// A simulation of two axes has a grid of as many cells as rows times columns, and
/// the lanes of its transforms are the rows and the columns.
pub proof fn lemma_grid(sim: GpuLenia)
    requires
        sim.can_iterate(),
        sim.shape.len() == 2,
    ensures
        0 < sim.shape@[0] <= u32::MAX,
        0 < sim.shape@[1] <= u32::MAX,
        sim.total_elements == sim.shape@[0] * sim.shape@[1],
        sim.row_lanes().num_lanes == sim.shape@[1],
        sim.column_lanes().num_lanes == sim.shape@[0],
{
    lemma_axes_fit(sim);
    let shape = sim.shape@;
    let (w, h) = (shape[0] as int, shape[1] as int);
    assert(volume(shape) == w * h) by {
        reveal_with_fuel(volume, 3);
        assert(shape.drop_last().last() == shape[0]);
        assert(shape.drop_last().drop_last().len() == 0);
        assert(volume(shape.drop_last()) == 1 * shape[0] as nat);
    }
    lemma_div_by_multiple(h, w);
    lemma_div_by_multiple(w, h);
    assert(h * w == w * h) by (nonlinear_arith);
}

/// The number of cells that the update pass covers: the first word of its
/// parameters.
pub open spec fn covered_cells(params: Seq<Word>) -> nat {
    match params[0] {
        Word::FloatOf(count) => count as nat,
        _ => 0,
    }
}

/// The parameters of the update pass name all cells of the grid, also after the time
/// step was set. The number of cells is a power of two, which single precision holds
/// exactly.
pub proof fn updates_cover_the_grid(sim: GpuLenia, dt: u32)
    requires
        sim.wf(),
    ensures
        covered_cells(sim.update_words()) == sim.total_elements,
        covered_cells(sim.update_words().update(1, Word::Float(dt))) == sim.total_elements,
        is_power_of_two(sim.total_elements as nat),
{
    assert forall|a: int| 0 <= a < sim.shape.len() implies is_power_of_two(
        #[trigger] sim.shape@[a] as nat,
    ) by {
        assert(sim.axis_planned(a));
    }
    lemma_volume_of_powers(sim.shape@);
}

/// The volume of a grid whose sides are powers of two is one.
proof fn lemma_volume_of_powers(shape: Seq<usize>)
    requires
        forall|a: int| 0 <= a < shape.len() ==> is_power_of_two(#[trigger] shape[a] as nat),
    ensures
        is_power_of_two(volume(shape)),
    decreases shape.len(),
{
    if shape.len() == 0 {
        lemma2_to64();
        assert(pow2(0) == volume(shape));
    } else {
        let rest = shape.drop_last();
        assert forall|a: int| 0 <= a < rest.len() implies is_power_of_two(
            #[trigger] rest[a] as nat,
        ) by {
            assert(rest[a] == shape[a]);
        }
        lemma_volume_of_powers(rest);
        let (d, e) = (log2_of(volume(rest)), log2_of(shape.last() as nat));
        lemma_pow2_adds(d, e);
        lemma_log2_of_pow2(d + e);
    }
}

/// All passes of an iteration are recorded together and submitted once, at the end.
pub proof fn iterations_submit_once(sim: GpuLenia, i: int)
    requires
        0 <= i < sim.commands().len(),
    ensures
        sim.commands()[i] == LeniaCommand::Submit <==> i == sim.commands().len() - 1,
{
}

/// The buffers that the passes bind are of kinds that allow the access, and a buffer
/// that a pass writes is bound only once.
pub proof fn lenia_bindings_are_consistent(pass: LeniaPass, i: int, j: int)
    requires
        0 <= i < lenia_bindings(pass).len(),
        0 <= j < lenia_bindings(pass).len(),
    ensures
        kind_allows(lenia_kind(lenia_bindings(pass)[i].0), lenia_bindings(pass)[i].1),
        i != j && lenia_bindings(pass)[i].1 == Access::ReadWrite ==> lenia_bindings(pass)[i].0
            != lenia_bindings(pass)[j].0,
{
}

} // verus!
