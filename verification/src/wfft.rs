//! Fast Fourier transforms on the graphics device.
//!
//! A transform of length `n` (a power of two) is a bit-reversal pass followed by
//! `log2(n)` butterfly stages. This module plans the passes: buffers, twiddle
//! factors, parameters and workgroup counts, and, for arrays of several axes, the
//! walk over the lanes of each axis.
use crate::complex::{one, zero, Complex};
use crate::dft::{
    complex_butterfly, dft, forward_passes_undo_inverse_passes, impulse_has_flat_spectrum,
    inverse_passes_undo_forward_passes, is_root, is_twiddle_table, lemma_inverse_root, normalized,
    passes_compute_dft,
};
use crate::fft::passes_out;
use crate::gpu::{
    groups_for, interleave, interleaved, pair_up, paired, workgroups, Access, BufferKind,
    Complex32Bits,
};
use crate::lanes::{
    all_positive, axis_order, axis_stride, keeps_length, lane, lane_count, lane_of,
    lemma_axis_volume, lemma_lane_bounds, lemma_lane_of_cell, lemma_stride_positive, map_axes,
    map_lanes, opposite_axes_undo_each_other, undoes, volume,
};
use crate::nd::{nd_elems, nd_lane, nd_len, nd_set_lane, nd_shape, NdArray};
use crate::power::{is_power_of_two, lemma_exponent_below_64, log2, log2_of};
use vstd::arithmetic::div_mod::*;
use vstd::arithmetic::mul::*;
use vstd::arithmetic::power2::*;
use vstd::bits::*;
use vstd::prelude::*;

verus! {

/// An entry of the twiddle table.
#[derive(Clone, Copy, Debug, PartialEq, Eq, Structural)]
pub enum Twiddle {
    /// The unit number at `numerator / denominator` of a full turn, clockwise for a
    /// forward transform and counter-clockwise for an inverse one.
    Turn { inverse: bool, numerator: u64, denominator: u64 },
    /// The number zero, which fills the table up.
    Padding,
}

/// The buffers of a transform.
#[derive(Clone, Copy, Debug, PartialEq, Eq, Structural)]
pub enum FftBuffer {
    /// The numbers being transformed.
    Data,
    /// The twiddle factors.
    Twiddles,
    /// The parameters of the current pass.
    Params,
    /// The copy of the result that the host reads.
    Readback,
}

/// The shaders of a transform.
#[derive(Clone, Copy, Debug, PartialEq, Eq, Structural)]
pub enum FftShader {
    /// The bit-reversal permutation.
    BitReverse,
    /// One stage of butterflies.
    Stage,
}

/// A step of a transform. Each pass is submitted on its own, so that the
/// parameters written before it are the ones it sees.
#[derive(Clone, Copy, Debug, PartialEq, Eq, Structural)]
pub enum FftCommand {
    /// Write the parameters `n, 0` and run the bit-reversal pass.
    BitReverse { n: u32, groups: u32 },
    /// Write the parameters `n, stage, inverse` and run a butterfly stage.
    Stage { n: u32, stage: u32, inverse: u32, groups: u32 },
    /// Copy the data to the readback buffer.
    ReadBack { size: u64 },
}

/// The order of the lanes of a batch of transforms in one buffer: element `i` of
/// lane `l` is cell `l * lane_stride + i * elem_stride`.
#[derive(Clone, Copy, Debug, PartialEq, Eq, Structural)]
pub struct LaneLayout {
    pub num_lanes: usize,
    pub lane_stride: u32,
    pub elem_stride: u32,
}

/// A pass over all lanes of a batch. Its parameters are the numbers from `n` to
/// `elem_stride`, in this order.
#[derive(Clone, Copy, Debug, PartialEq, Eq, Structural)]
pub struct BatchPass {
    pub shader: FftShader,
    pub n: u32,
    pub stage: u32,
    pub inverse: u32,
    pub num_lanes: u32,
    pub lane_stride: u32,
    pub elem_stride: u32,
    pub groups: u32,
}

/// The cell of element `i` of lane `l`.
pub open spec fn layout_cell(lanes: LaneLayout, l: nat, i: nat) -> nat {
    l * lanes.lane_stride as nat + i * lanes.elem_stride as nat
}

/// A planned transform of one length and direction.
#[derive(Debug)]
pub struct WgpuFFT1D {
    pub n: usize,
    pub inverse: bool,
    pub num_stages: u32,
}

/// `1` for an inverse transform, `0` for a forward one.
pub open spec fn inverse_flag(inverse: bool) -> u32 {
    if inverse {
        1
    } else {
        0
    }
}

/// The entry of the twiddle table of an FFT for butterfly `k` of a stage.
pub open spec fn stage_turn(inverse: bool, stage: nat, k: nat) -> Twiddle {
    Twiddle::Turn { inverse, numerator: k as u64, denominator: pow2(stage + 1) as u64 }
}

/// `table` is the twiddle table of an FFT of length `n`: the entries of stage `s`
/// start at `2^s - 1`, and one entry of padding ends the table.
pub open spec fn is_turn_table(table: Seq<Twiddle>, n: nat, inverse: bool) -> bool {
    &&& table.len() == n
    &&& forall|stage: nat, k: nat|
        #![trigger table[pow2(stage) - 1 + k]]
        stage < log2_of(n) && k < pow2(stage) ==> table[pow2(stage) - 1 + k] == stage_turn(
            inverse,
            stage,
            k,
        )
    &&& table[n - 1] == Twiddle::Padding
}

impl WgpuFFT1D {
    /// The plan is consistent, and its buffers have sizes.
    pub open spec fn wf(&self) -> bool {
        &&& is_power_of_two(self.n as nat)
        &&& self.num_stages == log2_of(self.n as nat)
        &&& self.n * 8 <= usize::MAX
    }

    /// The commands of a transform, in order.
    pub open spec fn commands(&self) -> Seq<FftCommand> {
        let n = self.n as u32;
        seq![FftCommand::BitReverse { n, groups: groups_for(n as nat) as u32 }] + Seq::new(
            self.num_stages as nat,
            |stage: int|
                FftCommand::Stage {
                    n,
                    stage: stage as u32,
                    inverse: inverse_flag(self.inverse),
                    groups: groups_for(n as nat / 2) as u32,
                },
        ) + seq![FftCommand::ReadBack { size: (self.n * 8) as u64 }]
    }

    /// Plans a transform of length `n`.
    pub fn new(n: usize, inverse: bool) -> (fft: WgpuFFT1D)
        requires
            is_power_of_two(n as nat),
            n * 8 <= usize::MAX,
        ensures
            fft.wf(),
            fft.n == n,
            fft.inverse == inverse,
    {
        let num_stages: u32 = log2(n);
        WgpuFFT1D { n, inverse, num_stages }
    }

    /// The length of the transform.
    pub fn len(&self) -> (n: usize)
        ensures
            n == self.n,
    {
        self.n
    }

    /// The length of the transform, which is a power of two already.
    pub fn padded_len(&self) -> (n: usize)
        requires
            self.wf(),
        ensures
            n == self.n,
            is_power_of_two(n as nat),
    {
        self.n
    }

    /// Whether this is an inverse transform.
    pub fn inverse(&self) -> (inverse: bool)
        ensures
            inverse == self.inverse,
    {
        self.inverse
    }

    /// The size of a buffer, in bytes: eight for each complex number, and three
    /// words of parameters.
    pub fn buffer_size(&self, buffer: FftBuffer) -> (size: u64)
        requires
            self.wf(),
        ensures
            size == if buffer == FftBuffer::Params {
                12
            } else {
                self.n * 8
            },
    {
        match buffer {
            FftBuffer::Params => 12,
            FftBuffer::Data | FftBuffer::Twiddles | FftBuffer::Readback => (self.n * 8) as u64,
        }
    }

    /// What a buffer is used for.
    pub fn buffer_kind(buffer: FftBuffer) -> (kind: BufferKind)
        ensures
            kind == match buffer {
                FftBuffer::Data => BufferKind::Storage,
                FftBuffer::Twiddles => BufferKind::StorageInput,
                FftBuffer::Params => BufferKind::Uniform,
                FftBuffer::Readback => BufferKind::Readback,
            },
    {
        match buffer {
            FftBuffer::Data => BufferKind::Storage,
            FftBuffer::Twiddles => BufferKind::StorageInput,
            FftBuffer::Params => BufferKind::Uniform,
            FftBuffer::Readback => BufferKind::Readback,
        }
    }

    /// The bindings of a shader: at each index the buffer and how it is accessed.
    pub fn bindings(shader: FftShader) -> (bindings: Vec<(FftBuffer, Access)>)
        ensures
            bindings@ == match shader {
                FftShader::BitReverse => seq![
                    (FftBuffer::Data, Access::ReadWrite),
                    (FftBuffer::Params, Access::Uniform),
                ],
                FftShader::Stage => seq![
                    (FftBuffer::Data, Access::ReadWrite),
                    (FftBuffer::Twiddles, Access::ReadOnly),
                    (FftBuffer::Params, Access::Uniform),
                ],
            },
    {
        match shader {
            FftShader::BitReverse => vec![
                (FftBuffer::Data, Access::ReadWrite),
                (FftBuffer::Params, Access::Uniform),
            ],
            FftShader::Stage => vec![
                (FftBuffer::Data, Access::ReadWrite),
                (FftBuffer::Twiddles, Access::ReadOnly),
                (FftBuffer::Params, Access::Uniform),
            ],
        }
    }

    /// The words written to the data buffer before a transform of `data`.
    pub fn upload(&self, data: &Vec<Complex32Bits>) -> (words: Vec<u32>)
        requires
            self.wf(),
            data.len() == self.n,
        ensures
            words@ == interleaved(data@),
    {
        interleave(data)
    }

    /// The commands of a transform: the bit-reversal pass, the butterfly stages from
    /// the shortest blocks to the longest, and the copy of the result.
    pub fn transform(&self) -> (commands: Vec<FftCommand>)
        requires
            self.wf(),
        ensures
            commands@ == self.commands(),
    {
        let n: u32 = self.n as u32;
        proof {
            lemma_low_power_fits(self.n);
        }
        let mut commands: Vec<FftCommand> = Vec::new();
        commands.push(FftCommand::BitReverse { n, groups: workgroups(n) });
        let inverse: u32 = if self.inverse {
            1
        } else {
            0
        };
        let groups: u32 = workgroups(n / 2);
        let mut stage: u32 = 0;
        while stage < self.num_stages
            invariant
                stage <= self.num_stages,
                n == self.n as u32,
                inverse == inverse_flag(self.inverse),
                groups == groups_for(n as nat / 2),
                self.wf(),
                commands@ == self.commands().take(1 + stage),
            decreases self.num_stages - stage,
        {
            commands.push(FftCommand::Stage { n, stage, inverse, groups });
            stage = stage + 1;
            assert(commands@ =~= self.commands().take(1 + stage));
        }
        commands.push(FftCommand::ReadBack { size: (self.n * 8) as u64 });
        assert(commands@ =~= self.commands());
        commands
    }

    /// The passes of a transform of all lanes of a batch: the bit-reversal pass, with
    /// an invocation for each element, and the butterfly stages, with an invocation
    /// for each butterfly.
    pub open spec fn batch_passes(&self, lanes: LaneLayout) -> Seq<BatchPass> {
        let first = BatchPass {
            shader: FftShader::BitReverse,
            n: self.n as u32,
            stage: 0,
            inverse: inverse_flag(self.inverse),
            num_lanes: lanes.num_lanes as u32,
            lane_stride: lanes.lane_stride,
            elem_stride: lanes.elem_stride,
            groups: groups_for((lanes.num_lanes * self.n) as nat) as u32,
        };
        seq![first] + Seq::new(
            self.num_stages as nat,
            |stage: int|
                BatchPass {
                    shader: FftShader::Stage,
                    stage: stage as u32,
                    groups: groups_for((lanes.num_lanes * (self.n / 2)) as nat) as u32,
                    ..first
                },
        )
    }

    /// Plans the transform of all lanes of a batch.
    pub fn record_transform(&self, lanes: LaneLayout) -> (passes: Vec<BatchPass>)
        requires
            self.wf(),
            lanes.num_lanes * self.n + 255 <= u32::MAX,
        ensures
            passes@ == self.batch_passes(lanes),
    {
        proof {
            let (l, n) = (lanes.num_lanes as int, self.n as int);
            lemma_pow2_pos(log2_of(self.n as nat));
            assert(l <= l * n) by (nonlinear_arith)
                requires
                    l >= 0,
                    n >= 1,
            ;
            assert(l * (n / 2) <= l * n) by (nonlinear_arith)
                requires
                    l >= 0,
                    n >= 1,
                    n / 2 <= n,
            ;
        }
        let inverse: u32 = if self.inverse {
            1
        } else {
            0
        };
        let first: BatchPass = BatchPass {
            shader: FftShader::BitReverse,
            n: self.n as u32,
            stage: 0,
            inverse,
            num_lanes: lanes.num_lanes as u32,
            lane_stride: lanes.lane_stride,
            elem_stride: lanes.elem_stride,
            groups: workgroups((lanes.num_lanes * self.n) as u32),
        };
        let groups: u32 = workgroups((lanes.num_lanes * (self.n / 2)) as u32);
        let mut passes: Vec<BatchPass> = Vec::new();
        passes.push(first);
        let mut stage: u32 = 0;
        while stage < self.num_stages
            invariant
                stage <= self.num_stages,
                first == self.batch_passes(lanes)[0],
                groups == groups_for((lanes.num_lanes * (self.n / 2)) as nat),
                passes@ == self.batch_passes(lanes).take(1 + stage),
            decreases self.num_stages - stage,
        {
            passes.push(BatchPass { shader: FftShader::Stage, stage, groups, ..first });
            stage = stage + 1;
            assert(passes@ =~= self.batch_passes(lanes).take(1 + stage));
        }
        assert(passes@ =~= self.batch_passes(lanes));
        passes
    }

    /// The words of the parameters of a pass over a batch.
    pub fn batch_params(pass: BatchPass) -> (words: Vec<u32>)
        ensures
            words@ == seq![
                pass.n,
                pass.stage,
                pass.inverse,
                pass.num_lanes,
                pass.lane_stride,
                pass.elem_stride,
            ],
    {
        vec![
            pass.n,
            pass.stage,
            pass.inverse,
            pass.num_lanes,
            pass.lane_stride,
            pass.elem_stride,
        ]
    }

    /// The words of the parameters that a command writes before its pass.
    pub fn params(command: FftCommand) -> (words: Vec<u32>)
        ensures
            words@ == match command {
                FftCommand::BitReverse { n, .. } => seq![n, 0u32],
                FftCommand::Stage { n, stage, inverse, .. } => seq![n, stage, inverse],
                FftCommand::ReadBack { .. } => seq![],
            },
    {
        match command {
            FftCommand::BitReverse { n, .. } => vec![n, 0],
            FftCommand::Stage { n, stage, inverse, .. } => vec![n, stage, inverse],
            FftCommand::ReadBack { .. } => Vec::new(),
        }
    }

    /// The numbers that were read back after a transform, and the length to divide
    /// them by if the transform is an inverse one.
    pub fn result(&self, words: &Vec<u32>) -> (r: (Vec<Complex32Bits>, Option<usize>))
        requires
            self.wf(),
            words.len() == 2 * self.n,
        ensures
            r.0@ == paired(words@),
            r.0.len() == self.n,
            r.1 == if self.inverse {
                Some(self.n)
            } else {
                None
            },
    {
        let data: Vec<Complex32Bits> = pair_up(words);
        let divisor: Option<usize> = if self.inverse {
            Some(self.n)
        } else {
            None
        };
        (data, divisor)
    }

    /// The twiddle factors of all stages: a flat table in which the factors of a
    /// stage start at `2^stage - 1` and number `2^stage`, filled up to `n` entries.
    pub fn compute_twiddle_factors(n: usize, inverse: bool) -> (table: Vec<Twiddle>)
        requires
            is_power_of_two(n as nat),
        ensures
            is_turn_table(table@, n as nat, inverse),
    {
        let num_stages: u32 = log2(n);
        let mut table: Vec<Twiddle> = Vec::new();
        let mut stage: u32 = 0;
        let mut half: u64 = 1;
        proof {
            lemma2_to64();
        }
        while stage < num_stages
            invariant
                stage <= num_stages < 64,
                num_stages == log2_of(n as nat),
                n == pow2(num_stages as nat),
                half == pow2(stage as nat),
                table.len() == half - 1,
                forall|s: nat, k: nat|
                    #![trigger table@[pow2(s) - 1 + k]]
                    s < stage && k < pow2(s) ==> table@[pow2(s) - 1 + k] == stage_turn(inverse, s, k),
            decreases num_stages - stage,
        {
            proof {
                lemma_pow2_unfold((stage + 1) as nat);
                if stage + 1 < num_stages {
                    lemma_pow2_strictly_increases((stage + 1) as nat, num_stages as nat);
                }
            }
            let block_size: u64 = 2 * half;
            let mut k: u64 = 0;
            while k < half
                invariant
                    k <= half,
                    stage < num_stages < 64,
                    half == pow2(stage as nat),
                    block_size == pow2((stage + 1) as nat),
                    table.len() == half - 1 + k,
                    forall|s: nat, i: nat|
                        #![trigger table@[pow2(s) - 1 + i]]
                        (s < stage && i < pow2(s)) || (s == stage && i < k) ==> table@[pow2(s) - 1
                            + i] == stage_turn(inverse, s, i),
                decreases half - k,
            {
                let ghost before = table@;
                table.push(Twiddle::Turn { inverse, numerator: k, denominator: block_size });
                proof {
                    assert forall|s: nat, i: nat|
                        #![trigger table@[pow2(s) - 1 + i]]
                        (s < stage && i < pow2(s)) || (s == stage && i < k + 1) implies table@[pow2(
                        s,
                    ) - 1 + i] == stage_turn(inverse, s, i) by {
                        lemma_pow2_pos(s);
                        if s < stage {
                            lemma_pow2_unfold(s + 1);
                            if s + 1 < stage {
                                lemma_pow2_strictly_increases(s + 1, stage as nat);
                            }
                            assert(before[pow2(s) - 1 + i] == stage_turn(inverse, s, i));
                        } else if i < k {
                            assert(before[pow2(s) - 1 + i] == stage_turn(inverse, s, i));
                        }
                    }
                }
                k = k + 1;
            }
            half = block_size;
            stage = stage + 1;
        }
        let ghost filled = table@;
        while table.len() < n
            invariant
                filled.len() == n - 1,
                filled.len() <= table.len() <= n,
                table@.take(filled.len() as int) == filled,
                table.len() == n ==> table@[n - 1] == Twiddle::Padding,
            decreases n - table.len(),
        {
            table.push(Twiddle::Padding);
            assert(table@.take(filled.len() as int) =~= filled);
        }
        proof {
            assert forall|s: nat, k: nat|
                #![trigger table@[pow2(s) - 1 + k]]
                s < log2_of(n as nat) && k < pow2(s) implies table@[pow2(s) - 1 + k] == stage_turn(
                inverse,
                s,
                k,
            ) by {
                lemma_pow2_pos(s);
                lemma_pow2_unfold(s + 1);
                if s + 1 < num_stages {
                    lemma_pow2_strictly_increases(s + 1, num_stages as nat);
                }
                assert(table@.take(filled.len() as int)[pow2(s) - 1 + k] == filled[pow2(s) - 1 + k]);
            }
        }
        table
    }
}

/// The low 32 bits of a power of two leave room for rounding up to a workgroup.
proof fn lemma_low_power_fits(n: usize)
    requires
        is_power_of_two(n as nat),
    ensures
        (n as u32) + 255 <= u32::MAX,
{
    let bits = log2_of(n as nat);
    lemma2_to64();
    lemma2_to64_rest();
    assert(bits < 64) by {
        if bits >= 64 {
            if bits > 64 {
                lemma_pow2_strictly_increases(64, bits);
            }
        }
    }
    if bits < 32 {
        if bits < 31 {
            lemma_pow2_strictly_increases(bits, 31);
        }
    } else {
        let x = n as u64;
        lemma_pow2_adds(32, (bits - 32) as nat);
        let k: u64 = pow2((bits - 32) as nat) as u64;
        lemma_pow2_strictly_increases((bits - 32) as nat, 32);
        assert(x == k * 0x1_0000_0000u64);
        assert((x as u32) == 0u32) by (bit_vector)
            requires
                x == k * 0x1_0000_0000u64,
                k < 0x1_0000_0000u64,
        ;
        assert(n as u32 == x as u32);
    }
}

/// A planned transform of arrays of one shape: transforms of single lanes along
/// each axis in turn.
#[derive(Debug)]
pub struct WgpuFFTND {
    pub shape: Vec<usize>,
    pub fft_1d_instances: Vec<WgpuFFT1D>,
    pub inverse: bool,
}

/// `f` is what `run` makes of a lane along an axis.
pub open spec fn transforms_lanes<F: Fn(usize, Vec<u64>) -> Vec<u64>>(
    run: F,
    f: spec_fn(int, Seq<u64>) -> Seq<u64>,
) -> bool {
    forall|axis: usize, x: Vec<u64>, r: Vec<u64>| #[trigger]
        run.ensures((axis, x), r) ==> r@ == f(axis as int, x@)
}

impl WgpuFFTND {
    /// There is a plan for each axis.
    pub open spec fn wf(&self) -> bool {
        &&& self.shape.len() > 0
        &&& self.fft_1d_instances.len() == self.shape.len()
        &&& forall|a: int|
            0 <= a < self.shape.len() ==> {
                &&& (#[trigger] self.fft_1d_instances@[a]).wf()
                &&& self.fft_1d_instances@[a].n == self.shape@[a]
                &&& self.fft_1d_instances@[a].inverse == self.inverse
            }
    }

    /// Plans the transform of arrays of a shape.
    pub fn new(shape: &Vec<usize>, inverse: bool) -> (fft: WgpuFFTND)
        requires
            shape.len() > 0,
            forall|a: int|
                0 <= a < shape.len() ==> is_power_of_two(#[trigger] shape@[a] as nat) && shape@[a] * 8
                    <= usize::MAX,
        ensures
            fft.wf(),
            fft.shape@ == shape@,
            fft.inverse == inverse,
    {
        let mut fft_1d_instances: Vec<WgpuFFT1D> = Vec::new();
        let mut dims: Vec<usize> = Vec::new();
        let mut a: usize = 0;
        while a < shape.len()
            invariant
                a <= shape.len(),
                forall|b: int|
                    0 <= b < shape.len() ==> is_power_of_two(#[trigger] shape@[b] as nat) && shape@[b]
                        * 8 <= usize::MAX,
                fft_1d_instances.len() == a,
                dims@ == shape@.take(a as int),
                forall|b: int|
                    0 <= b < a ==> {
                        &&& (#[trigger] fft_1d_instances@[b]).wf()
                        &&& fft_1d_instances@[b].n == shape@[b]
                        &&& fft_1d_instances@[b].inverse == inverse
                    },
            decreases shape.len() - a,
        {
            fft_1d_instances.push(WgpuFFT1D::new(shape[a], inverse));
            dims.push(shape[a]);
            a = a + 1;
            assert(dims@ =~= shape@.take(a as int));
        }
        assert(dims@ =~= shape@);
        WgpuFFTND { shape: dims, fft_1d_instances, inverse }
    }

    /// The shape of the arrays that this plan transforms.
    pub fn shape(&self) -> (shape: &Vec<usize>)
        ensures
            shape@ == self.shape@,
    {
        &self.shape
    }

    /// Whether this is an inverse transform.
    pub fn inverse(&self) -> (inverse: bool)
        ensures
            inverse == self.inverse,
    {
        self.inverse
    }

    /// Transforms the lanes of `data` along every axis, first axis to last, or last
    /// to first for an inverse transform. `run` transforms one lane along an axis.
    pub fn transform<F: Fn(usize, Vec<u64>) -> Vec<u64>>(&self, data: &mut NdArray, run: &F)
        requires
            self.wf(),
            nd_shape(*old(data)) == self.shape@,
            forall|axis: usize, x: Vec<u64>|
                axis < self.shape.len() && x.len() == self.shape@[axis as int]
                    ==> #[trigger] run.requires((axis, x)),
            forall|axis: usize, x: Vec<u64>, r: Vec<u64>|
                axis < self.shape.len() && x.len() == self.shape@[axis as int]
                    && #[trigger] run.ensures((axis, x), r) ==> r.len() == x.len(),
        ensures
            nd_shape(*final(data)) == self.shape@,
            forall|f: spec_fn(int, Seq<u64>) -> Seq<u64>| #[trigger]
                transforms_lanes(*run, f) ==> nd_elems(*final(data)) == map_axes(
                    nd_elems(*old(data)),
                    self.shape@,
                    axis_order(self.shape.len() as nat, self.inverse),
                    f,
                    self.shape.len() as nat,
                ),
    {
        let rank: usize = self.shape.len();
        let total: usize = nd_len(data);
        let ghost start = nd_elems(*data);
        let ghost shape = self.shape@;
        let ghost order = axis_order(rank as nat, self.inverse);
        proof {
            assert forall|a: int| 0 <= a < shape.len() implies #[trigger] shape[a] > 0 by {
                assert(self.fft_1d_instances@[a].wf());
                lemma_pow2_pos(log2_of(shape[a] as nat));
            }
        }
        let mut done: usize = 0;
        while done < rank
            invariant
                done <= rank == self.shape.len() == shape.len(),
                shape == self.shape@,
                all_positive(shape),
                total == volume(shape) == start.len(),
                order == axis_order(rank as nat, self.inverse),
                nd_shape(*data) == shape,
                nd_elems(*data).len() == total,
                forall|axis: usize, x: Vec<u64>|
                    axis < self.shape.len() && x.len() == self.shape@[axis as int]
                        ==> #[trigger] run.requires((axis, x)),
                forall|axis: usize, x: Vec<u64>, r: Vec<u64>|
                    axis < self.shape.len() && x.len() == self.shape@[axis as int]
                        && #[trigger] run.ensures((axis, x), r) ==> r.len() == x.len(),
                forall|f: spec_fn(int, Seq<u64>) -> Seq<u64>| #[trigger]
                    transforms_lanes(*run, f) ==> nd_elems(*data) == map_axes(
                        start,
                        shape,
                        order,
                        f,
                        done as nat,
                    ),
            decreases rank - done,
        {
            let axis: usize = if self.inverse {
                rank - 1 - done
            } else {
                done
            };
            let ghost before = nd_elems(*data);
            let ghost s = axis_stride(shape, axis as int);
            let ghost d = shape[axis as int] as nat;
            let ghost outer = volume(shape.take(axis as int));
            assert(shape[axis as int] > 0);
            let lanes: usize = total / self.shape[axis];
            proof {
                lemma_stride_positive(shape, axis as int);
                lemma_axis_volume(shape, axis as int);
                assert(outer * (d * s) == (outer * s) * d) by (nonlinear_arith);
                lemma_div_by_multiple((outer * s) as int, d as int);
                assert(lanes == lane_count(shape, axis as int));
            }
            let mut l: usize = 0;
            while l < lanes
                invariant
                    l <= lanes == lane_count(shape, axis as int),
                    axis < rank == self.shape.len() == shape.len(),
                    shape == self.shape@,
                    all_positive(shape),
                    total == volume(shape) == before.len(),
                    s == axis_stride(shape, axis as int),
                    d == shape[axis as int],
                    nd_shape(*data) == shape,
                    nd_elems(*data).len() == total,
                    forall|a: usize, x: Vec<u64>|
                        a < self.shape.len() && x.len() == self.shape@[a as int]
                            ==> #[trigger] run.requires((a, x)),
                    forall|a: usize, x: Vec<u64>, r: Vec<u64>|
                        a < self.shape.len() && x.len() == self.shape@[a as int]
                            && #[trigger] run.ensures((a, x), r) ==> r.len() == x.len(),
                    forall|p: int|
                        0 <= p < total && lane_of(s, d, p as nat) >= l ==> #[trigger] nd_elems(
                            *data,
                        )[p] == before[p],
                    forall|f: spec_fn(int, Seq<u64>) -> Seq<u64>, p: int|
                        #![trigger transforms_lanes(*run, f), nd_elems(*data)[p]]
                        transforms_lanes(*run, f) && 0 <= p < total && lane_of(s, d, p as nat) < l
                            ==> nd_elems(*data)[p] == map_lanes(before, shape, axis as int, f)[p],
                decreases lanes - l,
            {
                let ghost held = nd_elems(*data);
                let buf: Vec<u64> = nd_lane(data, axis, l);
                proof {
                    assert(buf@ =~= lane(before, shape, axis as int, l as nat)) by {
                        lemma_lane_unchanged(held, before, shape, axis as int, l as nat);
                    }
                }
                let ghost old_lane = buf@;
                let out: Vec<u64> = run(axis, buf);
                nd_set_lane(data, axis, l, &out);
                proof {
                    let now = nd_elems(*data);
                    assert forall|p: int|
                        0 <= p < total && lane_of(s, d, p as nat) >= l + 1 implies #[trigger] now[p]
                        == before[p] by {
                        assert(held[p] == before[p]);
                    }
                    assert forall|f: spec_fn(int, Seq<u64>) -> Seq<u64>, p: int|
                        #![trigger transforms_lanes(*run, f), now[p]]
                        transforms_lanes(*run, f) && 0 <= p < total && lane_of(s, d, p as nat) < l
                            + 1 implies now[p] == map_lanes(before, shape, axis as int, f)[p] by {
                        if lane_of(s, d, p as nat) == l {
                            assert(out@ == f(axis as int, old_lane));
                        } else {
                            assert(held[p] == map_lanes(before, shape, axis as int, f)[p]);
                        }
                    }
                }
                l = l + 1;
            }
            proof {
                assert forall|f: spec_fn(int, Seq<u64>) -> Seq<u64>| #[trigger]
                    transforms_lanes(*run, f) implies nd_elems(*data) == map_axes(
                    start,
                    shape,
                    order,
                    f,
                    (done + 1) as nat,
                ) by {
                    assert(before == map_axes(start, shape, order, f, done as nat));
                    assert(order[done as int] == axis);
                    assert forall|p: int| 0 <= p < total implies nd_elems(*data)[p] == map_lanes(
                        before,
                        shape,
                        axis as int,
                        f,
                    )[p] by {
                        lemma_lane_bounds(s, d, outer, 0, 0, p as nat);
                    }
                    assert(nd_elems(*data) =~= map_lanes(before, shape, axis as int, f));
                }
            }
            done = done + 1;
        }
    }
}

/// A lane whose cells agree in two arrays is the same in both.
proof fn lemma_lane_unchanged(
    a: Seq<u64>,
    b: Seq<u64>,
    shape: Seq<usize>,
    axis: int,
    l: nat,
)
    requires
        0 <= axis < shape.len(),
        all_positive(shape),
        a.len() == volume(shape),
        b.len() == volume(shape),
        l < lane_count(shape, axis),
        forall|p: int|
            0 <= p < a.len() && lane_of(axis_stride(shape, axis), shape[axis] as nat, p as nat) >= l
                ==> #[trigger] a[p] == b[p],
    ensures
        lane(a, shape, axis, l) == lane(b, shape, axis, l),
{
    let s = axis_stride(shape, axis);
    let d = shape[axis] as nat;
    let outer = volume(shape.take(axis));
    lemma_stride_positive(shape, axis);
    lemma_axis_volume(shape, axis);
    assert forall|i: int| 0 <= i < d implies lane(a, shape, axis, l)[i] == lane(
        b,
        shape,
        axis,
        l,
    )[i] by {
        lemma_lane_bounds(s, d, outer, l, i as nat, 0);
        lemma_lane_of_cell(s, d, l, i as nat);
    }
    assert(lane(a, shape, axis, l) =~= lane(b, shape, axis, l));
}

/// The number that a twiddle entry stands for, in an FFT of length `n`, where `w` is
/// the unit number one `n`-th of a turn clockwise and `v` the one counter-clockwise.
pub open spec fn turn_value(entry: Twiddle, w: Complex, v: Complex, n: nat) -> Complex {
    match entry {
        Twiddle::Turn { inverse, numerator, denominator } => {
            let unit = if inverse {
                v
            } else {
                w
            };
            unit.power(numerator as nat * (n / denominator as nat))
        },
        Twiddle::Padding => zero(),
    }
}

/// The numbers that a twiddle table stands for.
pub open spec fn turn_values(table: Seq<Twiddle>, w: Complex, v: Complex) -> Seq<Complex> {
    table.map_values(|entry: Twiddle| turn_value(entry, w, v, table.len()))
}

/// The twiddle table of an FFT holds the powers of its root of unity that the
/// butterflies multiply by.
pub proof fn turn_table_holds_roots(
    table: Seq<Twiddle>,
    n: usize,
    inverse: bool,
    w: Complex,
    v: Complex,
)
    requires
        is_power_of_two(n as nat),
        is_turn_table(table, n as nat, inverse),
    ensures
        is_twiddle_table(
            turn_values(table, w, v),
            if inverse {
                v
            } else {
                w
            },
            log2_of(n as nat),
        ),
{
    let bits = log2_of(n as nat);
    let values = turn_values(table, w, v);
    lemma_exponent_below_64(bits);
    assert forall|stage: nat, k: nat|
        #![trigger values[pow2(stage) - 1 + k]]
        stage < bits && k < pow2(stage) implies values[pow2(stage) - 1 + k] == (if inverse {
        v
    } else {
        w
    }).power(k * pow2((bits - stage - 1) as nat)) by {
        lemma_pow2_pos(stage);
        lemma_pow2_unfold(stage + 1);
        if stage + 1 < bits {
            lemma_pow2_strictly_increases(stage + 1, bits);
        }
        lemma_pow2_adds(stage + 1, (bits - stage - 1) as nat);
        let d = pow2(stage + 1);
        let e = pow2((bits - stage - 1) as nat);
        lemma_mul_is_commutative(d as int, e as int);
        lemma_div_by_multiple(e as int, d as int);
        assert(n as nat / d == e);
        assert(table[pow2(stage) - 1 + k] == stage_turn(inverse, stage, k));
    }
}

/// Forward and inverse transforms of every length undo each other, in exact
/// arithmetic: running the passes with the twiddle table of the forward transform,
/// then with that of the inverse transform, and dividing by the length, gives every
/// input back; and so does running them the other way round, dividing in between.
pub proof fn fft_1d_roundtrip(
    x: Seq<Complex>,
    n: usize,
    forward: Seq<Twiddle>,
    backward: Seq<Twiddle>,
    w: Complex,
    v: Complex,
)
    requires
        is_power_of_two(n as nat),
        x.len() == n,
        is_turn_table(forward, n as nat, false),
        is_turn_table(backward, n as nat, true),
        is_root(w, log2_of(n as nat)),
        w.times(v) == one(),
    ensures
        normalized(
            passes_out(
                passes_out(x, turn_values(forward, w, v), complex_butterfly()),
                turn_values(backward, w, v),
                complex_butterfly(),
            ),
        ) == x,
        passes_out(
            normalized(passes_out(x, turn_values(backward, w, v), complex_butterfly())),
            turn_values(forward, w, v),
            complex_butterfly(),
        ) == x,
{
    let bits = log2_of(n as nat);
    turn_table_holds_roots(forward, n, false, w, v);
    turn_table_holds_roots(backward, n, true, w, v);
    let there = turn_values(forward, w, v);
    let back = turn_values(backward, w, v);
    inverse_passes_undo_forward_passes(x, there, back, w, v, bits);
    forward_passes_undo_inverse_passes(x, there, back, w, v, bits);
}

/// The forward transform of an impulse at index 0 is one at every frequency, in
/// exact arithmetic.
pub proof fn fft_1d_impulse(
    x: Seq<Complex>,
    n: usize,
    forward: Seq<Twiddle>,
    w: Complex,
    v: Complex,
    k: int,
)
    requires
        is_power_of_two(n as nat),
        x.len() == n,
        x[0] == one(),
        forall|t: int| 0 < t < n ==> #[trigger] x[t] == zero(),
        is_turn_table(forward, n as nat, false),
        is_root(w, log2_of(n as nat)),
        0 <= k < n,
    ensures
        passes_out(x, turn_values(forward, w, v), complex_butterfly())[k] == one(),
{
    turn_table_holds_roots(forward, n, false, w, v);
    passes_compute_dft(x, turn_values(forward, w, v), w, log2_of(n as nat));
    impulse_has_flat_spectrum(x, w);
    assert(dft(x, w)[k] == one());
}

/// The transform of a lane along an axis, given the twiddle factors of each axis.
pub open spec fn forward_lane(tables: spec_fn(int) -> Seq<Complex>) -> spec_fn(
    int,
    Seq<Complex>,
) -> Seq<Complex> {
    |axis: int, x: Seq<Complex>| passes_out(x, tables(axis), complex_butterfly())
}

/// The inverse transform of a lane along an axis, divided by the length.
pub open spec fn inverse_lane(tables: spec_fn(int) -> Seq<Complex>) -> spec_fn(
    int,
    Seq<Complex>,
) -> Seq<Complex> {
    |axis: int, x: Seq<Complex>| normalized(passes_out(x, tables(axis), complex_butterfly()))
}

/// Forward and inverse transforms of arrays of every shape undo each other, in exact
/// arithmetic, whichever of the two comes first.
pub proof fn fft_nd_roundtrip(
    elems: Seq<Complex>,
    shape: Seq<usize>,
    forward: spec_fn(int) -> Seq<Complex>,
    backward: spec_fn(int) -> Seq<Complex>,
    w: spec_fn(int) -> Complex,
    v: spec_fn(int) -> Complex,
)
    requires
        elems.len() == volume(shape),
        forall|a: int|
            0 <= a < shape.len() ==> {
                let bits = log2_of(#[trigger] shape[a] as nat);
                &&& is_power_of_two(shape[a] as nat)
                &&& is_root(w(a), bits)
                &&& w(a).times(v(a)) == one()
                &&& is_twiddle_table(forward(a), w(a), bits)
                &&& is_twiddle_table(backward(a), v(a), bits)
            },
    ensures
        map_axes(
            map_axes(
                elems,
                shape,
                axis_order(shape.len(), false),
                forward_lane(forward),
                shape.len(),
            ),
            shape,
            axis_order(shape.len(), true),
            inverse_lane(backward),
            shape.len(),
        ) == elems,
        map_axes(
            map_axes(
                elems,
                shape,
                axis_order(shape.len(), true),
                inverse_lane(backward),
                shape.len(),
            ),
            shape,
            axis_order(shape.len(), false),
            forward_lane(forward),
            shape.len(),
        ) == elems,
{
    let f = forward_lane(forward);
    let g = inverse_lane(backward);
    assert forall|a: int| 0 <= a < shape.len() implies #[trigger] shape[a] > 0 by {
        lemma_pow2_pos(log2_of(shape[a] as nat));
    }
    assert forall|a: int| 0 <= a < shape.len() implies keeps_length(
        f,
        a,
        #[trigger] shape[a] as nat,
    ) && undoes(g, f, a, shape[a] as nat) by {
        let d = shape[a] as nat;
        let bits = log2_of(d);
        assert forall|x: Seq<Complex>| x.len() == d implies (#[trigger] f(a, x)).len() == d by {
            passes_compute_dft(x, forward(a), w(a), bits);
        }
        assert forall|x: Seq<Complex>| x.len() == d implies g(a, #[trigger] f(a, x)) == x by {
            inverse_passes_undo_forward_passes(x, forward(a), backward(a), w(a), v(a), bits);
        }
    }
    opposite_axes_undo_each_other(elems, shape, false, f, g);
    assert forall|a: int| 0 <= a < shape.len() implies keeps_length(
        g,
        a,
        #[trigger] shape[a] as nat,
    ) && undoes(f, g, a, shape[a] as nat) by {
        let d = shape[a] as nat;
        let bits = log2_of(d);
        assert forall|x: Seq<Complex>| x.len() == d implies (#[trigger] g(a, x)).len() == d by {
            lemma_inverse_root(w(a), v(a), bits);
            passes_compute_dft(x, backward(a), v(a), bits);
        }
        assert forall|x: Seq<Complex>| x.len() == d implies f(a, #[trigger] g(a, x)) == x by {
            forward_passes_undo_inverse_passes(x, forward(a), backward(a), w(a), v(a), bits);
        }
    }
    opposite_axes_undo_each_other(elems, shape, true, g, f);
}

} // verus!
