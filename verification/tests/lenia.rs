use lenia_ca::bytes::ByteOrder;
use lenia_ca::fft::run_passes;
use lenia_ca::gpu::{Access, BufferKind, Complex32Bits, Word, F32_ONE, F32_ZERO};
use lenia_ca::gpu_lenia::{
    GpuGrowthFn, GpuLenia, LeniaBuffer, LeniaCommand, LeniaPass, LeniaShader,
};
use lenia_ca::wfft::{LaneLayout, Twiddle, WgpuFFT1D};

fn sim() -> GpuLenia {
    GpuLenia::new(
        &vec![16, 32],
        GpuGrowthFn::StandardLenia { mu: 0.15f32.to_bits(), sigma: 0.02f32.to_bits() },
        0.1f32.to_bits(),
    )
}

#[test]
fn lenia_plan() {
    let s = sim();
    assert_eq!(s.shape(), &vec![16, 32]);
    assert_eq!(s.total_elements, 512);
    assert_eq!(s.dt(), 0.1f32.to_bits());
    assert_eq!(s.channel_buffer(), LeniaBuffer::Channel);
    assert_eq!(F32_ONE, 1.0f32.to_bits());
    assert_eq!(F32_ZERO, 0.0f32.to_bits());
    let line = GpuLenia::new(&vec![4, 2, 8], GpuGrowthFn::Pass { multiplier: 0 }, 0);
    assert_eq!(line.total_elements, 64);
    assert_eq!(GpuLenia::new(&vec![], GpuGrowthFn::Pass { multiplier: 0 }, 0).total_elements, 1);
}

#[test]
fn lenia_buffers() {
    let s = sim();
    let buffers = [
        (LeniaBuffer::Channel, 2048, BufferKind::Storage),
        (LeniaBuffer::Delta, 2048, BufferKind::Storage),
        (LeniaBuffer::Conv, 4096, BufferKind::Storage),
        (LeniaBuffer::Kernel, 4096, BufferKind::Storage),
        (LeniaBuffer::GrowthResult, 2048, BufferKind::Storage),
        (LeniaBuffer::GrowthParams, 8, BufferKind::Uniform),
        (LeniaBuffer::UpdateParams, 16, BufferKind::Uniform),
        (LeniaBuffer::NormalizeParams, 4, BufferKind::Uniform),
        (LeniaBuffer::Staging, 2048, BufferKind::Staging),
        (LeniaBuffer::Readback, 2048, BufferKind::Readback),
    ];
    for (buffer, size, kind) in buffers.iter() {
        assert_eq!(s.buffer_size(*buffer), *size);
        assert_eq!(GpuLenia::buffer_kind(*buffer), *kind);
    }
}

#[test]
fn lenia_params() {
    let mut s = sim();
    let dt = Word::Float(0.1f32.to_bits());
    assert_eq!(
        s.update_params().words,
        vec![Word::FloatOf(512), dt, Word::Float(F32_ONE), Word::Float(F32_ONE)]
    );
    assert_eq!(
        s.growth_params().words,
        vec![Word::Float(0.15f32.to_bits()), Word::Float(0.02f32.to_bits())]
    );
    assert_eq!(
        s.normalize_params().words,
        vec![Word::InversePower { base: 16, exponent: 2 }]
    );
    let block = s.set_dt(7);
    assert_eq!(s.dt(), 7);
    assert_eq!(block.order, ByteOrder::Native);
    assert_eq!(
        block.words,
        vec![Word::FloatOf(512), Word::Float(7), Word::Float(F32_ONE), Word::Float(F32_ONE)]
    );
    assert_eq!(block.words, s.update_params().words);
    let pass = GpuLenia::new(&vec![2, 2], GpuGrowthFn::Pass { multiplier: 5 }, 0);
    assert_eq!(pass.growth_params().words, vec![Word::Float(5)]);
}

#[test]
fn lenia_shaders() {
    let s = sim();
    assert_eq!(s.shader(LeniaPass::CopyToConv), LeniaShader::CopyToConv);
    assert_eq!(s.shader(LeniaPass::ComplexMul), LeniaShader::ComplexMul);
    assert_eq!(s.shader(LeniaPass::Normalize), LeniaShader::Normalize);
    assert_eq!(s.shader(LeniaPass::Growth), LeniaShader::GrowthStandard);
    assert_eq!(s.shader(LeniaPass::Update), LeniaShader::Update);
    let pass = GpuLenia::new(&vec![2, 2], GpuGrowthFn::Pass { multiplier: 5 }, 0);
    assert_eq!(pass.shader(LeniaPass::Growth), LeniaShader::GrowthPass);
    assert_eq!(
        GpuLenia::bindings(LeniaPass::Update),
        vec![
            (LeniaBuffer::Channel, Access::ReadWrite),
            (LeniaBuffer::Delta, Access::ReadWrite),
            (LeniaBuffer::GrowthResult, Access::ReadOnly),
            (LeniaBuffer::UpdateParams, Access::Uniform),
        ]
    );
    assert_eq!(GpuLenia::bindings(LeniaPass::Growth).len(), 3);
}

#[test]
fn lenia_commands() {
    let s = sim();
    let rows = LaneLayout { num_lanes: 32, lane_stride: 16, elem_stride: 1 };
    let columns = LaneLayout { num_lanes: 16, lane_stride: 1, elem_stride: 16 };
    let dispatch = |pass: LeniaPass| LeniaCommand::Dispatch { pass, groups: 2 };
    assert_eq!(
        s.iterate(),
        vec![
            LeniaCommand::WriteNormalizeParams,
            dispatch(LeniaPass::CopyToConv),
            LeniaCommand::Transform { inverse: false, axis: 0, lanes: rows },
            LeniaCommand::Transform { inverse: false, axis: 1, lanes: columns },
            dispatch(LeniaPass::ComplexMul),
            LeniaCommand::Transform { inverse: true, axis: 1, lanes: columns },
            LeniaCommand::Transform { inverse: true, axis: 0, lanes: rows },
            dispatch(LeniaPass::Normalize),
            dispatch(LeniaPass::Growth),
            dispatch(LeniaPass::Update),
            LeniaCommand::Submit,
        ]
    );
}

#[test]
fn lenia_transfers() {
    let s = GpuLenia::new(&vec![2, 1], GpuGrowthFn::Pass { multiplier: 0 }, 0);
    let zeros = s.zero_fill(LeniaBuffer::Delta);
    assert_eq!((zeros.buffer, zeros.offset), (LeniaBuffer::Delta, 0));
    assert_eq!(zeros.words, vec![0, 0]);
    let up = s.upload_channel(&vec![3, 4], 0);
    assert_eq!((up.buffer, up.offset), (LeniaBuffer::Channel, 0));
    assert_eq!(up.words, vec![3, 4]);
    let kernel = vec![Complex32Bits { re: 1, im: 2 }, Complex32Bits { re: 3, im: 4 }];
    let set = s.set_kernel(&kernel, 0);
    assert_eq!((set.buffer, set.offset), (LeniaBuffer::Kernel, 0));
    assert_eq!(set.words, vec![1, 2, 3, 4]);
    let down = s.download_channel(0);
    assert_eq!((down.buffer, down.offset, down.size), (LeniaBuffer::Channel, 0, 8));
}

#[test]
fn lenia_setup() {
    let s = GpuLenia::new(&vec![2, 2], GpuGrowthFn::Pass { multiplier: 0 }, 0);
    assert_eq!(GpuLenia::buffers().len(), 10);
    let clearing = s.clearing_uploads();
    let buffers: Vec<LeniaBuffer> = clearing.iter().map(|u| u.buffer).collect();
    assert_eq!(
        buffers,
        vec![LeniaBuffer::Channel, LeniaBuffer::Delta, LeniaBuffer::GrowthResult]
    );
    assert!(clearing.iter().all(|u| u.offset == 0 && u.words == vec![0, 0, 0, 0]));
    assert!(s.is_ready());
    assert!(!GpuLenia::new(&vec![4], GpuGrowthFn::Pass { multiplier: 0 }, 0).is_ready());
}

#[test]
fn lenia_submits_once() {
    let commands = sim().iterate();
    let submits = commands.iter().filter(|c| **c == LeniaCommand::Submit).count();
    assert_eq!(submits, 1);
    assert_eq!(commands.last(), Some(&LeniaCommand::Submit));
}

#[test]
fn lenia_set_dt_keeps_the_rest() {
    let growth = GpuGrowthFn::Pass { multiplier: F32_ONE };
    let mut s = GpuLenia::new(&vec![16, 16], growth, 0.25f32.to_bits());
    let before = s.update_params().words;
    let after = s.set_dt(0.5f32.to_bits()).words;
    assert_eq!(s.dt(), 0.5f32.to_bits());
    assert_eq!(
        after,
        vec![
            Word::FloatOf(256),
            Word::Float(0.5f32.to_bits()),
            Word::Float(1.0f32.to_bits()),
            Word::Float(1.0f32.to_bits()),
        ]
    );
    let fresh = GpuLenia::new(&vec![16, 16], growth, 0.5f32.to_bits());
    assert_eq!(after, fresh.update_params().words);
    for i in 0..4 {
        assert_eq!(before[i] == after[i], i != 1);
    }
}

type C = [f32; 2];

fn times(a: C, b: C) -> C {
    [a[0] * b[0] - a[1] * b[1], a[0] * b[1] + a[1] * b[0]]
}

fn value(word: Word) -> f32 {
    match word {
        Word::Float(bits) => f32::from_bits(bits),
        Word::FloatOf(v) => v as f32,
        Word::InversePower { base, exponent } => 1.0 / (base as f32).powi(exponent as i32),
        _ => panic!("not a parameter of this simulation"),
    }
}

fn turns(n: usize, inverse: bool) -> Vec<C> {
    let number = |entry: &Twiddle| match *entry {
        Twiddle::Turn { inverse, numerator, denominator } => {
            let sign = if inverse { 1.0 } else { -1.0 };
            let angle =
                sign * 2.0 * std::f64::consts::PI * numerator as f64 / denominator as f64;
            [angle.cos() as f32, angle.sin() as f32]
        }
        Twiddle::Padding => [0.0, 0.0],
    };
    WgpuFFT1D::compute_twiddle_factors(n, inverse).iter().map(number).collect()
}

/// Runs one iteration on the host, with the given parameters of the update pass.
fn step(s: &GpuLenia, state: &mut Vec<f32>, kernel: &Vec<C>, params: &Vec<Word>) {
    let mut conv: Vec<C> = vec![[0.0, 0.0]; state.len()];
    let mut growth: Vec<f32> = vec![0.0; state.len()];
    let mut norm: f32 = 0.0;
    for command in s.iterate() {
        match command {
            LeniaCommand::WriteNormalizeParams => norm = value(s.normalize_params().words[0]),
            LeniaCommand::Submit => {}
            LeniaCommand::Transform { inverse, axis, lanes } => {
                let n = s.shape()[axis];
                let table = turns(n, inverse);
                for l in 0..lanes.num_lanes {
                    let cell = |i: usize| {
                        l * lanes.lane_stride as usize + i * lanes.elem_stride as usize
                    };
                    let mut lane: Vec<C> = (0..n).map(|i| conv[cell(i)]).collect();
                    let butterfly = |even: C, w: C, odd: C| {
                        let t = times(w, odd);
                        ([even[0] + t[0], even[1] + t[1]], [even[0] - t[0], even[1] - t[1]])
                    };
                    run_passes(&mut lane, &table, &butterfly);
                    for i in 0..n {
                        conv[cell(i)] = lane[i];
                    }
                }
            }
            LeniaCommand::Dispatch { pass, groups } => {
                let reach = (groups as usize * 256).min(state.len());
                for i in 0..reach {
                    match pass {
                        LeniaPass::CopyToConv => conv[i] = [state[i], 0.0],
                        LeniaPass::ComplexMul => conv[i] = times(conv[i], kernel[i]),
                        LeniaPass::Normalize => conv[i] = [conv[i][0] * norm, conv[i][1] * norm],
                        LeniaPass::Growth => {
                            let p: Vec<f32> =
                                s.growth_params().words.iter().map(|w| value(*w)).collect();
                            let x = conv[i][0];
                            growth[i] = match s.shader(LeniaPass::Growth) {
                                LeniaShader::GrowthStandard => {
                                    let d = x - p[0];
                                    2.0 * (-(d * d) / (2.0 * p[1] * p[1])).exp() - 1.0
                                }
                                _ => x * p[0],
                            };
                        }
                        LeniaPass::Update => {
                            if i < value(params[0]) as u32 as usize {
                                let change = growth[i] * value(params[2]) * value(params[3]);
                                state[i] = (state[i] + change * value(params[1])).clamp(0.0, 1.0);
                            }
                        }
                    }
                }
            }
        }
    }
}

#[test]
fn lenia_step_after_set_dt() {
    let growth = GpuGrowthFn::StandardLenia { mu: F32_ZERO, sigma: F32_ONE };
    let mut s = GpuLenia::new(&vec![16, 16], growth, 0.25f32.to_bits());
    let params = s.set_dt(0.5f32.to_bits()).words;
    let kernel: Vec<C> = vec![[0.0, 0.0]; 256];
    let mut state: Vec<f32> = vec![0.25; 256];
    step(&s, &mut state, &kernel, &params);
    assert_eq!(state, vec![0.75; 256]);
    // cells outside of the range are brought into it, others move by the step at most
    let mut wild: Vec<f32> = (0..256).map(|i| i as f32 - 128.0).collect();
    step(&s, &mut wild, &kernel, &params);
    assert!(wild.iter().all(|v| 0.0 <= *v && *v <= 1.0));
    let mut ramp: Vec<f32> = (0..256).map(|i| i as f32 / 255.0).collect();
    let before = ramp.clone();
    step(&s, &mut ramp, &kernel, &params);
    assert!(ramp.iter().zip(before.iter()).all(|(a, b)| (a - b).abs() <= 0.5 + 1e-6));
}

#[test]
fn lenia_convolves() {
    // the kernel moves the state by one cell along the first axis
    let growth = GpuGrowthFn::Pass { multiplier: F32_ONE };
    let s = GpuLenia::new(&vec![8, 8], growth, F32_ONE);
    let mut kernel: Vec<C> = Vec::new();
    for _y in 0..8 {
        for x in 0..8 {
            let angle = -2.0 * std::f64::consts::PI * x as f64 / 8.0;
            kernel.push([angle.cos() as f32, angle.sin() as f32]);
        }
    }
    let mut state: Vec<f32> = vec![0.0; 64];
    state[3 * 8 + 7] = 0.5;
    step(&s, &mut state, &kernel, &s.update_params().words);
    for i in 0..64 {
        let expected = if i == 3 * 8 + 7 || i == 3 * 8 { 0.5 } else { 0.0 };
        assert!((state[i] - expected).abs() < 1e-5);
    }
}
