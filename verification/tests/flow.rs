use lenia_ca::bytes::ByteOrder;
use lenia_ca::fft::run_passes;
use lenia_ca::gpu::{Access, BufferKind, Complex32Bits, Extent, Word};
use lenia_ca::gpu_flow_lenia::{
    flatten_lists, FlowBuffer, FlowCommand, FlowPass, FlowShader, GpuFlowLenia,
};
use lenia_ca::passes::{
    channel_aggregate, reintegrate, sobel, sum_channels, wall_interaction, Neighbours, Source,
};
use lenia_ca::wfft::{LaneLayout, Twiddle, WgpuFFT1D};

fn bits(v: f32) -> u32 {
    v.to_bits()
}

fn sim(side: usize, basal: f32, kinetic: f32) -> GpuFlowLenia {
    GpuFlowLenia::new(
        &vec![side, side],
        2,
        3,
        &vec![0, 0, 1],
        &vec![vec![0, 2], vec![1]],
        &vec![bits(0.15), bits(0.2), bits(0.25)],
        &vec![bits(0.05), bits(0.1), bits(0.15)],
        &vec![bits(1.0), bits(-0.5), bits(0.5)],
        bits(0.2),
        2,
        bits(0.65),
        bits(basal),
        bits(kinetic),
    )
}

const BUFFERS: [FlowBuffer; 27] = [
    FlowBuffer::Channel,
    FlowBuffer::NewChannel,
    FlowBuffer::Conv,
    FlowBuffer::ConvX,
    FlowBuffer::Kernel,
    FlowBuffer::U,
    FlowBuffer::UChannel,
    FlowBuffer::NablaUX,
    FlowBuffer::NablaUY,
    FlowBuffer::NablaAX,
    FlowBuffer::NablaAY,
    FlowBuffer::SumA,
    FlowBuffer::FlowX,
    FlowBuffer::FlowY,
    FlowBuffer::Obstacle,
    FlowBuffer::GrowthParams,
    FlowBuffer::NormalizeParams,
    FlowBuffer::AggregateParams,
    FlowBuffer::SobelUParams,
    FlowBuffer::SobelAParams,
    FlowBuffer::SumChannelsParams,
    FlowBuffer::FlowFieldParams,
    FlowBuffer::ReintegrationParams,
    FlowBuffer::WallParams,
    FlowBuffer::C1Flat,
    FlowBuffer::C1Offsets,
    FlowBuffer::Readback,
];

#[test]
fn flow_plan_fields() {
    let s = sim(8, 0.001, 0.0005);
    assert_eq!(s.shape(), &vec![8, 8]);
    assert_eq!(s.num_channels(), 2);
    assert_eq!(s.num_kernels(), 3);
    assert_eq!(s.total_elements(), 64);
    assert_eq!(s.c1_flat, vec![0, 2, 1]);
    assert_eq!(s.c1_offsets, vec![0, 2, 3]);
    assert_eq!(s.kernel_m_slice(), &vec![bits(0.15), bits(0.2), bits(0.25)]);
    assert_eq!(s.kernel_s_slice(), &vec![bits(0.05), bits(0.1), bits(0.15)]);
    assert_eq!(s.kernel_h_slice(), &vec![bits(1.0), bits(-0.5), bits(0.5)]);
    assert_eq!(s.channel_buffer(), FlowBuffer::Channel);
    assert_eq!(s.obstacle_buffer(), FlowBuffer::Obstacle);
    assert_eq!(s.forward_fft_1d.len(), 2);
    assert!(!s.forward_fft_1d[1].inverse() && s.inverse_fft_1d[1].inverse());
}

#[test]
fn flow_buffer_sizes() {
    let s = sim(8, 0.0, 0.0);
    let sizes: Vec<u64> = BUFFERS.iter().map(|&b| s.buffer_size(b)).collect();
    assert_eq!(
        sizes,
        vec![
            512, 512, 512, 768, 1536, 768, 512, 512, 512, 256, 256, 256, 512, 512, 256, 12, 4, 12,
            12, 12, 8, 12, 36, 12, 12, 12, 256
        ]
    );
    for b in BUFFERS.iter() {
        let kind = GpuFlowLenia::buffer_kind(*b);
        let want = match b {
            FlowBuffer::C1Flat | FlowBuffer::C1Offsets => BufferKind::StorageInput,
            FlowBuffer::Readback => BufferKind::Readback,
            FlowBuffer::GrowthParams
            | FlowBuffer::NormalizeParams
            | FlowBuffer::AggregateParams
            | FlowBuffer::SobelUParams
            | FlowBuffer::SobelAParams
            | FlowBuffer::SumChannelsParams
            | FlowBuffer::FlowFieldParams
            | FlowBuffer::ReintegrationParams
            | FlowBuffer::WallParams => BufferKind::Uniform,
            _ => BufferKind::Storage,
        };
        assert_eq!(kind, want);
    }
}

#[test]
fn flow_params() {
    let s = sim(8, 0.001, 0.0005);
    let u = Word::Unsigned;
    assert_eq!(
        s.params(FlowBuffer::NormalizeParams).words,
        vec![Word::InversePower { base: 8, exponent: 2 }]
    );
    assert_eq!(s.params(FlowBuffer::AggregateParams).words, vec![u(8), u(3), u(2)]);
    assert_eq!(s.params(FlowBuffer::SobelUParams).words, vec![u(8), u(8), u(2)]);
    assert_eq!(s.params(FlowBuffer::SobelAParams).words, vec![u(8), u(8), u(1)]);
    assert_eq!(s.params(FlowBuffer::SumChannelsParams).words, vec![u(8), u(2)]);
    assert_eq!(s.params(FlowBuffer::WallParams).words, vec![u(8), u(8), u(2)]);
    let flow = s.params(FlowBuffer::FlowFieldParams);
    assert_eq!(flow.words, vec![u(8), u(2), Word::FloatOf(2)]);
    assert_eq!(flow.order, ByteOrder::Little);
    assert_eq!(s.params(FlowBuffer::WallParams).order, ByteOrder::Native);
    let reintegration = s.params(FlowBuffer::ReintegrationParams);
    assert_eq!(
        reintegration.words,
        vec![
            u(8),
            u(8),
            Word::Signed(2),
            Word::Float(bits(0.65)),
            Word::Float(bits(0.2)),
            u(2),
            Word::FloatDifference { whole: 2, minus: bits(0.65) },
            Word::Float(bits(0.001)),
            Word::Float(bits(0.0005)),
        ]
    );
    assert_eq!(reintegration.order, ByteOrder::Little);
    assert_eq!(s.params(FlowBuffer::Channel).words.len(), 0);
    for b in BUFFERS.iter() {
        if GpuFlowLenia::buffer_kind(*b) == BufferKind::Uniform && *b != FlowBuffer::GrowthParams {
            assert_eq!(s.params(*b).words.len() as u64 * 4, s.buffer_size(*b));
        }
    }
    assert_eq!(
        s.growth_params(1).words,
        vec![Word::Float(bits(0.2)), Word::Float(bits(0.1)), Word::Float(bits(-0.5))]
    );
}

#[test]
fn flow_setters() {
    let mut s = sim(8, 0.0, 0.0);
    let block = s.set_dt(bits(0.5));
    assert_eq!(s.dt, bits(0.5));
    assert_eq!(block.words[4], Word::Float(bits(0.5)));
    assert_eq!(block.words.len(), 9);
    s.set_growth_param(1, 7, 8, 9);
    assert_eq!(s.kernel_m, vec![bits(0.15), 7, bits(0.25)]);
    assert_eq!(s.kernel_s, vec![bits(0.05), 8, bits(0.15)]);
    assert_eq!(s.kernel_h, vec![bits(1.0), 9, bits(0.5)]);
    s.set_all_growth_params(&vec![1, 2, 3], &vec![4, 5, 6], &vec![7, 8, 9]);
    assert_eq!(s.kernel_m, vec![1, 2, 3]);
    assert_eq!(s.kernel_s, vec![4, 5, 6]);
    assert_eq!(s.kernel_h, vec![7, 8, 9]);
    assert_eq!(s.growth_params(2).words[2], Word::Float(9));
}

#[test]
fn flattening() {
    let lists = vec![vec![0, 1, 6], vec![], vec![5, 7, 8], vec![9]];
    let (flat, offsets) = flatten_lists(&lists, 3);
    assert_eq!(flat, vec![0, 1, 6, 5, 7, 8]);
    assert_eq!(offsets, vec![0, 3, 3, 6]);
    let (flat, offsets) = flatten_lists(&lists, 0);
    assert!(flat.is_empty());
    assert_eq!(offsets, vec![0]);
}

#[test]
fn flow_commands() {
    let s = sim(8, 0.0, 0.0);
    let commands = s.iterate();
    assert_eq!(commands.len(), 3 * 10 + 10);
    let rows = LaneLayout { num_lanes: 8, lane_stride: 8, elem_stride: 1 };
    let columns = LaneLayout { num_lanes: 8, lane_stride: 1, elem_stride: 8 };
    let dispatch = |pass: FlowPass, groups: u32| FlowCommand::Dispatch { pass, groups };
    assert_eq!(
        commands[10..20].to_vec(),
        vec![
            FlowCommand::WriteGrowthParams { kernel: 1 },
            dispatch(FlowPass::CopyToConv { kernel: 1 }, 1),
            FlowCommand::Transform { inverse: false, axis: 0, lanes: rows },
            FlowCommand::Transform { inverse: false, axis: 1, lanes: columns },
            dispatch(FlowPass::ComplexMul { kernel: 1 }, 1),
            FlowCommand::Transform { inverse: true, axis: 1, lanes: columns },
            FlowCommand::Transform { inverse: true, axis: 0, lanes: rows },
            dispatch(FlowPass::Normalize, 1),
            dispatch(FlowPass::Growth { kernel: 1 }, 1),
            FlowCommand::Submit,
        ]
    );
    assert_eq!(
        commands[30..40].to_vec(),
        vec![
            dispatch(FlowPass::ChannelAggregate, 1),
            dispatch(FlowPass::WallInteraction, 1),
            dispatch(FlowPass::SumChannels, 1),
            dispatch(FlowPass::SobelU, 1),
            dispatch(FlowPass::SobelA, 1),
            dispatch(FlowPass::FlowField, 1),
            dispatch(FlowPass::Reintegration, 1),
            FlowCommand::Submit,
            FlowCommand::Copy {
                source: FlowBuffer::NewChannel,
                target: FlowBuffer::Channel,
                size: 512
            },
            FlowCommand::Submit,
        ]
    );
    let twice = s.run_steps(2);
    assert_eq!(twice.len(), 80);
    assert_eq!(twice[40..].to_vec(), commands);
    assert_eq!(s.run_steps(0).len(), 0);
}

#[test]
fn flow_commands_of_an_oblong_grid() {
    let s = GpuFlowLenia::new(
        &vec![64, 16],
        3,
        1,
        &vec![2],
        &vec![vec![0], vec![], vec![0]],
        &vec![0],
        &vec![0],
        &vec![0],
        0,
        1,
        0,
        0,
        0,
    );
    let commands = s.iterate();
    assert_eq!(
        commands[1],
        FlowCommand::Dispatch { pass: FlowPass::CopyToConv { kernel: 0 }, groups: 4 }
    );
    assert_eq!(
        commands[2],
        FlowCommand::Transform {
            inverse: false,
            axis: 0,
            lanes: LaneLayout { num_lanes: 16, lane_stride: 64, elem_stride: 1 }
        }
    );
    assert_eq!(
        commands[3],
        FlowCommand::Transform {
            inverse: false,
            axis: 1,
            lanes: LaneLayout { num_lanes: 64, lane_stride: 1, elem_stride: 64 }
        }
    );
    assert_eq!(
        commands[10],
        FlowCommand::Dispatch { pass: FlowPass::ChannelAggregate, groups: 12 }
    );
    assert_eq!(
        s.bindings(FlowPass::CopyToConv { kernel: 0 })[0],
        (FlowBuffer::Channel, Extent::Range { offset: 2 * 1024 * 4, size: 4096 })
    );
}

#[test]
fn flow_bindings() {
    let s = sim(8, 0.0, 0.0);
    assert_eq!(
        s.bindings(FlowPass::CopyToConv { kernel: 2 }),
        vec![
            (FlowBuffer::Channel, Extent::Range { offset: 256, size: 256 }),
            (FlowBuffer::Conv, Extent::Entire)
        ]
    );
    assert_eq!(
        s.bindings(FlowPass::ComplexMul { kernel: 2 })[1],
        (FlowBuffer::Kernel, Extent::Range { offset: 1024, size: 512 })
    );
    assert_eq!(
        s.bindings(FlowPass::Growth { kernel: 1 })[2],
        (FlowBuffer::ConvX, Extent::Range { offset: 256, size: 256 })
    );
    let passes = [
        FlowPass::CopyToConv { kernel: 2 },
        FlowPass::ComplexMul { kernel: 2 },
        FlowPass::Normalize,
        FlowPass::Growth { kernel: 2 },
        FlowPass::ChannelAggregate,
        FlowPass::WallInteraction,
        FlowPass::SumChannels,
        FlowPass::SobelU,
        FlowPass::SobelA,
        FlowPass::FlowField,
        FlowPass::Reintegration,
    ];
    for pass in passes.iter() {
        let bindings = s.bindings(*pass);
        let layout = GpuFlowLenia::layout(GpuFlowLenia::shader(*pass));
        assert_eq!(bindings.len(), layout.len());
        for (i, (buffer, extent)) in bindings.iter().enumerate() {
            let uniform = GpuFlowLenia::buffer_kind(*buffer) == BufferKind::Uniform;
            assert_eq!(uniform, layout[i] == Access::Uniform);
            if let Extent::Range { offset, size } = extent {
                assert!(offset + size <= s.buffer_size(*buffer));
                assert_eq!(offset % 256, 0);
            }
            for (j, (other, _)) in bindings.iter().enumerate() {
                assert!(i == j || layout[i] != Access::ReadWrite || buffer != other);
            }
        }
    }
    assert_eq!(GpuFlowLenia::shader(FlowPass::SobelA), FlowShader::Sobel);
    assert_eq!(
        s.bindings(FlowPass::SobelA),
        vec![
            (FlowBuffer::SumA, Extent::Entire),
            (FlowBuffer::NablaAX, Extent::Entire),
            (FlowBuffer::NablaAY, Extent::Entire),
            (FlowBuffer::SobelAParams, Extent::Entire)
        ]
    );
}

#[test]
fn channels_are_put_in_place_up_to_the_first_that_does_not_fit() {
    let s = sim(2, 0.0, 0.0);
    let (good, bad) = (vec![1, 2, 3, 4], vec![1, 2, 3]);
    let kept = |data: Vec<Vec<u32>>| {
        let load = s.reinit_channels(&data);
        for (c, upload) in load.uploads.iter().enumerate() {
            assert_eq!(upload.buffer, FlowBuffer::Channel);
            assert_eq!(upload.offset, (c * 4 * 4) as u64);
            assert_eq!(upload.words, data[c]);
        }
        (load.uploads.len(), load.complete)
    };
    assert_eq!(kept(vec![]), (0, true));
    assert_eq!(kept(vec![good.clone()]), (1, true));
    assert_eq!(kept(vec![good.clone(), bad.clone()]), (1, false));
    assert_eq!(kept(vec![bad.clone(), good.clone()]), (0, false));
    assert_eq!(kept(vec![good.clone(), good.clone(), good.clone()]), (2, false));
}

#[test]
fn flow_uploads_and_downloads() {
    let s = sim(2, 0.0, 0.0);
    let mut memory: Vec<u32> = vec![0; (s.buffer_size(FlowBuffer::Channel) / 4) as usize];
    let first = vec![1, 2, 3, 4];
    let second = vec![5, 6, 7, 8];
    let load = s.reinit_channels(&vec![first.clone(), second.clone()]);
    assert!(load.complete);
    for upload in load.uploads.iter() {
        assert_eq!(upload.buffer, FlowBuffer::Channel);
        let at = (upload.offset / 4) as usize;
        memory[at..at + upload.words.len()].copy_from_slice(&upload.words);
    }
    let read = |memory: &Vec<u32>, offset: u64, size: u64| {
        memory[(offset / 4) as usize..((offset + size) / 4) as usize].to_vec()
    };
    let d = s.download_channel(1);
    assert_eq!(d.buffer, FlowBuffer::Channel);
    assert_eq!(read(&memory, d.offset, d.size), second);
    let d = s.download_channel(0);
    assert_eq!(read(&memory, d.offset, d.size), first);
    let all = s.download_all_channels();
    assert_eq!(read(&memory, all.offset, all.size), vec![1, 2, 3, 4, 5, 6, 7, 8]);

    let up = s.upload_channel(&vec![9, 9, 9, 9], 0);
    assert_eq!((up.offset, up.words.len()), (0, 4));
    let obstacles = s.upload_obstacles(&vec![0, 1, 0, 1]);
    assert_eq!(obstacles.buffer, FlowBuffer::Obstacle);
    assert_eq!(obstacles.offset, 0);
    assert_eq!(obstacles.words, vec![0, 1, 0, 1]);

    let kernel: Vec<Complex32Bits> = (0..4).map(|i| Complex32Bits { re: i, im: 10 + i }).collect();
    let set = s.set_kernel(&kernel, 2);
    assert_eq!(set.buffer, FlowBuffer::Kernel);
    assert_eq!(set.offset, 2 * 4 * 8);
    assert_eq!(set.words, vec![0, 10, 1, 11, 2, 12, 3, 13]);
    let got = s.download_kernel(2);
    assert_eq!(got.buffer, FlowBuffer::Kernel);
    assert_eq!((got.offset, got.size), (64, 32));
    assert_eq!(s.kernel_of_words(&set.words), kernel);
}

/// A device on the host that runs the commands of a simulation in double precision.
struct Host {
    mem: Vec<(FlowBuffer, Vec<f64>)>,
    kernel: usize,
}

impl Host {
    fn new(s: &GpuFlowLenia) -> Host {
        let mut mem = Vec::new();
        for b in BUFFERS.iter() {
            mem.push((*b, vec![0.0; (s.buffer_size(*b) / 4) as usize]));
        }
        Host { mem, kernel: 0 }
    }

    fn get(&self, buffer: FlowBuffer) -> Vec<f64> {
        self.mem.iter().find(|(b, _)| *b == buffer).unwrap().1.clone()
    }

    fn set(&mut self, buffer: FlowBuffer, values: Vec<f64>) {
        let slot = self.mem.iter_mut().find(|(b, _)| *b == buffer).unwrap();
        assert_eq!(slot.1.len(), values.len());
        slot.1 = values;
    }

    fn bound(&self, binding: (FlowBuffer, Extent)) -> Vec<f64> {
        let all = self.get(binding.0);
        match binding.1 {
            Extent::Entire => all,
            Extent::Range { offset, size } => {
                all[(offset / 4) as usize..((offset + size) / 4) as usize].to_vec()
            }
        }
    }

    fn put(&mut self, binding: (FlowBuffer, Extent), values: Vec<f64>) {
        let mut all = self.get(binding.0);
        let start = match binding.1 {
            Extent::Entire => 0,
            Extent::Range { offset, .. } => (offset / 4) as usize,
        };
        all[start..start + values.len()].copy_from_slice(&values);
        self.set(binding.0, all);
    }

    fn transform(&mut self, s: &GpuFlowLenia, inverse: bool, axis: usize, lanes: LaneLayout) {
        let mut conv = self.get(FlowBuffer::Conv);
        let n = s.shape()[axis];
        let table: Vec<[f64; 2]> = WgpuFFT1D::compute_twiddle_factors(n, inverse)
            .iter()
            .map(|t| match t {
                Twiddle::Turn { inverse, numerator, denominator } => {
                    let sign = if *inverse { 1.0 } else { -1.0 };
                    let angle = sign * 2.0 * std::f64::consts::PI * (*numerator as f64)
                        / (*denominator as f64);
                    [angle.cos(), angle.sin()]
                }
                Twiddle::Padding => [0.0, 0.0],
            })
            .collect();
        for l in 0..lanes.num_lanes {
            let cell =
                |i: usize| l * lanes.lane_stride as usize + i * lanes.elem_stride as usize;
            let mut lane: Vec<[f64; 2]> =
                (0..n).map(|i| [conv[2 * cell(i)], conv[2 * cell(i) + 1]]).collect();
            run_passes(&mut lane, &table, &|e: [f64; 2], w: [f64; 2], o: [f64; 2]| {
                let t = [w[0] * o[0] - w[1] * o[1], w[0] * o[1] + w[1] * o[0]];
                ([e[0] + t[0], e[1] + t[1]], [e[0] - t[0], e[1] - t[1]])
            });
            for i in 0..n {
                conv[2 * cell(i)] = lane[i][0];
                conv[2 * cell(i) + 1] = lane[i][1];
            }
        }
        self.set(FlowBuffer::Conv, conv);
    }

    fn dispatch(&mut self, s: &GpuFlowLenia, pass: FlowPass) {
        let b = s.bindings(pass);
        let (w, h) = (s.shape()[0] as u32, s.shape()[1] as u32);
        let (nc, nk) = (s.num_channels() as u32, s.num_kernels() as u32);
        let plus = |x: f64, y: f64| x + y;
        match pass {
            FlowPass::CopyToConv { .. } => {
                let mut conv = Vec::new();
                for v in self.bound(b[0]) {
                    conv.push(v);
                    conv.push(0.0);
                }
                self.put(b[1], conv);
            }
            FlowPass::ComplexMul { .. } => {
                let mut conv = self.bound(b[0]);
                let k = self.bound(b[1]);
                for i in 0..conv.len() / 2 {
                    let (a, c) = (conv[2 * i], conv[2 * i + 1]);
                    conv[2 * i] = a * k[2 * i] - c * k[2 * i + 1];
                    conv[2 * i + 1] = a * k[2 * i + 1] + c * k[2 * i];
                }
                self.put(b[0], conv);
            }
            FlowPass::Normalize => {
                let factor = match s.params(b[1].0).words[0] {
                    Word::InversePower { base, exponent } => {
                        1.0 / (base as f64).powi(exponent as i32)
                    }
                    _ => unreachable!(),
                };
                let conv = self.bound(b[0]).iter().map(|v| v * factor).collect();
                self.put(b[0], conv);
            }
            FlowPass::Growth { .. } => {
                let p: Vec<f64> = s
                    .growth_params(self.kernel)
                    .words
                    .iter()
                    .map(|word| match word {
                        Word::Float(v) => f32::from_bits(*v) as f64,
                        _ => unreachable!(),
                    })
                    .collect();
                let conv = self.bound(b[0]);
                let x: Vec<f64> = (0..conv.len() / 2).map(|i| conv[2 * i]).collect();
                let g = x
                    .iter()
                    .map(|v| {
                        (2.0 * (-(v - p[0]) * (v - p[0]) / (2.0 * p[1] * p[1])).exp() - 1.0) * p[2]
                    })
                    .collect();
                self.put(b[1], g);
                self.put(b[2], x);
            }
            FlowPass::ChannelAggregate => {
                let out = channel_aggregate(
                    &self.bound(b[0]),
                    &s.c1_flat,
                    &s.c1_offsets,
                    w,
                    nk,
                    nc,
                    0.0,
                    &plus,
                );
                self.put(b[1], out);
            }
            FlowPass::WallInteraction => {
                let out = wall_interaction(
                    &self.bound(b[0]),
                    &self.bound(b[1]),
                    w,
                    h,
                    nc,
                    0.0,
                    &|acc: f64, d2: u32, obs: f64| {
                        if obs <= 0.0 {
                            return acc;
                        }
                        let r = (d2 as f64).sqrt() / 2.0;
                        acc + obs * (-r * r / 2.0).exp() / (1.0 + (10.0 * (r - 1.0)).exp())
                    },
                    &|u: f64, conv: f64| u - 10.0 * (conv - 0.001).max(0.0),
                );
                self.put(b[1], out);
            }
            FlowPass::SumChannels => {
                let out = sum_channels(&self.bound(b[0]), w, nc, 0.0, &plus);
                self.put(b[1], out);
            }
            FlowPass::SobelU | FlowPass::SobelA => {
                let fields = if pass == FlowPass::SobelU { nc } else { 1 };
                let (x, y) = sobel(&self.bound(b[0]), w, h, fields, &gradient);
                self.put(b[1], x);
                self.put(b[2], y);
            }
            FlowPass::FlowField => {
                let a = self.bound(b[0]);
                let (ux, uy) = (self.bound(b[1]), self.bound(b[2]));
                let (ax, ay) = (self.bound(b[3]), self.bound(b[4]));
                let cells = (w * w) as usize;
                let (mut fx, mut fy) = (Vec::new(), Vec::new());
                for i in 0..a.len() {
                    let share = a[i] / nc as f64;
                    let alpha = (share * share).clamp(0.0, 1.0);
                    fx.push(ux[i] * (1.0 - alpha) - ax[i % cells] * alpha);
                    fy.push(uy[i] * (1.0 - alpha) - ay[i % cells] * alpha);
                }
                self.put(b[5], fx);
                self.put(b[6], fy);
            }
            FlowPass::Reintegration => {
                let sigma = f32::from_bits(s.sigma) as f64;
                let dt = f32::from_bits(s.dt) as f64;
                let basal = f32::from_bits(s.basal_metabolic_rate) as f64;
                let kinetic = f32::from_bits(s.kinetic_cost) as f64;
                let out = move_mass(
                    &self.bound(b[0]),
                    &self.bound(b[1]),
                    &self.bound(b[2]),
                    w,
                    h,
                    nc,
                    s.dd,
                    sigma,
                    dt,
                    basal,
                    kinetic,
                );
                self.put(b[3], out);
            }
        }
    }

    fn run(&mut self, s: &GpuFlowLenia, commands: &Vec<FlowCommand>) {
        for command in commands.iter() {
            match *command {
                FlowCommand::WriteGrowthParams { kernel } => self.kernel = kernel,
                FlowCommand::Dispatch { pass, .. } => self.dispatch(s, pass),
                FlowCommand::Transform { inverse, axis, lanes } => {
                    self.transform(s, inverse, axis, lanes)
                }
                FlowCommand::Copy { source, target, size } => {
                    let values = self.get(source)[..(size / 4) as usize].to_vec();
                    self.put((target, Extent::Entire), values);
                }
                FlowCommand::Submit => {}
            }
        }
    }
}

fn gradient(n: Neighbours<f64>) -> (f64, f64) {
    (
        (-n.tl + n.tr) + 2.0 * (-n.ml + n.mr) + (-n.bl + n.br),
        (-n.tl - 2.0 * n.tc - n.tr) + (n.bl + 2.0 * n.bc + n.br),
    )
}

fn move_mass(
    channel: &Vec<f64>,
    flow_x: &Vec<f64>,
    flow_y: &Vec<f64>,
    w: u32,
    h: u32,
    channels: u32,
    dd: i32,
    sigma: f64,
    dt: f64,
    basal: f64,
    kinetic: f64,
) -> Vec<f64> {
    let ma = dd as f64 - sigma;
    let max_sz = (2.0 * sigma).min(1.0);
    let gather = |acc: f64, at: (usize, usize), from: (usize, usize), source: Source<f64>| {
        if source.mass <= 0.0 {
            return acc;
        }
        let fx = source.flow_x.clamp(-ma, ma);
        let fy = source.flow_y.clamp(-ma, ma);
        let mu_x = (from.0 as f64 + 0.5 + fx * dt).clamp(sigma, w as f64 - sigma);
        let mu_y = (from.1 as f64 + 0.5 + fy * dt).clamp(sigma, h as f64 - sigma);
        let dpx = (at.0 as f64 + 0.5 - mu_x).abs();
        let dpy = (at.1 as f64 + 0.5 - mu_y).abs();
        let sz_x = (0.5 - dpx + sigma).clamp(0.0, max_sz);
        let sz_y = (0.5 - dpy + sigma).clamp(0.0, max_sz);
        acc + source.mass * (sz_x * sz_y) / (4.0 * sigma * sigma)
    };
    let finish = |acc: f64, own: Source<f64>| {
        let fx = own.flow_x.clamp(-ma, ma);
        let fy = own.flow_y.clamp(-ma, ma);
        let speed = (fx * fx + fy * fy).sqrt();
        (acc * (1.0 - basal * dt) - kinetic * speed * dt).max(0.0)
    };
    reintegrate(channel, flow_x, flow_y, w, h, channels, dd, 0.0, &gather, &finish)
}

fn mass(values: &[f64]) -> f64 {
    values.iter().sum()
}

fn noise(len: usize) -> Vec<f64> {
    let mut state: u64 = 12345;
    (0..len)
        .map(|_| {
            state = state.wrapping_mul(6364136223846793005).wrapping_add(1442695040888963407);
            (state >> 40) as f64 / (1u64 << 24) as f64
        })
        .collect()
}

fn seeded_host(s: &GpuFlowLenia) -> Host {
    let mut host = Host::new(s);
    host.set(FlowBuffer::Channel, noise(2 * s.total_elements()));
    host.set(FlowBuffer::Kernel, noise(6 * s.total_elements()));
    let mut obstacle = vec![0.0; s.total_elements()];
    obstacle[5] = 1.0;
    host.set(FlowBuffer::Obstacle, obstacle);
    host
}

#[test]
fn iterations_conserve_mass() {
    let s = sim(8, 0.0, 0.0);
    let mut host = seeded_host(&s);
    let before = host.get(FlowBuffer::Channel);
    host.run(&s, &s.run_steps(5));
    let after = host.get(FlowBuffer::Channel);
    assert_ne!(before, after);
    for c in 0..2 {
        let old = mass(&before[c * 64..(c + 1) * 64]);
        let new = mass(&after[c * 64..(c + 1) * 64]);
        assert!((old - new).abs() < 1e-9, "{} became {}", old, new);
    }
    assert!(after.iter().all(|v| *v >= 0.0));
    assert_eq!(host.get(FlowBuffer::Kernel), seeded_host(&s).get(FlowBuffer::Kernel));
}

#[test]
fn oblong_iterations_conserve_mass() {
    let s = GpuFlowLenia::new(
        &vec![4, 8],
        2,
        3,
        &vec![0, 0, 1],
        &vec![vec![0, 2], vec![1]],
        &vec![bits(0.15), bits(0.2), bits(0.25)],
        &vec![bits(0.05), bits(0.1), bits(0.15)],
        &vec![bits(1.0), bits(-0.5), bits(0.5)],
        bits(0.2),
        2,
        bits(0.65),
        bits(0.0),
        bits(0.0),
    );
    let mut host = seeded_host(&s);
    let before = host.get(FlowBuffer::Channel);
    host.run(&s, &s.run_steps(3));
    let after = host.get(FlowBuffer::Channel);
    assert_ne!(before, after);
    for c in 0..2 {
        let old = mass(&before[c * 32..(c + 1) * 32]);
        let new = mass(&after[c * 32..(c + 1) * 32]);
        assert!((old - new).abs() < 1e-9, "{} became {}", old, new);
    }
    assert!(after.iter().all(|v| *v >= 0.0));
    assert_eq!(host.get(FlowBuffer::Kernel), seeded_host(&s).get(FlowBuffer::Kernel));
    assert_eq!(host.get(FlowBuffer::Obstacle), seeded_host(&s).get(FlowBuffer::Obstacle));
}

#[test]
fn unlisted_kernels_have_no_effect() {
    let run = |m: f32, spectrum: f64| {
        let s = GpuFlowLenia::new(
            &vec![8, 8],
            2,
            3,
            &vec![0, 0, 1],
            &vec![vec![0], vec![2]],
            &vec![bits(0.15), bits(m), bits(0.25)],
            &vec![bits(0.05), bits(0.1), bits(0.15)],
            &vec![bits(1.0), bits(-0.5), bits(0.5)],
            bits(0.2),
            2,
            bits(0.65),
            bits(0.0),
            bits(0.0),
        );
        let mut host = seeded_host(&s);
        let mut kernels = host.get(FlowBuffer::Kernel);
        for v in kernels[128..256].iter_mut() {
            *v = spectrum;
        }
        host.set(FlowBuffer::Kernel, kernels);
        host.run(&s, &s.iterate());
        (host.get(FlowBuffer::Channel), host.get(FlowBuffer::U))
    };
    let (channels, growth) = run(0.2, 0.5);
    let (same, other_growth) = run(0.3, -0.25);
    assert_eq!(channels, same);
    assert_ne!(growth, other_growth);
}

#[test]
fn mass_moves_at_most_dd_cells() {
    let (w, h, dd) = (9usize, 7usize, 2i32);
    let cells = w * h;
    let mut channel = vec![0.0; 2 * cells];
    channel[3 * w + 4] = 1.0;
    for (x, y) in [(100.0, 100.0), (-100.0, 0.0), (0.5, -3.0)] {
        let (fx, fy) = (vec![x; 2 * cells], vec![y; 2 * cells]);
        let out = move_mass(&channel, &fx, &fy, 9, 7, 2, dd, 0.65, 1.0, 0.0, 0.0);
        for i in 0..2 * cells {
            let (px, py) = ((i % cells) % w, (i % cells) / w);
            let near = px.abs_diff(4) <= 2 && py.abs_diff(3) <= 2;
            if i >= cells || !near {
                assert_eq!(out[i], 0.0);
            }
        }
        assert!((mass(&out) - 1.0).abs() < 1e-12);
    }

    // what lies farther away, or in the other channel, does not matter
    let start = noise(2 * cells);
    let (fx, fy) = (noise(2 * cells), noise(2 * cells));
    let out = move_mass(&start, &fx, &fy, 9, 7, 2, dd, 0.65, 1.0, 0.0, 0.0);
    let mut other = start.clone();
    for i in 0..2 * cells {
        let (px, py) = ((i % cells) % w, (i % cells) / w);
        if i >= cells || px.abs_diff(4) > 2 || py.abs_diff(3) > 2 {
            other[i] = 7.0;
        }
    }
    let changed = move_mass(&other, &fx, &fy, 9, 7, 2, dd, 0.65, 1.0, 0.0, 0.0);
    assert_eq!(out[3 * w + 4], changed[3 * w + 4]);
    assert_ne!(out, changed);
}

#[test]
fn iterations_with_costs_lose_mass() {
    let s = sim(8, 0.01, 0.005);
    let mut host = seeded_host(&s);
    let mut last = mass(&host.get(FlowBuffer::Channel));
    for _ in 0..3 {
        host.run(&s, &s.iterate());
        let now = mass(&host.get(FlowBuffer::Channel));
        assert!(now < last);
        last = now;
    }
}

#[test]
fn iteration_convolves_the_source_channel() {
    let s = sim(8, 0.0, 0.0);
    let mut host = Host::new(&s);
    let channels = noise(128);
    host.set(FlowBuffer::Channel, channels.clone());
    // The spectrum of a kernel that moves everything by one column: e^(-2 pi i x / 8).
    let mut spectrum = Vec::new();
    for i in 0..3 * 64 {
        let angle = -2.0 * std::f64::consts::PI * (i % 8) as f64 / 8.0;
        spectrum.push(angle.cos());
        spectrum.push(angle.sin());
    }
    host.set(FlowBuffer::Kernel, spectrum);
    host.run(&s, &s.iterate());
    let conv = host.get(FlowBuffer::ConvX);
    for k in 0..3 {
        let source = [0, 0, 1][k] * 64;
        for p in 0..64 {
            let (x, y) = (p % 8, p / 8);
            let want = channels[source + y * 8 + (x + 7) % 8];
            assert!((conv[k * 64 + p] - want).abs() < 1e-9);
        }
    }
}

#[test]
fn channel_sums() {
    let plus = |a: i64, b: i64| a + b;
    assert_eq!(
        sum_channels(&vec![1, 2, 3, 4, 10, 20, 30, 40], 2, 2, 0, &plus),
        vec![11, 22, 33, 44]
    );
    assert_eq!(sum_channels(&vec![1, 2, 3, 4], 2, 0, 7, &plus), vec![7, 7, 7, 7]);
}

#[test]
fn aggregates() {
    let plus = |a: i64, b: i64| a + b;
    // three kernels on one cell; channel 0 takes kernels 2 and 0, channel 1 none
    assert_eq!(
        channel_aggregate(&vec![1, 10, 100], &vec![2, 0], &vec![0, 2, 2], 1, 3, 2, 0, &plus),
        vec![101, 0]
    );
    let order = |a: i64, b: i64| a * 10 + b;
    assert_eq!(
        channel_aggregate(&vec![1, 2, 3], &vec![2, 0, 1], &vec![0, 3], 1, 3, 1, 0, &order),
        vec![312]
    );
}

#[test]
fn gradients() {
    // one field of 3 x 2 cells that grows by one per column and by ten per row
    let field = vec![0.0, 1.0, 2.0, 10.0, 11.0, 12.0];
    let (x, y) = sobel(&field, 3, 2, 1, &gradient);
    assert_eq!(x, vec![4.0, 8.0, 4.0, 4.0, 8.0, 4.0]);
    assert_eq!(y, vec![40.0, 40.0, 40.0, 40.0, 40.0, 40.0]);
    let (x, y) = sobel(&vec![5.0; 32], 4, 4, 2, &gradient);
    assert_eq!(x, vec![0.0; 32]);
    assert_eq!(y, vec![0.0; 32]);
}

#[test]
fn reintegration_moves_mass() {
    // All mass in one cell, half a cell to the right.
    let mut channel = vec![0.0; 25];
    channel[12] = 1.0;
    let (fx, fy) = (vec![1.0; 25], vec![0.0; 25]);
    let out = move_mass(&channel, &fx, &fy, 5, 5, 1, 2, 0.5, 0.5, 0.0, 0.0);
    assert_eq!(out[12], 0.5);
    assert_eq!(out[13], 0.5);
    assert_eq!(mass(&out), 1.0);
    // At the edge the square is pushed back in.
    let mut edge = vec![0.0; 25];
    edge[4] = 1.0;
    let out = move_mass(&edge, &fx, &fy, 5, 5, 1, 2, 0.5, 1.0, 0.0, 0.0);
    assert_eq!(out[4], 1.0);
    // Negative mass is dropped.
    let mut negative = vec![0.0; 25];
    negative[12] = -1.0;
    let out = move_mass(&negative, &fx, &fy, 5, 5, 1, 2, 0.5, 0.5, 0.0, 0.0);
    assert_eq!(mass(&out), 0.0);
    // Basal cost.
    let out = move_mass(&channel, &vec![0.0; 25], &fy, 5, 5, 1, 2, 0.5, 0.5, 0.5, 0.0);
    assert_eq!(out[12], 0.75);
    // A negative radius gathers nothing.
    let out = reintegrate(
        &channel,
        &fx,
        &fy,
        5,
        5,
        1,
        -1,
        0.0,
        &|_: f64, _: (usize, usize), _: (usize, usize), _: Source<f64>| 1.0,
        &|acc: f64, _: Source<f64>| acc,
    );
    assert_eq!(mass(&out), 0.0);
}

#[test]
fn reintegration_visits_columns_first() {
    let order = reintegrate(
        &vec![1, 2, 3, 4],
        &vec![0, 0, 0, 0],
        &vec![0, 0, 0, 0],
        2,
        2,
        1,
        1,
        0,
        &|acc: i64, _: (usize, usize), _: (usize, usize), s: Source<i64>| acc * 10 + s.mass,
        &|acc: i64, own: Source<i64>| acc * 100 + own.mass,
    );
    assert_eq!(order, vec![132401, 132402, 132403, 132404]);
}

#[test]
fn walls_reach_three_cells() {
    let mut obstacle = vec![0; 81];
    obstacle[40] = 1;
    let u = vec![0; 162];
    let out = wall_interaction(
        &obstacle,
        &u,
        9,
        9,
        2,
        0,
        &|acc: i64, d2: u32, obs: i64| acc + obs * (100 + d2 as i64),
        &|u: i64, conv: i64| u - conv,
    );
    assert_eq!(out[40], -100);
    assert_eq!(out[81 + 40], -100);
    assert_eq!(out[40 + 3], -109);
    assert_eq!(out[40 + 4], 0);
    assert_eq!(out[40 - 27 - 3], -118);
    assert_eq!(out[0], 0);
}

#[test]
fn flow_setup() {
    let s = sim(8, 0.001, 0.0005);
    let created = GpuFlowLenia::buffers();
    assert_eq!(created.len(), BUFFERS.len());
    assert!(BUFFERS.iter().all(|b| created.contains(b)));
    let tables = s.mapping_uploads();
    assert_eq!(tables.len(), 2);
    assert_eq!((tables[0].buffer, tables[0].offset), (FlowBuffer::C1Flat, 0));
    assert_eq!(tables[0].words, vec![0, 2, 1]);
    assert_eq!((tables[1].buffer, tables[1].offset), (FlowBuffer::C1Offsets, 0));
    assert_eq!(tables[1].words, vec![0, 2, 3]);
    let blocks = s.initial_params();
    let filled: Vec<FlowBuffer> = blocks.iter().map(|(b, _)| *b).collect();
    assert_eq!(
        filled,
        vec![
            FlowBuffer::NormalizeParams,
            FlowBuffer::AggregateParams,
            FlowBuffer::SobelUParams,
            FlowBuffer::SobelAParams,
            FlowBuffer::SumChannelsParams,
            FlowBuffer::FlowFieldParams,
            FlowBuffer::ReintegrationParams,
            FlowBuffer::WallParams,
        ]
    );
    for (b, block) in blocks.iter() {
        assert_eq!(block.words, s.params(*b).words);
        assert_eq!(block.order, s.params(*b).order);
    }
}

#[test]
fn flow_readiness() {
    let mut s = sim(8, 0.0, 0.0);
    assert!(s.is_ready());
    s.c0[2] = 2;
    assert!(!s.is_ready());
    s.c0[2] = 1;
    assert!(s.is_ready());
    s.kernel_s.pop();
    assert!(!s.is_ready());
    let mut short = sim(8, 0.0, 0.0);
    short.c0.pop();
    assert!(!short.is_ready());
}

#[test]
fn flow_set_dt_changes_one_word() {
    let mut s = sim(8, 0.001, 0.0005);
    let before = s.params(FlowBuffer::ReintegrationParams).words;
    let after = s.set_dt(bits(0.75)).words;
    assert_eq!(before.len(), after.len());
    for i in 0..before.len() {
        assert_eq!(before[i] == after[i], i != 4);
    }
    assert_eq!(after[4], Word::Float(bits(0.75)));
}

#[test]
fn reintegration_creates_nothing() {
    // A time step of three carries mass out of reach, and half of the cells are negative.
    let channel: Vec<f64> = noise(64).iter().map(|v| v - 0.5).collect();
    let fx: Vec<f64> = noise(128)[64..].iter().map(|v| 8.0 * v - 4.0).collect();
    let fy: Vec<f64> = noise(192)[128..].iter().map(|v| 8.0 * v - 4.0).collect();
    let positive: f64 = channel.iter().map(|v| v.max(0.0)).sum();
    let slow = move_mass(&channel, &fx, &fy, 8, 8, 1, 2, 0.65, 1.0, 0.0, 0.0);
    assert!((mass(&slow) - positive).abs() < 1e-9);
    for dt in [3.0, 100.0] {
        let out = move_mass(&channel, &fx, &fy, 8, 8, 1, 2, 0.65, dt, 0.0, 0.0);
        assert!(out.iter().all(|v| *v >= 0.0));
        assert!(mass(&out) < positive);
    }
    // a square that is wider than the window
    let out = move_mass(&channel, &fx, &fy, 8, 8, 1, 2, 1.9, 1.0, 0.1, 0.1);
    assert!(mass(&out) <= positive);
}
