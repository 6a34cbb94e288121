use lenia_ca::fft::{bit_reverse, bit_reverse_pass, butterfly, run_passes};
use lenia_ca::gpu::{
    interleave, pair_up, workgroups, Access, BufferKind, Complex32Bits,
};
use lenia_ca::nd::NdArray;
use lenia_ca::power::{log2, next_power_of_two};
use lenia_ca::wfft::{
    FftBuffer, FftCommand, FftShader, LaneLayout, Twiddle, WgpuFFT1D, WgpuFFTND,
};

type C = [f32; 2];

fn times(a: C, b: C) -> C {
    [a[0] * b[0] - a[1] * b[1], a[0] * b[1] + a[1] * b[0]]
}

fn stage(even: C, w: C, odd: C) -> (C, C) {
    let t = times(w, odd);
    ([even[0] + t[0], even[1] + t[1]], [even[0] - t[0], even[1] - t[1]])
}

fn twiddles(n: usize, inverse: bool) -> Vec<C> {
    let table = WgpuFFT1D::compute_twiddle_factors(n, inverse);
    let mut values = Vec::new();
    for entry in table.iter() {
        values.push(match entry {
            Twiddle::Turn { inverse, numerator, denominator } => {
                let sign = if *inverse { 1.0 } else { -1.0 };
                let angle =
                    sign * 2.0 * std::f64::consts::PI * (*numerator as f64) / (*denominator as f64);
                [angle.cos() as f32, angle.sin() as f32]
            }
            Twiddle::Padding => [0.0, 0.0],
        });
    }
    values
}

/// Transforms `data` as a device does: the numbers are written to memory, the commands
/// run invocation by invocation, and what is read back is divided after an inverse
/// transform.
fn transform(fft: &WgpuFFT1D, data: &mut Vec<C>) {
    let table = twiddles(fft.len(), fft.inverse());
    let numbers: Vec<Complex32Bits> = data
        .iter()
        .map(|c| Complex32Bits { re: c[0].to_bits(), im: c[1].to_bits() })
        .collect();
    let mut memory: Vec<C> = fft
        .upload(&numbers)
        .chunks(2)
        .map(|w| [f32::from_bits(w[0]), f32::from_bits(w[1])])
        .collect();
    let mut read: Vec<u32> = Vec::new();
    for command in fft.transform().iter() {
        let p = WgpuFFT1D::params(*command);
        match command {
            FftCommand::BitReverse { groups, .. } => {
                for i in 0..groups * 256 {
                    let j = bit_reverse(i, log2(p[0] as usize));
                    if i < p[0] && i < j {
                        memory.swap(i as usize, j as usize);
                    }
                }
            }
            FftCommand::Stage { groups, .. } => {
                assert_eq!(p[2] == 1, fft.inverse());
                for i in 0..groups * 256 {
                    if i < p[0] / 2 {
                        let b = butterfly(p[0], p[1], i);
                        let (even, odd) = (b.even as usize, b.odd as usize);
                        let (x, y) = stage(memory[even], table[b.twiddle as usize], memory[odd]);
                        memory[even] = x;
                        memory[odd] = y;
                    }
                }
            }
            FftCommand::ReadBack { size } => {
                let words: Vec<u32> =
                    memory.iter().flat_map(|c| [c[0].to_bits(), c[1].to_bits()]).collect();
                read = words[..(*size / 4) as usize].to_vec();
            }
        }
    }
    let (numbers, divisor) = fft.result(&read);
    let scale = match divisor {
        Some(n) => 1.0 / n as f32,
        None => 1.0,
    };
    *data = numbers
        .iter()
        .map(|c| [f32::from_bits(c.re) * scale, f32::from_bits(c.im) * scale])
        .collect();
}

#[test]
fn test_fft_1d_forward_inverse_roundtrip() {
    let n = 256;

    let original: Vec<C> = (0..n)
        .map(|i| {
            let val = (2.0 * std::f32::consts::PI * i as f32 / 16.0).cos();
            [val, 0.0]
        })
        .collect();

    let mut data = original.clone();

    let fft = WgpuFFT1D::new(n, false);
    transform(&fft, &mut data);

    let ifft = WgpuFFT1D::new(n, true);
    transform(&ifft, &mut data);

    for (a, b) in data.iter().zip(original.iter()) {
        let diff = (a[0] - b[0]).abs();
        assert!(
            diff < 1e-3,
            "Roundtrip error too large: |{} - {}| = {}",
            a[0],
            b[0],
            diff
        );
    }
}

#[test]
fn test_fft_1d_impulse() {
    let n = 128;

    let mut data: Vec<C> = (0..n).map(|_| [0.0, 0.0]).collect();
    data[0] = [1.0, 0.0];

    let fft = WgpuFFT1D::new(n, false);
    transform(&fft, &mut data);

    for (i, val) in data.iter().enumerate() {
        let mag = (val[0] * val[0] + val[1] * val[1]).sqrt();
        assert!(
            (mag - 1.0).abs() < 1e-3,
            "Impulse response at {}: magnitude {} != 1.0",
            i,
            mag
        );
    }
}

fn pack(c: C) -> u64 {
    (c[0].to_bits() as u64) | ((c[1].to_bits() as u64) << 32)
}

fn unpack(bits: u64) -> C {
    [f32::from_bits(bits as u32), f32::from_bits((bits >> 32) as u32)]
}

fn transform_nd(fft: &WgpuFFTND, data: &mut NdArray) {
    let run = |axis: usize, lane: Vec<u64>| -> Vec<u64> {
        let plan = WgpuFFT1D::new(fft.shape()[axis], fft.inverse());
        let mut values: Vec<C> = lane.iter().map(|&b| unpack(b)).collect();
        transform(&plan, &mut values);
        values.iter().map(|&c| pack(c)).collect()
    };
    fft.transform(data, &run);
}

#[test]
fn test_fft_nd_2d_roundtrip() {
    let shape = vec![32, 32];

    let mut original: Vec<C> = Vec::new();
    for i in 0..32 {
        for j in 0..32 {
            let val = ((i as f32).sin() * (j as f32).cos()) * 0.5;
            original.push([val, 0.0]);
        }
    }

    let mut data = NdArray::from_vec(&shape, original.iter().map(|&c| pack(c)).collect());

    let fft = WgpuFFTND::new(&shape, false);
    transform_nd(&fft, &mut data);

    let ifft = WgpuFFTND::new(&shape, true);
    transform_nd(&ifft, &mut data);

    for (a, b) in data.to_vec().iter().zip(original.iter()) {
        let a = unpack(*a);
        let diff = (a[0] - b[0]).abs();
        assert!(
            diff < 1e-2,
            "2D roundtrip error too large: |{} - {}| = {}",
            a[0],
            b[0],
            diff
        );
    }
}

#[test]
fn commands_run_the_passes() {
    for n in [1usize, 2, 8, 512, 1024] {
        for inverse in [false, true] {
            let input: Vec<C> = (0..n).map(|i| [(i % 13) as f32, (i % 4) as f32]).collect();
            let fft = WgpuFFT1D::new(n, inverse);
            let mut run = input.clone();
            transform(&fft, &mut run);
            let mut passed = input.clone();
            run_passes(&mut passed, &twiddles(n, inverse), &stage);
            let scale = if inverse { 1.0 / n as f32 } else { 1.0 };
            for (a, b) in run.iter().zip(passed.iter()) {
                assert_eq!(*a, [b[0] * scale, b[1] * scale]);
            }
        }
    }
}

#[test]
fn inverse_then_forward_roundtrip() {
    let n = 64;
    let original: Vec<C> = (0..n).map(|i| [(i * i % 9) as f32, (i % 5) as f32]).collect();
    let mut data = original.clone();
    transform(&WgpuFFT1D::new(n, true), &mut data);
    assert!(data != original);
    transform(&WgpuFFT1D::new(n, false), &mut data);
    for (a, b) in data.iter().zip(original.iter()) {
        assert!((a[0] - b[0]).abs() < 1e-3 && (a[1] - b[1]).abs() < 1e-3);
    }

    let shape = vec![4, 8];
    let original: Vec<C> = (0..32).map(|i| [(i * i % 7) as f32, (i % 3) as f32]).collect();
    let mut data = NdArray::from_vec(&shape, original.iter().map(|&c| pack(c)).collect());
    transform_nd(&WgpuFFTND::new(&shape, true), &mut data);
    transform_nd(&WgpuFFTND::new(&shape, false), &mut data);
    for (a, b) in data.to_vec().iter().zip(original.iter()) {
        let a = unpack(*a);
        assert!((a[0] - b[0]).abs() < 1e-3 && (a[1] - b[1]).abs() < 1e-3);
    }
}

#[test]
fn fft_matches_the_sum() {
    let n = 16;
    let input: Vec<C> = (0..n).map(|i| [(i * i % 7) as f32, (i % 3) as f32]).collect();
    let mut data = input.clone();
    transform(&WgpuFFT1D::new(n, false), &mut data);
    for k in 0..n {
        let mut re = 0.0f64;
        let mut im = 0.0f64;
        for t in 0..n {
            let angle = -2.0 * std::f64::consts::PI * (k * t) as f64 / n as f64;
            re += input[t][0] as f64 * angle.cos() - input[t][1] as f64 * angle.sin();
            im += input[t][0] as f64 * angle.sin() + input[t][1] as f64 * angle.cos();
        }
        assert!((data[k][0] as f64 - re).abs() < 1e-3);
        assert!((data[k][1] as f64 - im).abs() < 1e-3);
    }
}

#[test]
fn nd_transform_walks_rows_then_columns() {
    // A lane becomes its running sums, so the order of the axes and of the elements
    // shows.
    let shape = vec![2, 4];
    let fft = WgpuFFTND::new(&shape, false);
    let mut data = NdArray::from_vec(&shape, vec![1, 2, 3, 4, 5, 6, 7, 8]);
    let sums = |_axis: usize, lane: Vec<u64>| -> Vec<u64> {
        let mut total = 0;
        lane.iter()
            .map(|v| {
                total += v;
                total
            })
            .collect()
    };
    fft.transform(&mut data, &sums);
    assert_eq!(data.to_vec(), vec![1, 3, 6, 10, 6, 14, 24, 36]);
    assert_eq!(data.shape(), vec![2, 4]);

    // Columns are of length two, rows of length four.
    let marks = |axis: usize, lane: Vec<u64>| -> Vec<u64> {
        lane.iter().map(|v| v * 10 + axis as u64).collect()
    };
    let mut forward = NdArray::from_vec(&shape, vec![1, 2, 3, 4, 5, 6, 7, 8]);
    fft.transform(&mut forward, &marks);
    assert_eq!(forward.to_vec()[0], 101);
    let inverse = WgpuFFTND::new(&shape, true);
    let mut backward = NdArray::from_vec(&shape, vec![1, 2, 3, 4, 5, 6, 7, 8]);
    inverse.transform(&mut backward, &marks);
    assert_eq!(backward.to_vec()[0], 110);
    assert!(inverse.inverse() && !fft.inverse());
    assert_eq!(inverse.shape(), &vec![2, 4]);
}

#[test]
fn nd_transform_of_three_axes() {
    let shape = vec![2, 2, 2];
    let fft = WgpuFFTND::new(&shape, false);
    let mut data = NdArray::from_vec(&shape, vec![0, 1, 2, 3, 4, 5, 6, 7]);
    // Exchange the two elements of every lane: the array is reversed.
    let flip = |_axis: usize, lane: Vec<u64>| -> Vec<u64> { vec![lane[1], lane[0]] };
    fft.transform(&mut data, &flip);
    assert_eq!(data.to_vec(), vec![7, 6, 5, 4, 3, 2, 1, 0]);
}

#[test]
fn bit_reversal_values() {
    assert_eq!(bit_reverse(0b001, 3), 0b100);
    assert_eq!(bit_reverse(0b110, 3), 0b011);
    assert_eq!(bit_reverse(5, 0), 0);
    assert_eq!(bit_reverse(1, 8), 128);
    let mut data = vec![0, 1, 2, 3, 4, 5, 6, 7];
    bit_reverse_pass(&mut data);
    assert_eq!(data, vec![0, 4, 2, 6, 1, 5, 3, 7]);
    bit_reverse_pass(&mut data);
    assert_eq!(data, vec![0, 1, 2, 3, 4, 5, 6, 7]);
    let mut single = vec![9];
    bit_reverse_pass(&mut single);
    assert_eq!(single, vec![9]);
}

#[test]
fn butterfly_values() {
    let b = butterfly(8, 0, 3);
    assert_eq!((b.even, b.odd, b.twiddle), (6, 7, 0));
    let b = butterfly(8, 1, 3);
    assert_eq!((b.even, b.odd, b.twiddle), (5, 7, 2));
    let b = butterfly(8, 2, 3);
    assert_eq!((b.even, b.odd, b.twiddle), (3, 7, 6));
}

#[test]
fn twiddle_table_layout() {
    let table = WgpuFFT1D::compute_twiddle_factors(8, false);
    let turn = |k: u64, d: u64| Twiddle::Turn { inverse: false, numerator: k, denominator: d };
    assert_eq!(
        table,
        vec![
            turn(0, 2),
            turn(0, 4),
            turn(1, 4),
            turn(0, 8),
            turn(1, 8),
            turn(2, 8),
            turn(3, 8),
            Twiddle::Padding,
        ]
    );
    assert_eq!(WgpuFFT1D::compute_twiddle_factors(1, true), vec![Twiddle::Padding]);
    assert_eq!(
        WgpuFFT1D::compute_twiddle_factors(2, true),
        vec![
            Twiddle::Turn { inverse: true, numerator: 0, denominator: 2 },
            Twiddle::Padding
        ]
    );
}

#[test]
fn transform_commands() {
    let fft = WgpuFFT1D::new(1024, true);
    assert_eq!(fft.num_stages, 10);
    assert_eq!(fft.padded_len(), 1024);
    let commands = fft.transform();
    assert_eq!(commands.len(), 12);
    assert_eq!(commands[0], FftCommand::BitReverse { n: 1024, groups: 4 });
    assert_eq!(
        commands[1],
        FftCommand::Stage { n: 1024, stage: 0, inverse: 1, groups: 2 }
    );
    assert_eq!(
        commands[10],
        FftCommand::Stage { n: 1024, stage: 9, inverse: 1, groups: 2 }
    );
    assert_eq!(commands[11], FftCommand::ReadBack { size: 8192 });
    assert_eq!(WgpuFFT1D::params(commands[0]), vec![1024, 0]);
    assert_eq!(WgpuFFT1D::params(commands[10]), vec![1024, 9, 1]);
    assert_eq!(WgpuFFT1D::params(commands[11]), Vec::<u32>::new());

    let single = WgpuFFT1D::new(1, false);
    assert_eq!(
        single.transform(),
        vec![FftCommand::BitReverse { n: 1, groups: 1 }, FftCommand::ReadBack { size: 8 }]
    );
}

#[test]
fn transform_buffers() {
    let fft = WgpuFFT1D::new(64, false);
    assert_eq!(fft.buffer_size(FftBuffer::Data), 512);
    assert_eq!(fft.buffer_size(FftBuffer::Twiddles), 512);
    assert_eq!(fft.buffer_size(FftBuffer::Params), 12);
    assert_eq!(fft.buffer_size(FftBuffer::Readback), 512);
    assert_eq!(WgpuFFT1D::buffer_kind(FftBuffer::Data), BufferKind::Storage);
    assert_eq!(WgpuFFT1D::buffer_kind(FftBuffer::Twiddles), BufferKind::StorageInput);
    assert_eq!(WgpuFFT1D::buffer_kind(FftBuffer::Params), BufferKind::Uniform);
    assert_eq!(WgpuFFT1D::buffer_kind(FftBuffer::Readback), BufferKind::Readback);
    assert_eq!(
        WgpuFFT1D::bindings(FftShader::BitReverse),
        vec![(FftBuffer::Data, Access::ReadWrite), (FftBuffer::Params, Access::Uniform)]
    );
    assert_eq!(
        WgpuFFT1D::bindings(FftShader::Stage),
        vec![
            (FftBuffer::Data, Access::ReadWrite),
            (FftBuffer::Twiddles, Access::ReadOnly),
            (FftBuffer::Params, Access::Uniform)
        ]
    );
}

#[test]
fn transform_results() {
    let numbers = vec![Complex32Bits { re: 1, im: 2 }, Complex32Bits { re: 3, im: 4 }];
    let fft = WgpuFFT1D::new(2, false);
    assert_eq!(fft.upload(&numbers), vec![1, 2, 3, 4]);
    let (data, divisor) = fft.result(&vec![1, 2, 3, 4]);
    assert_eq!(data, numbers);
    assert_eq!(divisor, None);
    let inverse = WgpuFFT1D::new(2, true);
    assert_eq!(inverse.result(&vec![1, 2, 3, 4]).1, Some(2));
    assert_eq!(pair_up(&interleave(&numbers)), numbers);
}

#[test]
fn batch_passes() {
    let fft = WgpuFFT1D::new(8, true);
    let lanes = LaneLayout { num_lanes: 100, lane_stride: 1, elem_stride: 100 };
    let passes = fft.record_transform(lanes);
    assert_eq!(passes.len(), 4);
    assert_eq!(passes[0].shader, FftShader::BitReverse);
    assert_eq!(passes[0].groups, 4);
    assert_eq!(passes[3].shader, FftShader::Stage);
    assert_eq!(passes[3].stage, 2);
    assert_eq!(passes[3].groups, 2);
    assert_eq!(WgpuFFT1D::batch_params(passes[3]), vec![8, 2, 1, 100, 1, 100]);
}

/// Runs the passes of a batch invocation by invocation.
fn run_batch(fft: &WgpuFFT1D, lanes: LaneLayout, data: &mut Vec<C>) {
    let table = twiddles(fft.len(), fft.inverse());
    for pass in fft.record_transform(lanes).iter() {
        let p = WgpuFFT1D::batch_params(*pass);
        let (n, s, num_lanes, lane_stride, elem_stride) = (p[0], p[1], p[3], p[4], p[5]);
        let cell = |lane: u32, i: u32| (lane * lane_stride + i * elem_stride) as usize;
        for t in 0..pass.groups * 256 {
            match pass.shader {
                FftShader::BitReverse => {
                    if t >= num_lanes * n {
                        continue;
                    }
                    let (lane, i) = (t / n, t % n);
                    let j = bit_reverse(i, log2(n as usize));
                    if i < j {
                        data.swap(cell(lane, i), cell(lane, j));
                    }
                }
                FftShader::Stage => {
                    let half = n / 2;
                    if t >= num_lanes * half {
                        continue;
                    }
                    let (lane, i) = (t / half, t % half);
                    let b = butterfly(n, s, i);
                    let (even, odd) = (cell(lane, b.even), cell(lane, b.odd));
                    let (x, y) = stage(data[even], table[b.twiddle as usize], data[odd]);
                    data[even] = x;
                    data[odd] = y;
                }
            }
        }
    }
}

#[test]
fn batches_transform_every_lane() {
    let (w, h) = (8usize, 4usize);
    let grid: Vec<C> = (0..w * h).map(|i| [(i * i % 11) as f32, (i % 5) as f32]).collect();

    let rows = LaneLayout { num_lanes: h, lane_stride: w as u32, elem_stride: 1 };
    let fft = WgpuFFT1D::new(w, false);
    let mut data = grid.clone();
    run_batch(&fft, rows, &mut data);
    for y in 0..h {
        let mut lane: Vec<C> = (0..w).map(|x| grid[y * w + x]).collect();
        transform(&fft, &mut lane);
        for x in 0..w {
            assert_eq!(data[y * w + x], lane[x]);
        }
    }

    let columns = LaneLayout { num_lanes: w, lane_stride: 1, elem_stride: w as u32 };
    let fft = WgpuFFT1D::new(h, false);
    let mut data = grid.clone();
    run_batch(&fft, columns, &mut data);
    for x in 0..w {
        let mut lane: Vec<C> = (0..h).map(|y| grid[y * w + x]).collect();
        transform(&fft, &mut lane);
        for y in 0..h {
            assert_eq!(data[y * w + x], lane[y]);
        }
    }
}

#[test]
fn spectral_products_convolve() {
    let n = 8;
    let signal: Vec<C> = (0..n).map(|i| [(i % 3) as f32, 0.0]).collect();
    let kernel: Vec<C> = (0..n).map(|i| [if i < 2 { 1.0 } else { 0.0 }, 0.0]).collect();
    let forward = WgpuFFT1D::new(n, false);
    let mut a = signal.clone();
    let mut b = kernel.clone();
    transform(&forward, &mut a);
    transform(&forward, &mut b);
    let mut product: Vec<C> = (0..n).map(|i| times(a[i], b[i])).collect();
    transform(&WgpuFFT1D::new(n, true), &mut product);
    for p in 0..n {
        let want: f32 = (0..n).map(|t| signal[t][0] * kernel[(p + n - t) % n][0]).sum();
        assert!((product[p][0] - want).abs() < 1e-4);
    }
}

#[test]
fn power_values() {
    assert_eq!(log2(1), 0);
    assert_eq!(log2(256), 8);
    assert_eq!(next_power_of_two(0), 1);
    assert_eq!(next_power_of_two(1), 1);
    assert_eq!(next_power_of_two(500), 512);
    assert_eq!(next_power_of_two(512), 512);
    assert_eq!(next_power_of_two(513), 1024);
}

#[test]
fn workgroup_counts() {
    assert_eq!(workgroups(0), 0);
    assert_eq!(workgroups(1), 1);
    assert_eq!(workgroups(256), 1);
    assert_eq!(workgroups(257), 2);
    assert_eq!(workgroups(262144), 1024);
}
