use lenia_ca::bytes::{decode_words, encode_block, ByteOrder};
use lenia_ca::gpu::{Complex32Bits, Upload, Word, F32_ONE, F32_ZERO};
use lenia_ca::gpu_flow_lenia::{FlowBuffer, GpuFlowLenia};
use lenia_ca::kernels::generate_flow_kernels;
use lenia_ca::nd::NdArray;
use lenia_ca::scene::{
    make_obstacles, patch_centres, random_disks, random_obstacles, render_params, seed_channel,
    seed_channel_with, source_channels, target_kernels, Disk, NUM_DISKS,
};
use lenia_ca::trained::{kernel_uploads, kernels_of_words, load_trained_kernels};
use lenia_ca::ui::{Key, Ui, UiAction, UiEvent};

#[test]
fn channel_mapping() {
    // M[i][j] kernels lead from channel i to channel j
    let expected = [[2, 1, 0], [0, 2, 1], [1, 0, 2]];
    let c0 = source_channels();
    let c1 = target_kernels();
    assert_eq!((c0.len(), c1.len()), (9, 3));
    for i in 0..3 {
        for j in 0..3 {
            let count = c1[j].iter().filter(|k| c0[**k as usize] == i as u32).count();
            assert_eq!(count, expected[i][j]);
        }
    }
}

#[test]
fn patches() {
    assert_eq!(patch_centres(512), vec![(256, 256), (170, 256), (341, 256)]);
    let one = |_: usize, _: usize| 1.0f64.to_bits();
    let cells = seed_channel(8, (1, 6), 4, &one);
    assert_eq!(cells.len(), 64);
    for p in 0..64 {
        let (x, y) = (p % 8, p / 8);
        let inside = x < 4 && y >= 4;
        assert_eq!(cells[p], if inside { 1.0f64.to_bits() } else { 0.0f64.to_bits() });
    }
    assert!(seed_channel(4, (2, 2), 0, &one).iter().all(|v| *v == 0));
}

#[test]
fn patches_of_distinct_draws() {
    // the patch starts at (1, 4) and is cut off at the lower edge
    let draws: Vec<u64> = (100..116).collect();
    let cells = seed_channel_with(6, (3, 6), 4, &draws);
    for p in 0..36 {
        let (x, y) = (p % 6, p / 6);
        let inside = (1..5).contains(&x) && y >= 4;
        let want = if inside { 100 + ((y - 4) * 4 + (x - 1)) as u64 } else { 0 };
        assert_eq!(cells[p], want);
    }
    // a centre near the origin
    let cells = seed_channel_with(3, (0, 1), 2, &vec![5, 6, 7, 8]);
    assert_eq!(cells, vec![5, 6, 0, 7, 8, 0, 0, 0, 0]);
}

#[test]
fn every_cell_has_its_own_draw() {
    let place = |x: usize, y: usize| (1000 + 10 * y + x) as u64;
    let cells = seed_channel(8, (4, 4), 4, &place);
    for p in 0..64 {
        let (x, y) = (p % 8, p / 8);
        let inside = (2..6).contains(&x) && (2..6).contains(&y);
        assert_eq!(cells[p], if inside { place(x, y) } else { 0 });
    }

    // draws come one after the other, row by row, and only for cells on the grid
    let count = std::cell::Cell::new(0u64);
    let next = |_: usize, _: usize| {
        count.set(count.get() + 1);
        count.get()
    };
    let cells = seed_channel(4, (3, 3), 4, &next);
    assert_eq!(count.get(), 9);
    assert_eq!(cells, vec![0, 0, 0, 0, 0, 1, 2, 3, 0, 4, 5, 6, 0, 7, 8, 9]);
}

#[test]
fn obstacle_walls() {
    let shape = 64;
    let cells = make_obstacles(shape, &vec![]);
    assert_eq!(cells.len(), shape * shape);
    for p in 0..cells.len() {
        let (x, y) = (p % shape, p / shape);
        let first = (x == 21 || x == 22) && y % 8 <= 5;
        let second = (x == 42 || x == 43) && y % 10 <= 7;
        let wall = (8..56).contains(&y) && (first || second);
        assert_eq!(cells[p], if wall { F32_ONE } else { F32_ZERO });
    }
}

#[test]
fn obstacle_disks() {
    let shape = 16;
    let plain = make_obstacles(shape, &vec![]);
    let disks = vec![
        Disk { cx: 13, cy: 13, radius: 2 },
        Disk { cx: 0, cy: 15, radius: 1 },
    ];
    let cells = make_obstacles(shape, &disks);
    for p in 0..cells.len() {
        let (x, y) = ((p % shape) as i32, (p / shape) as i32);
        let in_disk = (x - 13) * (x - 13) + (y - 13) * (y - 13) <= 4
            || x * x + (y - 15) * (y - 15) <= 1;
        let want = if in_disk { F32_ONE } else { plain[p] };
        assert_eq!(cells[p], want);
    }
}

#[test]
fn random_obstacle_disks() {
    let disks = random_disks(60, 200);
    assert_eq!(disks.len(), 200);
    for d in disks.iter() {
        assert!(10 <= d.cx && d.cx < 50);
        assert!(10 <= d.cy && d.cy < 50);
        assert!(2 <= d.radius && d.radius < 6);
    }
    assert!(disks.iter().any(|d| d.cx != disks[0].cx));
    assert!(disks.iter().any(|d| d.radius != disks[0].radius));
    let cells = random_obstacles(64);
    let walls = make_obstacles(64, &vec![]);
    assert_eq!(cells.len(), 64 * 64);
    assert!((0..64 * 64).all(|p| cells[p] == F32_ONE || walls[p] == F32_ZERO));
    assert!((0..64).all(|x| cells[x] == F32_ZERO && cells[63 * 64 + x] == F32_ZERO));
    let extra = (0..64 * 64).filter(|p| cells[*p] != walls[*p]).count();
    assert!(extra > 0 && extra <= NUM_DISKS * 81);
}

#[test]
fn picture_params() {
    let block = render_params(512, 800, 600);
    assert_eq!(
        block.words,
        vec![Word::Unsigned(512), Word::FloatOf(800), Word::FloatOf(600)]
    );
    assert_eq!(block.order, ByteOrder::Little);
}

#[test]
fn word_bytes() {
    let words = vec![0x0102_0304, 0xfffe_0000];
    assert_eq!(
        encode_block(&words, ByteOrder::Little),
        vec![4, 3, 2, 1, 0, 0, 0xfe, 0xff]
    );
    let native = encode_block(&words, ByteOrder::Native);
    let mut want = Vec::new();
    for w in words.iter() {
        want.extend_from_slice(&w.to_ne_bytes());
    }
    assert_eq!(native, want);
    assert_eq!(decode_words(&native), words);
    let upload = Upload { buffer: FlowBuffer::Channel, offset: 4, words };
    assert_eq!(upload.bytes(), want);
    assert_eq!(decode_words(&vec![]), Vec::<u32>::new());
}

#[test]
fn arrays_keep_their_elements() {
    let array = NdArray::from_vec(&vec![2, 3], vec![1, 2, 3, 4, 5, 6]);
    assert_eq!(array.shape(), vec![2, 3]);
    assert_eq!(array.to_vec(), vec![1, 2, 3, 4, 5, 6]);
}

fn kernels(size: usize, total: Option<u64>) -> Vec<Vec<Complex32Bits>> {
    generate_flow_kernels(
        size,
        2,
        &|k: usize, d: i32| (1000 * (k + 1)) as u64 + d as u64,
        &|_: Vec<u64>| total,
        &|v: u64, t: u64| v - t,
        &|line: Vec<(u64, u64)>| line,
        &|v: u64| v as u32,
    )
}

#[test]
fn kernels_are_centred_at_the_origin() {
    let made = kernels(3, None);
    assert_eq!(made.len(), 2);
    // padded to 4 x 4; distances wrap around
    let d = [0, 1, 4, 1];
    for k in 0..2 {
        assert_eq!(made[k].len(), 16);
        for i in 0..4 {
            for j in 0..4 {
                let want = 1000 * (k as u32 + 1) + d[i] + d[j];
                assert_eq!(made[k][i * 4 + j], Complex32Bits { re: want, im: 0 });
            }
        }
    }
    assert_eq!(kernels(1, None)[0], vec![Complex32Bits { re: 1000, im: 0 }]);
    assert_eq!(kernels(4, Some(1000))[0][0], Complex32Bits { re: 0, im: 0 });
    assert_eq!(kernels(4, Some(1000))[1][5], Complex32Bits { re: 1002, im: 0 });
}

#[test]
fn kernels_transform_rows_and_then_columns() {
    let made = generate_flow_kernels(
        2,
        1,
        &|_: usize, d: i32| d as u64,
        &|_: Vec<u64>| None,
        &|v: u64, _: u64| v,
        // the first number becomes the sum, the second the difference
        &|l: Vec<(u64, u64)>| vec![(l[0].0 + l[1].0, l[1].1), (l[0].0 + 10 * l[1].0, 7)],
        &|v: u64| v as u32,
    );
    // cells 0 1 / 1 2, rows (1, 10) and (3, 21), columns (4, 31) and (31, 220)
    let re: Vec<u32> = made[0].iter().map(|c| c.re).collect();
    assert_eq!(re, vec![4, 31, 31, 220]);
    assert_eq!(made[0][2].im, 7);
}

#[test]
fn kernels_sum_all_cells() {
    let made = generate_flow_kernels(
        4,
        1,
        &|_: usize, d: i32| d as u64,
        &|cells: Vec<u64>| Some(cells.iter().sum()),
        &|v: u64, t: u64| v * 1000 + t,
        &|line: Vec<(u64, u64)>| line,
        &|v: u64| v as u32,
    );
    // four cells of each coordinate, squared distances 4, 1, 0, 1
    assert_eq!(made[0][0], Complex32Bits { re: 48, im: 0 });
    assert_eq!(made[0][1], Complex32Bits { re: 1048, im: 0 });
}

fn small_sim() -> GpuFlowLenia {
    GpuFlowLenia::new(
        &vec![2, 2],
        1,
        2,
        &vec![0, 0],
        &vec![vec![0, 1]],
        &vec![0, 0],
        &vec![0, 0],
        &vec![0, 0],
        0,
        1,
        0,
        0,
        0,
    )
}

fn kernel_file() -> Vec<u32> {
    let mut words = vec![2, 2, 4];
    words.extend(100..116);
    words
}

#[test]
fn trained_kernel_files() {
    let sim = small_sim();
    let words = kernel_file();
    let made = kernels_of_words(&words, 2);
    assert_eq!(made.len(), 2);
    assert_eq!(made[1][3], Complex32Bits { re: 114, im: 115 });
    assert_eq!(kernels_of_words(&words, 1).len(), 1);
    let load = kernel_uploads(&sim, &words);
    assert!(load.complete);
    assert_eq!(load.num_kernels, 2);
    assert_eq!(load.uploads.len(), 2);
    assert_eq!(load.uploads[1].buffer, FlowBuffer::Kernel);
    assert_eq!(load.uploads[1].offset, 32);
    assert_eq!(load.uploads[1].words, (108..116).collect::<Vec<u32>>());

    let bytes = encode_block(&words, ByteOrder::Native);
    let loaded = load_trained_kernels(&sim, &bytes);
    assert!(loaded.complete);
    assert_eq!(loaded.uploads.len(), 2);
    assert_eq!(loaded.uploads[0].words, (100..108).collect::<Vec<u32>>());
}

#[test]
fn bad_kernel_files() {
    let sim = small_sim();
    let load = |words: &Vec<u32>| {
        let r = load_trained_kernels(&sim, &encode_block(words, ByteOrder::Native));
        (r.complete, r.uploads.len())
    };
    assert_eq!(load(&kernel_file()), (true, 2));
    assert_eq!(load(&vec![]), (false, 0));
    assert_eq!(load(&vec![2, 2]), (false, 0));
    // a part of the last kernel is missing: the one before it is put in place
    let mut short = kernel_file();
    short.pop();
    assert_eq!(load(&short), (false, 1));
    let r = kernel_uploads(&sim, &short);
    assert_eq!(r.num_kernels, 2);
    assert_eq!(r.uploads[0].offset, 0);
    assert_eq!(r.uploads[0].words, (100..108).collect::<Vec<u32>>());
    short.truncate(4);
    assert_eq!(load(&short), (false, 0));
    // more than needed is fine
    let mut long = kernel_file();
    long.push(1);
    assert_eq!(load(&long), (true, 2));
    // too many kernels, and kernels of another size
    let mut many = kernel_file();
    many[0] = 3;
    many.extend(0..8);
    assert_eq!(load(&many), (false, 2));
    let mut other = kernel_file();
    other[2] = 2;
    assert_eq!(load(&other), (false, 0));
    // no kernels at all
    assert_eq!(load(&vec![0, 2, 999]), (true, 0));
    assert_eq!(load(&vec![u32::MAX, 2, u32::MAX]), (false, 0));
    let mut bytes = encode_block(&kernel_file(), ByteOrder::Native);
    bytes.push(0);
    let r = load_trained_kernels(&sim, &bytes);
    assert_eq!((r.complete, r.uploads.len(), r.num_kernels), (false, 0, 0));
}

#[test]
fn window_events() {
    let mut ui = Ui::new();
    assert_eq!(ui.handle(UiEvent::MainEventsCleared), UiAction::Advance { iterate: true });
    assert_eq!(ui.handle(UiEvent::KeyPressed(Key::Space)), UiAction::Nothing);
    assert!(ui.paused);
    assert_eq!(ui.handle(UiEvent::MainEventsCleared), UiAction::Advance { iterate: false });
    ui.handle(UiEvent::KeyPressed(Key::Space));
    assert!(!ui.paused);
    assert_eq!(ui.handle(UiEvent::KeyPressed(Key::R)), UiAction::Reset);
    assert_eq!(ui.handle(UiEvent::KeyPressed(Key::Q)), UiAction::Exit);
    assert_eq!(ui.handle(UiEvent::KeyPressed(Key::Escape)), UiAction::Exit);
    assert_eq!(ui.handle(UiEvent::KeyPressed(Key::Other)), UiAction::Nothing);
    assert_eq!(ui.handle(UiEvent::CloseRequested), UiAction::Exit);
    assert_eq!(ui.handle(UiEvent::Other), UiAction::Nothing);
}

#[test]
fn window_frames() {
    let mut ui = Ui::new();
    let mut reports = Vec::new();
    for frame in 0..130 {
        let second_passed = frame == 20;
        match ui.handle(UiEvent::RedrawRequested { second_passed }) {
            UiAction::Draw { report, frame_rate } => {
                if let Some(count) = report {
                    reports.push((frame, count));
                }
                assert_eq!(frame_rate, if second_passed { Some(21) } else { None });
            }
            _ => panic!("the picture is drawn"),
        }
    }
    assert_eq!(reports, vec![(10, 10), (30, 9), (60, 39), (120, 99)]);
    assert_eq!((ui.frame_count, ui.total_frames), (109, 130));
}

#[test]
fn kernels_of_rounded_sizes_are_equal() {
    assert_eq!(kernels(3, None), kernels(4, None));
    assert_eq!(kernels(5, Some(1000)), kernels(8, Some(1000)));
}

fn float_kernels(size: usize, weights: &[f64]) -> Vec<Vec<Complex32Bits>> {
    generate_flow_kernels(
        size,
        weights.len(),
        &|k: usize, d: i32| (weights[k] / (1.0 + d as f64)).to_bits(),
        &|cells: Vec<u64>| {
            let sum: f64 = cells.iter().map(|v| f64::from_bits(*v)).sum();
            if sum > 0.0 { Some(sum.to_bits()) } else { None }
        },
        &|v: u64, t: u64| (f64::from_bits(v) / f64::from_bits(t)).to_bits(),
        &|line: Vec<(u64, u64)>| line,
        &|v: u64| (f64::from_bits(v) as f32).to_bits(),
    )
}

#[test]
fn kernels_of_equally_scaled_distances_are_equal() {
    let made = |global_r: f64, r: f64, factor: f64| {
        generate_flow_kernels(
            8,
            1,
            &|_: usize, d: i32| {
                let s = (d as f64).sqrt() / ((global_r + 15.0) * r);
                (factor * (-(s - 0.5) * (s - 0.5) / 0.1).exp()).to_bits()
            },
            &|cells: Vec<u64>| {
                let sum: f64 = cells.iter().map(|v| f64::from_bits(*v)).sum();
                if sum > 0.0 { Some(sum.to_bits()) } else { None }
            },
            &|v: u64, t: u64| (f64::from_bits(v) / f64::from_bits(t)).to_bits(),
            &|line: Vec<(u64, u64)>| line,
            &|v: u64| (f64::from_bits(v) as f32).to_bits(),
        )
    };
    assert_eq!(made(1.0, 0.5, 1.0), made(17.0, 0.25, 1.0));
    assert_eq!(made(1.0, 0.5, 1.0), made(17.0, 0.25, 4.0));
    assert_ne!(made(1.0, 0.5, 1.0), made(1.0, 0.25, 1.0));
}

#[test]
fn kernels_depend_on_their_own_weights() {
    let all = float_kernels(4, &[1.0, 3.0, -1.0]);
    assert_eq!(all[0], float_kernels(4, &[1.0])[0]);
    assert_eq!(all[2], float_kernels(4, &[-1.0])[0]);
    // a positive factor cancels, a kernel without a positive sum is not divided
    assert_eq!(float_kernels(4, &[8.0])[0], all[0]);
    assert_ne!(float_kernels(4, &[-8.0])[0], all[2]);
    let sum: f32 = all[1].iter().map(|c| f32::from_bits(c.re)).sum();
    assert!((sum - 1.0).abs() < 1e-6);
}
