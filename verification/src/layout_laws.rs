//! Where things lie: bytes in words, parts in lists and files, and the numbers that a
//! transform brings together.
use crate::bytes::{are_bytes_of, bytes_of};
use crate::fft::{
    bit_rev, bit_reversed, butterfly_of, even_cell, is_even_cell, lemma_bit_rev_bound,
    lemma_bit_rev_step, lemma_butterfly_cells, odd_cell, stage_out, twiddle_cell,
};
use crate::gpu::{
    groups_for, interleaved, paired, Complex32Bits, F32_ONE, F32_ZERO, WORD_BYTES, WORKGROUP_SIZE,
};
use crate::gpu_flow_lenia::{flattened, list_offsets, FlowBuffer, GpuFlowLenia};
use crate::kernels::F64_ZERO;
use crate::lanes::{
    all_positive, axis_order, lane, lane_cell, lemma_axis_volume, lemma_lane_of_cell,
    lemma_stride_positive, map_axes, map_lanes, volume,
};
use crate::passes::WALL_RADIUS;
use crate::power::{lemma_log2_of_pow2, log2_of};
use crate::scene::NUM_DISKS;
use crate::trained::{
    fits, fitting_files_load_completely, kernel_of_file, loadable, loads, KernelLoad,
    HEADER_WORDS,
};
use crate::wfft::{is_turn_table, BatchPass, FftCommand, FftShader, LaneLayout, Twiddle, WgpuFFT1D};
use vstd::arithmetic::div_mod::*;
use vstd::arithmetic::power2::*;
use vstd::prelude::*;

verus! {

/// A word is made of its four bytes, each worth 256 times as much as the one before it in
/// little-endian order and the one after it in big-endian order.
pub proof fn words_are_made_of_their_bytes(words: Seq<u32>, k: int)
    requires
        0 <= k < words.len(),
    ensures
        bytes_of(words, false).len() == 4 * words.len(),
        bytes_of(words, true).len() == 4 * words.len(),
        ({
            let b = bytes_of(words, false);
            words[k] == b[4 * k] + 0x100 * b[4 * k + 1] + 0x1_0000 * b[4 * k + 2] + 0x100_0000 * b[4
                * k + 3]
        }),
        ({
            let b = bytes_of(words, true);
            words[k] == b[4 * k + 3] + 0x100 * b[4 * k + 2] + 0x1_0000 * b[4 * k + 1] + 0x100_0000
                * b[4 * k]
        }),
{
    let w = words[k];
    assert((4 * k) / 4 == k && (4 * k + 1) / 4 == k && (4 * k + 2) / 4 == k && (4 * k + 3) / 4
        == k);
}

/// Bytes in the order of the machine are those of one order or the other, for all words
/// alike.
pub proof fn machines_have_one_of_two_orders(bytes: Seq<u8>, words: Seq<u32>)
    ensures
        are_bytes_of(bytes, words) <==> (bytes == bytes_of(words, false) || bytes == bytes_of(
            words,
            true,
        )),
{
}

/// The numbers that other programs read: a word has four bytes, a workgroup 256
/// invocations, zero and one have the bit patterns of single precision, and a scene has
/// eight disks.
pub proof fn constants_are_those_of_the_device()
    ensures
        WORD_BYTES == 4,
        WORKGROUP_SIZE == 256,
        F32_ZERO == 0,
        F32_ONE == 127 * 0x80_0000,
        F64_ZERO == 0,
        NUM_DISKS == 8,
        HEADER_WORDS == 3,
        WALL_RADIUS == 3,
{
}

/// The words of complex numbers are their real parts at the even places and their
/// imaginary parts at the odd places.
pub proof fn complex_numbers_take_two_words(data: Seq<Complex32Bits>, words: Seq<u32>, i: int)
    requires
        0 <= i,
    ensures
        interleaved(data).len() == 2 * data.len(),
        i < data.len() ==> interleaved(data)[2 * i] == data[i].re,
        i < data.len() ==> interleaved(data)[2 * i + 1] == data[i].im,
        paired(words).len() == words.len() / 2,
        2 * i + 1 < words.len() ==> paired(words)[i].re == words[2 * i],
        2 * i + 1 < words.len() ==> paired(words)[i].im == words[2 * i + 1],
{
}

/// The workgroups of 256 invocations each are as few as give every element one.
pub proof fn workgroups_leave_no_group_idle(total: nat)
    ensures
        total <= 256 * groups_for(total),
        256 * groups_for(total) < total + 256,
{
}

/// Lists that are laid out one after the other start at zero, each follows the one before
/// it, and they end where all of them end.
pub proof fn lists_follow_each_other(lists: Seq<Vec<u32>>, count: nat, c: int)
    requires
        0 <= c < count <= lists.len(),
        flattened(lists, count).len() <= u32::MAX,
    ensures
        list_offsets(lists, count).len() == count + 1,
        list_offsets(lists, count)[0] == 0,
        list_offsets(lists, count)[c + 1] == list_offsets(lists, count)[c] + lists[c].len(),
        list_offsets(lists, count)[count as int] == flattened(lists, count).len(),
        forall|i: int|
            0 <= i < lists[c].len() ==> flattened(lists, count)[list_offsets(lists, count)[c] + i]
                == #[trigger] lists[c]@[i],
{
    lemma_longer_lists(lists, c as nat, count);
    lemma_longer_lists(lists, (c + 1) as nat, count);
    let upto = flattened(lists, (c + 1) as nat);
    let from = flattened(lists, c as nat).len() as int;
    assert forall|i: int| 0 <= i < lists[c].len() implies flattened(lists, count)[from + i]
        == #[trigger] lists[c]@[i] by {
        assert(upto[from + i] == lists[c]@[i]);
        assert(flattened(lists, count)[from + i] == upto[from + i]);
    }
}

/// Without lists there is nothing, and it starts and ends at zero.
pub proof fn no_lists_take_no_room(lists: Seq<Vec<u32>>, count: nat)
    ensures
        flattened(lists, 0).len() == 0,
        list_offsets(lists, count).len() == count + 1,
        list_offsets(lists, count)[0] == 0,
{
}

/// Lists that are added do not change where the first ones lie.
proof fn lemma_longer_lists(lists: Seq<Vec<u32>>, a: nat, b: nat)
    requires
        a <= b,
    ensures
        flattened(lists, a).len() <= flattened(lists, b).len(),
        forall|j: int|
            0 <= j < flattened(lists, a).len() ==> #[trigger] flattened(lists, b)[j] == flattened(
                lists,
                a,
            )[j],
    decreases b,
{
    if a < b {
        lemma_longer_lists(lists, a, (b - 1) as nat);
        assert forall|j: int| 0 <= j < flattened(lists, a).len() implies #[trigger] flattened(
            lists,
            b,
        )[j] == flattened(lists, a)[j] by {
            assert(flattened(lists, b)[j] == flattened(lists, (b - 1) as nat)[j]);
        }
    }
}

/// A file starts with three words: the number of kernels, the side of their grid and the
/// number of cells of each. The kernels follow, each cell as its real and its imaginary
/// part.
pub proof fn files_hold_kernels_cell_by_cell(words: Seq<u32>, k: int, i: int)
    requires
        0 <= k,
        0 <= i < words[2],
    ensures
        kernel_of_file(words, k).len() == words[2],
        kernel_of_file(words, k)[i].re == words[3 + 2 * (k * words[2] + i)],
        kernel_of_file(words, k)[i].im == words[3 + 2 * (k * words[2] + i) + 1],
{
    let total = words[2] as int;
    assert(k * (total * 2) == 2 * (k * total)) by (nonlinear_arith);
}

/// The kernels of a file that are put in place are as many as the file names, as the
/// simulation has places for, and as are wholly there: no more, and no fewer.
pub proof fn kernels_are_loaded_as_far_as_they_go(words: Seq<u32>, sim: GpuFlowLenia, n: int)
    requires
        sim.wf(),
        3 <= words.len(),
        0 <= n,
    ensures
        n <= loadable(words, sim) && words[2] == sim.total_elements <==> n <= words[0] && n
            <= sim.num_kernels && 3 + n * (2 * words[2]) <= words.len() && words[2]
            == sim.total_elements,
        words[2] != sim.total_elements ==> loadable(words, sim) == 0,
        fits(words, sim) <==> words[0] <= sim.num_kernels && 3 + words[0] * (2 * words[2])
            <= words.len() && (words[0] == 0 || words[2] == sim.total_elements),
{
    fitting_files_load_completely(words, sim);
    let size = 2 * words[2] as int;
    let rest = words.len() - 3;
    let named = words[0] as int;
    assert(named * (words[2] as int * 2) == named * size);
    if words[2] == sim.total_elements {
        lemma_pow2_pos(log2_of(sim.shape@[0] as nat));
        lemma_pow2_pos(log2_of(sim.shape@[1] as nat));
        let (w, h) = (sim.shape@[0] as int, sim.shape@[1] as int);
        assert(w * h > 0) by (nonlinear_arith)
            requires
                w > 0,
                h > 0,
        ;
        let whole = rest / size;
        lemma_fundamental_div_mod(rest, size);
        lemma_mod_bound(rest, size);
        if n <= whole {
            assert(n * size <= whole * size) by (nonlinear_arith)
                requires
                    n <= whole,
                    size >= 0,
            ;
            assert(size * whole == whole * size) by (nonlinear_arith);
        } else {
            assert(whole * size + size <= n * size) by (nonlinear_arith)
                requires
                    whole + 1 <= n,
                    size >= 0,
            ;
            assert(size * whole == whole * size) by (nonlinear_arith);
        }
    }
}

/// Loading a file says how many kernels the file names, puts in place as many as go, and
/// is complete just if all that are named are there and fit. Without a header nothing is
/// named and nothing is put in place.
pub proof fn loading_says_what_it_did(words: Seq<u32>, sim: GpuFlowLenia, r: KernelLoad)
    requires
        loads(words, sim, r),
    ensures
        words.len() < 3 ==> r.num_kernels == 0 && r.uploads.len() == 0 && !r.complete,
        words.len() >= 3 ==> r.num_kernels == words[0],
        words.len() >= 3 ==> (r.complete <==> words[0] <= sim.num_kernels && 3 + words[0] * (2
            * words[2]) <= words.len() && (words[0] == 0 || words[2] == sim.total_elements)),
        r.uploads.len() == loadable(words, sim),
{
    if words.len() >= 3 {
        let (named, total) = (words[0] as int, words[2] as int);
        assert(named * (total * 2) == named * (2 * total)) by (nonlinear_arith);
    }
}

/// Each kernel that is put in place goes to its own part of the kernel buffer, eight
/// bytes for each cell, as it stands in the file.
pub proof fn loaded_kernels_go_to_their_places(
    words: Seq<u32>,
    sim: GpuFlowLenia,
    r: KernelLoad,
    k: int,
    i: int,
)
    requires
        loads(words, sim, r),
        0 <= k < r.uploads.len(),
        0 <= i < words[2],
    ensures
        3 <= words.len() ==> r.num_kernels == words[0],
        r.uploads@[k].buffer == FlowBuffer::Kernel,
        r.uploads@[k].offset == k * sim.total_elements * 8,
        r.uploads@[k].words.len() == 2 * words[2],
        r.uploads@[k].words@[2 * i] == words[3 + 2 * (k * words[2] + i)],
        r.uploads@[k].words@[2 * i + 1] == words[3 + 2 * (k * words[2] + i) + 1],
        r.complete == fits(words, sim),
        r.uploads.len() == loadable(words, sim),
{
    files_hold_kernels_cell_by_cell(words, k, i);
    complex_numbers_take_two_words(kernel_of_file(words, k), words, i);
    assert(r.uploads@[k].buffer == FlowBuffer::Kernel);
}

/// Reversing the digits of a number puts digit `i` at the place of digit `bits - 1 - i`.
pub proof fn reversed_digits_change_places(x: nat, bits: nat, i: nat)
    requires
        i < bits,
    ensures
        (bit_rev(x, bits) / pow2(i)) % 2 == (x / pow2((bits - 1 - i) as nat)) % 2,
        bit_rev(x, bits) < pow2(bits),
    decreases bits,
{
    lemma_bit_rev_bound(x, bits);
    let b = (bits - 1) as nat;
    lemma_bit_rev_step(x, b);
    let low = bit_rev(x, b);
    let digit = (x / pow2(b)) % 2;
    lemma_pow2_pos(b);
    if i == 0 {
        lemma2_to64();
        assert(bit_rev(x, bits) / 1 == bit_rev(x, bits));
    } else {
        let j = (i - 1) as nat;
        reversed_digits_change_places(x, b, j);
        lemma_pow2_unfold(i);
        lemma_pow2_pos(j);
        lemma_div_denominator((2 * low + digit) as int, 2, pow2(j) as int);
        assert((2 * low + digit) / 2 == low);
    }
}

/// The bit-reversal pass puts at every place the number from the place with the reversed
/// digits.
pub proof fn numbers_go_to_reversed_places<T>(data: Seq<T>, bits: nat, p: nat)
    requires
        p < data.len(),
    ensures
        bit_reversed(data, bits).len() == data.len(),
        bit_reversed(data, bits)[p as int] == data[bit_rev(p, bits) as int],
{
}

/// A butterfly of a stage brings together two numbers that lie `2^stage` apart in a block
/// of twice that length, and reads the twiddle factor of its place in the block.
pub proof fn butterflies_span_half_a_block(block: nat, offset: nat, stage: nat)
    requires
        offset < pow2(stage),
    ensures
        ({
            let half = pow2(stage);
            let i = block * half + offset;
            &&& even_cell(i, stage) == block * (2 * half) + offset
            &&& odd_cell(i, stage) == block * (2 * half) + offset + half
            &&& twiddle_cell(i, stage) == half - 1 + offset
        }),
{
    let half = pow2(stage);
    lemma_pow2_pos(stage);
    lemma_fundamental_div_mod_converse(
        (block * half + offset) as int,
        half as int,
        block as int,
        offset as int,
    );
}

/// A stage replaces both numbers of every butterfly by what the butterfly makes of them
/// and of its twiddle factor.
pub proof fn stages_run_every_butterfly<T>(
    data: Seq<T>,
    twiddles: Seq<T>,
    stage: nat,
    f: spec_fn(T, T, T) -> (T, T),
    block: nat,
    offset: nat,
)
    requires
        offset < pow2(stage),
        block * (2 * pow2(stage)) + offset + pow2(stage) < data.len(),
    ensures
        ({
            let half = pow2(stage);
            let even = (block * (2 * half) + offset) as int;
            let odd = even + half;
            let out = stage_out(data, twiddles, stage, f);
            &&& out.len() == data.len()
            &&& (out[even], out[odd]) == f(data[even], twiddles[half - 1 + offset], data[odd])
        }),
{
    let half = pow2(stage);
    let i = block * half + offset;
    butterflies_span_half_a_block(block, offset, stage);
    lemma_butterfly_cells(i, stage);
    assert(is_even_cell(even_cell(i, stage), stage));
    assert(butterfly_of(odd_cell(i, stage), stage) == i);
}

/// The twiddle table holds, for each stage, as many turns as half a block has numbers,
/// each one more part of a full turn than the one before.
pub proof fn twiddles_are_parts_of_a_turn(
    table: Seq<Twiddle>,
    bits: nat,
    inverse: bool,
    stage: nat,
    k: nat,
)
    requires
        is_turn_table(table, pow2(bits), inverse),
        bits < 64,
        stage < bits,
        k < pow2(stage),
    ensures
        table.len() == pow2(bits),
        table[pow2(stage) - 1 + k] == (Twiddle::Turn {
            inverse,
            numerator: k as u64,
            denominator: (2 * pow2(stage)) as u64,
        }),
        table[pow2(bits) - 1] == Twiddle::Padding,
{
    lemma_log2_of_pow2(bits);
    lemma_pow2_unfold(stage + 1);
}

/// A transform reverses the bits, runs one stage for each digit of its length, and reads
/// the numbers back.
pub proof fn transforms_run_every_stage(fft: WgpuFFT1D, stage: int)
    requires
        fft.wf(),
        fft.n <= u32::MAX,
        0 <= stage < log2_of(fft.n as nat),
    ensures
        ({
            let commands = fft.commands();
            let bits = log2_of(fft.n as nat) as int;
            let inverse = if fft.inverse {
                1u32
            } else {
                0u32
            };
            &&& commands.len() == bits + 2
            &&& commands[0] == (FftCommand::BitReverse {
                n: fft.n as u32,
                groups: groups_for(fft.n as nat) as u32,
            })
            &&& commands[stage + 1] == (FftCommand::Stage {
                n: fft.n as u32,
                stage: stage as u32,
                inverse,
                groups: groups_for(fft.n as nat / 2) as u32,
            })
            &&& commands[bits + 1] == (FftCommand::ReadBack { size: (fft.n * 8) as u64 })
        }),
{
}

/// A batch runs the same passes over all lanes at once: an invocation for each number of
/// each lane to reverse the bits, and one for each butterfly of each lane in a stage.
pub proof fn batches_run_every_stage(fft: WgpuFFT1D, lanes: LaneLayout, stage: int)
    requires
        fft.wf(),
        0 <= stage < log2_of(fft.n as nat),
    ensures
        ({
            let passes = fft.batch_passes(lanes);
            let inverse = if fft.inverse {
                1u32
            } else {
                0u32
            };
            &&& passes.len() == log2_of(fft.n as nat) + 1
            &&& passes[0] == (BatchPass {
                shader: FftShader::BitReverse,
                n: fft.n as u32,
                stage: 0,
                inverse,
                num_lanes: lanes.num_lanes as u32,
                lane_stride: lanes.lane_stride,
                elem_stride: lanes.elem_stride,
                groups: groups_for((lanes.num_lanes * fft.n) as nat) as u32,
            })
            &&& passes[stage + 1] == (BatchPass {
                shader: FftShader::Stage,
                n: fft.n as u32,
                stage: stage as u32,
                inverse,
                num_lanes: lanes.num_lanes as u32,
                lane_stride: lanes.lane_stride,
                elem_stride: lanes.elem_stride,
                groups: groups_for((lanes.num_lanes * (fft.n / 2)) as nat) as u32,
            })
        }),
{
}

/// The number of cells of an array is the product of the lengths of its axes.
pub proof fn volumes_are_products(shape: Seq<usize>, length: usize)
    ensures
        volume(Seq::<usize>::empty()) == 1,
        volume(shape.push(length)) == volume(shape) * length as nat,
{
    assert(shape.push(length).drop_last() =~= shape);
}

/// The axes are visited from the first to the last, and for an inverse transform from the
/// last to the first.
pub proof fn axes_are_visited_in_order(rank: nat, k: int)
    requires
        0 <= k < rank,
    ensures
        axis_order(rank, false).len() == rank,
        axis_order(rank, false)[k] == k,
        axis_order(rank, true).len() == rank,
        axis_order(rank, true)[k] + k == rank - 1,
{
}

/// Mapping the lanes along an axis replaces each line of cells along that axis, at fixed
/// places of all other axes, by what `f` makes of it. With `inner` cells to a step along
/// the axis, the cell at place `i` of the axis, `o` of the axes before it and `r` of those
/// after it is cell `(o * length + i) * inner + r`.
pub proof fn lanes_run_along_their_axis<T>(
    elems: Seq<T>,
    shape: Seq<usize>,
    axis: int,
    f: spec_fn(int, Seq<T>) -> Seq<T>,
    o: nat,
    i: nat,
    r: nat,
)
    requires
        0 <= axis < shape.len(),
        all_positive(shape),
        elems.len() == volume(shape),
        o < volume(shape.take(axis)),
        i < shape[axis],
        r < volume(shape.skip(axis + 1)),
    ensures
        ({
            let inner = volume(shape.skip(axis + 1));
            let length = shape[axis] as nat;
            let line = Seq::new(length, |t: int| elems[(o * length + t) * inner + r]);
            map_lanes(elems, shape, axis, f).len() == elems.len() && map_lanes(
                elems,
                shape,
                axis,
                f,
            )[((o * length + i) * inner + r) as int] == f(axis, line)[i as int]
        }),
{
    let inner = volume(shape.skip(axis + 1));
    let length = shape[axis] as nat;
    let outer = volume(shape.take(axis));
    let l = o * inner + r;
    let line = Seq::new(length, |t: int| elems[(o * length + t) * inner + r]);
    lemma_stride_positive(shape, axis);
    lemma_axis_volume(shape, axis);
    lemma_fundamental_div_mod_converse(l as int, inner as int, o as int, r as int);
    assert forall|t: nat| t < length implies #[trigger] lane_cell(inner, length, l, t) == (o
        * length + t) * inner + r by {
        assert(o * (inner * length) + t * inner == (o * length + t) * inner) by (nonlinear_arith);
    }
    lemma_lane_of_cell(inner, length, l, i);
    assert(lane_cell(inner, length, l, i) == (o * length + i) * inner + r);
    let p = (o * length + i) * inner + r;
    assert(p < elems.len()) by {
        assert(o * length + i < outer * length) by (nonlinear_arith)
            requires
                o + 1 <= outer,
                i < length,
        ;
        let q = o * length + i;
        let m = outer * length;
        assert(q * inner + r < m * inner) by (nonlinear_arith)
            requires
                q + 1 <= m,
                r < inner,
        ;
        assert(outer * (length * inner) == m * inner) by (nonlinear_arith)
            requires
                m == outer * length,
        ;
    }
    assert forall|t: int| 0 <= t < length implies lane(elems, shape, axis, l)[t] == line[t] by {
        assert(lane_cell(inner, length, l, t as nat) == (o * length + t as nat) * inner + r);
    }
    assert(lane(elems, shape, axis, l) =~= line);
}

/// Transforming an array axis by axis maps the lanes of one axis after the other.
pub proof fn axes_are_mapped_one_after_the_other<T>(
    elems: Seq<T>,
    shape: Seq<usize>,
    axes: Seq<int>,
    f: spec_fn(int, Seq<T>) -> Seq<T>,
    count: nat,
)
    ensures
        map_axes(elems, shape, axes, f, 0) == elems,
        map_axes(elems, shape, axes, f, count + 1) == map_lanes(
            map_axes(elems, shape, axes, f, count),
            shape,
            axes[count as int],
            f,
        ),
{
}

} // verus!
