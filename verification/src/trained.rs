//! Files of trained kernels.
//!
//! A file holds 32-bit words: the number of kernels, the side of their grid, the
//! number of cells of a kernel, and then for each kernel the real and imaginary parts
//! of its transform, cell by cell.
use crate::bytes::{are_bytes_of, decode_words};
use crate::gpu::{interleaved, Complex32Bits, Upload};
use crate::gpu_flow_lenia::{FlowBuffer, GpuFlowLenia};
use crate::power::log2_of;
use vstd::arithmetic::div_mod::*;
use vstd::arithmetic::mul::*;
use vstd::arithmetic::power2::*;
use vstd::prelude::*;

verus! {

/// Words before the first kernel of a file.
pub const HEADER_WORDS: usize = 3;

/// The number of words that the kernels of a file take.
pub open spec fn kernel_words(words: Seq<u32>) -> int {
    words[0] as int * (words[2] as int * 2)
}

/// The words are a file: there is a header, and all kernels are there.
pub open spec fn is_kernel_file(words: Seq<u32>) -> bool {
    HEADER_WORDS <= words.len() && HEADER_WORDS + kernel_words(words) <= words.len()
}

/// Kernel `k` of a file.
pub open spec fn kernel_of_file(words: Seq<u32>, k: int) -> Seq<Complex32Bits> {
    let total = words[2] as int;
    let start = HEADER_WORDS + k * (total * 2);
    Seq::new(
        total as nat,
        |i: int| Complex32Bits { re: words[start + 2 * i], im: words[start + 2 * i + 1] },
    )
}

/// The kernels of a file fit a simulation.
pub open spec fn fits(words: Seq<u32>, sim: GpuFlowLenia) -> bool {
    &&& is_kernel_file(words)
    &&& words[0] <= sim.num_kernels
    &&& words[0] > 0 ==> words[2] == sim.total_elements
}

/// The number of kernels of a file that can be put in place, from the first on: those
/// that are wholly there and for which the simulation has a place. There are none if the
/// kernels are of another size.
pub open spec fn loadable(words: Seq<u32>, sim: GpuFlowLenia) -> int {
    if words.len() < HEADER_WORDS || words[2] != sim.total_elements {
        0
    } else {
        let whole = (words.len() - HEADER_WORDS) / (words[2] as int * 2);
        let named = words[0] as int;
        let places = sim.num_kernels as int;
        if whole <= named && whole <= places {
            whole
        } else if named <= places {
            named
        } else {
            places
        }
    }
}

/// What loading a file comes to.
#[derive(Debug)]
pub struct KernelLoad {
    /// The number of kernels that the header of the file names.
    pub num_kernels: u32,
    /// The writes that put kernels in place, from the first kernel on.
    pub uploads: Vec<Upload<FlowBuffer>>,
    /// Whether all kernels that the file names are put in place. If not, loading fails
    /// after the writes.
    pub complete: bool,
}

/// A kernel lies within its file.
proof fn lemma_kernel_place(k: int, count: int, total: int, i: int)
    requires
        0 <= k < count,
        0 <= i < total,
    ensures
        0 <= k * (total * 2),
        k * (total * 2) + 2 * i + 1 < count * (total * 2),
{
    let size = total * 2;
    assert(0 <= k * size) by (nonlinear_arith)
        requires
            0 <= k,
            0 <= size,
    ;
    assert(k * size + size <= count * size) by (nonlinear_arith)
        requires
            k + 1 <= count,
            0 <= size,
    ;
}

/// Reads the first `count` kernels of a file.
pub fn kernels_of_words(words: &Vec<u32>, count: usize) -> (kernels: Vec<Vec<Complex32Bits>>)
    requires
        HEADER_WORDS <= words.len(),
        HEADER_WORDS + count * (words@[2] * 2) <= words.len(),
    ensures
        kernels.len() == count,
        forall|k: int|
            0 <= k < count ==> (#[trigger] kernels@[k])@ == kernel_of_file(words@, k),
{
    let total: usize = words[2] as usize;
    let len: usize = words.len();
    let mut kernels: Vec<Vec<Complex32Bits>> = Vec::new();
    let mut k: usize = 0;
    while k < count
        invariant
            k <= count,
            total == words@[2],
            len == words@.len(),
            HEADER_WORDS <= len,
            HEADER_WORDS + count * (total * 2) <= len,
            kernels.len() == k,
            forall|q: int| 0 <= q < k ==> (#[trigger] kernels@[q])@ == kernel_of_file(words@, q),
        decreases count - k,
    {
        let mut kernel: Vec<Complex32Bits> = Vec::new();
        let mut i: usize = 0;
        while i < total
            invariant
                k < count,
                i <= total == words@[2],
                len == words@.len(),
                HEADER_WORDS <= len,
                HEADER_WORDS + count * (total * 2) <= len,
                kernel@ == kernel_of_file(words@, k as int).take(i as int),
            decreases total - i,
        {
            proof {
                lemma_kernel_place(k as int, count as int, total as int, i as int);
                assert(total * 2 <= count * (total * 2)) by (nonlinear_arith)
                    requires
                        count >= 1,
                        total >= 0,
                ;
            }
            let at: usize = HEADER_WORDS + k * (total * 2) + 2 * i;
            kernel.push(Complex32Bits { re: words[at], im: words[at + 1] });
            i = i + 1;
            assert(kernel@ =~= kernel_of_file(words@, k as int).take(i as int));
        }
        assert(kernel@ =~= kernel_of_file(words@, k as int));
        kernels.push(kernel);
        k = k + 1;
    }
    kernels
}

/// All kernels of a file can be put in place just if they fit the simulation.
pub proof fn fitting_files_load_completely(words: Seq<u32>, sim: GpuFlowLenia)
    requires
        sim.wf(),
    ensures
        fits(words, sim) <==> HEADER_WORDS <= words.len() && loadable(words, sim) == words[0],
        HEADER_WORDS <= words.len() ==> 0 <= loadable(words, sim) <= words[0],
        HEADER_WORDS <= words.len() ==> HEADER_WORDS + loadable(words, sim) * (words[2] as int * 2)
            <= words.len(),
        0 <= loadable(words, sim) <= sim.num_kernels,
{
    if HEADER_WORDS <= words.len() {
        let (n, size) = (words[0] as int, words[2] as int * 2);
        if words[2] != sim.total_elements {
            assert(0 * size == 0);
            if n == 0 {
                assert(n * size == 0) by (nonlinear_arith)
                    requires
                        n == 0,
                ;
            }
        } else {
            lemma_total_positive(sim);
            let rest = words.len() - HEADER_WORDS;
            let whole = rest / size;
            lemma_fundamental_div_mod(rest, size);
            lemma_mod_bound(rest, size);
            lemma_mul_is_commutative(size, whole);
            lemma_div_pos_is_pos(rest, size);
            let count = loadable(words, sim);
            assert(count * size <= whole * size) by (nonlinear_arith)
                requires
                    count <= whole,
                    size >= 0,
            ;
            if whole < n {
                assert(whole * size + size <= n * size) by (nonlinear_arith)
                    requires
                        whole + 1 <= n,
                        size >= 0,
                ;
            } else {
                assert(n * size <= whole * size) by (nonlinear_arith)
                    requires
                        n <= whole,
                        size >= 0,
                ;
            }
        }
    }
}

/// The grid of a simulation is not empty.
proof fn lemma_total_positive(sim: GpuFlowLenia)
    requires
        sim.wf(),
    ensures
        sim.total_elements > 0,
{
    lemma_pow2_pos(log2_of(sim.shape@[0] as nat));
    lemma_pow2_pos(log2_of(sim.shape@[1] as nat));
    let (w, h) = (sim.shape@[0] as int, sim.shape@[1] as int);
    assert(w * h > 0) by (nonlinear_arith)
        requires
            w > 0,
            h > 0,
    ;
}

/// `r` is what loading the words of a file comes to.
pub open spec fn loads(words: Seq<u32>, sim: GpuFlowLenia, r: KernelLoad) -> bool {
    &&& r.num_kernels == if HEADER_WORDS <= words.len() {
        words[0]
    } else {
        0
    }
    &&& r.complete == fits(words, sim)
    &&& r.uploads.len() == loadable(words, sim)
    &&& forall|k: int|
        0 <= k < r.uploads.len() ==> {
            &&& (#[trigger] r.uploads@[k]).buffer == FlowBuffer::Kernel
            &&& r.uploads@[k].offset == sim.kernel_offset(k)
            &&& r.uploads@[k].words@ == interleaved(kernel_of_file(words, k))
        }
}

/// Loads the words of a file: the kernels that are wholly there and for which the
/// simulation has a place are put in place, and it is said whether that was all.
pub fn kernel_uploads(sim: &GpuFlowLenia, words: &Vec<u32>) -> (r: KernelLoad)
    requires
        sim.wf(),
    ensures
        loads(words@, *sim, r),
{
    proof {
        fitting_files_load_completely(words@, *sim);
    }
    if words.len() < HEADER_WORDS {
        return KernelLoad { num_kernels: 0, uploads: Vec::new(), complete: false };
    }
    let named: usize = words[0] as usize;
    let mut count: usize = 0;
    if words[2] as usize == sim.total_elements {
        proof {
            lemma_total_positive(*sim);
        }
        count = (words.len() - HEADER_WORDS) / (sim.total_elements * 2);
        if count > named {
            count = named;
        }
        if count > sim.num_kernels {
            count = sim.num_kernels;
        }
    }
    assert(count == loadable(words@, *sim));
    let kernels: Vec<Vec<Complex32Bits>> = kernels_of_words(words, count);
    let mut uploads: Vec<Upload<FlowBuffer>> = Vec::new();
    let mut k: usize = 0;
    while k < kernels.len()
        invariant
            k <= kernels.len() == count <= sim.num_kernels,
            sim.wf(),
            count > 0 ==> words@[2] == sim.total_elements,
            forall|q: int|
                0 <= q < count ==> (#[trigger] kernels@[q])@ == kernel_of_file(words@, q),
            uploads.len() == k,
            forall|q: int|
                0 <= q < k ==> {
                    &&& (#[trigger] uploads@[q]).buffer == FlowBuffer::Kernel
                    &&& uploads@[q].offset == sim.kernel_offset(q)
                    &&& uploads@[q].words@ == interleaved(kernel_of_file(words@, q))
                },
        decreases kernels.len() - k,
    {
        assert(kernels@[k as int]@ == kernel_of_file(words@, k as int));
        uploads.push(sim.set_kernel(&kernels[k], k));
        k = k + 1;
    }
    KernelLoad { num_kernels: words[0], uploads, complete: count == named }
}

/// Loads the bytes of a file, whose words are in the byte order of the machine. Bytes
/// that are not words put nothing in place.
pub fn load_trained_kernels(sim: &GpuFlowLenia, bytes: &Vec<u8>) -> (r: KernelLoad)
    requires
        sim.wf(),
    ensures
        bytes.len() % 4 != 0 ==> r.num_kernels == 0 && r.uploads.len() == 0 && !r.complete,
        bytes.len() % 4 == 0 ==> exists|words: Seq<u32>|
            #![trigger are_bytes_of(bytes@, words)]
            are_bytes_of(bytes@, words) && loads(words, *sim, r),
{
    if bytes.len() % 4 != 0 {
        return KernelLoad { num_kernels: 0, uploads: Vec::new(), complete: false };
    }
    let words: Vec<u32> = decode_words(bytes);
    let r: KernelLoad = kernel_uploads(sim, &words);
    assert(are_bytes_of(bytes@, words@) && loads(words@, *sim, r));
    r
}

/// The words of a file that holds the given kernels.
pub open spec fn file_of_kernels(side: u32, total: u32, kernels: Seq<Seq<Complex32Bits>>) -> Seq<
    u32,
> {
    let size = total as int * 2;
    Seq::new(
        (HEADER_WORDS + kernels.len() * size) as nat,
        |i: int|
            if i == 0 {
                kernels.len() as u32
            } else if i == 1 {
                side
            } else if i == 2 {
                total
            } else {
                interleaved(kernels[(i - HEADER_WORDS) / size])[(i - HEADER_WORDS) % size]
            },
    )
}

/// The kernels of a file are those it was made of.
pub proof fn kernels_read_back(
    side: u32,
    total: u32,
    kernels: Seq<Seq<Complex32Bits>>,
    k: int,
)
    requires
        kernels.len() <= u32::MAX,
        forall|q: int| 0 <= q < kernels.len() ==> (#[trigger] kernels[q]).len() == total,
        0 <= k < kernels.len(),
    ensures
        is_kernel_file(file_of_kernels(side, total, kernels)),
        kernel_of_file(file_of_kernels(side, total, kernels), k) == kernels[k],
{
    let size = total as int * 2;
    let words = file_of_kernels(side, total, kernels);
    assert(0 <= kernels.len() * size) by (nonlinear_arith)
        requires
            size >= 0,
    ;
    let got = kernel_of_file(words, k);
    assert forall|i: int| 0 <= i < total implies got[i] == kernels[k][i] by {
        lemma_kernel_place(k, kernels.len() as int, total as int, i);
        let at = HEADER_WORDS + k * size + 2 * i;
        lemma_fundamental_div_mod_converse(
            at - HEADER_WORDS,
            size,
            k,
            2 * i,
        );
        lemma_fundamental_div_mod_converse(
            at + 1 - HEADER_WORDS,
            size,
            k,
            2 * i + 1,
        );
        assert(words[at] == interleaved(kernels[k])[2 * i]);
        assert(words[at + 1] == interleaved(kernels[k])[2 * i + 1]);
    }
    assert(got =~= kernels[k]);
}

} // verus!
