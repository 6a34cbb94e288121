//! The iterative radix-2 Cooley-Tukey passes that the compute shaders perform:
//! a bit-reversal permutation, then one pass of butterflies per stage.
//!
//! The passes are generic in the element: the arithmetic of one butterfly is
//! handed in, everything else (which cells an invocation touches, and which
//! twiddle factor it reads) is fixed here.
use crate::power::{is_power_of_two, log2, log2_of};
use vstd::arithmetic::div_mod::*;
use vstd::arithmetic::mul::*;
use vstd::arithmetic::power2::*;
use vstd::bits::*;
use vstd::prelude::*;

verus! {

/// The number whose `bits` binary digits are those of `x` in reverse order.
pub open spec fn bit_rev(x: nat, bits: nat) -> nat
    decreases bits,
{
    if bits == 0 {
        0
    } else {
        (x % 2) * pow2((bits - 1) as nat) + bit_rev(x / 2, (bits - 1) as nat)
    }
}

/// Reversing `bits` digits gives a number of at most `bits` digits.
pub proof fn lemma_bit_rev_bound(x: nat, bits: nat)
    ensures
        bit_rev(x, bits) < pow2(bits),
    decreases bits,
{
    lemma2_to64();
    if bits > 0 {
        lemma_bit_rev_bound(x / 2, (bits - 1) as nat);
        lemma_pow2_unfold(bits);
        let p = pow2((bits - 1) as nat);
        assert((x % 2) * p <= p) by (nonlinear_arith)
            requires
                x % 2 <= 1,
        ;
    }
}

/// Taking in one more digit of `x` shifts the reversed number up by one place.
pub proof fn lemma_bit_rev_step(x: nat, bits: nat)
    ensures
        bit_rev(x, bits + 1) == 2 * bit_rev(x, bits) + (x / pow2(bits)) % 2,
    decreases bits,
{
    lemma2_to64();
    if bits == 0 {
        assert(bit_rev(x, 1) == (x % 2) * pow2(0) + bit_rev(x / 2, 0));
        assert(x / 1 == x);
    } else {
        let b = (bits - 1) as nat;
        lemma_bit_rev_step(x / 2, b);
        lemma_pow2_unfold(bits);
        lemma_pow2_pos(b);
        lemma_div_denominator(x as int, 2, pow2(b) as int);
        assert((x / 2) / pow2(b) == x / pow2(bits));
        let d = x % 2;
        assert(d * pow2(bits) == 2 * (d * pow2(b))) by (nonlinear_arith)
            requires
                pow2(bits) == 2 * pow2(b),
        ;
        assert(bit_rev(x, bits + 1) == d * pow2(bits) + bit_rev(x / 2, bits));
        assert(bit_rev(x, bits) == d * pow2(b) + bit_rev(x / 2, b));
    }
}

/// Only the low `bits` digits of `x` matter.
pub proof fn lemma_bit_rev_low_digits(x: nat, hi: nat, bits: nat)
    ensures
        bit_rev(x + hi * pow2(bits), bits) == bit_rev(x, bits),
    decreases bits,
{
    if bits > 0 {
        let b = (bits - 1) as nat;
        lemma_pow2_unfold(bits);
        let p = pow2(b);
        assert(hi * pow2(bits) == 2 * (hi * p)) by (nonlinear_arith)
            requires
                pow2(bits) == 2 * p,
        ;
        let y = x + hi * pow2(bits);
        assert(y % 2 == x % 2);
        assert(y / 2 == x / 2 + hi * p);
        lemma_bit_rev_low_digits(x / 2, hi, b);
    }
}

/// Reversing the digits twice gives the number back.
pub proof fn lemma_bit_rev_involution(x: nat, bits: nat)
    requires
        x < pow2(bits),
    ensures
        bit_rev(bit_rev(x, bits), bits) == x,
    decreases bits,
{
    lemma2_to64();
    if bits > 0 {
        let b = (bits - 1) as nat;
        let p = pow2(b);
        lemma_pow2_unfold(bits);
        lemma_pow2_pos(b);
        assert(x / 2 < p);
        lemma_bit_rev_involution(x / 2, b);
        lemma_bit_rev_bound(x / 2, b);
        let low = bit_rev(x / 2, b);
        let d = x % 2;
        let y = bit_rev(x, bits);
        assert(y == low + d * p);
        lemma_bit_rev_step(y, b);
        lemma_bit_rev_low_digits(low, d, b);
        lemma_fundamental_div_mod_converse(y as int, p as int, d as int, low as int);
    }
}

/// Reverses the low `bits` binary digits of `x`.
pub fn bit_reverse(x: u32, bits: u32) -> (r: u32)
    requires
        bits <= 32,
    ensures
        r == bit_rev(x as nat, bits as nat),
{
    let mut result: u32 = 0;
    let mut i: u32 = 0;
    while i < bits
        invariant
            i <= bits <= 32,
            result == bit_rev(x as nat, i as nat),
        decreases bits - i,
    {
        proof {
            lemma_bit_rev_bound(x as nat, i as nat);
            lemma_bit_rev_step(x as nat, i as nat);
            lemma_u32_shr_is_div(x, i);
            lemma2_to64();
            if i < 31 {
                lemma_pow2_strictly_increases(i as nat, 31);
            }
        }
        let digit: u32 = (x >> i) & 1;
        proof {
            let s: u32 = x >> i;
            assert((s & 1) == s % 2) by (bit_vector);
            assert(((result << 1) | digit) == 2 * result + digit) by (bit_vector)
                requires
                    result < 0x8000_0000u32,
                    digit < 2,
            ;
        }
        result = (result << 1) | digit;
        i = i + 1;
    }
    result
}

/// `data` with the element of each position taken from the bit-reversed position.
pub open spec fn bit_reversed<T>(data: Seq<T>, bits: nat) -> Seq<T> {
    Seq::new(data.len(), |p: int| data[bit_rev(p as nat, bits) as int])
}

/// The bit-reversal pass: invocation `i` exchanges cells `i` and `bit_reverse(i)`
/// if the latter is the larger of the two.
pub fn bit_reverse_pass<T: Copy>(data: &mut Vec<T>)
    requires
        is_power_of_two(old(data).len() as nat),
        old(data).len() <= u32::MAX,
    ensures
        final(data)@ == bit_reversed(old(data)@, log2_of(old(data).len() as nat)),
{
    let n: usize = data.len();
    let bits: u32 = log2(n);
    let ghost before = data@;
    proof {
        lemma2_to64();
        if bits > 32 {
            lemma_pow2_strictly_increases(32, bits as nat);
        }
    }
    let mut i: usize = 0;
    while i < n
        invariant
            i <= n == data.len(),
            n == before.len(),
            n == pow2(bits as nat),
            n <= u32::MAX,
            bits <= 32,
            forall|p: int|
                0 <= p < n ==> #[trigger] data@[p] == if p < i || bit_rev(p as nat, bits as nat)
                    < i {
                    before[bit_rev(p as nat, bits as nat) as int]
                } else {
                    before[p]
                },
        decreases n - i,
    {
        let j: usize = bit_reverse(i as u32, bits) as usize;
        let ghost held = data@;
        proof {
            lemma_bit_rev_bound(i as nat, bits as nat);
            lemma_bit_rev_involution(i as nat, bits as nat);
        }
        if i < j {
            let tmp: T = data[i];
            data[i] = data[j];
            data[j] = tmp;
        }
        proof {
            let r = bits as nat;
            assert forall|p: int| 0 <= p < n implies #[trigger] data@[p] == (if p < i + 1 || bit_rev(
                p as nat,
                r,
            ) < i + 1 {
                before[bit_rev(p as nat, r) as int]
            } else {
                before[p]
            }) by {
                lemma_bit_rev_involution(p as nat, r);
                assert(held[p] == (if p < i || bit_rev(p as nat, r) < i {
                    before[bit_rev(p as nat, r) as int]
                } else {
                    before[p]
                }));
                if p == i {
                } else if bit_rev(p as nat, r) == i {
                    assert(p == j);
                } else {
                    assert(p != j);
                }
            }
        }
        i = i + 1;
    }
    proof {
        assert(data@ =~= bit_reversed(before, bits as nat));
    }
}

/// The first cell of butterfly `i` of a stage.
pub open spec fn even_cell(i: nat, stage: nat) -> nat {
    (i / pow2(stage)) * (2 * pow2(stage)) + i % pow2(stage)
}

/// The second cell of butterfly `i` of a stage.
pub open spec fn odd_cell(i: nat, stage: nat) -> nat {
    even_cell(i, stage) + pow2(stage)
}

/// The entry of the twiddle table that butterfly `i` of a stage reads.
pub open spec fn twiddle_cell(i: nat, stage: nat) -> nat {
    (pow2(stage) - 1 + i % pow2(stage)) as nat
}

/// Whether cell `p` is the first cell of its butterfly.
pub open spec fn is_even_cell(p: nat, stage: nat) -> bool {
    p % (2 * pow2(stage)) < pow2(stage)
}

/// The butterfly of a stage that cell `p` belongs to.
pub open spec fn butterfly_of(p: nat, stage: nat) -> nat {
    let block = 2 * pow2(stage);
    let offset = p % block;
    ((p / block) * pow2(stage) + if offset < pow2(stage) {
        offset as int
    } else {
        offset - pow2(stage)
    }) as nat
}

/// Both cells of butterfly `i` belong to butterfly `i` and to no other, so the
/// invocations of one stage never touch each other's cells.
pub proof fn lemma_butterfly_cells(i: nat, stage: nat)
    ensures
        butterfly_of(even_cell(i, stage), stage) == i,
        is_even_cell(even_cell(i, stage), stage),
        butterfly_of(odd_cell(i, stage), stage) == i,
        !is_even_cell(odd_cell(i, stage), stage),
{
    let stride = pow2(stage);
    lemma_pow2_pos(stage);
    let block = 2 * stride;
    let q = i / stride;
    let o = i % stride;
    lemma_fundamental_div_mod(i as int, stride as int);
    lemma_mul_is_commutative(stride as int, q as int);
    lemma_fundamental_div_mod_converse(
        even_cell(i, stage) as int,
        block as int,
        q as int,
        o as int,
    );
    lemma_fundamental_div_mod_converse(
        odd_cell(i, stage) as int,
        block as int,
        q as int,
        (o + stride) as int,
    );
}

/// Every cell is a cell of its butterfly, and the butterflies of the cells below
/// `n` are the first `n / 2`.
pub proof fn lemma_cell_butterfly(p: nat, n: nat, bits: nat, stage: nat)
    requires
        n == pow2(bits),
        stage < bits,
        p < n,
    ensures
        butterfly_of(p, stage) < n / 2,
        is_even_cell(p, stage) ==> even_cell(butterfly_of(p, stage), stage) == p,
        !is_even_cell(p, stage) ==> odd_cell(butterfly_of(p, stage), stage) == p,
{
    let stride = pow2(stage);
    lemma_pow2_pos(stage);
    let block = 2 * stride;
    let q = p / block;
    let offset = p % block;
    lemma_fundamental_div_mod(p as int, block as int);
    let o: int = if offset < stride {
        offset as int
    } else {
        offset - stride
    };
    let i = butterfly_of(p, stage);
    lemma_fundamental_div_mod_converse(i as int, stride as int, q as int, o);
    assert(q * block == block * q) by (nonlinear_arith);
    assert(q * (2 * stride) == 2 * (q * stride)) by (nonlinear_arith);
    // i < n / 2, because n is a whole number of blocks
    lemma_pow2_adds(stage + 1, (bits - stage - 1) as nat);
    lemma_pow2_unfold(stage + 1);
    let blocks = pow2((bits - stage - 1) as nat);
    assert(n == block * blocks);
    assert(q < blocks) by (nonlinear_arith)
        requires
            block * q <= p,
            p < block * blocks,
            block > 0,
    ;
    assert((q + 1) * stride <= blocks * stride) by (nonlinear_arith)
        requires
            q + 1 <= blocks,
            stride > 0,
    ;
    assert((q + 1) * stride == q * stride + stride) by (nonlinear_arith);
    assert(n == 2 * (blocks * stride)) by (nonlinear_arith)
        requires
            n == block * blocks,
            block == 2 * stride,
    ;
}

/// The cells of butterfly `i < n / 2` lie below `n`, and the twiddle table of
/// `n` entries covers its twiddle cell.
pub proof fn lemma_butterfly_bounds(i: nat, n: nat, bits: nat, stage: nat)
    requires
        n == pow2(bits),
        stage < bits,
        i < n / 2,
    ensures
        even_cell(i, stage) < odd_cell(i, stage) < n,
        twiddle_cell(i, stage) < n - 1,
{
    let stride = pow2(stage);
    lemma_pow2_pos(stage);
    let q = i / stride;
    let o = i % stride;
    lemma_fundamental_div_mod(i as int, stride as int);
    lemma_pow2_adds(stage + 1, (bits - stage - 1) as nat);
    lemma_pow2_unfold(stage + 1);
    lemma_pow2_pos((bits - stage - 1) as nat);
    let blocks = pow2((bits - stage - 1) as nat);
    let half: nat = n / 2;
    assert(n == 2 * (stride * blocks)) by (nonlinear_arith)
        requires
            n == (2 * stride) * blocks,
    ;
    assert(q < blocks) by (nonlinear_arith)
        requires
            stride * q <= i,
            i < stride * blocks,
            stride > 0,
    ;
    assert((q + 1) * (2 * stride) <= blocks * (2 * stride)) by (nonlinear_arith)
        requires
            q + 1 <= blocks,
    ;
    assert((q + 1) * (2 * stride) == q * (2 * stride) + 2 * stride) by (nonlinear_arith);
    assert(blocks * (2 * stride) == n) by (nonlinear_arith)
        requires
            n == (2 * stride) * blocks,
    ;
    assert(2 * stride <= n) by (nonlinear_arith)
        requires
            n == (2 * stride) * blocks,
            blocks >= 1,
    ;
}

/// The cells that one invocation of a butterfly stage reads and writes.
#[derive(Clone, Copy, Debug, PartialEq, Eq, Structural)]
pub struct Butterfly {
    /// The first data cell.
    pub even: u32,
    /// The second data cell.
    pub odd: u32,
    /// The entry of the twiddle table.
    pub twiddle: u32,
}

/// The cells of invocation `i` of a stage of an FFT of length `n`.
pub fn butterfly(n: u32, stage: u32, i: u32) -> (b: Butterfly)
    requires
        is_power_of_two(n as nat),
        stage < log2_of(n as nat),
        i < n / 2,
    ensures
        b.even == even_cell(i as nat, stage as nat),
        b.odd == odd_cell(i as nat, stage as nat),
        b.twiddle == twiddle_cell(i as nat, stage as nat),
{
    let ghost bits = log2_of(n as nat);
    proof {
        lemma2_to64();
        if bits > 31 {
            if bits > 32 {
                lemma_pow2_strictly_increases(32, bits);
            }
            assert(false);
        }
        lemma_u32_shl_is_mul(1, stage);
        lemma_pow2_pos(stage as nat);
        lemma_butterfly_bounds(i as nat, n as nat, bits, stage as nat);
        lemma_pow2_strictly_increases(stage as nat, bits);
        let q = i as nat / pow2(stage as nat);
        assert(q * (2 * pow2(stage as nat)) >= 0) by (nonlinear_arith);
        lemma_pow2_strictly_increases(stage as nat, 31);
    }
    let stride: u32 = 1u32 << stage;
    let block: u32 = i / stride;
    let offset: u32 = i % stride;
    let even: u32 = block * (stride * 2) + offset;
    Butterfly { even, odd: even + stride, twiddle: stride - 1 + offset }
}

/// The data after one stage of butterflies.
pub open spec fn stage_out<T>(
    data: Seq<T>,
    twiddles: Seq<T>,
    stage: nat,
    f: spec_fn(T, T, T) -> (T, T),
) -> Seq<T> {
    Seq::new(
        data.len(),
        |p: int|
            {
                let i = butterfly_of(p as nat, stage);
                let pair = f(
                    data[even_cell(i, stage) as int],
                    twiddles[twiddle_cell(i, stage) as int],
                    data[odd_cell(i, stage) as int],
                );
                if is_even_cell(p as nat, stage) {
                    pair.0
                } else {
                    pair.1
                }
            },
    )
}

/// `f` is the function that `run` computes.
pub open spec fn computes<T, F: Fn(T, T, T) -> (T, T)>(
    run: F,
    f: spec_fn(T, T, T) -> (T, T),
) -> bool {
    forall|a: T, w: T, b: T, r: (T, T)| #[trigger] run.ensures((a, w, b), r) ==> r == f(a, w, b)
}

/// One butterfly stage: invocation `i` replaces its two cells by what `run` makes
/// of them and of its twiddle factor.
pub fn stage_pass<T: Copy, F: Fn(T, T, T) -> (T, T)>(
    data: &mut Vec<T>,
    twiddles: &Vec<T>,
    stage: u32,
    run: &F,
)
    requires
        is_power_of_two(old(data).len() as nat),
        old(data).len() <= u32::MAX,
        twiddles.len() == old(data).len(),
        stage < log2_of(old(data).len() as nat),
        forall|a: T, w: T, b: T| #[trigger] run.requires((a, w, b)),
    ensures
        final(data).len() == old(data).len(),
        forall|f: spec_fn(T, T, T) -> (T, T)| #[trigger]
            computes(*run, f) ==> final(data)@ == stage_out(
                old(data)@,
                twiddles@,
                stage as nat,
                f,
            ),
{
    let n: usize = data.len();
    let ghost bits = log2_of(n as nat);
    let ghost before = data@;
    let ghost s = stage as nat;
    let mut i: usize = 0;
    while i < n / 2
        invariant
            i <= n / 2,
            n == data.len() == before.len(),
            twiddles.len() == n,
            n == pow2(bits),
            is_power_of_two(n as nat),
            bits == log2_of(n as nat),
            n <= u32::MAX,
            s == stage < bits,
            forall|a: T, w: T, b: T| #[trigger] run.requires((a, w, b)),
            forall|p: int|
                0 <= p < n && butterfly_of(p as nat, s) >= i ==> #[trigger] data@[p] == before[p],
            forall|f: spec_fn(T, T, T) -> (T, T), p: int|
                #![trigger computes(*run, f), data@[p]]
                computes(*run, f) && 0 <= p < n && butterfly_of(p as nat, s) < i ==> data@[p]
                    == stage_out(before, twiddles@, s, f)[p],
        decreases n / 2 - i,
    {
        let b: Butterfly = butterfly(n as u32, stage, i as u32);
        let ghost held = data@;
        proof {
            lemma_butterfly_bounds(i as nat, n as nat, bits, s);
            lemma_butterfly_cells(i as nat, s);
        }
        let pair: (T, T) = run(
            data[b.even as usize],
            twiddles[b.twiddle as usize],
            data[b.odd as usize],
        );
        data[b.even as usize] = pair.0;
        data[b.odd as usize] = pair.1;
        proof {
            assert forall|p: int|
                0 <= p < n && butterfly_of(p as nat, s) >= i + 1 implies #[trigger] data@[p]
                == before[p] by {
                assert(held[p] == before[p]);
            }
            assert forall|f: spec_fn(T, T, T) -> (T, T), p: int|
                #![trigger computes(*run, f), data@[p]]
                computes(*run, f) && 0 <= p < n && butterfly_of(p as nat, s) < i + 1 implies data@[p]
                == stage_out(before, twiddles@, s, f)[p] by {
                lemma_cell_butterfly(p as nat, n as nat, bits, s);
                if butterfly_of(p as nat, s) == i {
                    assert(held[b.even as int] == before[b.even as int]);
                    assert(held[b.odd as int] == before[b.odd as int]);
                    assert(pair == f(
                        before[b.even as int],
                        twiddles@[b.twiddle as int],
                        before[b.odd as int],
                    ));
                } else {
                    assert(p != b.even && p != b.odd);
                    assert(data@[p] == held[p]);
                    assert(held[p] == stage_out(before, twiddles@, s, f)[p]);
                }
            }
        }
        i = i + 1;
    }
    proof {
        assert forall|f: spec_fn(T, T, T) -> (T, T)| #[trigger] computes(*run, f) implies data@
            == stage_out(before, twiddles@, s, f) by {
            assert forall|p: int| 0 <= p < n implies data@[p] == stage_out(
                before,
                twiddles@,
                s,
                f,
            )[p] by {
                lemma_cell_butterfly(p as nat, n as nat, bits, s);
            }
            assert(data@ =~= stage_out(before, twiddles@, s, f));
        }
    }
}

/// The data after the first `count` butterfly stages.
pub open spec fn stages_out<T>(
    data: Seq<T>,
    twiddles: Seq<T>,
    f: spec_fn(T, T, T) -> (T, T),
    count: nat,
) -> Seq<T>
    decreases count,
{
    if count == 0 {
        data
    } else {
        stage_out(
            stages_out(data, twiddles, f, (count - 1) as nat),
            twiddles,
            (count - 1) as nat,
            f,
        )
    }
}

/// The data after the bit-reversal pass and all butterfly stages.
pub open spec fn passes_out<T>(
    data: Seq<T>,
    twiddles: Seq<T>,
    f: spec_fn(T, T, T) -> (T, T),
) -> Seq<T> {
    let bits = log2_of(data.len());
    stages_out(bit_reversed(data, bits), twiddles, f, bits)
}

/// Runs all passes of an FFT over `data`: the bit-reversal pass, then one
/// butterfly stage for each binary digit of the indices.
pub fn run_passes<T: Copy, F: Fn(T, T, T) -> (T, T)>(
    data: &mut Vec<T>,
    twiddles: &Vec<T>,
    run: &F,
)
    requires
        is_power_of_two(old(data).len() as nat),
        old(data).len() <= u32::MAX,
        twiddles.len() == old(data).len(),
        forall|a: T, w: T, b: T| #[trigger] run.requires((a, w, b)),
    ensures
        final(data).len() == old(data).len(),
        forall|f: spec_fn(T, T, T) -> (T, T)| #[trigger]
            computes(*run, f) ==> final(data)@ == passes_out(old(data)@, twiddles@, f),
{
    let n: usize = data.len();
    let bits: u32 = log2(n);
    let ghost before = data@;
    bit_reverse_pass(data);
    let ghost start = data@;
    let mut stage: u32 = 0;
    while stage < bits
        invariant
            stage <= bits,
            n == data.len(),
            twiddles.len() == n,
            bits == log2_of(n as nat),
            is_power_of_two(n as nat),
            n <= u32::MAX,
            forall|a: T, w: T, b: T| #[trigger] run.requires((a, w, b)),
            forall|f: spec_fn(T, T, T) -> (T, T)| #[trigger]
                computes(*run, f) ==> data@ == stages_out(start, twiddles@, f, stage as nat),
        decreases bits - stage,
    {
        stage_pass(data, twiddles, stage, run);
        stage = stage + 1;
    }
}

} // verus!
