//! Powers of two.
use vstd::arithmetic::power2::*;
use vstd::prelude::*;

verus! {

/// `n` is a power of two.
pub open spec fn is_power_of_two(n: nat) -> bool {
    exists|e: nat| n == #[trigger] pow2(e)
}

/// The exponent of a power of two.
pub open spec fn log2_of(n: nat) -> nat {
    choose|e: nat| n == #[trigger] pow2(e)
}

/// Two powers of two with equal values have equal exponents.
pub proof fn lemma_pow2_injective(a: nat, b: nat)
    requires
        pow2(a) == pow2(b),
    ensures
        a == b,
{
    if a < b {
        lemma_pow2_strictly_increases(a, b);
    } else if b < a {
        lemma_pow2_strictly_increases(b, a);
    }
}

/// `log2_of` inverts `pow2`.
pub proof fn lemma_log2_of_pow2(e: nat)
    ensures
        log2_of(pow2(e)) == e,
        is_power_of_two(pow2(e)),
{
    let c = log2_of(pow2(e));
    assert(pow2(e) == pow2(c));
    lemma_pow2_injective(e, c);
}

/// The exponent of a power of two that fits in 64 bits is below 64.
pub proof fn lemma_exponent_below_64(e: nat)
    requires
        pow2(e) <= u64::MAX,
    ensures
        e < 64,
{
    if e >= 64 {
        lemma2_to64_rest();
        lemma2_to64();
        if e > 64 {
            lemma_pow2_strictly_increases(64, e);
        }
    }
}

/// The base-two logarithm of a power of two.
pub fn log2(n: usize) -> (e: u32)
    requires
        is_power_of_two(n as nat),
    ensures
        pow2(e as nat) == n,
        e == log2_of(n as nat),
        e < 64,
{
    let ghost top: nat = log2_of(n as nat);
    proof {
        lemma_exponent_below_64(top);
        lemma2_to64();
    }
    let mut rest: usize = n;
    let mut e: u32 = 0;
    while rest > 1
        invariant
            e <= top < 64,
            rest == pow2((top - e) as nat),
            pow2(top) == n,
        decreases rest,
    {
        proof {
            lemma2_to64();
            assert(top - e != 0);
            lemma_pow2_unfold((top - e) as nat);
        }
        rest = rest / 2;
        e = e + 1;
    }
    proof {
        lemma2_to64();
        lemma_pow2_pos((top - e) as nat);
        if top - e > 0 {
            lemma_pow2_strictly_increases(0, (top - e) as nat);
        }
    }
    e
}

/// `p` is the smallest power of two that is at least `n`.
pub open spec fn is_next_power(p: nat, n: nat) -> bool {
    &&& is_power_of_two(p)
    &&& n <= p
    &&& forall|e: nat| n <= #[trigger] pow2(e) ==> p <= pow2(e)
}

/// The smallest power of two that is at least `n`.
pub open spec fn next_power(n: nat) -> nat {
    choose|p: nat| is_next_power(p, n)
}

/// There is only one smallest power of two.
pub proof fn lemma_next_power(p: nat, n: nat)
    requires
        is_next_power(p, n),
    ensures
        next_power(n) == p,
{
    let q = next_power(n);
    assert(is_next_power(q, n));
    assert(p == pow2(log2_of(p)) && q == pow2(log2_of(q)));
}

/// An exponent is smaller than its power of two.
proof fn lemma_exponent_below_power(e: nat)
    ensures
        e < pow2(e),
    decreases e,
{
    if e == 0 {
        lemma2_to64();
    } else {
        lemma_exponent_below_power((e - 1) as nat);
        lemma_pow2_unfold(e);
    }
}

/// There is a smallest power of two from `pow2(e)` on, if those before are too small.
proof fn lemma_next_power_from(n: nat, e: nat)
    requires
        forall|f: nat| f < e ==> #[trigger] pow2(f) < n,
    ensures
        is_next_power(next_power(n), n),
    decreases n - e,
{
    if n <= pow2(e) {
        lemma_log2_of_pow2(e);
        assert forall|f: nat| n <= #[trigger] pow2(f) implies pow2(e) <= pow2(f) by {
            if f > e {
                lemma_pow2_strictly_increases(e, f);
            }
        }
        lemma_next_power(pow2(e), n);
    } else {
        lemma_exponent_below_power(e);
        lemma_next_power_from(n, e + 1);
    }
}

/// Every number has a smallest power of two that is at least as large, and that power
/// is its own.
pub proof fn next_power_of_next_power(n: nat)
    ensures
        is_next_power(next_power(n), n),
        next_power(next_power(n)) == next_power(n),
{
    lemma_next_power_from(n, 0);
    lemma_next_power(next_power(n), next_power(n));
}

/// The smallest power of two that is at least `n`.
pub fn next_power_of_two(n: usize) -> (p: usize)
    requires
        exists|e: nat| n <= #[trigger] pow2(e) <= usize::MAX,
    ensures
        p == next_power(n as nat),
        is_next_power(p as nat, n as nat),
        is_power_of_two(n as nat) ==> p == n,
{
    let ghost cap: nat = choose|e: nat| n <= #[trigger] pow2(e) <= usize::MAX;
    let ghost mut e: nat = 0;
    let mut p: usize = 1;
    proof {
        lemma2_to64();
    }
    while p < n
        invariant
            p == pow2(e),
            n <= pow2(cap) <= usize::MAX,
            forall|f: nat| f < e ==> #[trigger] pow2(f) < n,
            e <= cap,
        decreases cap - e,
    {
        proof {
            lemma_pow2_unfold(e + 1);
            lemma_pow2_pos(e);
            if cap <= e {
                if cap < e {
                    lemma_pow2_strictly_increases(cap, e);
                }
                assert(false);
            }
            if e + 1 < cap {
                lemma_pow2_strictly_increases(e + 1, cap);
            }
        }
        p = p * 2;
        proof {
            e = e + 1;
        }
    }
    proof {
        assert forall|f: nat| n <= #[trigger] pow2(f) implies p <= pow2(f) by {
            if f >= e {
                if f > e {
                    lemma_pow2_strictly_increases(e, f);
                }
            }
        }
        lemma_next_power(p as nat, n as nat);
    }
    p
}

} // verus!
