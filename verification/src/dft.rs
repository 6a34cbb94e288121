//! The passes of [`crate::fft`] compute the discrete Fourier transform, and the
//! forward and inverse passes undo each other, in exact complex arithmetic.
use crate::complex::{
    complex, lemma_power_adds, lemma_power_multiplies, lemma_power_of_one,
    lemma_power_of_product, lemma_power_one, lemma_scaled_back, lemma_scaled_times,
    lemma_sum_equal, lemma_sum_single, lemma_sum_swap, lemma_sum_times, lemma_times_associates,
    lemma_times_commutes, lemma_times_distributes, lemma_times_units, minus_one, one, sum, zero,
    Complex,
};
use crate::fft::{
    bit_rev, bit_reversed, butterfly_of, even_cell, is_even_cell, lemma_bit_rev_bound,
    lemma_butterfly_bounds, lemma_cell_butterfly, odd_cell, passes_out, stage_out, stages_out,
    twiddle_cell,
};
use crate::power::lemma_log2_of_pow2;
use vstd::arithmetic::div_mod::*;
use vstd::arithmetic::mul::*;
use vstd::arithmetic::power2::*;
use vstd::prelude::*;

verus! {

/// The butterfly of the compute shader in exact arithmetic.
pub open spec fn complex_butterfly() -> spec_fn(Complex, Complex, Complex) -> (Complex, Complex) {
    |even: Complex, w: Complex, odd: Complex|
        (even.plus(w.times(odd)), even.minus(w.times(odd)))
}

/// The value at `z` of the polynomial whose coefficients are the `count` elements
/// of `x` at `start`, `start + step`, `start + 2*step`, ...
pub open spec fn poly(x: Seq<Complex>, start: nat, step: nat, count: nat, z: Complex) -> Complex {
    sum(|t: int| x[start + t * step].times(z.power(t as nat)), count)
}

/// The discrete Fourier transform of `x` for the root of unity `w`: element `k` is
/// the sum over `t` of `x[t] * w^(k*t)`.
pub open spec fn dft(x: Seq<Complex>, w: Complex) -> Seq<Complex> {
    Seq::new(x.len(), |k: int| poly(x, 0, 1, x.len(), w.power(k as nat)))
}

/// `w` is a root of unity of order `2^bits`.
pub open spec fn is_root(w: Complex, bits: nat) -> bool {
    bits > 0 ==> w.power(pow2((bits - 1) as nat)) == minus_one()
}

/// `table` holds, for each stage, the powers of `w` that the butterflies of the
/// stage multiply by.
pub open spec fn is_twiddle_table(table: Seq<Complex>, w: Complex, bits: nat) -> bool {
    &&& table.len() == pow2(bits)
    &&& forall|stage: nat, k: nat|
        #![trigger table[pow2(stage) - 1 + k]]
        stage < bits && k < pow2(stage) ==> table[pow2(stage) - 1 + k] == w.power(
            k * pow2((bits - stage - 1) as nat),
        )
}

/// A polynomial splits into its even and its odd coefficients.
proof fn lemma_poly_split(x: Seq<Complex>, start: nat, step: nat, half: nat, z: Complex)
    ensures
        poly(x, start, step, 2 * half, z) == poly(x, start, 2 * step, half, z.times(z)).plus(
            z.times(poly(x, start + step, 2 * step, half, z.times(z))),
        ),
    decreases half,
{
    let zz = z.times(z);
    let whole = |t: int| x[start + t * step].times(z.power(t as nat));
    let evens = |t: int| x[start + t * (2 * step)].times(zz.power(t as nat));
    let odds = |t: int| x[start + step + t * (2 * step)].times(zz.power(t as nat));
    if half == 0 {
        lemma_times_units(z);
    } else {
        let c = (half - 1) as nat;
        lemma_poly_split(x, start, step, c, z);
        assert(sum(whole, 2 * half) == sum(whole, 2 * c).plus(whole((2 * c) as int)).plus(
            whole((2 * c + 1) as int),
        )) by {
            reveal_with_fuel(sum, 3);
            assert((2 * half - 1) as nat == 2 * c + 1);
        }
        assert(start + (2 * c) * step == start + c * (2 * step)) by (nonlinear_arith);
        assert(start + (2 * c + 1) * step == start + step + c * (2 * step)) by (nonlinear_arith);
        lemma_power_one(z);
        lemma_power_multiplies(z, 2, c);
        assert(zz.power(c) == z.power(2 * c));
        assert(whole((2 * c) as int) == evens(c as int));
        // whole(2c + 1) = z * odds(c)
        let xo = x[(start + step + c * (2 * step)) as int];
        assert(z.power((2 * c + 1) as nat) == z.power(2 * c).times(z));
        lemma_times_associates(xo, zz.power(c), z);
        lemma_times_commutes(odds(c as int), z);
        assert(whole((2 * c + 1) as int) == z.times(odds(c as int)));
        lemma_times_distributes(z, sum(odds, c), odds(c as int));
        assert(sum(evens, half) == sum(evens, c).plus(evens(c as int)));
        assert(sum(odds, half) == sum(odds, c).plus(odds(c as int)));
    }
}

/// The polynomial that cell `p` holds after `stage` butterfly stages.
spec fn cell_after(x: Seq<Complex>, w: Complex, bits: nat, stage: nat, p: nat) -> Complex {
    let gap = pow2((bits - stage) as nat);
    poly(
        x,
        bit_rev(p / pow2(stage), (bits - stage) as nat),
        gap,
        pow2(stage),
        w.power((p % pow2(stage)) * gap),
    )
}

/// Doubling a number adds a zero digit, which the reversal moves to the top.
proof fn lemma_bit_rev_children(b: nat, bits: nat)
    ensures
        bit_rev(2 * b, bits + 1) == bit_rev(b, bits),
        bit_rev(2 * b + 1, bits + 1) == pow2(bits) + bit_rev(b, bits),
{
    let p = pow2(bits);
    assert((2 * b) % 2 == 0 && (2 * b) / 2 == b);
    assert((2 * b + 1) % 2 == 1 && (2 * b + 1) / 2 == b);
    assert(0 * p == 0 && 1 * p == p);
}

/// One more stage turns the polynomials of a stage into those of the next.
proof fn lemma_stage_step(
    x: Seq<Complex>,
    data: Seq<Complex>,
    table: Seq<Complex>,
    w: Complex,
    bits: nat,
    stage: nat,
    p: nat,
)
    requires
        stage < bits,
        x.len() == pow2(bits),
        data.len() == x.len(),
        is_root(w, bits),
        is_twiddle_table(table, w, bits),
        forall|q: int| 0 <= q < x.len() ==> #[trigger] data[q] == cell_after(x, w, bits, stage, q as nat),
        p < x.len(),
    ensures
        stage_out(data, table, stage, complex_butterfly())[p as int] == cell_after(
            x,
            w,
            bits,
            stage + 1,
            p,
        ),
{
    let n = x.len();
    let stride = pow2(stage);
    let block = 2 * stride;
    let m = (bits - stage - 1) as nat;
    let gap = pow2(m);
    lemma_pow2_pos(stage);
    lemma_pow2_pos(m);
    lemma_pow2_unfold(stage + 1);
    lemma_pow2_unfold(m + 1);
    assert((bits - stage) as nat == m + 1);
    let b = p / block;
    let offset = p % block;
    let upper = !is_even_cell(p, stage);
    let k: nat = if upper {
        (offset - stride) as nat
    } else {
        offset
    };
    let i = butterfly_of(p, stage);
    lemma_cell_butterfly(p, n, bits, stage);
    lemma_butterfly_bounds(i, n, bits, stage);
    lemma_fundamental_div_mod(p as int, block as int);
    assert(b * stride + k == i);
    lemma_fundamental_div_mod_converse(i as int, stride as int, b as int, k as int);
    let e = even_cell(i, stage);
    let o = odd_cell(i, stage);
    assert(e == (2 * b) * stride + k) by (nonlinear_arith)
        requires
            e == b * (2 * stride) + k,
    ;
    assert(o == (2 * b + 1) * stride + k) by (nonlinear_arith)
        requires
            o == b * (2 * stride) + k + stride,
    ;
    lemma_fundamental_div_mod_converse(e as int, stride as int, (2 * b) as int, k as int);
    lemma_fundamental_div_mod_converse(o as int, stride as int, (2 * b + 1) as int, k as int);
    lemma_bit_rev_children(b, m);
    let start = bit_rev(b, m);
    let tw = w.power(k * gap);
    assert(table[twiddle_cell(i, stage) as int] == table[pow2(stage) - 1 + k]);
    assert(table[twiddle_cell(i, stage) as int] == tw);
    // the square of the twiddle factor
    lemma_power_adds(w, k * gap, k * gap);
    assert(k * (2 * gap) == k * gap + k * gap) by (nonlinear_arith);
    let zz = tw.times(tw);
    assert(data[e as int] == poly(x, start, 2 * gap, stride, zz));
    assert(start + gap == gap + start);
    assert(data[o as int] == poly(x, start + gap, 2 * gap, stride, zz));
    let z = w.power(offset * gap);
    if upper {
        // w^((k + stride) * gap) = -w^(k * gap)
        assert(offset * gap == k * gap + stride * gap) by (nonlinear_arith)
            requires
                offset == k + stride,
        ;
        lemma_pow2_adds(stage, m);
        assert(stage + m == (bits - 1) as nat);
        lemma_power_adds(w, k * gap, stride * gap);
        lemma_times_units(tw);
        assert(z == zero().minus(tw));
        // (-tw) * (-tw) = tw * tw
        assert(z == tw.times(minus_one()));
        lemma_times_units(minus_one());
        lemma_power_of_product(tw, minus_one(), 2);
        lemma_power_one(tw);
        lemma_power_one(z);
        lemma_power_one(minus_one());
        assert(minus_one().times(minus_one()) == one());
        lemma_times_units(zz);
        assert(z.times(z) == zz);
        // z * odd = -(tw * odd)
        let odd = data[o as int];
        lemma_times_commutes(tw, minus_one());
        lemma_times_associates(minus_one(), tw, odd);
        lemma_times_units(tw.times(odd));
        assert(z.times(odd) == zero().minus(tw.times(odd)));
    }
    lemma_poly_split(x, start, gap, stride, z);
    assert(z.times(z) == zz);
    assert((stage + 1) as nat == stage + 1 && (bits - (stage + 1)) as nat == m);
    assert(cell_after(x, w, bits, stage + 1, p) == poly(x, start, gap, 2 * stride, z));
}

/// After `stage` stages every cell holds its polynomial.
proof fn lemma_stages(x: Seq<Complex>, table: Seq<Complex>, w: Complex, bits: nat, stage: nat)
    requires
        stage <= bits,
        x.len() == pow2(bits),
        is_root(w, bits),
        is_twiddle_table(table, w, bits),
    ensures
        stages_out(bit_reversed(x, bits), table, complex_butterfly(), stage).len() == x.len(),
        forall|q: int|
            0 <= q < x.len() ==> #[trigger] stages_out(
                bit_reversed(x, bits),
                table,
                complex_butterfly(),
                stage,
            )[q] == cell_after(x, w, bits, stage, q as nat),
    decreases stage,
{
    let f = complex_butterfly();
    let start = bit_reversed(x, bits);
    if stage == 0 {
        lemma2_to64();
        assert forall|q: int| 0 <= q < x.len() implies #[trigger] stages_out(start, table, f, 0)[q]
            == cell_after(x, w, bits, 0, q as nat) by {
            let r = bit_rev(q as nat, bits);
            lemma_bit_rev_bound(q as nat, bits);
            assert(q as nat / 1 == q as nat && q as nat % 1 == 0);
            let gap = pow2(bits);
            assert(0 * gap == 0);
            let term = |t: int| x[r + t * gap].times(one().power(t as nat));
            assert(sum(term, 1) == zero().plus(term(0))) by {
                reveal_with_fuel(sum, 2);
            }
            assert(r + 0 * gap == r);
            lemma_times_units(x[r as int]);
            assert(w.power(0) == one());
            assert(term(0) == x[r as int]);
        }
    } else {
        let c = (stage - 1) as nat;
        lemma_stages(x, table, w, bits, c);
        let data = stages_out(start, table, f, c);
        assert forall|q: int| 0 <= q < x.len() implies #[trigger] stages_out(
            start,
            table,
            f,
            stage,
        )[q] == cell_after(x, w, bits, stage, q as nat) by {
            lemma_stage_step(x, data, table, w, bits, c, q as nat);
        }
    }
}

/// The passes compute the discrete Fourier transform: for every length `2^bits`,
/// every root of unity `w` of that order and the twiddle table of `w`, what the
/// bit-reversal pass and the butterfly stages leave is the transform of the input.
pub proof fn passes_compute_dft(x: Seq<Complex>, table: Seq<Complex>, w: Complex, bits: nat)
    requires
        x.len() == pow2(bits),
        is_root(w, bits),
        is_twiddle_table(table, w, bits),
    ensures
        passes_out(x, table, complex_butterfly()) == dft(x, w),
{
    lemma_log2_of_pow2(bits);
    lemma_stages(x, table, w, bits, bits);
    lemma2_to64();
    lemma_pow2_pos(bits);
    let out = passes_out(x, table, complex_butterfly());
    assert forall|k: int| 0 <= k < x.len() implies out[k] == dft(x, w)[k] by {
        lemma_small_div_mod(k as nat, pow2(bits));
        assert(bit_rev(0, 0) == 0);
        assert((k as nat) * 1 == k);
        assert(out[k] == cell_after(x, w, bits, bits, k as nat));
    }
    assert(out =~= dft(x, w));
}

/// A number below the divisor is its own remainder.
proof fn lemma_small_div_mod(a: nat, d: nat)
    requires
        a < d,
    ensures
        a / d == 0,
        a % d == a,
{
    lemma_small_mod(a, d);
    lemma_basic_div(a as int, d as int);
}

/// The sum of the first `n` powers of `z`.
spec fn geometric(z: Complex, n: nat) -> Complex {
    sum(|k: int| z.power(k as nat), n)
}

/// A geometric sum of an even number of terms has the factor `1 + z`.
proof fn lemma_geometric_split(z: Complex, half: nat)
    ensures
        geometric(z, 2 * half) == one().plus(z).times(geometric(z.times(z), half)),
    decreases half,
{
    let zz = z.times(z);
    let f = one().plus(z);
    let terms = |k: int| z.power(k as nat);
    let squares = |k: int| zz.power(k as nat);
    if half == 0 {
        lemma_times_units(f);
    } else {
        let c = (half - 1) as nat;
        lemma_geometric_split(z, c);
        assert(sum(terms, 2 * half) == sum(terms, 2 * c).plus(terms((2 * c) as int)).plus(
            terms((2 * c + 1) as int),
        )) by {
            reveal_with_fuel(sum, 3);
            assert((2 * half - 1) as nat == 2 * c + 1);
        }
        assert(sum(squares, half) == sum(squares, c).plus(squares(c as int)));
        lemma_times_distributes(f, sum(squares, c), squares(c as int));
        lemma_power_one(z);
        lemma_power_multiplies(z, 2, c);
        let q = zz.power(c);
        assert(q == z.power(2 * c));
        lemma_times_distributes(q, one(), z);
        lemma_times_units(q);
        lemma_times_commutes(q, z);
        assert(z.power((2 * c + 1) as nat) == z.power(2 * c).times(z));
        assert(f.times(q) == terms((2 * c) as int).plus(terms((2 * c + 1) as int)));
    }
}

/// A geometric sum of `2^bits` terms vanishes if some `2^i`-th power of its base,
/// `i < bits`, is minus one.
proof fn lemma_geometric_vanishes(z: Complex, i: nat, bits: nat)
    requires
        i < bits,
        z.power(pow2(i)) == minus_one(),
    ensures
        geometric(z, pow2(bits)) == zero(),
    decreases bits,
{
    let c = (bits - 1) as nat;
    lemma_pow2_unfold(bits);
    lemma_geometric_split(z, pow2(c));
    let zz = z.times(z);
    if i == 0 {
        lemma2_to64();
        lemma_power_one(z);
        assert(one().plus(z) == zero());
        lemma_times_units(geometric(zz, pow2(c)));
    } else {
        let j = (i - 1) as nat;
        lemma_pow2_unfold(i);
        lemma_power_one(z);
        lemma_power_multiplies(z, 2, pow2(j));
        lemma_geometric_vanishes(zz, j, c);
        lemma_times_units(one().plus(z));
    }
}

/// Odd powers of minus one are minus one.
proof fn lemma_odd_power_of_minus_one(k: nat)
    ensures
        minus_one().power(2 * k + 1) == minus_one(),
    decreases k,
{
    lemma_power_one(minus_one());
    lemma_times_units(minus_one());
    lemma_power_multiplies(minus_one(), 2, k);
    assert(minus_one().power(2) == one());
    lemma_power_of_one(k);
    lemma_power_adds(minus_one(), 2 * k, 1);
}

/// Some `2^i`-th power of a power `w^d` that is not a full turn is minus one.
proof fn lemma_root_power(w: Complex, bits: nat, d: nat) -> (i: nat)
    requires
        is_root(w, bits),
        0 < d < pow2(bits),
    ensures
        i < bits,
        w.power(d).power(pow2(i)) == minus_one(),
    decreases bits,
{
    lemma2_to64();
    assert(bits > 0);
    let c = (bits - 1) as nat;
    lemma_pow2_unfold(bits);
    if d % 2 == 1 {
        let k = d / 2;
        let h = pow2(c);
        lemma_power_multiplies(w, d, h);
        lemma_power_multiplies(w, h, d);
        assert(d * h == h * d) by (nonlinear_arith);
        lemma_odd_power_of_minus_one(k);
        assert(2 * k + 1 == d);
        c
    } else {
        let k = d / 2;
        assert(c > 0) by {
            if c == 0 {
                assert(d < 2);
            }
        }
        lemma_pow2_unfold(c);
        let ww = w.power(2);
        lemma_power_multiplies(w, 2, pow2((c - 1) as nat));
        assert(is_root(ww, c));
        let i = lemma_root_power(ww, c, k);
        lemma_power_multiplies(w, 2, k);
        assert(2 * k == d);
        i
    }
}

/// The inverse of a root of unity is a root of unity of the same order.
pub(crate) proof fn lemma_inverse_root(w: Complex, v: Complex, bits: nat)
    requires
        is_root(w, bits),
        w.times(v) == one(),
    ensures
        is_root(v, bits),
{
    if bits > 0 {
        let h = pow2((bits - 1) as nat);
        lemma_power_of_product(w, v, h);
        lemma_power_of_one(h);
        lemma_times_units(v.power(h));
        assert(zero().minus(v.power(h)) == one());
        assert(v.power(h) == minus_one());
    }
}

/// `w^t * v^j` is `w^(t-j)` or `v^(j-t)`, whichever has an exponent.
proof fn lemma_cancel_powers(w: Complex, v: Complex, t: nat, j: nat)
    requires
        w.times(v) == one(),
    ensures
        t >= j ==> w.power(t).times(v.power(j)) == w.power((t - j) as nat),
        t <= j ==> w.power(t).times(v.power(j)) == v.power((j - t) as nat),
{
    if t >= j {
        let d = (t - j) as nat;
        lemma_power_adds(w, d, j);
        lemma_times_associates(w.power(d), w.power(j), v.power(j));
        lemma_power_of_product(w, v, j);
        lemma_power_of_one(j);
        lemma_times_units(w.power(d));
    }
    if t <= j {
        let d = (j - t) as nat;
        lemma_power_adds(v, t, d);
        lemma_times_associates(w.power(t), v.power(t), v.power(d));
        lemma_power_of_product(w, v, t);
        lemma_power_of_one(t);
        lemma_times_units(v.power(d));
    }
}

/// A geometric sum of ones counts its terms.
proof fn lemma_geometric_of_one(n: nat)
    ensures
        geometric(one(), n) == complex(n as real, 0real),
    decreases n,
{
    if n > 0 {
        lemma_geometric_of_one((n - 1) as nat);
        lemma_power_of_one((n - 1) as nat);
        assert((n - 1) as real == n as real - 1real);
    }
}

/// The sum of the products of the powers of `w^t` and `v^j` is the number of terms
/// for `t == j` and zero otherwise.
proof fn lemma_orthogonal(w: Complex, v: Complex, bits: nat, t: nat, j: nat)
    requires
        is_root(w, bits),
        w.times(v) == one(),
        t < pow2(bits),
        j < pow2(bits),
    ensures
        geometric(w.power(t).times(v.power(j)), pow2(bits)) == if t == j {
            complex(pow2(bits) as real, 0real)
        } else {
            zero()
        },
{
    lemma_cancel_powers(w, v, t, j);
    if t == j {
        lemma_geometric_of_one(pow2(bits));
    } else if t > j {
        let i = lemma_root_power(w, bits, (t - j) as nat);
        lemma_geometric_vanishes(w.power((t - j) as nat), i, bits);
    } else {
        lemma_inverse_root(w, v, bits);
        let i = lemma_root_power(v, bits, (j - t) as nat);
        lemma_geometric_vanishes(v.power((j - t) as nat), i, bits);
    }
}

/// Transforming with `w` and then with its inverse `v` multiplies every element by
/// the length.
pub proof fn lemma_dft_inverse(x: Seq<Complex>, w: Complex, v: Complex, bits: nat)
    requires
        x.len() == pow2(bits),
        is_root(w, bits),
        w.times(v) == one(),
    ensures
        dft(dft(x, w), v) == x.map_values(|c: Complex| c.times(complex(x.len() as real, 0real))),
{
    let n = x.len();
    let mid = dft(x, w);
    let back = dft(mid, v);
    let want = x.map_values(|c: Complex| c.times(complex(n as real, 0real)));
    assert forall|j: int| 0 <= j < n implies back[j] == want[j] by {
        let vj = v.power(j as nat);
        let f = |k: int, t: int|
            x[t].times(w.power(k as nat).power(t as nat)).times(vj.power(k as nat));
        let outer = |k: int| mid[0 + k * 1].times(vj.power(k as nat));
        let rows = |k: int| sum(|t: int| f(k, t), n);
        assert forall|k: int| 0 <= k < n implies #[trigger] outer(k) == rows(k) by {
            let inner = |t: int| x[0 + t * 1].times(w.power(k as nat).power(t as nat));
            let c = vj.power(k as nat);
            lemma_sum_times(inner, c, n);
            lemma_sum_equal(|t: int| inner(t).times(c), |t: int| f(k, t), n);
        }
        lemma_sum_equal(outer, rows, n);
        lemma_sum_swap(f, n, n);
        let cols = |t: int| sum(|k: int| f(k, t), n);
        let single = |t: int| if t == j {
            x[j].times(complex(n as real, 0real))
        } else {
            zero()
        };
        assert forall|t: int| 0 <= t < n implies #[trigger] cols(t) == single(t) by {
            let g = w.power(t as nat).times(vj);
            let powers = |k: int| g.power(k as nat);
            let column = |k: int| f(k, t);
            let factored = |k: int| x[t].times(powers(k));
            assert forall|k: int| 0 <= k < n implies #[trigger] column(k) == factored(k) by {
                let (kn, tn) = (k as nat, t as nat);
                lemma_power_multiplies(w, kn, tn);
                lemma_power_multiplies(w, tn, kn);
                assert(kn * tn == tn * kn) by (nonlinear_arith);
                lemma_power_of_product(w.power(tn), vj, kn);
                lemma_times_associates(x[t], w.power(kn).power(tn), vj.power(kn));
            }
            lemma_sum_equal(column, factored, n);
            lemma_sum_times(powers, x[t], n);
            lemma_orthogonal(w, v, bits, t as nat, j as nat);
            assert(geometric(g, n) == sum(powers, n));
            lemma_times_units(x[t]);
        }
        lemma_sum_equal(cols, single, n);
        lemma_sum_single(single, n, j);
    }
    assert(back =~= want);
}

/// The data divided by its length.
pub open spec fn normalized(data: Seq<Complex>) -> Seq<Complex> {
    data.map_values(|c: Complex| c.scaled(1real / (data.len() as real)))
}

/// Transforming with a root of unity, transforming with its inverse and dividing by
/// the length gives every input back.
pub proof fn inverse_dft_undoes_dft(x: Seq<Complex>, w: Complex, v: Complex, bits: nat)
    requires
        x.len() == pow2(bits),
        is_root(w, bits),
        w.times(v) == one(),
    ensures
        normalized(dft(dft(x, w), v)) == x,
{
    lemma_dft_inverse(x, w, v, bits);
    lemma_pow2_pos(bits);
    let n = x.len() as real;
    assert(n != 0real);
    let back = dft(dft(x, w), v);
    assert forall|j: int| 0 <= j < x.len() implies normalized(back)[j] == x[j] by {
        lemma_scaled_back(x[j], n);
    }
    assert(normalized(back) =~= x);
}

/// The passes of an inverse transform, divided by the length, undo the passes of the
/// forward transform, for every length `2^bits` and every input.
pub proof fn inverse_passes_undo_forward_passes(
    x: Seq<Complex>,
    forward: Seq<Complex>,
    backward: Seq<Complex>,
    w: Complex,
    v: Complex,
    bits: nat,
)
    requires
        x.len() == pow2(bits),
        is_root(w, bits),
        w.times(v) == one(),
        is_twiddle_table(forward, w, bits),
        is_twiddle_table(backward, v, bits),
    ensures
        normalized(
            passes_out(passes_out(x, forward, complex_butterfly()), backward, complex_butterfly()),
        ) == x,
{
    lemma_inverse_root(w, v, bits);
    passes_compute_dft(x, forward, w, bits);
    passes_compute_dft(dft(x, w), backward, v, bits);
    inverse_dft_undoes_dft(x, w, v, bits);
}

/// Dividing by the length before a transform is dividing after it.
pub proof fn transform_of_normalized(x: Seq<Complex>, w: Complex)
    ensures
        dft(normalized(x), w) == normalized(dft(x, w)),
{
    let n = x.len();
    let r = 1real / (n as real);
    let c = complex(r, 0real);
    let left = dft(normalized(x), w);
    let right = normalized(dft(x, w));
    assert forall|k: int| 0 <= k < n implies left[k] == right[k] by {
        let z = w.power(k as nat);
        let terms = |t: int| x[0 + t * 1].times(z.power(t as nat));
        let small = |t: int| normalized(x)[0 + t * 1].times(z.power(t as nat));
        assert forall|t: int| 0 <= t < n implies #[trigger] small(t) == c.times(terms(t)) by {
            lemma_scaled_times(x[t], r);
            lemma_times_associates(c, x[t], z.power(t as nat));
        }
        lemma_sum_equal(small, |t: int| c.times(terms(t)), n);
        lemma_sum_times(terms, c, n);
        lemma_scaled_times(dft(x, w)[k], r);
    }
    assert(left =~= right);
}

/// Transforming with the inverse of a root of unity, dividing by the length and
/// transforming with the root gives every input back.
pub proof fn dft_undoes_inverse_dft(x: Seq<Complex>, w: Complex, v: Complex, bits: nat)
    requires
        x.len() == pow2(bits),
        is_root(w, bits),
        w.times(v) == one(),
    ensures
        dft(normalized(dft(x, v)), w) == x,
{
    lemma_inverse_root(w, v, bits);
    lemma_times_commutes(w, v);
    inverse_dft_undoes_dft(x, v, w, bits);
    transform_of_normalized(dft(x, v), w);
}

/// The passes of a forward transform undo the passes of the inverse transform, divided
/// by the length, for every length `2^bits` and every input.
pub proof fn forward_passes_undo_inverse_passes(
    x: Seq<Complex>,
    forward: Seq<Complex>,
    backward: Seq<Complex>,
    w: Complex,
    v: Complex,
    bits: nat,
)
    requires
        x.len() == pow2(bits),
        is_root(w, bits),
        w.times(v) == one(),
        is_twiddle_table(forward, w, bits),
        is_twiddle_table(backward, v, bits),
    ensures
        passes_out(
            normalized(passes_out(x, backward, complex_butterfly())),
            forward,
            complex_butterfly(),
        ) == x,
{
    lemma_inverse_root(w, v, bits);
    passes_compute_dft(x, backward, v, bits);
    passes_compute_dft(normalized(dft(x, v)), forward, w, bits);
    dft_undoes_inverse_dft(x, w, v, bits);
}

/// The transform of an impulse at index 0 is one at every frequency.
pub proof fn impulse_has_flat_spectrum(x: Seq<Complex>, w: Complex)
    requires
        x.len() > 0,
        x[0] == one(),
        forall|t: int| 0 < t < x.len() ==> #[trigger] x[t] == zero(),
    ensures
        forall|k: int| 0 <= k < x.len() ==> #[trigger] dft(x, w)[k] == one(),
{
    assert forall|k: int| 0 <= k < x.len() implies #[trigger] dft(x, w)[k] == one() by {
        let z = w.power(k as nat);
        let terms = |t: int| x[0 + t * 1].times(z.power(t as nat));
        assert forall|t: int| 0 <= t < x.len() && t != 0 implies #[trigger] terms(t) == zero() by {
            assert(x[t] == zero());
            lemma_times_units(z.power(t as nat));
        }
        lemma_sum_single(terms, x.len(), 0);
        lemma_times_units(one());
    }
}

/// The circular convolution of `x` with `kernel`: element `p` is the sum over `t` of
/// `x[t] * kernel[(p - t) mod n]`.
pub open spec fn convolution(x: Seq<Complex>, kernel: Seq<Complex>) -> Seq<Complex> {
    Seq::new(
        x.len(),
        |p: int|
            sum(|t: int| x[t].times(kernel[(p - t) % (x.len() as int)]), x.len()),
    )
}

/// The products of the elements of two sequences.
pub open spec fn products(a: Seq<Complex>, b: Seq<Complex>) -> Seq<Complex> {
    Seq::new(a.len(), |k: int| a[k].times(b[k]))
}

/// Taking the first term of a sum of `n + 1` terms apart.
proof fn lemma_sum_first(f: spec_fn(int) -> Complex, n: nat)
    ensures
        sum(f, n + 1) == f(0).plus(sum(|t: int| f(t + 1), n)),
    decreases n,
{
    if n == 0 {
        reveal_with_fuel(sum, 2);
    } else {
        let c = (n - 1) as nat;
        lemma_sum_first(f, c);
        assert(c + 1 == n);
        let shifted = |t: int| f(t + 1);
        assert(sum(shifted, n) == sum(shifted, c).plus(f(n as int)));
    }
}

/// A sum over all residues does not depend on where it starts.
proof fn lemma_sum_rotates(g: spec_fn(int) -> Complex, n: nat, shift: nat)
    requires
        n > 0,
    ensures
        sum(|p: int| g((p - shift) % (n as int)), n) == sum(g, n),
    decreases shift,
{
    let m = n as int;
    if shift == 0 {
        let here = |p: int| g((p - shift) % m);
        assert forall|p: int| 0 <= p < n implies #[trigger] here(p) == g(p) by {
            lemma_small_mod(p as nat, n);
        }
        lemma_sum_equal(here, g, n);
    } else {
        let c = (shift - 1) as nat;
        lemma_sum_rotates(g, n, c);
        let here = |p: int| g((p - shift) % m);
        let there = |p: int| g((p - c) % m);
        let k = (n - 1) as nat;
        // here(p + 1) == there(p), and here(0) == there(n - 1)
        lemma_sum_first(here, k);
        let next = |t: int| here(t + 1);
        assert forall|t: int| 0 <= t < k implies #[trigger] next(t) == there(t) by {
            assert(t + 1 - shift == t - c);
        }
        lemma_sum_equal(next, there, k);
        assert(here(0) == there(k as int)) by {
            lemma_mod_add_multiples_vanish(0 - shift, m);
            assert(m + (0 - shift) == k - c);
        }
        assert(sum(there, n) == sum(there, k).plus(there(k as int)));
        assert(k + 1 == n);
    }
}

/// Exponents of a root of unity count modulo its order.
proof fn lemma_root_exponent(w: Complex, bits: nat, a: nat)
    requires
        is_root(w, bits),
        bits == 0 ==> w == one(),
    ensures
        w.power(a) == w.power(a % pow2(bits)),
{
    let n = pow2(bits);
    lemma_pow2_pos(bits);
    lemma_fundamental_div_mod(a as int, n as int);
    let q = a / n;
    let r = a % n;
    assert(w.power(n) == one()) by {
        if bits == 0 {
            lemma_power_of_one(n);
        } else {
            let h = pow2((bits - 1) as nat);
            lemma_pow2_unfold(bits);
            lemma_power_adds(w, h, h);
            lemma_times_units(minus_one());
        }
    }
    lemma_power_multiplies(w, n, q);
    lemma_power_of_one(q);
    lemma_power_adds(w, n * q, r);
    lemma_times_units(w.power(r));
}

/// The transform of a circular convolution is the product of the transforms.
pub proof fn convolution_theorem(x: Seq<Complex>, kernel: Seq<Complex>, w: Complex, bits: nat)
    requires
        x.len() == pow2(bits),
        kernel.len() == x.len(),
        is_root(w, bits),
        bits == 0 ==> w == one(),
    ensures
        dft(convolution(x, kernel), w) == products(dft(x, w), dft(kernel, w)),
{
    let n = x.len();
    let m = n as int;
    lemma_pow2_pos(bits);
    let conv = convolution(x, kernel);
    let left = dft(conv, w);
    let right = products(dft(x, w), dft(kernel, w));
    assert forall|k: int| 0 <= k < n implies left[k] == right[k] by {
        let z = w.power(k as nat);
        let f = |p: int, t: int| x[t].times(kernel[(p - t) % m]).times(z.power(p as nat));
        // the transform as a double sum
        let outer = |p: int| conv[0 + p * 1].times(z.power(p as nat));
        let rows = |p: int| sum(|t: int| f(p, t), n);
        assert forall|p: int| 0 <= p < n implies #[trigger] outer(p) == rows(p) by {
            let inner = |t: int| x[t].times(kernel[(p - t) % m]);
            let c = z.power(p as nat);
            lemma_sum_times(inner, c, n);
            lemma_sum_equal(|t: int| inner(t).times(c), |t: int| f(p, t), n);
        }
        lemma_sum_equal(outer, rows, n);
        lemma_sum_swap(f, n, n);
        // each column is a term of the transform of x times the transform of the kernel
        let spectrum = dft(kernel, w)[k];
        let kernel_terms = |q: int| kernel[0 + q * 1].times(z.power(q as nat));
        let cols = |t: int| sum(|p: int| f(p, t), n);
        let x_terms = |t: int| x[0 + t * 1].times(z.power(t as nat));
        let want = |t: int| x_terms(t).times(spectrum);
        assert forall|t: int| 0 <= t < n implies #[trigger] cols(t) == want(t) by {
            let column = |p: int| f(p, t);
            let zt = z.power(t as nat);
            let rotated = |p: int| kernel_terms((p - t) % m);
            let scaled = |p: int| x_terms(t).times(rotated(p));
            assert forall|p: int| 0 <= p < n implies #[trigger] column(p) == scaled(p) by {
                let q = (p - t) % m;
                lemma_mod_bound(p - t, m);
                // z^p == z^t * z^q
                let (tn, qn) = (t as nat, q as nat);
                lemma_power_adds(z, tn, qn);
                assert((tn + qn) % n == p) by {
                    lemma_add_mod_noop_right(t, p - t, m);
                    lemma_small_mod(p as nat, n);
                }
                lemma_z_exponent(w, bits, k as nat, tn + qn, p as nat);
                // x k (z^t z^q) == (x z^t)(k z^q)
                let (xv, kv, zq) = (x[t], kernel[q], z.power(qn));
                lemma_times_associates(xv, kv, zt.times(zq));
                lemma_times_associates(kv, zt, zq);
                lemma_times_commutes(kv, zt);
                lemma_times_associates(zt, kv, zq);
                lemma_times_associates(xv, zt, kv.times(zq));
            }
            lemma_sum_equal(column, scaled, n);
            lemma_sum_times(rotated, x_terms(t), n);
            lemma_sum_rotates(kernel_terms, n, t as nat);
            assert(sum(rotated, n) == sum(kernel_terms, n)) by {
                lemma_sum_equal(rotated, |p: int| kernel_terms((p - t as nat) % m), n);
            }
        }
        lemma_sum_equal(cols, want, n);
        lemma_sum_times(x_terms, spectrum, n);
    }
    assert(left =~= right);
}

/// Exponents of a power of a root of unity count modulo the order of the root.
proof fn lemma_z_exponent(w: Complex, bits: nat, k: nat, a: nat, p: nat)
    requires
        is_root(w, bits),
        bits == 0 ==> w == one(),
        a % pow2(bits) == p,
    ensures
        w.power(k).power(a) == w.power(k).power(p),
{
    let n = pow2(bits);
    lemma_pow2_pos(bits);
    lemma_power_multiplies(w, k, a);
    lemma_power_multiplies(w, k, p);
    lemma_power_multiplies(w, a, k);
    lemma_power_multiplies(w, p, k);
    assert(k * a == a * k && k * p == p * k) by (nonlinear_arith);
    lemma_root_exponent(w, bits, a);
}

/// Multiplying spectra convolves: the inverse transform of the product of the
/// transforms of `x` and `kernel`, divided by the length, is their circular
/// convolution.
pub proof fn spectral_product_convolves(
    x: Seq<Complex>,
    kernel: Seq<Complex>,
    w: Complex,
    v: Complex,
    bits: nat,
)
    requires
        x.len() == pow2(bits),
        kernel.len() == x.len(),
        is_root(w, bits),
        bits == 0 ==> w == one(),
        w.times(v) == one(),
    ensures
        normalized(dft(products(dft(x, w), dft(kernel, w)), v)) == convolution(x, kernel),
{
    convolution_theorem(x, kernel, w, bits);
    inverse_dft_undoes_dft(convolution(x, kernel), w, v, bits);
}

} // verus!
