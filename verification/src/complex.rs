//! Exact complex numbers, as the model of what the compute passes approximate in
//! single precision.
use vstd::prelude::*;

verus! {

/// A complex number.
pub struct Complex {
    pub re: real,
    pub im: real,
}

/// The complex number `re + im*i`.
pub open spec fn complex(re: real, im: real) -> Complex {
    Complex { re, im }
}

/// Zero.
pub open spec fn zero() -> Complex {
    complex(0real, 0real)
}

/// One.
pub open spec fn one() -> Complex {
    complex(1real, 0real)
}

/// Minus one.
pub open spec fn minus_one() -> Complex {
    complex(-1real, 0real)
}

impl Complex {
    /// The sum.
    pub open spec fn plus(self, other: Complex) -> Complex {
        complex(self.re + other.re, self.im + other.im)
    }

    /// The difference.
    pub open spec fn minus(self, other: Complex) -> Complex {
        complex(self.re - other.re, self.im - other.im)
    }

    /// The product.
    #[verifier::opaque]
    pub open spec fn times(self, other: Complex) -> Complex {
        complex(
            self.re * other.re - self.im * other.im,
            self.re * other.im + self.im * other.re,
        )
    }

    /// The product with a real number.
    pub open spec fn scaled(self, factor: real) -> Complex {
        complex(self.re * factor, self.im * factor)
    }

    /// The `k`-th power.
    pub open spec fn power(self, k: nat) -> Complex
        decreases k,
    {
        if k == 0 {
            one()
        } else {
            self.power((k - 1) as nat).times(self)
        }
    }
}

/// The real product distributes over sums and differences.
proof fn lemma_real_distributes(x: real, y: real, z: real)
    ensures
        z * (x + y) == z * x + z * y,
        z * (x - y) == z * x - z * y,
        (x + y) * z == x * z + y * z,
        (x - y) * z == x * z - y * z,
{
    assert(z * (x + y) == z * x + z * y) by (nonlinear_arith);
    assert(z * (x - y) == z * x - z * y) by (nonlinear_arith);
    assert((x + y) * z == x * z + y * z) by (nonlinear_arith);
    assert((x - y) * z == x * z - y * z) by (nonlinear_arith);
}

/// The real product is associative.
proof fn lemma_real_associates(x: real, y: real, z: real)
    ensures
        (x * y) * z == x * (y * z),
{
    assert((x * y) * z == x * (y * z)) by (nonlinear_arith);
}

/// The real product is commutative.
proof fn lemma_real_commutes(x: real, y: real)
    ensures
        x * y == y * x,
{
    assert(x * y == y * x) by (nonlinear_arith);
}

/// Multiplication is commutative.
pub proof fn lemma_times_commutes(a: Complex, b: Complex)
    ensures
        a.times(b) == b.times(a),
{
    reveal(Complex::times);
    lemma_real_commutes(a.re, b.re);
    lemma_real_commutes(a.re, b.im);
    lemma_real_commutes(a.im, b.re);
    lemma_real_commutes(a.im, b.im);
}

/// Multiplication is associative.
pub proof fn lemma_times_associates(a: Complex, b: Complex, c: Complex)
    ensures
        a.times(b).times(c) == a.times(b.times(c)),
{
    reveal(Complex::times);
    lemma_real_distributes(a.re * b.re, a.im * b.im, c.re);
    lemma_real_distributes(a.re * b.re, a.im * b.im, c.im);
    lemma_real_distributes(a.re * b.im, a.im * b.re, c.re);
    lemma_real_distributes(a.re * b.im, a.im * b.re, c.im);
    lemma_real_distributes(b.re * c.re, b.im * c.im, a.re);
    lemma_real_distributes(b.re * c.re, b.im * c.im, a.im);
    lemma_real_distributes(b.re * c.im, b.im * c.re, a.re);
    lemma_real_distributes(b.re * c.im, b.im * c.re, a.im);
    lemma_real_associates(a.re, b.re, c.re);
    lemma_real_associates(a.re, b.re, c.im);
    lemma_real_associates(a.re, b.im, c.re);
    lemma_real_associates(a.re, b.im, c.im);
    lemma_real_associates(a.im, b.re, c.re);
    lemma_real_associates(a.im, b.re, c.im);
    lemma_real_associates(a.im, b.im, c.re);
    lemma_real_associates(a.im, b.im, c.im);
}

/// Multiplication distributes over addition.
pub proof fn lemma_times_distributes(a: Complex, b: Complex, c: Complex)
    ensures
        a.times(b.plus(c)) == a.times(b).plus(a.times(c)),
        b.plus(c).times(a) == b.times(a).plus(c.times(a)),
{
    assert(a.times(b.plus(c)) == a.times(b).plus(a.times(c))) by {
        reveal(Complex::times);
        lemma_real_distributes(b.re, c.re, a.re);
        lemma_real_distributes(b.re, c.re, a.im);
        lemma_real_distributes(b.im, c.im, a.re);
        lemma_real_distributes(b.im, c.im, a.im);
    }
    lemma_times_commutes(a, b.plus(c));
    lemma_times_commutes(a, b);
    lemma_times_commutes(a, c);
}

/// Zero, one and minus one as real factors.
proof fn lemma_real_units(a: real)
    ensures
        a * 1real == a,
        a * 0real == 0real,
        a * (-1real) == 0real - a,
{
    assert(a * 1real == a) by (nonlinear_arith);
    assert(a * 0real == 0real) by (nonlinear_arith);
    assert(a * (-1real) == 0real - a) by (nonlinear_arith);
}

/// One and zero under multiplication, and minus one as a sign change.
pub proof fn lemma_times_units(a: Complex)
    ensures
        a.times(one()) == a,
        one().times(a) == a,
        a.times(zero()) == zero(),
        zero().times(a) == zero(),
        a.times(minus_one()) == zero().minus(a),
        minus_one().times(a) == zero().minus(a),
{
    assert(a.times(one()) == a && a.times(zero()) == zero() && a.times(minus_one())
        == zero().minus(a)) by {
        reveal(Complex::times);
        lemma_real_units(a.re);
        lemma_real_units(a.im);
    }
    lemma_times_commutes(a, one());
    lemma_times_commutes(a, zero());
    lemma_times_commutes(a, minus_one());
}

/// Multiplying by a number and scaling by its inverse gives the number back.
pub proof fn lemma_scaled_back(c: Complex, n: real)
    requires
        n != 0real,
    ensures
        c.times(complex(n, 0real)).scaled(1real / n) == c,
{
    reveal(Complex::times);
    let r = 1real / n;
    assert(n * r == 1real) by (nonlinear_arith)
        requires
            n != 0real,
            r == 1real / n,
    ;
    lemma_real_units(c.re);
    lemma_real_units(c.im);
    lemma_real_associates(c.re, n, r);
    lemma_real_associates(c.im, n, r);
}

/// Scaling is multiplying by a real number.
pub proof fn lemma_scaled_times(c: Complex, r: real)
    ensures
        c.scaled(r) == complex(r, 0real).times(c),
{
    reveal(Complex::times);
    lemma_real_units(c.re);
    lemma_real_units(c.im);
    lemma_real_commutes(c.re, r);
    lemma_real_commutes(c.im, r);
    lemma_real_commutes(0real, c.re);
    lemma_real_commutes(0real, c.im);
}

/// Exponents add.
pub proof fn lemma_power_adds(z: Complex, a: nat, b: nat)
    ensures
        z.power(a + b) == z.power(a).times(z.power(b)),
    decreases b,
{
    if b == 0 {
        lemma_times_units(z.power(a));
    } else {
        let c = (b - 1) as nat;
        lemma_power_adds(z, a, c);
        assert(a + b == a + c + 1);
        lemma_times_associates(z.power(a), z.power(c), z);
    }
}

/// Exponents multiply.
pub proof fn lemma_power_multiplies(z: Complex, a: nat, b: nat)
    ensures
        z.power(a).power(b) == z.power(a * b),
    decreases b,
{
    if b == 0 {
        assert(a * b == 0) by (nonlinear_arith)
            requires
                b == 0,
        ;
    } else {
        let c = (b - 1) as nat;
        lemma_power_multiplies(z, a, c);
        lemma_power_adds(z, a * c, a);
        assert(a * b == a * c + a) by (nonlinear_arith)
            requires
                b == c + 1,
        ;
    }
}

/// The power of a product is the product of the powers.
pub proof fn lemma_power_of_product(y: Complex, z: Complex, k: nat)
    ensures
        y.times(z).power(k) == y.power(k).times(z.power(k)),
    decreases k,
{
    if k == 0 {
        lemma_times_units(one());
    } else {
        let c = (k - 1) as nat;
        lemma_power_of_product(y, z, c);
        let (a, b) = (y.power(c), z.power(c));
        // (a b)(y z) = (a y)(b z)
        lemma_times_associates(a, b, y.times(z));
        lemma_times_associates(b, y, z);
        lemma_times_commutes(b, y);
        lemma_times_associates(y, b, z);
        lemma_times_associates(a, y, b.times(z));
    }
}

/// Powers of one are one.
pub proof fn lemma_power_of_one(k: nat)
    ensures
        one().power(k) == one(),
    decreases k,
{
    if k > 0 {
        lemma_power_of_one((k - 1) as nat);
        lemma_times_units(one());
    }
}

/// The first power of a number is the number.
pub proof fn lemma_power_one(z: Complex)
    ensures
        z.power(1) == z,
        z.power(2) == z.times(z),
{
    reveal_with_fuel(Complex::power, 3);
    lemma_times_units(z);
}

/// The sum of `f(0), ..., f(n - 1)`.
pub open spec fn sum(f: spec_fn(int) -> Complex, n: nat) -> Complex
    decreases n,
{
    if n == 0 {
        zero()
    } else {
        sum(f, (n - 1) as nat).plus(f(n - 1))
    }
}

/// Sums of equal terms are equal.
pub proof fn lemma_sum_equal(f: spec_fn(int) -> Complex, g: spec_fn(int) -> Complex, n: nat)
    requires
        forall|t: int| 0 <= t < n ==> #[trigger] f(t) == g(t),
    ensures
        sum(f, n) == sum(g, n),
    decreases n,
{
    if n > 0 {
        lemma_sum_equal(f, g, (n - 1) as nat);
    }
}

/// A sum of sums is the sum of the sums of the terms.
pub proof fn lemma_sum_plus(f: spec_fn(int) -> Complex, g: spec_fn(int) -> Complex, n: nat)
    ensures
        sum(|t: int| f(t).plus(g(t)), n) == sum(f, n).plus(sum(g, n)),
    decreases n,
{
    if n > 0 {
        lemma_sum_plus(f, g, (n - 1) as nat);
    }
}

/// A common factor moves out of a sum.
pub proof fn lemma_sum_times(f: spec_fn(int) -> Complex, c: Complex, n: nat)
    ensures
        sum(|t: int| c.times(f(t)), n) == c.times(sum(f, n)),
        sum(|t: int| f(t).times(c), n) == sum(f, n).times(c),
    decreases n,
{
    if n == 0 {
        lemma_times_units(c);
    } else {
        let m = (n - 1) as nat;
        lemma_sum_times(f, c, m);
        lemma_times_distributes(c, sum(f, m), f(n - 1));
    }
}

/// A sum of zeros is zero.
pub proof fn lemma_sum_zero(f: spec_fn(int) -> Complex, n: nat)
    requires
        forall|t: int| 0 <= t < n ==> #[trigger] f(t) == zero(),
    ensures
        sum(f, n) == zero(),
    decreases n,
{
    if n > 0 {
        lemma_sum_zero(f, (n - 1) as nat);
    }
}

/// A sum with a single term that is not zero is that term.
pub proof fn lemma_sum_single(f: spec_fn(int) -> Complex, n: nat, j: int)
    requires
        0 <= j < n,
        forall|t: int| 0 <= t < n && t != j ==> #[trigger] f(t) == zero(),
    ensures
        sum(f, n) == f(j),
    decreases n,
{
    if j == n - 1 {
        lemma_sum_zero(f, (n - 1) as nat);
    } else {
        lemma_sum_single(f, (n - 1) as nat, j);
    }
}

/// The order of two summations can be exchanged.
pub proof fn lemma_sum_swap(f: spec_fn(int, int) -> Complex, n: nat, m: nat)
    ensures
        sum(|k: int| sum(|t: int| f(k, t), m), n) == sum(|t: int| sum(|k: int| f(k, t), n), m),
    decreases n,
{
    let rows = |k: int| sum(|t: int| f(k, t), m);
    if n == 0 {
        lemma_sum_zero(|t: int| sum(|k: int| f(k, t), n), m);
    } else {
        let c = (n - 1) as nat;
        lemma_sum_swap(f, c, m);
        let cols = |t: int| sum(|k: int| f(k, t), c);
        let last = |t: int| f(n - 1, t);
        lemma_sum_plus(cols, last, m);
        lemma_sum_equal(
            |t: int| cols(t).plus(last(t)),
            |t: int| sum(|k: int| f(k, t), n),
            m,
        );
        assert(rows(n - 1) == sum(last, m));
    }
}

} // verus!
