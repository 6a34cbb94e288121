//! The reintegration pass conserves mass, in exact arithmetic.
//!
//! The mass of a cell is spread evenly over a square of side `2 * sigma` around the
//! place that the flow carries it to, and every cell gathers what falls on it.
use crate::passes::{
    column_fold, gathered, reintegrated_at, source_at, window_fold, window_size, Source,
};
use vstd::arithmetic::div_mod::*;
use vstd::arithmetic::mul::*;
use vstd::prelude::*;

verus! {

/// The sum of `f(0)`, ..., `f(n - 1)`.
pub open spec fn total(f: spec_fn(int) -> real, n: nat) -> real
    decreases n,
{
    if n == 0 {
        0real
    } else {
        total(f, (n - 1) as nat) + f(n - 1)
    }
}

/// Equal terms have equal sums.
pub(crate) proof fn lemma_total_equal(f: spec_fn(int) -> real, g: spec_fn(int) -> real, n: nat)
    requires
        forall|i: int| 0 <= i < n ==> #[trigger] f(i) == g(i),
    ensures
        total(f, n) == total(g, n),
    decreases n,
{
    if n > 0 {
        lemma_total_equal(f, g, (n - 1) as nat);
    }
}

proof fn lemma_total_at_most(f: spec_fn(int) -> real, g: spec_fn(int) -> real, n: nat)
    requires
        forall|i: int| 0 <= i < n ==> #[trigger] f(i) <= g(i),
    ensures
        total(f, n) <= total(g, n),
    decreases n,
{
    if n > 0 {
        lemma_total_at_most(f, g, (n - 1) as nat);
    }
}

proof fn lemma_total_zero(f: spec_fn(int) -> real, n: nat)
    requires
        forall|i: int| 0 <= i < n ==> #[trigger] f(i) == 0real,
    ensures
        total(f, n) == 0real,
    decreases n,
{
    if n > 0 {
        lemma_total_zero(f, (n - 1) as nat);
    }
}

proof fn lemma_total_plus(f: spec_fn(int) -> real, g: spec_fn(int) -> real, n: nat)
    ensures
        total(|i: int| f(i) + g(i), n) == total(f, n) + total(g, n),
    decreases n,
{
    if n > 0 {
        lemma_total_plus(f, g, (n - 1) as nat);
    }
}

proof fn lemma_distributes(c: real, a: real, b: real)
    ensures
        c * (a + b) == c * a + c * b,
{
    assert(c * (a + b) == c * a + c * b) by (nonlinear_arith);
}

/// A common factor of all terms is a factor of the sum.
pub(crate) proof fn lemma_total_scaled(f: spec_fn(int) -> real, c: real, n: nat)
    ensures
        total(|i: int| c * f(i), n) == c * total(f, n),
    decreases n,
{
    if n > 0 {
        lemma_total_scaled(f, c, (n - 1) as nat);
        lemma_distributes(c, total(f, (n - 1) as nat), f(n - 1));
    } else {
        assert(c * 0real == 0real) by (nonlinear_arith);
    }
}

/// The order of summation does not matter.
proof fn lemma_total_swap(f: spec_fn(int, int) -> real, n: nat, m: nat)
    ensures
        total(|i: int| total(|j: int| f(i, j), m), n) == total(
            |j: int| total(|i: int| f(i, j), n),
            m,
        ),
    decreases n,
{
    let rows = |i: int| total(|j: int| f(i, j), m);
    let cols = |j: int| total(|i: int| f(i, j), n);
    if n == 0 {
        lemma_total_zero(cols, m);
    } else {
        let k = (n - 1) as nat;
        lemma_total_swap(f, k, m);
        let short = |j: int| total(|i: int| f(i, j), k);
        let last = |j: int| f(n - 1, j);
        lemma_total_plus(short, last, m);
        lemma_total_equal(cols, |j: int| short(j) + last(j), m);
        assert(total(rows, n) == total(rows, k) + total(last, m)) by {
            lemma_total_equal(|j: int| f(n - 1, j), last, m);
        }
    }
}

/// Summing a grid cell by cell is summing it row by row.
proof fn lemma_total_grid(f: spec_fn(int, int) -> real, w: nat, h: nat)
    requires
        w > 0,
    ensures
        total(|p: int| f(p % (w as int), p / (w as int)), w * h) == total(
            |y: int| total(|x: int| f(x, y), w),
            h,
        ),
    decreases h,
{
    let cells = |p: int| f(p % (w as int), p / (w as int));
    let rows = |y: int| total(|x: int| f(x, y), w);
    if h == 0 {
        assert(w * h == 0) by (nonlinear_arith)
            requires
                h == 0,
        ;
    } else {
        let k = (h - 1) as nat;
        lemma_total_grid(f, w, k);
        assert(w * h == w * k + w) by (nonlinear_arith)
            requires
                h == k + 1,
        ;
        lemma_total_row(f, w, k, w);
    }
}

/// The first `count` cells of row `k`.
proof fn lemma_total_row(f: spec_fn(int, int) -> real, w: nat, k: nat, count: nat)
    requires
        0 < w,
        count <= w,
    ensures
        total(|p: int| f(p % (w as int), p / (w as int)), w * k + count) == total(
            |p: int| f(p % (w as int), p / (w as int)),
            w * k,
        ) + total(|x: int| f(x, k as int), count),
    decreases count,
{
    if count > 0 {
        lemma_total_row(f, w, k, (count - 1) as nat);
        let x = count - 1;
        let p = w * k + x;
        assert(p % (w as int) == x && p / (w as int) == k) by {
            lemma_mul_is_commutative(w as int, k as int);
            lemma_fundamental_div_mod_converse(p, w as int, k as int, x);
        }
    }
}

/// `v` limited to the range from `lo` to `hi`.
pub open spec fn limited(v: real, lo: real, hi: real) -> real {
    if v < lo {
        lo
    } else if v > hi {
        hi
    } else {
        v
    }
}

/// The distance of two numbers.
pub open spec fn distance(a: real, b: real) -> real {
    if a < b {
        b - a
    } else {
        a - b
    }
}

/// The centre of cell `x`.
pub open spec fn centre(x: int) -> real {
    x as real + 1real / 2real
}

/// The length that cell `x` shares with the interval of half width `sigma` around
/// `mu`.
pub open spec fn overlap(x: int, mu: real, sigma: real) -> real {
    let most = if 1real < 2real * sigma {
        1real
    } else {
        2real * sigma
    };
    limited(1real / 2real - distance(centre(x), mu) + sigma, 0real, most)
}

/// The parameters of a reintegration. The flow is limited to `dd - sigma` cells.
pub struct Motion {
    pub w: nat,
    pub h: nat,
    pub dd: int,
    pub sigma: real,
    pub dt: real,
}

impl Motion {
    /// The square that a cell is spread over fits in the grid, and the flow has a
    /// limit.
    pub open spec fn spreads(self) -> bool {
        &&& 0 < self.w
        &&& 0 < self.h
        &&& 0real < self.sigma
        &&& self.sigma <= self.dd as real
        &&& 2real * self.sigma <= self.w as real
        &&& 2real * self.sigma <= self.h as real
        &&& 0real <= self.dt
    }

    /// The square that a cell is spread over also fits in the window of the cells that
    /// gather from it, even where the edge of the grid pushes it in, and a step does
    /// not take longer than the flow is limited for.
    pub open spec fn wf(self) -> bool {
        &&& self.spreads()
        &&& 2real * self.sigma <= self.dd as real + 1real
        &&& self.dt <= 1real
    }

    /// Where the flow carries the centre of cell `x`, along an axis of length `n`.
    pub open spec fn target(self, x: int, flow: real, n: nat) -> real {
        let most = self.dd as real - self.sigma;
        limited(
            centre(x) + limited(flow, 0real - most, most) * self.dt,
            self.sigma,
            n as real - self.sigma,
        )
    }

    /// The share of the mass of a source that falls on cell `at`.
    pub open spec fn share(self, at: (int, int), from: (int, int), source: Source<real>) -> real {
        overlap(at.0, self.target(from.0, source.flow_x, self.w), self.sigma) * overlap(
            at.1,
            self.target(from.1, source.flow_y, self.h),
            self.sigma,
        ) / (4real * self.sigma * self.sigma)
    }

    /// What a cell adds for a source.
    pub open spec fn gather(self) -> spec_fn(real, (int, int), (int, int), Source<real>) -> real {
        |acc: real, at: (int, int), from: (int, int), source: Source<real>|
            if source.mass <= 0real {
                acc
            } else {
                acc + source.mass * self.share(at, from, source)
            }
    }

    /// What remains of the gathered mass of a cell after the costs of living and of
    /// moving; `speed` is the length of the flow.
    pub open spec fn finish(
        self,
        basal_rate: real,
        kinetic_cost: real,
        speed: spec_fn(real, real) -> real,
    ) -> spec_fn(real, Source<real>) -> real {
        let most = self.dd as real - self.sigma;
        |acc: real, own: Source<real>|
            {
                let flow = speed(
                    limited(own.flow_x, 0real - most, most),
                    limited(own.flow_y, 0real - most, most),
                );
                let left = acc * (1real - basal_rate * self.dt) - kinetic_cost * flow * self.dt;
                if left < 0real {
                    0real
                } else {
                    left
                }
            }
    }
}

/// The parts of an interval on the cells of a line add up to what lies before the
/// end of the line.
proof fn lemma_overlaps(mu: real, sigma: real, m: nat)
    requires
        0real < sigma,
        sigma <= mu,
    ensures
        total(|x: int| overlap(x, mu, sigma), m) == limited(
            m as real - (mu - sigma),
            0real,
            2real * sigma,
        ),
    decreases m,
{
    if m > 0 {
        lemma_overlaps(mu, sigma, (m - 1) as nat);
    }
}

/// A displacement within the limit of the flow stays within it after the time step.
proof fn lemma_displacement(e: real, most: real, dt: real)
    requires
        0real - most <= e,
        e <= most,
        0real <= dt,
        dt <= 1real,
    ensures
        0real - most <= e * dt,
        e * dt <= most,
{
    if e >= 0real {
        assert(0real <= e * dt) by (nonlinear_arith)
            requires
                e >= 0real,
                dt >= 0real,
        ;
        assert(e * dt <= e) by (nonlinear_arith)
            requires
                e >= 0real,
                dt <= 1real,
        ;
    } else {
        assert(e * dt <= 0real) by (nonlinear_arith)
            requires
                e <= 0real,
                dt >= 0real,
        ;
        assert(e <= e * dt) by (nonlinear_arith)
            requires
                e <= 0real,
                dt <= 1real,
        ;
    }
}

/// A source reaches no cell that is more than `dd` cells away.
proof fn lemma_no_reach(motion: Motion, at: int, from: int, flow: real, n: nat)
    requires
        motion.wf(),
        n == motion.w || n == motion.h,
        0 <= at < n,
        0 <= from < n,
        at < from - motion.dd || from + motion.dd < at,
    ensures
        overlap(at, motion.target(from, flow, n), motion.sigma) == 0real,
{
    let most = motion.dd as real - motion.sigma;
    let e = limited(flow, 0real - most, most);
    lemma_displacement(e, most, motion.dt);
    let moved = e * motion.dt;
    let place = centre(from) + moved;
    let mu = limited(place, motion.sigma, n as real - motion.sigma);
    assert(mu == motion.target(from, flow, n));
    let (a, f, d, s, m) = (
        at as real,
        from as real,
        motion.dd as real,
        motion.sigma,
        n as real,
    );
    assert(0real <= a && a <= m - 1real && 0real <= f && f <= m - 1real);
    if from + motion.dd < at {
        assert(f + d + 1real <= a);
        assert(centre(at) - mu >= 1real / 2real + s);
    } else {
        assert(a <= f - d - 1real);
        assert(mu - centre(at) >= 1real / 2real + s);
    }
}

/// The parts of a source on all cells of an axis add up to its width.
proof fn lemma_axis_shares(motion: Motion, from: int, flow: real, n: nat)
    requires
        motion.spreads(),
        n == motion.w || n == motion.h,
    ensures
        total(|x: int| overlap(x, motion.target(from, flow, n), motion.sigma), n) == 2real
            * motion.sigma,
{
    lemma_overlaps(motion.target(from, flow, n), motion.sigma, n);
}

/// What cell `at` adds for the source at `from`.
pub open spec fn transfer(
    motion: Motion,
    source: spec_fn(int, int) -> Source<real>,
    at: (int, int),
    from: (int, int),
) -> real {
    let s = source(from.0, from.1);
    if s.mass <= 0real {
        0real
    } else {
        s.mass * motion.share(at, from, s)
    }
}

/// A cell adds nothing for a source outside of its window.
proof fn lemma_no_transfer(
    motion: Motion,
    source: spec_fn(int, int) -> Source<real>,
    at: (int, int),
    from: (int, int),
)
    requires
        motion.wf(),
        0 <= at.0 < motion.w,
        0 <= at.1 < motion.h,
        0 <= from.0 < motion.w,
        0 <= from.1 < motion.h,
        at.0 < from.0 - motion.dd || from.0 + motion.dd < at.0 || at.1 < from.1 - motion.dd
            || from.1 + motion.dd < at.1,
    ensures
        transfer(motion, source, at, from) == 0real,
{
    let s = source(from.0, from.1);
    let a = overlap(at.0, motion.target(from.0, s.flow_x, motion.w), motion.sigma);
    let b = overlap(at.1, motion.target(from.1, s.flow_y, motion.h), motion.sigma);
    if at.0 < from.0 - motion.dd || from.0 + motion.dd < at.0 {
        lemma_no_reach(motion, at.0, from.0, s.flow_x, motion.w);
    } else {
        lemma_no_reach(motion, at.1, from.1, s.flow_y, motion.h);
    }
    assert(a * b == 0real) by (nonlinear_arith)
        requires
            a == 0real || b == 0real,
    ;
    let norm = 4real * motion.sigma * motion.sigma;
    lemma_norm_positive(motion.sigma);
    assert(0real / norm == 0real) by (nonlinear_arith)
        requires
            norm > 0real,
    ;
    let m = s.mass;
    assert(m * 0real == 0real) by (nonlinear_arith);
}

proof fn lemma_norm_positive(sigma: real)
    requires
        0real < sigma,
    ensures
        4real * sigma * sigma > 0real,
        4real * sigma * sigma == (2real * sigma) * (2real * sigma),
{
    assert(sigma * sigma > 0real) by (nonlinear_arith)
        requires
            sigma > 0real,
    ;
    assert(4real * sigma * sigma == 4real * (sigma * sigma)) by (nonlinear_arith);
    assert((2real * sigma) * (2real * sigma) == 4real * (sigma * sigma)) by (nonlinear_arith);
}

/// Folding a column of the window sums the column.
proof fn lemma_column_sums(
    motion: Motion,
    source: spec_fn(int, int) -> Source<real>,
    at: (int, int),
    nx: int,
    start: real,
    count: nat,
)
    requires
        motion.wf(),
        0 <= at.0 < motion.w,
        0 <= at.1 < motion.h,
        0 <= nx < motion.w,
        count <= window_size(motion.dd),
    ensures
        ({
            let f = |acc: real, nx: int, ny: int|
                motion.gather()(acc, at, (nx, ny), source(nx, ny));
            let upto = at.1 - motion.dd + count;
            column_fold(start, nx, at.1, motion.h as int, motion.dd, count, f) == start + total(
                |ny: int| transfer(motion, source, at, (nx, ny)),
                if upto < 0 {
                    0
                } else if upto > motion.h {
                    motion.h
                } else {
                    upto as nat
                },
            )
        }),
    decreases count,
{
    let term = |ny: int| transfer(motion, source, at, (nx, ny));
    if count == 0 {
        let upto = at.1 - motion.dd;
        if upto > 0 {
            assert forall|ny: int| 0 <= ny < upto implies #[trigger] term(ny) == 0real by {
                lemma_no_transfer(motion, source, at, (nx, ny));
            }
            lemma_total_zero(term, upto as nat);
        }
    } else {
        lemma_column_sums(motion, source, at, nx, start, (count - 1) as nat);
    }
}

/// A column of the window that was folded completely sums the whole column of the
/// grid.
proof fn lemma_whole_column(
    motion: Motion,
    source: spec_fn(int, int) -> Source<real>,
    at: (int, int),
    nx: int,
    start: real,
)
    requires
        motion.wf(),
        0 <= at.0 < motion.w,
        0 <= at.1 < motion.h,
        0 <= nx < motion.w,
    ensures
        ({
            let f = |acc: real, nx: int, ny: int|
                motion.gather()(acc, at, (nx, ny), source(nx, ny));
            column_fold(
                start,
                nx,
                at.1,
                motion.h as int,
                motion.dd,
                window_size(motion.dd),
                f,
            ) == start + total(|ny: int| transfer(motion, source, at, (nx, ny)), motion.h)
        }),
{
    assert(motion.dd > 0);
    lemma_column_sums(motion, source, at, nx, start, window_size(motion.dd));
    let term = |ny: int| transfer(motion, source, at, (nx, ny));
    let upto = at.1 + motion.dd + 1;
    if upto < motion.h {
        assert forall|ny: int| upto <= ny < motion.h implies #[trigger] term(ny) == 0real by {
            lemma_no_transfer(motion, source, at, (nx, ny));
        }
        lemma_total_tail(term, upto as nat, motion.h);
    }
}

/// Terms that are zero do not change a sum.
proof fn lemma_total_tail(f: spec_fn(int) -> real, n: nat, m: nat)
    requires
        n <= m,
        forall|i: int| n <= i < m ==> #[trigger] f(i) == 0real,
    ensures
        total(f, m) == total(f, n),
    decreases m,
{
    if n < m {
        lemma_total_tail(f, n, (m - 1) as nat);
    }
}

/// Folding the window sums the grid.
proof fn lemma_window_sums(
    motion: Motion,
    source: spec_fn(int, int) -> Source<real>,
    at: (int, int),
    count: nat,
)
    requires
        motion.wf(),
        0 <= at.0 < motion.w,
        0 <= at.1 < motion.h,
        count <= window_size(motion.dd),
    ensures
        ({
            let f = |acc: real, nx: int, ny: int|
                motion.gather()(acc, at, (nx, ny), source(nx, ny));
            let upto = at.0 - motion.dd + count;
            window_fold(
                0real,
                at.0,
                at.1,
                motion.w as int,
                motion.h as int,
                motion.dd,
                count,
                f,
            ) == total(
                |nx: int| total(|ny: int| transfer(motion, source, at, (nx, ny)), motion.h),
                if upto < 0 {
                    0
                } else if upto > motion.w {
                    motion.w
                } else {
                    upto as nat
                },
            )
        }),
    decreases count,
{
    let f = |acc: real, nx: int, ny: int| motion.gather()(acc, at, (nx, ny), source(nx, ny));
    let column = |nx: int| total(|ny: int| transfer(motion, source, at, (nx, ny)), motion.h);
    if count == 0 {
        let upto = at.0 - motion.dd;
        if upto > 0 {
            assert forall|nx: int| 0 <= nx < upto implies #[trigger] column(nx) == 0real by {
                let term = |ny: int| transfer(motion, source, at, (nx, ny));
                assert forall|ny: int| 0 <= ny < motion.h implies #[trigger] term(ny)
                    == 0real by {
                    lemma_no_transfer(motion, source, at, (nx, ny));
                }
                lemma_total_zero(term, motion.h);
            }
            lemma_total_zero(column, upto as nat);
        }
    } else {
        lemma_window_sums(motion, source, at, (count - 1) as nat);
        let nx = at.0 - motion.dd + count - 1;
        let acc = window_fold(
            0real,
            at.0,
            at.1,
            motion.w as int,
            motion.h as int,
            motion.dd,
            (count - 1) as nat,
            f,
        );
        if 0 <= nx < motion.w {
            lemma_whole_column(motion, source, at, nx, acc);
            assert(column(nx) == total(
                |ny: int| transfer(motion, source, at, (nx, ny)),
                motion.h,
            ));
        }
    }
}

/// What cell `at` would add for all sources of the grid.
pub open spec fn received(
    motion: Motion,
    source: spec_fn(int, int) -> Source<real>,
    at: (int, int),
) -> real {
    total(
        |nx: int| total(|ny: int| transfer(motion, source, at, (nx, ny)), motion.h),
        motion.w,
    )
}

/// A sum of terms that are not negative grows with their number.
proof fn lemma_total_grows(f: spec_fn(int) -> real, n: nat, m: nat)
    requires
        n <= m,
        forall|i: int| 0 <= i < m ==> #[trigger] f(i) >= 0real,
    ensures
        0real <= total(f, n),
        total(f, n) <= total(f, m),
    decreases m,
{
    if n < m {
        lemma_total_grows(f, n, (m - 1) as nat);
    } else if n > 0 {
        lemma_total_grows(f, (n - 1) as nat, (n - 1) as nat);
    }
}

/// Folding a column of the window adds at most the column of the grid.
proof fn lemma_column_bound(
    motion: Motion,
    source: spec_fn(int, int) -> Source<real>,
    at: (int, int),
    nx: int,
    start: real,
    count: nat,
)
    requires
        motion.spreads(),
        count <= window_size(motion.dd),
    ensures
        ({
            let f = |acc: real, nx: int, ny: int|
                motion.gather()(acc, at, (nx, ny), source(nx, ny));
            let upto = at.1 - motion.dd + count;
            let folded = column_fold(start, nx, at.1, motion.h as int, motion.dd, count, f);
            &&& start <= folded
            &&& folded <= start + total(
                |ny: int| transfer(motion, source, at, (nx, ny)),
                if upto < 0 {
                    0
                } else if upto > motion.h {
                    motion.h
                } else {
                    upto as nat
                },
            )
        }),
    decreases count,
{
    let term = |ny: int| transfer(motion, source, at, (nx, ny));
    assert forall|ny: int| 0 <= ny < motion.h implies #[trigger] term(ny) >= 0real by {
        lemma_transfer_not_negative(motion, source, at, (nx, ny));
    }
    if count == 0 {
        let upto = at.1 - motion.dd;
        if upto > motion.h {
            lemma_total_grows(term, 0, motion.h);
        } else if upto > 0 {
            lemma_total_grows(term, 0, upto as nat);
        }
    } else {
        lemma_column_bound(motion, source, at, nx, start, (count - 1) as nat);
        let ny = at.1 - motion.dd + count - 1;
        if 0 <= ny < motion.h {
            assert(term(ny) >= 0real);
        }
    }
}

/// Folding the window adds at most the columns of the grid.
proof fn lemma_window_bound(
    motion: Motion,
    source: spec_fn(int, int) -> Source<real>,
    at: (int, int),
    count: nat,
)
    requires
        motion.spreads(),
        count <= window_size(motion.dd),
    ensures
        ({
            let f = |acc: real, nx: int, ny: int|
                motion.gather()(acc, at, (nx, ny), source(nx, ny));
            let upto = at.0 - motion.dd + count;
            let folded = window_fold(
                0real,
                at.0,
                at.1,
                motion.w as int,
                motion.h as int,
                motion.dd,
                count,
                f,
            );
            &&& 0real <= folded
            &&& folded <= total(
                |nx: int| total(|ny: int| transfer(motion, source, at, (nx, ny)), motion.h),
                if upto < 0 {
                    0
                } else if upto > motion.w {
                    motion.w
                } else {
                    upto as nat
                },
            )
        }),
    decreases count,
{
    let f = |acc: real, nx: int, ny: int| motion.gather()(acc, at, (nx, ny), source(nx, ny));
    let column = |nx: int| total(|ny: int| transfer(motion, source, at, (nx, ny)), motion.h);
    assert forall|nx: int| 0 <= nx < motion.w implies #[trigger] column(nx) >= 0real by {
        lemma_column_positive(motion, source, at, nx, 0);
    }
    if count == 0 {
        let upto = at.0 - motion.dd;
        if upto > motion.w {
            lemma_total_grows(column, 0, motion.w);
        } else if upto > 0 {
            lemma_total_grows(column, 0, upto as nat);
        }
    } else {
        lemma_window_bound(motion, source, at, (count - 1) as nat);
        let nx = at.0 - motion.dd + count - 1;
        let acc = window_fold(
            0real,
            at.0,
            at.1,
            motion.w as int,
            motion.h as int,
            motion.dd,
            (count - 1) as nat,
            f,
        );
        if 0 <= nx < motion.w {
            lemma_column_bound(motion, source, at, nx, acc, window_size(motion.dd));
            let upto = at.1 - motion.dd + window_size(motion.dd);
            let reached: nat = if upto < 0 {
                0
            } else if upto > motion.h {
                motion.h
            } else {
                upto as nat
            };
            lemma_column_positive(motion, source, at, nx, reached);
            assert(column(nx) == total(
                |ny: int| transfer(motion, source, at, (nx, ny)),
                motion.h,
            ));
        }
    }
}

/// A part of a column adds up to at most the column.
proof fn lemma_column_positive(
    motion: Motion,
    source: spec_fn(int, int) -> Source<real>,
    at: (int, int),
    nx: int,
    count: nat,
)
    requires
        motion.spreads(),
        count <= motion.h,
    ensures
        0real <= total(|ny: int| transfer(motion, source, at, (nx, ny)), count),
        total(|ny: int| transfer(motion, source, at, (nx, ny)), count) <= total(
            |ny: int| transfer(motion, source, at, (nx, ny)),
            motion.h,
        ),
{
    let term = |ny: int| transfer(motion, source, at, (nx, ny));
    assert forall|ny: int| 0 <= ny < motion.h implies #[trigger] term(ny) >= 0real by {
        lemma_transfer_not_negative(motion, source, at, (nx, ny));
    }
    lemma_total_grows(term, count, motion.h);
}

/// What a cell gathers is not negative, and at most the sum over all sources of the
/// grid.
proof fn lemma_gathered_bound(
    motion: Motion,
    channel: Seq<real>,
    flow_x: Seq<real>,
    flow_y: Seq<real>,
    base: int,
    x: int,
    y: int,
)
    requires
        motion.spreads(),
    ensures
        ({
            let source = |nx: int, ny: int|
                source_at(channel, flow_x, flow_y, base, nx, ny, motion.w as int);
            let got = gathered(
                channel,
                flow_x,
                flow_y,
                base,
                x,
                y,
                motion.w as int,
                motion.h as int,
                motion.dd,
                0real,
                motion.gather(),
            );
            &&& 0real <= got
            &&& got <= received(motion, source, (x, y))
        }),
{
    let w = motion.w as int;
    let source = |nx: int, ny: int| source_at(channel, flow_x, flow_y, base, nx, ny, w);
    let at = (x, y);
    let f = |acc: real, nx: int, ny: int| motion.gather()(acc, at, (nx, ny), source(nx, ny));
    let g = |acc: real, nx: int, ny: int|
        motion.gather()(
            acc,
            (x, y),
            (nx, ny),
            source_at(channel, flow_x, flow_y, base, nx, ny, w),
        );
    assert(f =~= g);
    let count = window_size(motion.dd);
    lemma_window_bound(motion, source, at, count);
    let column = |nx: int| total(|ny: int| transfer(motion, source, at, (nx, ny)), motion.h);
    assert forall|nx: int| 0 <= nx < motion.w implies #[trigger] column(nx) >= 0real by {
        lemma_column_positive(motion, source, at, nx, 0);
    }
    let upto = x - motion.dd + count;
    let reached: nat = if upto < 0 {
        0
    } else if upto > motion.w {
        motion.w
    } else {
        upto as nat
    };
    lemma_total_grows(column, reached, motion.w);
}

/// What a cell gathers is the sum over all sources of the grid.
proof fn lemma_gathered(
    motion: Motion,
    channel: Seq<real>,
    flow_x: Seq<real>,
    flow_y: Seq<real>,
    base: int,
    x: int,
    y: int,
)
    requires
        motion.wf(),
        0 <= x < motion.w,
        0 <= y < motion.h,
    ensures
        ({
            let source = |nx: int, ny: int|
                source_at(channel, flow_x, flow_y, base, nx, ny, motion.w as int);
            gathered(
                channel,
                flow_x,
                flow_y,
                base,
                x,
                y,
                motion.w as int,
                motion.h as int,
                motion.dd,
                0real,
                motion.gather(),
            ) == received(motion, source, (x, y))
        }),
{
    let w = motion.w as int;
    let source = |nx: int, ny: int| source_at(channel, flow_x, flow_y, base, nx, ny, w);
    let at = (x, y);
    let f = |acc: real, nx: int, ny: int| motion.gather()(acc, at, (nx, ny), source(nx, ny));
    let g = |acc: real, nx: int, ny: int|
        motion.gather()(
            acc,
            (x, y),
            (nx, ny),
            source_at(channel, flow_x, flow_y, base, nx, ny, w),
        );
    assert(f =~= g);
    assert(motion.dd > 0);
    lemma_window_sums(motion, source, at, window_size(motion.dd));
    let column = |nx: int| total(|ny: int| transfer(motion, source, at, (nx, ny)), motion.h);
    let upto = x + motion.dd + 1;
    if upto < motion.w {
        assert forall|nx: int| upto <= nx < motion.w implies #[trigger] column(nx) == 0real by {
            let term = |ny: int| transfer(motion, source, at, (nx, ny));
            assert forall|ny: int| 0 <= ny < motion.h implies #[trigger] term(ny) == 0real by {
                lemma_no_transfer(motion, source, at, (nx, ny));
            }
            lemma_total_zero(term, motion.h);
        }
        lemma_total_tail(column, upto as nat, motion.w);
    }
}

/// The mass of a source that is spread; a negative mass is not.
pub open spec fn spread_mass(source: Source<real>) -> real {
    if source.mass <= 0real {
        0real
    } else {
        source.mass
    }
}

/// What all cells add for one source is its mass.
proof fn lemma_transfers(
    motion: Motion,
    source: spec_fn(int, int) -> Source<real>,
    from: (int, int),
)
    requires
        motion.spreads(),
    ensures
        total(
            |y: int| total(|x: int| transfer(motion, source, (x, y), from), motion.w),
            motion.h,
        ) == spread_mass(source(from.0, from.1)),
{
    let s = source(from.0, from.1);
    let rows = |y: int| total(|x: int| transfer(motion, source, (x, y), from), motion.w);
    if s.mass <= 0real {
        assert forall|y: int| 0 <= y < motion.h implies #[trigger] rows(y) == 0real by {
            lemma_total_zero(|x: int| transfer(motion, source, (x, y), from), motion.w);
        }
        lemma_total_zero(rows, motion.h);
    } else {
        let mx = motion.target(from.0, s.flow_x, motion.w);
        let my = motion.target(from.1, s.flow_y, motion.h);
        let sigma = motion.sigma;
        let side = 2real * sigma;
        let norm = 4real * sigma * sigma;
        lemma_norm_positive(sigma);
        let m = s.mass;
        let across = |x: int| overlap(x, mx, sigma);
        let down = |y: int| overlap(y, my, sigma);
        lemma_axis_shares(motion, from.0, s.flow_x, motion.w);
        lemma_axis_shares(motion, from.1, s.flow_y, motion.h);
        lemma_total_equal(
            across,
            |x: int| overlap(x, motion.target(from.0, s.flow_x, motion.w), motion.sigma),
            motion.w,
        );
        lemma_total_equal(
            down,
            |y: int| overlap(y, motion.target(from.1, s.flow_y, motion.h), motion.sigma),
            motion.h,
        );
        // each row is a multiple of its overlap
        let factor = side * (m / norm);
        let scaled = |y: int| factor * down(y);
        assert forall|y: int| 0 <= y < motion.h implies #[trigger] rows(y) == scaled(y) by {
            let b = down(y);
            let c = b * (m / norm);
            let row = |x: int| transfer(motion, source, (x, y), from);
            let parts = |x: int| c * across(x);
            assert forall|x: int| 0 <= x < motion.w implies #[trigger] row(x) == parts(x) by {
                lemma_share_factors(m, across(x), b, norm);
            }
            lemma_total_equal(row, parts, motion.w);
            lemma_total_scaled(across, c, motion.w);
            lemma_three_factors(b, m / norm, side);
        }
        lemma_total_equal(rows, scaled, motion.h);
        lemma_total_scaled(down, factor, motion.h);
        lemma_whole_share(side, m, norm);
    }
}

proof fn lemma_share_factors(m: real, a: real, b: real, norm: real)
    requires
        norm > 0real,
    ensures
        m * (a * b / norm) == (b * (m / norm)) * a,
{
    let q = 1real / norm;
    assert(a * b / norm == (a * b) * q) by (nonlinear_arith)
        requires
            norm > 0real,
            q == 1real / norm,
    ;
    assert(m / norm == m * q) by (nonlinear_arith)
        requires
            norm > 0real,
            q == 1real / norm,
    ;
    let ab = a * b;
    assert(m * (ab * q) == (m * q) * ab) by (nonlinear_arith);
    let mq = m * q;
    assert(mq * (a * b) == (b * mq) * a) by (nonlinear_arith);
}

proof fn lemma_three_factors(b: real, c: real, side: real)
    ensures
        (b * c) * side == (side * c) * b,
{
    assert((b * c) * side == (side * c) * b) by (nonlinear_arith);
}

proof fn lemma_whole_share(side: real, m: real, norm: real)
    requires
        norm == side * side,
        norm > 0real,
    ensures
        (side * (m / norm)) * side == m,
{
    let q = m / norm;
    assert(q * norm == m) by (nonlinear_arith)
        requires
            norm > 0real,
            q == m / norm,
    ;
    assert((side * q) * side == q * (side * side)) by (nonlinear_arith);
}

/// What all cells would receive from all sources is the mass that is spread.
proof fn lemma_received_mass(motion: Motion, source: spec_fn(int, int) -> Source<real>)
    requires
        motion.spreads(),
    ensures
        ({
            let (w, h) = (motion.w as int, motion.h as int);
            total(
                |p: int| received(motion, source, (p % w, p / w)),
                motion.w * motion.h,
            ) == total(|p: int| spread_mass(source(p % w, p / w)), motion.w * motion.h)
        }),
{
    let (w, h) = (motion.w as int, motion.h as int);
    let (wn, hn) = (motion.w, motion.h);
    let got = |x: int, y: int| received(motion, source, (x, y));
    let given = |x: int, y: int| spread_mass(source(x, y));
    // both sides row by row
    lemma_total_grid(got, wn, hn);
    lemma_total_grid(given, wn, hn);
    lemma_total_equal(
        |p: int| got(p % w, p / w),
        |p: int| received(motion, source, (p % w, p / w)),
        wn * hn,
    );
    lemma_total_equal(
        |p: int| given(p % w, p / w),
        |p: int| spread_mass(source(p % w, p / w)),
        wn * hn,
    );
    // the transfers from one source, over all cells
    let from_x = |nx: int, y: int, x: int|
        total(|ny: int| transfer(motion, source, (x, y), (nx, ny)), hn);
    let got_rows = |y: int| total(|x: int| got(x, y), wn);
    // sum over y, x, nx, ny: bring the source to the outside
    let row_of = |y: int, nx: int|
        total(|ny: int| total(|x: int| transfer(motion, source, (x, y), (nx, ny)), wn), hn);
    let row_sum = |y: int| total(|nx: int| row_of(y, nx), wn);
    assert forall|y: int| 0 <= y < h implies #[trigger] got_rows(y) == row_sum(y) by {
        let cell = |x: int, nx: int| from_x(nx, y, x);
        let here = |x: int| got(x, y);
        let columns = |x: int| total(|nx: int| cell(x, nx), wn);
        assert forall|x: int| 0 <= x < w implies #[trigger] here(x) == columns(x) by {
            lemma_total_equal(
                |nx: int| total(|ny: int| transfer(motion, source, (x, y), (nx, ny)), hn),
                |nx: int| cell(x, nx),
                wn,
            );
        }
        lemma_total_equal(here, columns, wn);
        lemma_total_swap(cell, wn, wn);
        let swapped = |nx: int| total(|x: int| cell(x, nx), wn);
        let wanted = |nx: int| row_of(y, nx);
        assert forall|nx: int| 0 <= nx < w implies #[trigger] swapped(nx) == wanted(nx) by {
            let g = |x: int, ny: int| transfer(motion, source, (x, y), (nx, ny));
            lemma_total_swap(g, wn, hn);
            let cells = |x: int| cell(x, nx);
            let sums = |x: int| total(|ny: int| g(x, ny), hn);
            assert forall|x: int| 0 <= x < w implies #[trigger] cells(x) == sums(x) by {
                lemma_total_equal(
                    |ny: int| transfer(motion, source, (x, y), (nx, ny)),
                    |ny: int| g(x, ny),
                    hn,
                );
            }
            lemma_total_equal(cells, sums, wn);
            let inner = |ny: int| total(|x: int| g(x, ny), wn);
            let outer = |ny: int|
                total(|x: int| transfer(motion, source, (x, y), (nx, ny)), wn);
            assert forall|ny: int| 0 <= ny < h implies #[trigger] inner(ny) == outer(ny) by {
                lemma_total_equal(
                    |x: int| g(x, ny),
                    |x: int| transfer(motion, source, (x, y), (nx, ny)),
                    wn,
                );
            }
            lemma_total_equal(inner, outer, hn);
        }
        lemma_total_equal(swapped, wanted, wn);
    }
    lemma_total_equal(got_rows, row_sum, hn);
    lemma_total_swap(row_of, hn, wn);
    let columns = |nx: int| total(|y: int| row_of(y, nx), hn);
    let given_columns = |nx: int| total(|ny: int| given(nx, ny), hn);
    assert forall|nx: int| 0 <= nx < w implies #[trigger] columns(nx) == given_columns(nx) by {
        let g = |y: int, ny: int|
            total(|x: int| transfer(motion, source, (x, y), (nx, ny)), wn);
        lemma_total_swap(g, hn, hn);
        let rows = |y: int| row_of(y, nx);
        let sums = |y: int| total(|ny: int| g(y, ny), hn);
        assert forall|y: int| 0 <= y < h implies #[trigger] rows(y) == sums(y) by {
            lemma_total_equal(
                |ny: int| total(|x: int| transfer(motion, source, (x, y), (nx, ny)), wn),
                |ny: int| g(y, ny),
                hn,
            );
        }
        lemma_total_equal(rows, sums, hn);
        let sources = |ny: int| total(|y: int| g(y, ny), hn);
        let masses = |ny: int| given(nx, ny);
        assert forall|ny: int| 0 <= ny < h implies #[trigger] sources(ny) == masses(ny) by {
            lemma_transfers(motion, source, (nx, ny));
            lemma_total_equal(
                |y: int| g(y, ny),
                |y: int| total(|x: int| transfer(motion, source, (x, y), (nx, ny)), wn),
                hn,
            );
        }
        lemma_total_equal(sources, masses, hn);
    }
    lemma_total_equal(columns, given_columns, wn);
    lemma_total_swap(given, wn, hn);
}

/// The mass that all cells gather from a channel is the mass of the channel.
pub proof fn gathered_mass_is_spread_mass(
    motion: Motion,
    channel: Seq<real>,
    flow_x: Seq<real>,
    flow_y: Seq<real>,
    base: int,
)
    requires
        motion.wf(),
    ensures
        ({
            let (w, h) = (motion.w as int, motion.h as int);
            total(
                |p: int|
                    gathered(
                        channel,
                        flow_x,
                        flow_y,
                        base,
                        p % w,
                        p / w,
                        w,
                        h,
                        motion.dd,
                        0real,
                        motion.gather(),
                    ),
                motion.w * motion.h,
            ) == total(
                |p: int|
                    spread_mass(source_at(channel, flow_x, flow_y, base, p % w, p / w, w)),
                motion.w * motion.h,
            )
        }),
{
    let (w, h) = (motion.w as int, motion.h as int);
    let cells = motion.w * motion.h;
    let source = |nx: int, ny: int| source_at(channel, flow_x, flow_y, base, nx, ny, w);
    let got = |p: int|
        gathered(
            channel,
            flow_x,
            flow_y,
            base,
            p % w,
            p / w,
            w,
            h,
            motion.dd,
            0real,
            motion.gather(),
        );
    let taken = |p: int| received(motion, source, (p % w, p / w));
    let given = |p: int|
        spread_mass(source_at(channel, flow_x, flow_y, base, p % w, p / w, w));
    lemma_received_mass(motion, source);
    assert forall|p: int| 0 <= p < cells implies #[trigger] got(p) == taken(p) by {
        lemma_channel_cells(motion, 0, p);
        lemma_gathered(motion, channel, flow_x, flow_y, base, p % w, p / w);
    }
    lemma_total_equal(got, taken, cells);
    lemma_total_equal(given, |p: int| spread_mass(source(p % w, p / w)), cells);
}

/// No more mass is gathered from a channel than is spread, also if the flow carries
/// some of it out of the reach of the cells that gather.
pub proof fn gathered_mass_is_at_most_spread_mass(
    motion: Motion,
    channel: Seq<real>,
    flow_x: Seq<real>,
    flow_y: Seq<real>,
    base: int,
)
    requires
        motion.spreads(),
    ensures
        ({
            let (w, h) = (motion.w as int, motion.h as int);
            total(
                |p: int|
                    gathered(
                        channel,
                        flow_x,
                        flow_y,
                        base,
                        p % w,
                        p / w,
                        w,
                        h,
                        motion.dd,
                        0real,
                        motion.gather(),
                    ),
                motion.w * motion.h,
            ) <= total(
                |p: int|
                    spread_mass(source_at(channel, flow_x, flow_y, base, p % w, p / w, w)),
                motion.w * motion.h,
            )
        }),
{
    let (w, h) = (motion.w as int, motion.h as int);
    let cells = motion.w * motion.h;
    let source = |nx: int, ny: int| source_at(channel, flow_x, flow_y, base, nx, ny, w);
    let got = |p: int|
        gathered(
            channel,
            flow_x,
            flow_y,
            base,
            p % w,
            p / w,
            w,
            h,
            motion.dd,
            0real,
            motion.gather(),
        );
    let taken = |p: int| received(motion, source, (p % w, p / w));
    let given = |p: int|
        spread_mass(source_at(channel, flow_x, flow_y, base, p % w, p / w, w));
    lemma_received_mass(motion, source);
    assert forall|p: int| 0 <= p < cells implies #[trigger] got(p) <= taken(p) by {
        lemma_gathered_bound(motion, channel, flow_x, flow_y, base, p % w, p / w);
    }
    lemma_total_at_most(got, taken, cells);
    lemma_total_equal(given, |p: int| spread_mass(source(p % w, p / w)), cells);
}

/// The mass of channel `c` of packed channels of `cells` cells each.
pub open spec fn channel_mass(channels: Seq<real>, cells: nat, c: int) -> real {
    total(|p: int| channels[c * cells + p], cells)
}

/// The mass of channel `c` without the cells that hold negative mass.
pub open spec fn positive_mass(channels: Seq<real>, cells: nat, c: int) -> real {
    total(
        |p: int|
            if channels[c * cells + p] <= 0real {
                0real
            } else {
                channels[c * cells + p]
            },
        cells,
    )
}

/// The mass of a channel is at most that of its positive cells, and equal to it if no
/// cell holds negative mass.
pub proof fn mass_is_at_most_positive_mass(channels: Seq<real>, cells: nat, c: int)
    ensures
        channel_mass(channels, cells, c) <= positive_mass(channels, cells, c),
        (forall|p: int| 0 <= p < cells ==> #[trigger] channels[c * cells + p] >= 0real)
            ==> channel_mass(channels, cells, c) == positive_mass(channels, cells, c),
{
    let all = |p: int| channels[c * cells + p];
    let positive = |p: int|
        if channels[c * cells + p] <= 0real {
            0real
        } else {
            channels[c * cells + p]
        };
    lemma_total_at_most(all, positive, cells);
    if forall|p: int| 0 <= p < cells ==> #[trigger] channels[c * cells + p] >= 0real {
        assert forall|p: int| 0 <= p < cells implies #[trigger] all(p) == positive(p) by {
            assert(channels[c * cells + p] >= 0real);
        }
        lemma_total_equal(all, positive, cells);
    }
}

/// The packed channels after reintegration.
pub open spec fn reintegrated(
    motion: Motion,
    channel: Seq<real>,
    flow_x: Seq<real>,
    flow_y: Seq<real>,
    basal_rate: real,
    kinetic_cost: real,
    speed: spec_fn(real, real) -> real,
) -> Seq<real> {
    Seq::new(
        channel.len(),
        |i: int|
            reintegrated_at(
                channel,
                flow_x,
                flow_y,
                motion.w as int,
                motion.h as int,
                motion.dd,
                i,
                0real,
                motion.gather(),
                motion.finish(basal_rate, kinetic_cost, speed),
            ),
    )
}

/// No cell holds negative mass after reintegration, whatever it held before.
pub proof fn reintegrated_mass_is_not_negative(
    motion: Motion,
    channel: Seq<real>,
    flow_x: Seq<real>,
    flow_y: Seq<real>,
    basal_rate: real,
    kinetic_cost: real,
    speed: spec_fn(real, real) -> real,
    i: int,
)
    requires
        0 <= i < channel.len(),
    ensures
        reintegrated(motion, channel, flow_x, flow_y, basal_rate, kinetic_cost, speed)[i] >= 0real,
{
}

/// The cells of channel `c`, one by one.
proof fn lemma_channel_cells(motion: Motion, c: int, p: int)
    requires
        motion.spreads(),
        0 <= c,
        0 <= p < motion.w * motion.h,
    ensures
        ({
            let (w, h) = (motion.w as int, motion.h as int);
            let i = c * (w * h) + p;
            &&& (i / (w * h)) * (w * h) == c * (w * h)
            &&& i % (w * h) == p
            &&& 0 <= p % w < w
            &&& 0 <= p / w < h
            &&& (p / w) * w + p % w == p
        }),
{
    let (w, h) = (motion.w as int, motion.h as int);
    let cells = w * h;
    lemma_fundamental_div_mod_converse(c * cells + p, cells, c, p);
    lemma_fundamental_div_mod(p, w);
    lemma_mod_bound(p, w);
    lemma_mul_is_commutative(w, p / w);
    let q = p / w;
    assert(q < h) by (nonlinear_arith)
        requires
            w * q <= p,
            p < w * h,
            w > 0,
    ;
    lemma_div_pos_is_pos(p, w);
}

proof fn lemma_transfer_not_negative(
    motion: Motion,
    source: spec_fn(int, int) -> Source<real>,
    at: (int, int),
    from: (int, int),
)
    requires
        motion.spreads(),
    ensures
        transfer(motion, source, at, from) >= 0real,
{
    let s = source(from.0, from.1);
    let a = overlap(at.0, motion.target(from.0, s.flow_x, motion.w), motion.sigma);
    let b = overlap(at.1, motion.target(from.1, s.flow_y, motion.h), motion.sigma);
    let norm = 4real * motion.sigma * motion.sigma;
    lemma_norm_positive(motion.sigma);
    let ab = a * b;
    assert(ab >= 0real) by (nonlinear_arith)
        requires
            a >= 0real,
            b >= 0real,
            ab == a * b,
    ;
    let q = ab / norm;
    assert(q >= 0real) by (nonlinear_arith)
        requires
            ab >= 0real,
            norm > 0real,
            q == ab / norm,
    ;
    let m = s.mass;
    if m > 0real {
        assert(m * q >= 0real) by (nonlinear_arith)
            requires
                m > 0real,
                q >= 0real,
        ;
    }
}

/// Reintegration without metabolic costs conserves the mass of every channel: the
/// mass of a channel after the pass is the mass of its positive cells before, whatever
/// the flow, and so all of it if no cell held negative mass.
pub proof fn reintegration_conserves_mass(
    motion: Motion,
    channel: Seq<real>,
    flow_x: Seq<real>,
    flow_y: Seq<real>,
    num_channels: nat,
    c: int,
    speed: spec_fn(real, real) -> real,
)
    requires
        motion.wf(),
        0 <= c < num_channels,
        channel.len() == motion.w * motion.h * num_channels,
    ensures
        ({
            let cells = motion.w * motion.h;
            let after = reintegrated(motion, channel, flow_x, flow_y, 0real, 0real, speed);
            &&& channel_mass(after, cells, c) == positive_mass(channel, cells, c)
            &&& (forall|i: int| 0 <= i < channel.len() ==> #[trigger] channel[i] >= 0real)
                ==> channel_mass(after, cells, c) == channel_mass(channel, cells, c)
        }),
{
    let (w, h) = (motion.w as int, motion.h as int);
    let cells = motion.w * motion.h;
    let base = c * cells;
    let out = reintegrated(motion, channel, flow_x, flow_y, 0real, 0real, speed);
    let new_cells = |p: int| out[c * cells + p];
    let got = |p: int|
        gathered(
            channel,
            flow_x,
            flow_y,
            base,
            p % w,
            p / w,
            w,
            h,
            motion.dd,
            0real,
            motion.gather(),
        );
    gathered_mass_is_spread_mass(motion, channel, flow_x, flow_y, base);
    lemma_spread_is_positive(motion, channel, flow_x, flow_y, num_channels, c);
    assert forall|p: int| 0 <= p < cells implies #[trigger] new_cells(p) == got(p) by {
        lemma_channel_cells(motion, c, p);
        lemma_element_bound(c, num_channels as int, cells as int, p);
        lemma_gathered_bound(motion, channel, flow_x, flow_y, base, p % w, p / w);
        let own = source_at(channel, flow_x, flow_y, base, p % w, p / w, w);
        lemma_no_costs(motion, got(p), own, speed);
    }
    lemma_total_equal(new_cells, got, cells);
    if forall|i: int| 0 <= i < channel.len() ==> #[trigger] channel[i] >= 0real {
        assert forall|p: int| 0 <= p < cells implies #[trigger] channel[c * cells + p]
            >= 0real by {
            lemma_element_bound(c, num_channels as int, cells as int, p);
        }
        mass_is_at_most_positive_mass(channel, cells, c);
    }
}

/// The mass that is spread is that of the positive cells of the channel.
proof fn lemma_spread_is_positive(
    motion: Motion,
    channel: Seq<real>,
    flow_x: Seq<real>,
    flow_y: Seq<real>,
    num_channels: nat,
    c: int,
)
    requires
        motion.spreads(),
        0 <= c < num_channels,
    ensures
        ({
            let (w, h) = (motion.w as int, motion.h as int);
            let cells = motion.w * motion.h;
            total(
                |p: int|
                    spread_mass(
                        source_at(channel, flow_x, flow_y, c * cells, p % w, p / w, w),
                    ),
                cells,
            ) == positive_mass(channel, cells, c)
        }),
{
    let (w, h) = (motion.w as int, motion.h as int);
    let cells = motion.w * motion.h;
    let given = |p: int|
        spread_mass(source_at(channel, flow_x, flow_y, c * cells, p % w, p / w, w));
    let positive = |p: int|
        if channel[c * cells + p] <= 0real {
            0real
        } else {
            channel[c * cells + p]
        };
    assert forall|p: int| 0 <= p < cells implies #[trigger] given(p) == positive(p) by {
        lemma_channel_cells(motion, c, p);
    }
    lemma_total_equal(given, positive, cells);
}

proof fn lemma_element_bound(c: int, count: int, cells: int, p: int)
    requires
        0 <= c < count,
        0 <= p < cells,
    ensures
        0 <= c * cells + p < cells * count,
{
    assert(0 <= c * cells) by (nonlinear_arith)
        requires
            0 <= c,
            0 <= cells,
    ;
    assert(c * cells + cells <= cells * count) by (nonlinear_arith)
        requires
            c + 1 <= count,
            0 <= cells,
    ;
}

proof fn lemma_no_costs(
    motion: Motion,
    acc: real,
    own: Source<real>,
    speed: spec_fn(real, real) -> real,
)
    requires
        acc >= 0real,
    ensures
        motion.finish(0real, 0real, speed)(acc, own) == acc,
{
    let most = motion.dd as real - motion.sigma;
    let flow = speed(
        limited(own.flow_x, 0real - most, most),
        limited(own.flow_y, 0real - most, most),
    );
    let dt = motion.dt;
    assert(0real * dt == 0real) by (nonlinear_arith);
    assert(0real * flow == 0real) by (nonlinear_arith);
    assert(acc * 1real == acc) by (nonlinear_arith);
}

/// Costs never leave a cell with more than it gathered.
proof fn lemma_costs(
    motion: Motion,
    basal_rate: real,
    kinetic_cost: real,
    acc: real,
    own: Source<real>,
    speed: spec_fn(real, real) -> real,
)
    requires
        motion.spreads(),
        acc >= 0real,
        basal_rate >= 0real,
        kinetic_cost >= 0real,
        forall|a: real, b: real| #[trigger] speed(a, b) >= 0real,
    ensures
        motion.finish(basal_rate, kinetic_cost, speed)(acc, own) <= acc,
{
    let most = motion.dd as real - motion.sigma;
    let flow = speed(
        limited(own.flow_x, 0real - most, most),
        limited(own.flow_y, 0real - most, most),
    );
    let dt = motion.dt;
    let loss = basal_rate * dt;
    assert(loss >= 0real) by (nonlinear_arith)
        requires
            basal_rate >= 0real,
            dt >= 0real,
            loss == basal_rate * dt,
    ;
    assert(acc * (1real - loss) <= acc) by (nonlinear_arith)
        requires
            acc >= 0real,
            loss >= 0real,
    ;
    let effort = kinetic_cost * flow;
    assert(effort >= 0real) by (nonlinear_arith)
        requires
            kinetic_cost >= 0real,
            flow >= 0real,
            effort == kinetic_cost * flow,
    ;
    assert(effort * dt >= 0real) by (nonlinear_arith)
        requires
            effort >= 0real,
            dt >= 0real,
    ;
}

/// Reintegration never creates mass, whatever the flow, the time step and the costs: no
/// channel holds more mass after the pass than its positive cells did before.
pub proof fn reintegration_creates_no_mass(
    motion: Motion,
    channel: Seq<real>,
    flow_x: Seq<real>,
    flow_y: Seq<real>,
    basal_rate: real,
    kinetic_cost: real,
    num_channels: nat,
    c: int,
    speed: spec_fn(real, real) -> real,
)
    requires
        motion.spreads(),
        0 <= c < num_channels,
        channel.len() == motion.w * motion.h * num_channels,
        basal_rate >= 0real,
        kinetic_cost >= 0real,
        forall|a: real, b: real| #[trigger] speed(a, b) >= 0real,
    ensures
        channel_mass(
            reintegrated(motion, channel, flow_x, flow_y, basal_rate, kinetic_cost, speed),
            motion.w * motion.h,
            c,
        ) <= positive_mass(channel, motion.w * motion.h, c),
{
    let (w, h) = (motion.w as int, motion.h as int);
    let cells = motion.w * motion.h;
    let base = c * cells;
    let paid = reintegrated(motion, channel, flow_x, flow_y, basal_rate, kinetic_cost, speed);
    let paid_cells = |p: int| paid[c * cells + p];
    let got = |p: int|
        gathered(
            channel,
            flow_x,
            flow_y,
            base,
            p % w,
            p / w,
            w,
            h,
            motion.dd,
            0real,
            motion.gather(),
        );
    gathered_mass_is_at_most_spread_mass(motion, channel, flow_x, flow_y, base);
    lemma_spread_is_positive(motion, channel, flow_x, flow_y, num_channels, c);
    assert forall|p: int| 0 <= p < cells implies #[trigger] paid_cells(p) <= got(p) by {
        lemma_channel_cells(motion, c, p);
        lemma_element_bound(c, num_channels as int, cells as int, p);
        lemma_gathered_bound(motion, channel, flow_x, flow_y, base, p % w, p / w);
        let own = source_at(channel, flow_x, flow_y, base, p % w, p / w, w);
        lemma_costs(motion, basal_rate, kinetic_cost, got(p), own, speed);
    }
    lemma_total_at_most(paid_cells, got, cells);
}

} // verus!
