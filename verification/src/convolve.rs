//! Convolution on a grid through the transforms of its rows and columns, in exact
//! arithmetic.
use crate::complex::{
    complex, lemma_scaled_back, lemma_sum_equal, lemma_sum_swap, lemma_sum_times,
    lemma_times_associates, lemma_times_commutes, one, sum, Complex,
};
use crate::dft::{convolution, convolution_theorem, dft, is_root, lemma_dft_inverse, products};
use vstd::arithmetic::div_mod::*;
use vstd::arithmetic::mul::*;
use vstd::arithmetic::power2::*;
use vstd::prelude::*;

verus! {

/// Row `y` of a grid of width `w`.
pub open spec fn row<T>(grid: Seq<T>, w: nat, y: int) -> Seq<T> {
    Seq::new(w, |x: int| grid[y * w + x])
}

/// Column `x` of a grid of width `w` and height `h`.
pub open spec fn column<T>(grid: Seq<T>, w: nat, h: nat, x: int) -> Seq<T> {
    Seq::new(h, |y: int| grid[y * w + x])
}

/// The grid with every row replaced by what `f` makes of it.
pub open spec fn map_rows<T>(grid: Seq<T>, w: nat, f: spec_fn(Seq<T>) -> Seq<T>) -> Seq<T> {
    Seq::new(grid.len(), |p: int| f(row(grid, w, p / (w as int)))[p % (w as int)])
}

/// The grid with every column replaced by what `f` makes of it.
pub open spec fn map_columns<T>(
    grid: Seq<T>,
    w: nat,
    h: nat,
    f: spec_fn(Seq<T>) -> Seq<T>,
) -> Seq<T> {
    Seq::new(grid.len(), |p: int| f(column(grid, w, h, p % (w as int)))[p / (w as int)])
}

/// The place of cell `(x, y)`.
pub proof fn lemma_cell(w: nat, h: nat, x: int, y: int)
    requires
        0 <= x < w,
        0 <= y < h,
    ensures
        0 <= y * w + x < w * h,
        (y * w + x) / (w as int) == y,
        (y * w + x) % (w as int) == x,
{
    lemma_fundamental_div_mod_converse(y * w + x, w as int, y, x);
    assert(0 <= y * w) by (nonlinear_arith)
        requires
            0 <= y,
            0 <= w,
    ;
    assert(y * w + w <= w * h) by (nonlinear_arith)
        requires
            y + 1 <= h,
            0 <= w,
    ;
}

/// The cell at place `p`.
pub proof fn lemma_place(w: nat, h: nat, p: int)
    requires
        0 <= p < w * h,
        0 < w,
    ensures
        0 <= p % (w as int) < w,
        0 <= p / (w as int) < h,
        (p / (w as int)) * w + p % (w as int) == p,
{
    let m = w as int;
    lemma_fundamental_div_mod(p, m);
    lemma_mod_bound(p, m);
    lemma_mul_is_commutative(m, p / m);
    let q = p / m;
    assert(q < h) by (nonlinear_arith)
        requires
            m * q <= p,
            p < m * h,
            m > 0,
    ;
    lemma_div_pos_is_pos(p, m);
}

/// The two-dimensional transform: the transforms of the rows, and then of the
/// columns.
pub open spec fn dft2(grid: Seq<Complex>, w: nat, h: nat, wx: Complex, wy: Complex) -> Seq<Complex> {
    map_columns(
        map_rows(grid, w, |r: Seq<Complex>| dft(r, wx)),
        w,
        h,
        |c: Seq<Complex>| dft(c, wy),
    )
}

/// The unscaled inverse: the transforms of the columns with the inverse root, and
/// then of the rows.
pub open spec fn inverse_dft2(
    grid: Seq<Complex>,
    w: nat,
    h: nat,
    vx: Complex,
    vy: Complex,
) -> Seq<Complex> {
    map_rows(
        map_columns(grid, w, h, |c: Seq<Complex>| dft(c, vy)),
        w,
        |r: Seq<Complex>| dft(r, vx),
    )
}

/// The circular convolution of two grids: the sum over all cells `(s, t)` of
/// `grid` at `(s, t)` times `kernel` at `(x - s, y - t)`, both modulo the size of the
/// grid.
pub open spec fn convolution2(
    grid: Seq<Complex>,
    kernel: Seq<Complex>,
    w: nat,
    h: nat,
) -> Seq<Complex> {
    Seq::new(
        grid.len(),
        |p: int|
            sum(
                |t: int|
                    sum(
                        |s: int|
                            grid[t * w + s].times(
                                kernel[((p / (w as int) - t) % (h as int)) * w + (p % (w as int)
                                    - s) % (w as int)],
                            ),
                        w,
                    ),
                h,
            ),
    )
}

/// A row of a convolution is the sum of the convolutions of the rows.
proof fn lemma_convolution_row(
    grid: Seq<Complex>,
    kernel: Seq<Complex>,
    w: nat,
    h: nat,
    x: int,
    y: int,
)
    requires
        grid.len() == w * h,
        kernel.len() == w * h,
        0 <= x < w,
        0 <= y < h,
    ensures
        row(convolution2(grid, kernel, w, h), w, y)[x] == sum(
            |t: int| convolution(row(grid, w, t), row(kernel, w, (y - t) % (h as int)))[x],
            h,
        ),
{
    let (m, n) = (w as int, h as int);
    lemma_cell(w, h, x, y);
    let p = y * w + x;
    let whole = |t: int|
        sum(
            |s: int|
                grid[t * w + s].times(kernel[((p / m - t) % n) * w + (p % m - s) % m]),
            w,
        );
    let parts = |t: int| convolution(row(grid, w, t), row(kernel, w, (y - t) % n))[x];
    assert forall|t: int| 0 <= t < h implies #[trigger] whole(t) == parts(t) by {
        let a = row(grid, w, t);
        let b = row(kernel, w, (y - t) % n);
        let f = |s: int| grid[t * w + s].times(kernel[((p / m - t) % n) * w + (p % m - s) % m]);
        let g = |s: int| a[s].times(b[(x - s) % (a.len() as int)]);
        assert forall|s: int| 0 <= s < w implies #[trigger] f(s) == g(s) by {
            lemma_mod_bound(x - s, m);
        }
        lemma_sum_equal(f, g, w);
    }
    lemma_sum_equal(whole, parts, h);
}

/// The transform of a sum of sequences is the sum of their transforms.
proof fn lemma_dft_of_sum(
    total: Seq<Complex>,
    parts: spec_fn(int) -> Seq<Complex>,
    count: nat,
    w: Complex,
    k: int,
)
    requires
        0 <= k < total.len(),
        forall|t: int| 0 <= t < count ==> (#[trigger] parts(t)).len() == total.len(),
        forall|u: int|
            0 <= u < total.len() ==> #[trigger] total[u] == sum(|t: int| parts(t)[u], count),
    ensures
        dft(total, w)[k] == sum(|t: int| dft(parts(t), w)[k], count),
{
    let n = total.len();
    let z = w.power(k as nat);
    let f = |u: int, t: int| parts(t)[u].times(z.power(u as nat));
    let terms = |u: int| total[0 + u * 1].times(z.power(u as nat));
    let rows = |u: int| sum(|t: int| f(u, t), count);
    assert forall|u: int| 0 <= u < n implies #[trigger] terms(u) == rows(u) by {
        let c = z.power(u as nat);
        let inner = |t: int| parts(t)[u];
        assert(total[u] == sum(inner, count));
        lemma_sum_times(inner, c, count);
        lemma_sum_equal(|t: int| inner(t).times(c), |t: int| f(u, t), count);
    }
    lemma_sum_equal(terms, rows, n);
    lemma_sum_swap(f, n, count);
    let cols = |t: int| sum(|u: int| f(u, t), n);
    let want = |t: int| dft(parts(t), w)[k];
    assert forall|t: int| 0 <= t < count implies #[trigger] cols(t) == want(t) by {
        lemma_sum_equal(
            |u: int| f(u, t),
            |u: int| parts(t)[0 + u * 1].times(z.power(u as nat)),
            n,
        );
    }
    lemma_sum_equal(cols, want, count);
}

/// After the transform of the rows, each column of a convolution is the convolution
/// of the columns.
proof fn lemma_row_transform(
    grid: Seq<Complex>,
    kernel: Seq<Complex>,
    w: nat,
    h: nat,
    wx: Complex,
    bits: nat,
    x: int,
)
    requires
        w == pow2(bits),
        h > 0,
        grid.len() == w * h,
        kernel.len() == w * h,
        is_root(wx, bits),
        bits == 0 ==> wx == one(),
        0 <= x < w,
    ensures
        ({
            let f = |r: Seq<Complex>| dft(r, wx);
            column(map_rows(convolution2(grid, kernel, w, h), w, f), w, h, x) == convolution(
                column(map_rows(grid, w, f), w, h, x),
                column(map_rows(kernel, w, f), w, h, x),
            )
        }),
{
    let n = h as int;
    let f = |r: Seq<Complex>| dft(r, wx);
    let conv = convolution2(grid, kernel, w, h);
    let left = column(map_rows(conv, w, f), w, h, x);
    let a = column(map_rows(grid, w, f), w, h, x);
    let b = column(map_rows(kernel, w, f), w, h, x);
    let right = convolution(a, b);
    assert forall|y: int| 0 <= y < h implies left[y] == right[y] by {
        lemma_cell(w, h, x, y);
        let parts = |t: int| convolution(row(grid, w, t), row(kernel, w, (y - t) % n));
        let line = row(conv, w, y);
        assert forall|u: int| 0 <= u < line.len() implies #[trigger] line[u] == sum(
            |t: int| parts(t)[u],
            h,
        ) by {
            lemma_convolution_row(grid, kernel, w, h, u, y);
            lemma_sum_equal(
                |t: int| convolution(row(grid, w, t), row(kernel, w, (y - t) % n))[u],
                |t: int| parts(t)[u],
                h,
            );
        }
        lemma_dft_of_sum(line, parts, h, wx, x);
        assert(left[y] == dft(line, wx)[x]);
        let spectra = |t: int| dft(parts(t), wx)[x];
        let want = |t: int| a[t].times(b[(y - t) % (a.len() as int)]);
        assert forall|t: int| 0 <= t < h implies #[trigger] spectra(t) == want(t) by {
            let ra = row(grid, w, t);
            let rb = row(kernel, w, (y - t) % n);
            lemma_mod_bound(y - t, n);
            convolution_theorem(ra, rb, wx, bits);
            lemma_cell(w, h, x, t);
            lemma_cell(w, h, x, (y - t) % n);
            assert(spectra(t) == products(dft(ra, wx), dft(rb, wx))[x]);
        }
        lemma_sum_equal(spectra, want, h);
    }
    assert(left =~= right);
}

/// The two-dimensional transform of a circular convolution is the product of the
/// transforms.
pub proof fn grid_convolution_theorem(
    grid: Seq<Complex>,
    kernel: Seq<Complex>,
    w: nat,
    h: nat,
    wx: Complex,
    wy: Complex,
    bits_x: nat,
    bits_y: nat,
)
    requires
        w == pow2(bits_x),
        h == pow2(bits_y),
        grid.len() == w * h,
        kernel.len() == w * h,
        is_root(wx, bits_x),
        is_root(wy, bits_y),
        bits_x == 0 ==> wx == one(),
        bits_y == 0 ==> wy == one(),
    ensures
        dft2(convolution2(grid, kernel, w, h), w, h, wx, wy) == products(
            dft2(grid, w, h, wx, wy),
            dft2(kernel, w, h, wx, wy),
        ),
{
    lemma_pow2_pos(bits_x);
    lemma_pow2_pos(bits_y);
    let f = |r: Seq<Complex>| dft(r, wx);
    let left = dft2(convolution2(grid, kernel, w, h), w, h, wx, wy);
    let right = products(dft2(grid, w, h, wx, wy), dft2(kernel, w, h, wx, wy));
    assert forall|p: int| 0 <= p < w * h implies left[p] == right[p] by {
        lemma_place(w, h, p);
        let (x, y) = (p % (w as int), p / (w as int));
        let a = column(map_rows(grid, w, f), w, h, x);
        let b = column(map_rows(kernel, w, f), w, h, x);
        lemma_row_transform(grid, kernel, w, h, wx, bits_x, x);
        convolution_theorem(a, b, wy, bits_y);
        assert(left[p] == dft(convolution(a, b), wy)[y]);
        assert(right[p] == dft(a, wy)[y].times(dft(b, wy)[y]));
    }
    assert(left =~= right);
}

/// A common factor moves out of a transform.
proof fn lemma_dft_times(x: Seq<Complex>, c: Complex, w: Complex, k: int)
    requires
        0 <= k < x.len(),
    ensures
        dft(x.map_values(|e: Complex| e.times(c)), w)[k] == dft(x, w)[k].times(c),
{
    let n = x.len();
    let z = w.power(k as nat);
    let scaled = x.map_values(|e: Complex| e.times(c));
    let terms = |t: int| x[0 + t * 1].times(z.power(t as nat));
    let scaled_terms = |t: int| scaled[0 + t * 1].times(z.power(t as nat));
    let want = |t: int| terms(t).times(c);
    assert forall|t: int| 0 <= t < n implies #[trigger] scaled_terms(t) == want(t) by {
        let (e, zt) = (x[t], z.power(t as nat));
        lemma_times_associates(e, c, zt);
        lemma_times_commutes(c, zt);
        lemma_times_associates(e, zt, c);
    }
    lemma_sum_equal(scaled_terms, want, n);
    lemma_sum_times(terms, c, n);
}

/// Two real factors are one.
proof fn lemma_real_factors(e: Complex, a: real, b: real)
    ensures
        e.times(complex(a, 0real)).times(complex(b, 0real)) == e.times(complex(a * b, 0real)),
{
    lemma_times_associates(e, complex(a, 0real), complex(b, 0real));
    assert(complex(a, 0real).times(complex(b, 0real)) == complex(a * b, 0real)) by {
        reveal(Complex::times);
        assert(a * 0real == 0real) by (nonlinear_arith);
        assert(0real * b == 0real) by (nonlinear_arith);
        assert(0real * 0real == 0real) by (nonlinear_arith);
    }
}

/// The inverse of the two-dimensional transform multiplies every cell by the number
/// of cells.
pub proof fn inverse_dft2_undoes_dft2(
    grid: Seq<Complex>,
    w: nat,
    h: nat,
    wx: Complex,
    wy: Complex,
    vx: Complex,
    vy: Complex,
    bits_x: nat,
    bits_y: nat,
)
    requires
        w == pow2(bits_x),
        h == pow2(bits_y),
        grid.len() == w * h,
        is_root(wx, bits_x),
        is_root(wy, bits_y),
        wx.times(vx) == one(),
        wy.times(vy) == one(),
    ensures
        inverse_dft2(dft2(grid, w, h, wx, wy), w, h, vx, vy) == grid.map_values(
            |e: Complex| e.times(complex(w as real * h as real, 0real)),
        ),
{
    lemma_pow2_pos(bits_x);
    lemma_pow2_pos(bits_y);
    let f = |r: Seq<Complex>| dft(r, wx);
    let g = |c: Seq<Complex>| dft(c, wy);
    let fi = |r: Seq<Complex>| dft(r, vx);
    let gi = |c: Seq<Complex>| dft(c, vy);
    let rows = map_rows(grid, w, f);
    let spectrum = dft2(grid, w, h, wx, wy);
    let tall = complex(h as real, 0real);
    let wide = complex(w as real, 0real);
    let back = map_columns(spectrum, w, h, gi);
    let times_tall = |e: Complex| e.times(tall);
    let times_wide = |e: Complex| e.times(wide);
    // the columns come back, times the height
    assert forall|p: int| 0 <= p < w * h implies back[p] == rows[p].times(tall) by {
        lemma_place(w, h, p);
        let (x, y) = (p % (w as int), p / (w as int));
        let c = column(rows, w, h, x);
        let d = column(spectrum, w, h, x);
        assert(d =~= dft(c, wy)) by {
            assert forall|t: int| 0 <= t < h implies d[t] == dft(c, wy)[t] by {
                lemma_cell(w, h, x, t);
            }
        }
        lemma_dft_inverse(c, wy, vy, bits_y);
        assert(dft(d, vy)[y] == c[y].times(complex(c.len() as real, 0real)));
    }
    // and so do the rows, times the width
    let all = inverse_dft2(spectrum, w, h, vx, vy);
    let want = grid.map_values(|e: Complex| e.times(complex(w as real * h as real, 0real)));
    assert forall|p: int| 0 <= p < w * h implies all[p] == want[p] by {
        lemma_place(w, h, p);
        let (x, y) = (p % (w as int), p / (w as int));
        let r = row(grid, w, y);
        let s = dft(r, wx);
        let scaled = row(back, w, y);
        assert(scaled =~= s.map_values(times_tall)) by {
            assert forall|u: int| 0 <= u < w implies scaled[u] == s.map_values(times_tall)[u] by {
                lemma_cell(w, h, u, y);
                assert(rows[y * w + u] == f(row(grid, w, y))[u]);
            }
        }
        assert(s.map_values(times_tall) =~= s.map_values(|e: Complex| e.times(tall)));
        lemma_dft_times(s, tall, vx, x);
        lemma_dft_inverse(r, wx, vx, bits_x);
        assert(dft(s, vx)[x] == r[x].times(complex(r.len() as real, 0real)));
        assert(all[p] == r[x].times(wide).times(tall));
        lemma_real_factors(grid[p], w as real, h as real);
    }
    assert(all =~= want);
}

/// Multiplying the spectra of a square grid and a kernel, transforming back and
/// dividing by the square of the width gives their circular convolution.
pub proof fn grid_spectral_product_convolves(
    grid: Seq<Complex>,
    kernel: Seq<Complex>,
    n: nat,
    w: Complex,
    v: Complex,
    bits: nat,
)
    requires
        n == pow2(bits),
        grid.len() == n * n,
        kernel.len() == n * n,
        is_root(w, bits),
        bits == 0 ==> w == one(),
        w.times(v) == one(),
    ensures
        inverse_dft2(
            products(dft2(grid, n, n, w, w), dft2(kernel, n, n, w, w)),
            n,
            n,
            v,
            v,
        ).map_values(|e: Complex| e.scaled(1real / (n as real * n as real))) == convolution2(
            grid,
            kernel,
            n,
            n,
        ),
{
    lemma_pow2_pos(bits);
    grid_convolution_theorem(grid, kernel, n, n, w, w, bits, bits);
    let conv = convolution2(grid, kernel, n, n);
    inverse_dft2_undoes_dft2(conv, n, n, w, w, v, v, bits, bits);
    let area = n as real * n as real;
    let side = n as real;
    assert(area != 0real) by (nonlinear_arith)
        requires
            side > 0real,
            area == side * side,
    ;
    let back = inverse_dft2(
        products(dft2(grid, n, n, w, w), dft2(kernel, n, n, w, w)),
        n,
        n,
        v,
        v,
    );
    let scaled = back.map_values(|e: Complex| e.scaled(1real / (n as real * n as real)));
    assert forall|p: int| 0 <= p < conv.len() implies scaled[p] == conv[p] by {
        lemma_scaled_back(conv[p], area);
    }
    assert(scaled =~= conv);
}

} // verus!
