//! The kernels of Flow Lenia, and their transforms.
use crate::convolve::{column, lemma_cell, lemma_place, map_columns, map_rows, row};
use crate::gpu::Complex32Bits;
use crate::mass::{lemma_total_equal, lemma_total_scaled, total};
use crate::nd::{grid_elems, grid_elems_vec, grid_get, grid_set, grid_shape, grid_zeros, Grid};
use crate::power::{is_power_of_two, next_power, next_power_of_next_power, next_power_of_two};
use vstd::arithmetic::div_mod::*;
use vstd::arithmetic::mul::*;
use vstd::arithmetic::power2::*;
use vstd::prelude::*;

verus! {

/// The largest grid that kernels are generated for: the squared distances on it fit
/// in 32 bits.
pub const MAX_KERNEL_SIZE: usize = 32768;

/// The bit pattern of the double-precision number zero.
pub const F64_ZERO: u64 = 0;

/// The squared distance of cell `(i, j)` from the middle of a grid of `p` times `p`
/// cells.
pub open spec fn distance_from_middle(p: int, i: int, j: int) -> int {
    (i - p / 2) * (i - p / 2) + (j - p / 2) * (j - p / 2)
}

/// A kernel on a grid of `p` times `p` cells, from its values by squared distance
/// from the middle.
pub open spec fn kernel_cells<T>(p: nat, value: spec_fn(int) -> T) -> Seq<T> {
    Seq::new(
        p * p,
        |q: int| value(distance_from_middle(p as int, q / (p as int), q % (p as int))),
    )
}

/// The kernel divided by its sum; `sum` gives the sum if it is to be divided by.
pub open spec fn divided<T>(
    cells: Seq<T>,
    sum: spec_fn(Seq<T>) -> Option<T>,
    divide: spec_fn(T, T) -> T,
) -> Seq<T> {
    match sum(cells) {
        Some(total) => cells.map_values(|v: T| divide(v, total)),
        None => cells,
    }
}

/// A grid of `p` times `p` cells with its quadrants exchanged, so that the middle
/// comes to the origin.
pub open spec fn shifted<T>(cells: Seq<T>, p: nat) -> Seq<T> {
    let n = p as int;
    Seq::new(
        cells.len(),
        |q: int| cells[((q / n + n / 2) % n) * n + (q % n + n / 2) % n],
    )
}

/// The transform of a grid of real numbers: the rows, and then the columns.
pub open spec fn transformed<T>(
    cells: Seq<T>,
    p: nat,
    zero: T,
    transform: spec_fn(Seq<(T, T)>) -> Seq<(T, T)>,
) -> Seq<(T, T)> {
    let data = cells.map_values(|v: T| (v, zero));
    map_columns(map_rows(data, p, transform), p, p, transform)
}

/// Complex numbers in single precision.
pub open spec fn narrowed<T>(
    data: Seq<(T, T)>,
    narrow: spec_fn(T) -> u32,
) -> Seq<Complex32Bits> {
    data.map_values(|c: (T, T)| Complex32Bits { re: narrow(c.0), im: narrow(c.1) })
}

/// The arithmetic of the generation of kernels. The kernels are computed on the bit
/// patterns of double-precision numbers; exact numbers serve to reason about them.
#[verifier::reject_recursive_types(T)]
pub struct KernelArithmetic<T> {
    pub zero: T,
    /// The value of a kernel at a squared distance.
    pub value: spec_fn(int, int) -> T,
    /// The sum of all values, if it is to be divided by.
    pub sum: spec_fn(Seq<T>) -> Option<T>,
    pub divide: spec_fn(T, T) -> T,
    /// The transform of a line of complex numbers.
    pub transform: spec_fn(Seq<(T, T)>) -> Seq<(T, T)>,
    /// The nearest number in single precision.
    pub narrow: spec_fn(T) -> u32,
}

/// The transform of kernel `k` on a grid of `p` times `p` cells.
pub open spec fn kernel_transform<T>(
    ops: KernelArithmetic<T>,
    p: nat,
    k: int,
) -> Seq<Complex32Bits> {
    let cells = kernel_cells(p, |d: int| (ops.value)(k, d));
    narrowed(
        transformed(
            shifted(divided(cells, ops.sum, ops.divide), p),
            p,
            ops.zero,
            ops.transform,
        ),
        ops.narrow,
    )
}

/// The transforms of `count` kernels on a grid whose side is `size`, rounded up to a
/// power of two.
pub open spec fn generated<T>(
    ops: KernelArithmetic<T>,
    size: nat,
    count: nat,
) -> Seq<Seq<Complex32Bits>> {
    Seq::new(count, |k: int| kernel_transform(ops, next_power(size), k))
}

/// `f` is what `run` computes from a kernel and a squared distance.
pub open spec fn computes_value<V: Fn(usize, i32) -> u64>(
    run: V,
    f: spec_fn(int, int) -> u64,
) -> bool {
    forall|k: usize, d: i32, r: u64| #[trigger]
        run.ensures((k, d), r) ==> r == f(k as int, d as int)
}

/// `f` is what `run` computes from all values.
pub open spec fn computes_sum<S: Fn(Vec<u64>) -> Option<u64>>(
    run: S,
    f: spec_fn(Seq<u64>) -> Option<u64>,
) -> bool {
    forall|v: Vec<u64>, r: Option<u64>| #[trigger] run.ensures((v,), r) ==> r == f(v@)
}

/// `f` is what `run` computes from two numbers.
pub open spec fn computes_quotient<D: Fn(u64, u64) -> u64>(
    run: D,
    f: spec_fn(u64, u64) -> u64,
) -> bool {
    forall|v: u64, t: u64, r: u64| #[trigger] run.ensures((v, t), r) ==> r == f(v, t)
}

/// `f` is what `run` makes of a line of numbers.
pub open spec fn computes_line<F: Fn(Vec<(u64, u64)>) -> Vec<(u64, u64)>>(
    run: F,
    f: spec_fn(Seq<(u64, u64)>) -> Seq<(u64, u64)>,
) -> bool {
    forall|v: Vec<(u64, u64)>, r: Vec<(u64, u64)>| #[trigger] run.ensures((v,), r) ==> r@ == f(v@)
}

/// `f` is what `run` makes of a number.
pub open spec fn computes_narrow<N: Fn(u64) -> u32>(run: N, f: spec_fn(u64) -> u32) -> bool {
    forall|v: u64, r: u32| #[trigger] run.ensures((v,), r) ==> r == f(v)
}

/// `ops` is the arithmetic of the given functions.
pub open spec fn computes_kernels<
    V: Fn(usize, i32) -> u64,
    S: Fn(Vec<u64>) -> Option<u64>,
    D: Fn(u64, u64) -> u64,
    F: Fn(Vec<(u64, u64)>) -> Vec<(u64, u64)>,
    N: Fn(u64) -> u32,
>(value: V, sum: S, divide: D, transform: F, narrow: N, ops: KernelArithmetic<u64>) -> bool {
    &&& ops.zero == F64_ZERO
    &&& computes_value(value, ops.value)
    &&& computes_sum(sum, ops.sum)
    &&& computes_quotient(divide, ops.divide)
    &&& computes_line(transform, ops.transform)
    &&& computes_narrow(narrow, ops.narrow)
}

/// After the shift, cell `(i, j)` holds the value at its distance from the origin,
/// counted around the edges of the grid.
pub proof fn shifted_kernel_is_centred<T>(p: nat, value: spec_fn(int) -> T, i: int, j: int)
    requires
        is_power_of_two(p),
        0 <= i < p,
        0 <= j < p,
    ensures
        ({
            let (half, n) = (p as int / 2, p as int);
            let x = if i + half < n {
                i
            } else {
                i - n
            };
            let y = if j + half < n {
                j
            } else {
                j - n
            };
            shifted(kernel_cells(p, value), p)[i * n + j] == value(x * x + y * y)
        }),
{
    let (half, n) = (p as int / 2, p as int);
    lemma_cell(p, p, j, i);
    let si = (i + half) % n;
    let sj = (j + half) % n;
    lemma_wrapped(i, n);
    lemma_wrapped(j, n);
    lemma_cell(p, p, sj, si);
}

/// A coordinate moved by half the width, around the edge.
proof fn lemma_wrapped(i: int, n: int)
    requires
        0 <= i < n,
    ensures
        (i + n / 2) % n == if i + n / 2 < n {
            i + n / 2
        } else {
            i + n / 2 - n
        },
        0 <= (i + n / 2) % n < n,
{
    if i + n / 2 < n {
        lemma_small_mod((i + n / 2) as nat, n as nat);
    } else {
        lemma_mod_add_multiples_vanish(i + n / 2 - n, n);
        lemma_small_mod((i + n / 2 - n) as nat, n as nat);
    }
}

/// Exchanging the quadrants twice gives a grid of a power of two back.
pub proof fn shifting_twice_is_nothing<T>(cells: Seq<T>, p: nat)
    requires
        is_power_of_two(p),
        cells.len() == p * p,
    ensures
        shifted(shifted(cells, p), p) == cells,
{
    let n = p as int;
    let e = crate::power::log2_of(p);
    lemma_pow2_pos(e);
    lemma2_to64();
    assert(n == 1 || n % 2 == 0) by {
        if e > 0 {
            lemma_pow2_unfold(e);
        }
    }
    let once = shifted(cells, p);
    let twice = shifted(once, p);
    assert forall|q: int| 0 <= q < cells.len() implies twice[q] == cells[q] by {
        lemma_place(p, p, q);
        let (i, j) = (q / n, q % n);
        lemma_wrapped(i, n);
        lemma_wrapped(j, n);
        let (si, sj) = ((i + n / 2) % n, (j + n / 2) % n);
        lemma_cell(p, p, sj, si);
        lemma_wrapped(si, n);
        lemma_wrapped(sj, n);
        assert((si + n / 2) % n == i);
        assert((sj + n / 2) % n == j);
    }
    assert(twice =~= cells);
}

/// The squared distances on a grid are small enough.
proof fn lemma_distance_fits(p: int, i: int, j: int)
    requires
        0 < p <= MAX_KERNEL_SIZE,
        0 <= i < p,
        0 <= j < p,
    ensures
        0 <= (i - p / 2) * (i - p / 2) <= 16384 * 16384,
        0 <= (j - p / 2) * (j - p / 2) <= 16384 * 16384,
{
    let (x, y) = (i - p / 2, j - p / 2);
    assert(0 <= x * x <= 16384 * 16384) by (nonlinear_arith)
        requires
            -16384 <= x <= 16384,
    ;
    assert(0 <= y * y <= 16384 * 16384) by (nonlinear_arith)
        requires
            -16384 <= y <= 16384,
    ;
}

/// Fills a grid with a kernel.
fn fill_kernel<V: Fn(usize, i32) -> u64>(p: usize, k: usize, value: &V) -> (grid: Grid)
    requires
        0 < p <= MAX_KERNEL_SIZE,
        p * p * 8 <= isize::MAX,
        forall|d: i32| #[trigger] value.requires((k, d)),
    ensures
        grid_shape(grid) == (p, p),
        grid_elems(grid).len() == p * p,
        forall|f: spec_fn(int, int) -> u64| #[trigger]
            computes_value(*value, f) ==> grid_elems(grid) == kernel_cells(
                p as nat,
                |d: int| f(k as int, d),
            ),
{
    let mid: i32 = p as i32 / 2;
    let mut grid: Grid = grid_zeros(p, p);
    let mut i: usize = 0;
    while i < p
        invariant
            i <= p <= MAX_KERNEL_SIZE,
            0 < p,
            mid == p as int / 2,
            grid_shape(grid) == (p, p),
            grid_elems(grid).len() == p * p,
            forall|d: i32| #[trigger] value.requires((k, d)),
            forall|f: spec_fn(int, int) -> u64, q: int|
                #![trigger computes_value(*value, f), grid_elems(grid)[q]]
                computes_value(*value, f) && 0 <= q < i * p ==> grid_elems(grid)[q] == f(
                    k as int,
                    distance_from_middle(p as int, q / (p as int), q % (p as int)),
                ),
        decreases p - i,
    {
        let mut j: usize = 0;
        while j < p
            invariant
                i < p <= MAX_KERNEL_SIZE,
                j <= p,
                mid == p as int / 2,
                grid_shape(grid) == (p, p),
                grid_elems(grid).len() == p * p,
                forall|d: i32| #[trigger] value.requires((k, d)),
                forall|f: spec_fn(int, int) -> u64, q: int|
                    #![trigger computes_value(*value, f), grid_elems(grid)[q]]
                    computes_value(*value, f) && 0 <= q < i * p + j ==> grid_elems(grid)[q] == f(
                        k as int,
                        distance_from_middle(p as int, q / (p as int), q % (p as int)),
                    ),
            decreases p - j,
        {
            proof {
                lemma_distance_fits(p as int, i as int, j as int);
                lemma_cell(p as nat, p as nat, j as int, i as int);
            }
            let dx: i32 = i as i32 - mid;
            let dy: i32 = j as i32 - mid;
            let v: u64 = value(k, dx * dx + dy * dy);
            grid_set(&mut grid, i, j, v);
            j = j + 1;
        }
        proof {
            assert(i * p + p == (i + 1) * p) by (nonlinear_arith);
        }
        i = i + 1;
    }
    proof {
        assert forall|f: spec_fn(int, int) -> u64| #[trigger]
            computes_value(*value, f) implies grid_elems(grid) == kernel_cells(
            p as nat,
            |d: int| f(k as int, d),
        ) by {
            assert(grid_elems(grid) =~= kernel_cells(p as nat, |d: int| f(k as int, d)));
        }
    }
    grid
}

/// Divides the cells of a grid by their sum.
fn divide_cells<S: Fn(Vec<u64>) -> Option<u64>, D: Fn(u64, u64) -> u64>(
    grid: &mut Grid,
    p: usize,
    sum: &S,
    divide: &D,
)
    requires
        0 < p,
        grid_shape(*old(grid)) == (p, p),
        grid_elems(*old(grid)).len() == p * p,
        forall|v: Vec<u64>| #[trigger] sum.requires((v,)),
        forall|v: u64, t: u64| #[trigger] divide.requires((v, t)),
    ensures
        grid_shape(*final(grid)) == (p, p),
        grid_elems(*final(grid)).len() == p * p,
        forall|s: spec_fn(Seq<u64>) -> Option<u64>, d: spec_fn(u64, u64) -> u64|
            #![trigger computes_sum(*sum, s), computes_quotient(*divide, d)]
            computes_sum(*sum, s) && computes_quotient(*divide, d) ==> grid_elems(*final(grid))
                == divided(grid_elems(*old(grid)), s, d),
{
    let ghost start = grid_elems(*grid);
    let cells: Vec<u64> = grid_elems_vec(grid);
    let total: Option<u64> = sum(cells);
    match total {
        None => {},
        Some(t) => {
            let mut i: usize = 0;
            while i < p
                invariant
                    i <= p,
                    grid_shape(*grid) == (p, p),
                    grid_elems(*grid).len() == p * p == start.len(),
                    forall|v: u64, t: u64| #[trigger] divide.requires((v, t)),
                    forall|q: int| i * p <= q < p * p ==> #[trigger] grid_elems(*grid)[q] == start[q],
                    forall|d: spec_fn(u64, u64) -> u64, q: int|
                        #![trigger computes_quotient(*divide, d), grid_elems(*grid)[q]]
                        computes_quotient(*divide, d) && 0 <= q < i * p ==> grid_elems(*grid)[q]
                            == d(start[q], t),
                decreases p - i,
            {
                let mut j: usize = 0;
                while j < p
                    invariant
                        i < p,
                        j <= p,
                        grid_shape(*grid) == (p, p),
                        grid_elems(*grid).len() == p * p == start.len(),
                        forall|v: u64, t: u64| #[trigger] divide.requires((v, t)),
                        forall|q: int|
                            i * p + j <= q < p * p ==> #[trigger] grid_elems(*grid)[q] == start[q],
                        forall|d: spec_fn(u64, u64) -> u64, q: int|
                            #![trigger computes_quotient(*divide, d), grid_elems(*grid)[q]]
                            computes_quotient(*divide, d) && 0 <= q < i * p + j
                                ==> grid_elems(*grid)[q] == d(start[q], t),
                    decreases p - j,
                {
                    proof {
                        lemma_cell(p as nat, p as nat, j as int, i as int);
                    }
                    let v: u64 = grid_get(grid, i, j);
                    let q: u64 = divide(v, t);
                    grid_set(grid, i, j, q);
                    j = j + 1;
                }
                proof {
                    assert(i * p + p == (i + 1) * p) by (nonlinear_arith);
                }
                i = i + 1;
            }
        },
    }
    proof {
        assert forall|s: spec_fn(Seq<u64>) -> Option<u64>, d: spec_fn(u64, u64) -> u64|
            #![trigger computes_sum(*sum, s), computes_quotient(*divide, d)]
            computes_sum(*sum, s) && computes_quotient(*divide, d) implies grid_elems(*grid)
            == divided(start, s, d) by {
            assert(grid_elems(*grid) =~= divided(start, s, d));
        }
    }
}

/// Exchanges the quadrants of a grid.
fn shift_grid(grid: &Grid, p: usize) -> (out: Grid)
    requires
        0 < p <= MAX_KERNEL_SIZE,
        p * p * 8 <= isize::MAX,
        grid_shape(*grid) == (p, p),
        grid_elems(*grid).len() == p * p,
    ensures
        grid_shape(out) == (p, p),
        grid_elems(out) == shifted(grid_elems(*grid), p as nat),
{
    let mut out: Grid = grid_zeros(p, p);
    let ghost want = shifted(grid_elems(*grid), p as nat);
    let mut i: usize = 0;
    while i < p
        invariant
            i <= p <= MAX_KERNEL_SIZE,
            0 < p,
            grid_shape(*grid) == (p, p),
            grid_shape(out) == (p, p),
            grid_elems(out).len() == p * p == want.len(),
            want == shifted(grid_elems(*grid), p as nat),
            forall|q: int| 0 <= q < i * p ==> #[trigger] grid_elems(out)[q] == want[q],
        decreases p - i,
    {
        let mut j: usize = 0;
        while j < p
            invariant
                i < p <= MAX_KERNEL_SIZE,
                j <= p,
                grid_shape(*grid) == (p, p),
                grid_shape(out) == (p, p),
                grid_elems(out).len() == p * p == want.len(),
                want == shifted(grid_elems(*grid), p as nat),
                forall|q: int| 0 <= q < i * p + j ==> #[trigger] grid_elems(out)[q] == want[q],
            decreases p - j,
        {
            let si: usize = (i + p / 2) % p;
            let sj: usize = (j + p / 2) % p;
            proof {
                lemma_cell(p as nat, p as nat, j as int, i as int);
            }
            let v: u64 = grid_get(grid, si, sj);
            grid_set(&mut out, i, j, v);
            j = j + 1;
        }
        proof {
            assert(i * p + p == (i + 1) * p) by (nonlinear_arith);
        }
        i = i + 1;
    }
    assert(grid_elems(out) =~= want);
    out
}

/// Replaces every row of a grid by its transform.
fn transform_rows<F: Fn(Vec<(u64, u64)>) -> Vec<(u64, u64)>>(
    data: &mut Vec<(u64, u64)>,
    p: usize,
    transform: &F,
)
    requires
        0 < p,
        old(data).len() == p * p,
        forall|v: Vec<(u64, u64)>| v.len() == p ==> #[trigger] transform.requires((v,)),
        forall|v: Vec<(u64, u64)>, r: Vec<(u64, u64)>|
            v.len() == p && #[trigger] transform.ensures((v,), r) ==> r.len() == p,
    ensures
        final(data).len() == p * p,
        forall|f: spec_fn(Seq<(u64, u64)>) -> Seq<(u64, u64)>| #[trigger]
            computes_line(*transform, f) ==> final(data)@ == map_rows(old(data)@, p as nat, f),
{
    let ghost start = data@;
    let mut i: usize = 0;
    while i < p
        invariant
            i <= p,
            0 < p,
            data.len() == p * p == start.len(),
            forall|v: Vec<(u64, u64)>| v.len() == p ==> #[trigger] transform.requires((v,)),
            forall|v: Vec<(u64, u64)>, r: Vec<(u64, u64)>|
                v.len() == p && #[trigger] transform.ensures((v,), r) ==> r.len() == p,
            forall|q: int| i * p <= q < p * p ==> #[trigger] data@[q] == start[q],
            forall|f: spec_fn(Seq<(u64, u64)>) -> Seq<(u64, u64)>, q: int|
                #![trigger computes_line(*transform, f), data@[q]]
                computes_line(*transform, f) && 0 <= q < i * p ==> data@[q] == map_rows(
                    start,
                    p as nat,
                    f,
                )[q],
        decreases p - i,
    {
        let ghost before = data@;
        let mut line: Vec<(u64, u64)> = Vec::new();
        let mut j: usize = 0;
        while j < p
            invariant
                i < p,
                j <= p,
                data@ == before,
                data.len() == p * p == start.len(),
                forall|q: int| i * p <= q < p * p ==> #[trigger] before[q] == start[q],
                line@ == row(start, p as nat, i as int).take(j as int),
            decreases p - j,
        {
            proof {
                lemma_cell(p as nat, p as nat, j as int, i as int);
                assert(0 <= i * p) by (nonlinear_arith);
            }
            line.push(data[i * p + j]);
            j = j + 1;
            assert(line@ =~= row(start, p as nat, i as int).take(j as int));
        }
        assert(line@ =~= row(start, p as nat, i as int));
        let ghost old_line = line@;
        let out: Vec<(u64, u64)> = transform(line);
        j = 0;
        while j < p
            invariant
                i < p,
                j <= p,
                out.len() == p,
                data.len() == p * p == start.len() == before.len(),
                forall|q: int|
                    0 <= q < p * p && !(i * p <= q < i * p + j) ==> #[trigger] data@[q] == before[q],
                forall|x: int| 0 <= x < j ==> #[trigger] data@[i * p + x] == out@[x],
            decreases p - j,
        {
            proof {
                lemma_cell(p as nat, p as nat, j as int, i as int);
                assert(0 <= i * p) by (nonlinear_arith);
            }
            let ghost held = data@;
            data.set(i * p + j, out[j]);
            proof {
                assert forall|x: int| 0 <= x < j + 1 implies #[trigger] data@[i * p + x]
                    == out@[x] by {
                    if x < j {
                        assert(held[i * p + x] == out@[x]);
                    }
                }
            }
            j = j + 1;
        }
        proof {
            assert(i * p + p == (i + 1) * p) by (nonlinear_arith);
            assert forall|f: spec_fn(Seq<(u64, u64)>) -> Seq<(u64, u64)>, q: int|
                #![trigger computes_line(*transform, f), data@[q]]
                computes_line(*transform, f) && 0 <= q < (i + 1) * p implies data@[q] == map_rows(
                start,
                p as nat,
                f,
            )[q] by {
                lemma_row_in_grid(i as int, p as int);
                if q < i * p {
                    assert(before[q] == map_rows(start, p as nat, f)[q]);
                } else {
                    lemma_fundamental_div_mod_converse(q, p as int, i as int, q - i * p);
                    assert(out@ == f(old_line));
                    assert(data@[i * p + (q - i * p)] == out@[q - i * p]);
                }
            }
        }
        i = i + 1;
    }
    proof {
        assert forall|f: spec_fn(Seq<(u64, u64)>) -> Seq<(u64, u64)>| #[trigger]
            computes_line(*transform, f) implies data@ == map_rows(start, p as nat, f) by {
            assert(data@ =~= map_rows(start, p as nat, f));
        }
    }
}

/// A row ends within the grid.
proof fn lemma_row_in_grid(i: int, p: int)
    requires
        0 <= i < p,
    ensures
        0 <= i * p,
        (i + 1) * p <= p * p,
{
    assert(0 <= i * p) by (nonlinear_arith)
        requires
            0 <= i,
            0 <= p,
    ;
    assert((i + 1) * p <= p * p) by (nonlinear_arith)
        requires
            i + 1 <= p,
            0 <= p,
    ;
}

/// Replaces every column of a grid by its transform.
fn transform_columns<F: Fn(Vec<(u64, u64)>) -> Vec<(u64, u64)>>(
    data: &mut Vec<(u64, u64)>,
    p: usize,
    transform: &F,
)
    requires
        0 < p,
        old(data).len() == p * p,
        forall|v: Vec<(u64, u64)>| v.len() == p ==> #[trigger] transform.requires((v,)),
        forall|v: Vec<(u64, u64)>, r: Vec<(u64, u64)>|
            v.len() == p && #[trigger] transform.ensures((v,), r) ==> r.len() == p,
    ensures
        final(data).len() == p * p,
        forall|f: spec_fn(Seq<(u64, u64)>) -> Seq<(u64, u64)>| #[trigger]
            computes_line(*transform, f) ==> final(data)@ == map_columns(
                old(data)@,
                p as nat,
                p as nat,
                f,
            ),
{
    let ghost start = data@;
    let mut j: usize = 0;
    while j < p
        invariant
            j <= p,
            0 < p,
            data.len() == p * p == start.len(),
            forall|v: Vec<(u64, u64)>| v.len() == p ==> #[trigger] transform.requires((v,)),
            forall|v: Vec<(u64, u64)>, r: Vec<(u64, u64)>|
                v.len() == p && #[trigger] transform.ensures((v,), r) ==> r.len() == p,
            forall|q: int|
                0 <= q < p * p && q % (p as int) >= j ==> #[trigger] data@[q] == start[q],
            forall|f: spec_fn(Seq<(u64, u64)>) -> Seq<(u64, u64)>, q: int|
                #![trigger computes_line(*transform, f), data@[q]]
                computes_line(*transform, f) && 0 <= q < p * p && q % (p as int) < j ==> data@[q]
                    == map_columns(start, p as nat, p as nat, f)[q],
        decreases p - j,
    {
        let ghost before = data@;
        let mut line: Vec<(u64, u64)> = Vec::new();
        let mut i: usize = 0;
        while i < p
            invariant
                j < p,
                i <= p,
                data@ == before,
                data.len() == p * p == start.len(),
                forall|q: int|
                    0 <= q < p * p && q % (p as int) >= j ==> #[trigger] before[q] == start[q],
                line@ == column(start, p as nat, p as nat, j as int).take(i as int),
            decreases p - i,
        {
            proof {
                lemma_cell(p as nat, p as nat, j as int, i as int);
                assert(0 <= i * p) by (nonlinear_arith);
            }
            line.push(data[i * p + j]);
            i = i + 1;
            assert(line@ =~= column(start, p as nat, p as nat, j as int).take(i as int));
        }
        assert(line@ =~= column(start, p as nat, p as nat, j as int));
        let ghost old_line = line@;
        let out: Vec<(u64, u64)> = transform(line);
        i = 0;
        while i < p
            invariant
                j < p,
                i <= p,
                out.len() == p,
                data.len() == p * p == start.len() == before.len(),
                forall|q: int|
                    0 <= q < p * p && !(q % (p as int) == j && q / (p as int) < i)
                        ==> #[trigger] data@[q] == before[q],
                forall|q: int|
                    0 <= q < p * p && q % (p as int) == j && q / (p as int) < i
                        ==> #[trigger] data@[q] == out@[q / (p as int)],
            decreases p - i,
        {
            proof {
                lemma_cell(p as nat, p as nat, j as int, i as int);
                assert(0 <= i * p) by (nonlinear_arith);
            }
            let ghost held = data@;
            data.set(i * p + j, out[i]);
            proof {
                assert forall|q: int|
                    0 <= q < p * p && !(q % (p as int) == j && q / (p as int) < i
                        + 1) implies #[trigger] data@[q] == before[q] by {
                    assert(held[q] == before[q]);
                }
                assert forall|q: int|
                    0 <= q < p * p && q % (p as int) == j && q / (p as int) < i
                        + 1 implies #[trigger] data@[q] == out@[q / (p as int)] by {
                    lemma_place(p as nat, p as nat, q);
                    if q / (p as int) < i {
                        assert(held[q] == out@[q / (p as int)]);
                    }
                }
            }
            i = i + 1;
        }
        proof {
            assert forall|q: int|
                0 <= q < p * p && q % (p as int) >= j + 1 implies #[trigger] data@[q]
                == start[q] by {
                assert(data@[q] == before[q]);
            }
            assert forall|f: spec_fn(Seq<(u64, u64)>) -> Seq<(u64, u64)>, q: int|
                #![trigger computes_line(*transform, f), data@[q]]
                computes_line(*transform, f) && 0 <= q < p * p && q % (p as int) < j
                    + 1 implies data@[q] == map_columns(start, p as nat, p as nat, f)[q] by {
                lemma_place(p as nat, p as nat, q);
                if q % (p as int) < j {
                    assert(data@[q] == before[q]);
                    assert(before[q] == map_columns(start, p as nat, p as nat, f)[q]);
                } else {
                    assert(out@ == f(old_line));
                }
            }
        }
        j = j + 1;
    }
    proof {
        assert forall|f: spec_fn(Seq<(u64, u64)>) -> Seq<(u64, u64)>| #[trigger]
            computes_line(*transform, f) implies data@ == map_columns(
            start,
            p as nat,
            p as nat,
            f,
        ) by {
            assert forall|q: int| 0 <= q < p * p implies data@[q] == map_columns(
                start,
                p as nat,
                p as nat,
                f,
            )[q] by {
                lemma_place(p as nat, p as nat, q);
            }
            assert(data@ =~= map_columns(start, p as nat, p as nat, f));
        }
    }
}

/// Real numbers as complex ones.
fn with_zeros(cells: &Vec<u64>) -> (data: Vec<(u64, u64)>)
    ensures
        data@ == cells@.map_values(|v: u64| (v, F64_ZERO)),
{
    let mut data: Vec<(u64, u64)> = Vec::new();
    let ghost want = cells@.map_values(|v: u64| (v, F64_ZERO));
    let mut i: usize = 0;
    while i < cells.len()
        invariant
            i <= cells.len(),
            want == cells@.map_values(|v: u64| (v, F64_ZERO)),
            data@ == want.take(i as int),
        decreases cells.len() - i,
    {
        data.push((cells[i], F64_ZERO));
        i = i + 1;
        assert(data@ =~= want.take(i as int));
    }
    assert(data@ =~= want);
    data
}

/// Double-precision complex numbers in single precision.
fn narrow_all<N: Fn(u64) -> u32>(data: &Vec<(u64, u64)>, narrow: &N) -> (out: Vec<Complex32Bits>)
    requires
        forall|v: u64| #[trigger] narrow.requires((v,)),
    ensures
        out.len() == data.len(),
        forall|f: spec_fn(u64) -> u32| #[trigger]
            computes_narrow(*narrow, f) ==> out@ == narrowed(data@, f),
{
    let mut out: Vec<Complex32Bits> = Vec::new();
    let mut i: usize = 0;
    while i < data.len()
        invariant
            i <= data.len(),
            out.len() == i,
            forall|v: u64| #[trigger] narrow.requires((v,)),
            forall|f: spec_fn(u64) -> u32, q: int|
                #![trigger computes_narrow(*narrow, f), out@[q]]
                computes_narrow(*narrow, f) && 0 <= q < i ==> out@[q] == narrowed(data@, f)[q],
        decreases data.len() - i,
    {
        let (re, im) = data[i];
        let value: Complex32Bits = Complex32Bits { re: narrow(re), im: narrow(im) };
        out.push(value);
        i = i + 1;
    }
    proof {
        assert forall|f: spec_fn(u64) -> u32| #[trigger] computes_narrow(*narrow, f) implies out@
            == narrowed(data@, f) by {
            assert(out@ =~= narrowed(data@, f));
        }
    }
    out
}

/// Generates the transforms of `count` kernels on a grid whose side is the smallest
/// power of two that is at least `size`: each kernel is laid out around the middle
/// of the grid, divided by its sum, moved to the origin and transformed, first the
/// rows and then the columns.
pub fn generate_flow_kernels<
    V: Fn(usize, i32) -> u64,
    S: Fn(Vec<u64>) -> Option<u64>,
    D: Fn(u64, u64) -> u64,
    F: Fn(Vec<(u64, u64)>) -> Vec<(u64, u64)>,
    N: Fn(u64) -> u32,
>(
    size: usize,
    count: usize,
    value: &V,
    sum: &S,
    divide: &D,
    transform: &F,
    narrow: &N,
) -> (kernels_fft: Vec<Vec<Complex32Bits>>)
    requires
        size <= MAX_KERNEL_SIZE,
        next_power(size as nat) * next_power(size as nat) * 8 <= isize::MAX,
        forall|k: usize, d: i32| k < count ==> #[trigger] value.requires((k, d)),
        forall|v: Vec<u64>| #[trigger] sum.requires((v,)),
        forall|v: u64, t: u64| #[trigger] divide.requires((v, t)),
        forall|v: Vec<(u64, u64)>|
            v.len() == next_power(size as nat) ==> #[trigger] transform.requires((v,)),
        forall|v: Vec<(u64, u64)>, r: Vec<(u64, u64)>|
            v.len() == next_power(size as nat) && #[trigger] transform.ensures((v,), r) ==> r.len()
                == v.len(),
        forall|v: u64| #[trigger] narrow.requires((v,)),
    ensures
        kernels_fft.len() == count,
        forall|k: int|
            0 <= k < count ==> (#[trigger] kernels_fft@[k]).len() == next_power(size as nat)
                * next_power(size as nat),
        forall|ops: KernelArithmetic<u64>| #[trigger]
            computes_kernels(*value, *sum, *divide, *transform, *narrow, ops)
                ==> kernels_fft@.map_values(|kernel: Vec<Complex32Bits>| kernel@) == generated(
                ops,
                size as nat,
                count as nat,
            ),
{
    proof {
        lemma2_to64();
        assert(pow2(15) == 32768);
    }
    let p: usize = next_power_of_two(size);
    proof {
        assert(p <= pow2(15));
        lemma_pow2_pos(crate::power::log2_of(p as nat));
    }
    let mut kernels_fft: Vec<Vec<Complex32Bits>> = Vec::new();
    let mut k: usize = 0;
    while k < count
        invariant
            k <= count,
            p == next_power(size as nat),
            0 < p <= MAX_KERNEL_SIZE,
            p * p * 8 <= isize::MAX,
            forall|k: usize, d: i32| k < count ==> #[trigger] value.requires((k, d)),
            forall|v: Vec<u64>| #[trigger] sum.requires((v,)),
            forall|v: u64, t: u64| #[trigger] divide.requires((v, t)),
            forall|v: Vec<(u64, u64)>| v.len() == p ==> #[trigger] transform.requires((v,)),
            forall|v: Vec<(u64, u64)>, r: Vec<(u64, u64)>|
                v.len() == p && #[trigger] transform.ensures((v,), r) ==> r.len() == p,
            forall|v: u64| #[trigger] narrow.requires((v,)),
            kernels_fft.len() == k,
            forall|q: int| 0 <= q < k ==> (#[trigger] kernels_fft@[q]).len() == p * p,
            forall|ops: KernelArithmetic<u64>, q: int|
                #![trigger computes_kernels(*value, *sum, *divide, *transform, *narrow, ops),
                    kernels_fft@[q]]
                computes_kernels(*value, *sum, *divide, *transform, *narrow, ops) && 0 <= q < k
                    ==> kernels_fft@[q]@ == kernel_transform(ops, p as nat, q),
        decreases count - k,
    {
        let mut grid: Grid = fill_kernel(p, k, value);
        let ghost filled = grid_elems(grid);
        divide_cells(&mut grid, p, sum, divide);
        let ghost scaled = grid_elems(grid);
        let moved: Grid = shift_grid(&grid, p);
        let cells: Vec<u64> = grid_elems_vec(&moved);
        let mut data: Vec<(u64, u64)> = with_zeros(&cells);
        let ghost start = data@;
        transform_rows(&mut data, p, transform);
        let ghost rows = data@;
        transform_columns(&mut data, p, transform);
        let kernel: Vec<Complex32Bits> = narrow_all(&data, narrow);
        proof {
            assert forall|ops: KernelArithmetic<u64>| #[trigger]
                computes_kernels(*value, *sum, *divide, *transform, *narrow, ops) implies kernel@
                == kernel_transform(ops, p as nat, k as int) by {
                assert(computes_value(*value, ops.value));
                assert(filled == kernel_cells(p as nat, |d: int| (ops.value)(k as int, d)));
                assert(computes_sum(*sum, ops.sum) && computes_quotient(*divide, ops.divide));
                assert(scaled == divided(filled, ops.sum, ops.divide));
                assert(computes_line(*transform, ops.transform));
                assert(rows == map_rows(start, p as nat, ops.transform));
                assert(computes_narrow(*narrow, ops.narrow));
                assert(kernel@ == narrowed(data@, ops.narrow));
            }
        }
        let ghost before = kernels_fft@;
        kernels_fft.push(kernel);
        proof {
            assert forall|ops: KernelArithmetic<u64>, q: int|
                #![trigger computes_kernels(*value, *sum, *divide, *transform, *narrow, ops),
                    kernels_fft@[q]]
                computes_kernels(*value, *sum, *divide, *transform, *narrow, ops) && 0 <= q < k
                    + 1 implies kernels_fft@[q]@ == kernel_transform(ops, p as nat, q) by {
                if q < k {
                    assert(before[q]@ == kernel_transform(ops, p as nat, q));
                }
            }
        }
        k = k + 1;
    }
    proof {
        assert forall|ops: KernelArithmetic<u64>| #[trigger]
            computes_kernels(
                *value,
                *sum,
                *divide,
                *transform,
                *narrow,
                ops,
            ) implies kernels_fft@.map_values(|kernel: Vec<Complex32Bits>| kernel@) == generated(
            ops,
            size as nat,
            count as nat,
        ) by {
            assert(kernels_fft@.map_values(|kernel: Vec<Complex32Bits>| kernel@) =~= generated(
                ops,
                size as nat,
                count as nat,
            ));
        }
    }
    kernels_fft
}

/// A size gives the same kernels as the power of two that it is rounded up to.
pub proof fn rounded_sizes_give_equal_kernels<T>(
    ops: KernelArithmetic<T>,
    size: nat,
    count: nat,
)
    ensures
        generated(ops, next_power(size), count) == generated(ops, size, count),
{
    next_power_of_next_power(size);
}

/// Whether two arithmetics differ in the values of the kernels alone.
pub open spec fn same_steps<T>(a: KernelArithmetic<T>, b: KernelArithmetic<T>) -> bool {
    &&& a.zero == b.zero
    &&& a.sum == b.sum
    &&& a.divide == b.divide
    &&& a.transform == b.transform
    &&& a.narrow == b.narrow
}

/// A kernel depends on its own values alone: two kernels with the same values at the
/// same distances come out the same, whatever their numbers are and whatever other
/// kernels are generated with them. So a kernel that is generated alone is the same as
/// among others.
pub proof fn kernels_depend_on_their_own_values<T>(
    a: KernelArithmetic<T>,
    b: KernelArithmetic<T>,
    size: nat,
    count: nat,
    other_count: nat,
    j: int,
    k: int,
)
    requires
        forall|d: int| #[trigger] (a.value)(j, d) == (b.value)(k, d),
        same_steps(a, b),
        0 <= j < count,
        0 <= k < other_count,
    ensures
        generated(a, size, count)[j] == generated(b, size, other_count)[k],
{
    let (f, g) = (|d: int| (a.value)(j, d), |d: int| (b.value)(k, d));
    assert(f =~= g);
}

/// Kernels whose cells are equal after the division by their sums come out the same.
proof fn lemma_equal_kernels<T>(
    a: KernelArithmetic<T>,
    b: KernelArithmetic<T>,
    size: nat,
    count: nat,
)
    requires
        same_steps(a, b),
        forall|k: int|
            0 <= k < count ==> #[trigger] divided_kernel(a, next_power(size), k)
                == divided_kernel(b, next_power(size), k),
    ensures
        generated(a, size, count) == generated(b, size, count),
{
    assert forall|k: int| 0 <= k < count implies generated(a, size, count)[k] == generated(
        b,
        size,
        count,
    )[k] by {
        assert(divided_kernel(a, next_power(size), k) == divided_kernel(b, next_power(size), k));
    }
    assert(generated(a, size, count) =~= generated(b, size, count));
}

/// Whether kernel `k` has a sum that it is divided by.
pub open spec fn is_divided<T>(ops: KernelArithmetic<T>, p: nat, k: int) -> bool {
    (ops.sum)(kernel_cells(p, |d: int| (ops.value)(k, d))) is Some
}

/// Cells in the scale of kernel `k`.
pub open spec fn scaled_cells<T>(
    cells: Seq<T>,
    scale: spec_fn(int, T) -> T,
    k: int,
) -> Seq<T> {
    cells.map_values(|v: T| scale(k, v))
}

/// The cells of kernel `k`, divided by their sum.
pub open spec fn divided_kernel<T>(ops: KernelArithmetic<T>, p: nat, k: int) -> Seq<T> {
    divided(kernel_cells(p, |d: int| (ops.value)(k, d)), ops.sum, ops.divide)
}

/// Scaling the values of the kernels leaves what is generated as it is, for every
/// arithmetic whose sums scale with the values and whose quotients do not change when
/// both numbers are scaled. Every kernel may have a scale of its own.
pub proof fn scaled_values_give_equal_kernels<T>(
    a: KernelArithmetic<T>,
    b: KernelArithmetic<T>,
    size: nat,
    count: nat,
    scale: spec_fn(int, T) -> T,
)
    requires
        same_steps(a, b),
        forall|k: int, d: int| #[trigger] (b.value)(k, d) == scale(k, (a.value)(k, d)),
        forall|k: int| 0 <= k < count ==> #[trigger] is_divided(a, next_power(size), k),
        forall|k: int, cells: Seq<T>|
            (a.sum)(cells) is Some ==> (a.sum)(#[trigger] scaled_cells(cells, scale, k)) == Some(
                scale(k, (a.sum)(cells)->0),
            ),
        forall|k: int, v: T, t: T|
            (a.divide)(#[trigger] scale(k, v), #[trigger] scale(k, t)) == (a.divide)(v, t),
    ensures
        generated(a, size, count) == generated(b, size, count),
{
    let p = next_power(size);
    assert forall|k: int| 0 <= k < count implies #[trigger] divided_kernel(a, p, k)
        == divided_kernel(b, p, k) by {
        let cells = kernel_cells(p, |d: int| (a.value)(k, d));
        let scaled = kernel_cells(p, |d: int| (b.value)(k, d));
        assert(is_divided(a, p, k));
        assert(scaled =~= scaled_cells(cells, scale, k));
        let (s, t) = ((a.sum)(cells)->0, (b.sum)(scaled)->0);
        assert forall|q: int| 0 <= q < cells.len() implies (a.divide)(cells[q], s) == (b.divide)(
            scaled[q],
            t,
        ) by {
            assert((a.divide)(scale(k, cells[q]), scale(k, s)) == (a.divide)(cells[q], s));
        }
        assert(divided_kernel(a, p, k) =~= divided_kernel(b, p, k));
    }
    lemma_equal_kernels(a, b, size, count);
}

/// The sum of a grid in exact arithmetic, if it is positive.
pub open spec fn exact_sum() -> spec_fn(Seq<real>) -> Option<real> {
    |cells: Seq<real>|
        {
            let s = total(|q: int| cells[q], cells.len());
            if s > 0real {
                Some(s)
            } else {
                None
            }
        }
}

/// The quotient in exact arithmetic.
pub open spec fn exact_divide() -> spec_fn(real, real) -> real {
    |v: real, t: real| v / t
}

/// The parameters of kernels in exact arithmetic, and the functions that their shape is
/// made of.
pub struct ExactKernels {
    /// The square root of a squared distance.
    pub root: spec_fn(int) -> real,
    pub envelope: spec_fn(real) -> real,
    /// Bump `i` of kernel `k` at a scaled distance.
    pub bump: spec_fn(int, int, real) -> real,
    pub global_r: real,
    pub r: Seq<real>,
    /// The weights of the three bumps of each kernel.
    pub weights: Seq<Seq<real>>,
}

impl ExactKernels {
    /// What the distances of kernel `k` are divided by.
    pub open spec fn reach(self, k: int) -> real {
        (self.global_r + 15real) * self.r[k]
    }

    /// The value of kernel `k` at a squared distance: three bumps with their weights,
    /// under an envelope, at the scaled distance.
    pub open spec fn value(self, k: int, d: int) -> real {
        let s = (self.root)(d) / self.reach(k);
        let weights = self.weights[k];
        (self.envelope)(s) * (weights[0] * (self.bump)(k, 0, s) + weights[1] * (self.bump)(k, 1, s)
            + weights[2] * (self.bump)(k, 2, s))
    }

    /// The generation of the kernels in exact arithmetic, rounded to single precision at
    /// the end.
    pub open spec fn ops(
        self,
        transform: spec_fn(Seq<(real, real)>) -> Seq<(real, real)>,
        narrow: spec_fn(real) -> u32,
    ) -> KernelArithmetic<real> {
        KernelArithmetic {
            zero: 0real,
            value: |k: int, d: int| self.value(k, d),
            sum: exact_sum(),
            divide: exact_divide(),
            transform,
            narrow,
        }
    }
}

/// Kernels come out the same if the weights of each differ by a positive factor and
/// their distances are divided by the same, in exact arithmetic, as long as every kernel
/// has a positive sum to be divided by.
pub proof fn scaled_weights_give_equal_kernels(
    a: ExactKernels,
    b: ExactKernels,
    factors: Seq<real>,
    size: nat,
    count: nat,
    transform: spec_fn(Seq<(real, real)>) -> Seq<(real, real)>,
    narrow: spec_fn(real) -> u32,
)
    requires
        a.root == b.root,
        a.envelope == b.envelope,
        a.bump == b.bump,
        forall|k: int| 0 <= k < count ==> #[trigger] factors[k] > 0real,
        forall|k: int, i: int|
            0 <= k < count && 0 <= i < 3 ==> #[trigger] b.weights[k][i] == factors[k]
                * a.weights[k][i],
        forall|k: int| 0 <= k < count ==> #[trigger] b.reach(k) == a.reach(k),
        forall|k: int|
            0 <= k < count ==> #[trigger] is_divided(a.ops(transform, narrow), next_power(size), k),
    ensures
        generated(b.ops(transform, narrow), size, count) == generated(
            a.ops(transform, narrow),
            size,
            count,
        ),
{
    let p = next_power(size);
    let (x, y) = (a.ops(transform, narrow), b.ops(transform, narrow));
    assert forall|k: int| 0 <= k < count implies #[trigger] divided_kernel(y, p, k)
        == divided_kernel(x, p, k) by {
        let (f, g) = (|d: int| a.value(k, d), |d: int| (x.value)(k, d));
        assert(f =~= g);
        let (f, g) = (|d: int| b.value(k, d), |d: int| (y.value)(k, d));
        assert(f =~= g);
        assert(is_divided(x, p, k));
        assert(factors[k] > 0real);
        assert(b.reach(k) == a.reach(k));
        lemma_scaled_weights(a, b, factors[k], p, k);
    }
    lemma_equal_kernels(y, x, size, count);
}

/// A kernel whose weights differ by a positive factor has the same cells after the
/// division by their sum.
proof fn lemma_scaled_weights(
    a: ExactKernels,
    b: ExactKernels,
    factor: real,
    p: nat,
    k: int,
)
    requires
        a.root == b.root,
        a.envelope == b.envelope,
        a.bump == b.bump,
        factor > 0real,
        forall|i: int| 0 <= i < 3 ==> #[trigger] b.weights[k][i] == factor * a.weights[k][i],
        b.reach(k) == a.reach(k),
        exact_sum()(kernel_cells(p, |d: int| a.value(k, d))) is Some,
    ensures
        divided(kernel_cells(p, |d: int| b.value(k, d)), exact_sum(), exact_divide())
            == divided(kernel_cells(p, |d: int| a.value(k, d)), exact_sum(), exact_divide()),
{
    let cells = kernel_cells(p, |d: int| a.value(k, d));
    let others = kernel_cells(p, |d: int| b.value(k, d));
    assert forall|q: int| 0 <= q < cells.len() implies #[trigger] others[q] == factor
        * cells[q] by {
        let d = distance_from_middle(p as int, q / (p as int), q % (p as int));
        let s = (a.root)(d) / a.reach(k);
        let (w0, w1, w2) = (a.weights[k][0], a.weights[k][1], a.weights[k][2]);
        assert(b.weights[k][0] == factor * w0);
        assert(b.weights[k][1] == factor * w1);
        assert(b.weights[k][2] == factor * w2);
        lemma_scaled_bumps(
            (a.envelope)(s),
            factor,
            w0,
            w1,
            w2,
            (a.bump)(k, 0, s),
            (a.bump)(k, 1, s),
            (a.bump)(k, 2, s),
        );
    }
    let n = cells.len();
    let sum = total(|q: int| cells[q], n);
    let parts = |q: int| cells[q];
    lemma_total_scaled(parts, factor, n);
    lemma_total_equal(|q: int| others[q], |q: int| factor * parts(q), n);
    let other_sum = total(|q: int| others[q], n);
    assert(other_sum == factor * sum);
    assert(other_sum > 0real) by (nonlinear_arith)
        requires
            other_sum == factor * sum,
            factor > 0real,
            sum > 0real,
    ;
    assert forall|q: int| 0 <= q < n implies others[q] / other_sum == #[trigger] cells[q] / sum by {
        lemma_cancelled(factor, cells[q], sum);
        assert(others[q] == factor * cells[q]);
    }
    assert(divided(others, exact_sum(), exact_divide()) =~= divided(
        cells,
        exact_sum(),
        exact_divide(),
    ));
}

/// A factor of all weights is a factor of the value.
proof fn lemma_scaled_bumps(
    e: real,
    c: real,
    w0: real,
    w1: real,
    w2: real,
    b0: real,
    b1: real,
    b2: real,
)
    ensures
        e * ((c * w0) * b0 + (c * w1) * b1 + (c * w2) * b2) == c * (e * (w0 * b0 + w1 * b1 + w2
            * b2)),
{
    assert((c * w0) * b0 == c * (w0 * b0)) by (nonlinear_arith);
    assert((c * w1) * b1 == c * (w1 * b1)) by (nonlinear_arith);
    assert((c * w2) * b2 == c * (w2 * b2)) by (nonlinear_arith);
    let (x, y, z) = (w0 * b0, w1 * b1, w2 * b2);
    assert(c * x + c * y + c * z == c * (x + y + z)) by (nonlinear_arith);
    let s = x + y + z;
    assert(e * (c * s) == c * (e * s)) by (nonlinear_arith);
}

/// A common factor of a fraction cancels.
proof fn lemma_cancelled(c: real, v: real, t: real)
    requires
        c > 0real,
        t > 0real,
    ensures
        (c * v) / (c * t) == v / t,
{
    let q = v / t;
    assert(q * t == v) by (nonlinear_arith)
        requires
            q == v / t,
            t > 0real,
    ;
    let ct = c * t;
    assert(ct > 0real) by (nonlinear_arith)
        requires
            ct == c * t,
            c > 0real,
            t > 0real,
    ;
    assert(c * (q * t) == q * (c * t)) by (nonlinear_arith);
    assert((q * ct) / ct == q) by (nonlinear_arith)
        requires
            ct > 0real,
    ;
}

/// A kernel that was divided by its sum adds up to one, in exact arithmetic.
pub proof fn divided_kernels_sum_to_one(cells: Seq<real>)
    requires
        exact_sum()(cells) is Some,
    ensures
        ({
            let kernel = divided(cells, exact_sum(), exact_divide());
            total(|q: int| kernel[q], kernel.len()) == 1real
        }),
{
    let n = cells.len();
    let sum = total(|q: int| cells[q], n);
    let kernel = divided(cells, exact_sum(), exact_divide());
    let parts = |q: int| cells[q];
    let inverse = 1real / sum;
    lemma_total_equal(parts, |q: int| cells[q], n);
    lemma_total_scaled(parts, inverse, n);
    let shares = |q: int| inverse * parts(q);
    let got = |q: int| kernel[q];
    assert forall|q: int| 0 <= q < n implies #[trigger] got(q) == shares(q) by {
        let v = cells[q];
        assert(v / sum == (1real / sum) * v) by (nonlinear_arith)
            requires
                sum > 0real,
        ;
    }
    lemma_total_equal(got, shares, n);
    assert(inverse * sum == 1real) by (nonlinear_arith)
        requires
            inverse == 1real / sum,
            sum > 0real,
    ;
}

} // verus!
