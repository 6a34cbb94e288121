//! What the compute passes of Flow Lenia compute, cell by cell.
//!
//! Each pass is given for numbers of any type and any arithmetic on them, so that it
//! can be run with floating-point numbers and reasoned about with exact ones. The
//! arithmetic of a cell is handed in; which cells it is applied to, and in what
//! order, is what a pass determines.
use vstd::arithmetic::div_mod::*;
use vstd::arithmetic::mul::*;
use vstd::prelude::*;

verus! {

/// `f` is what `run` computes from two numbers.
pub open spec fn computes2<T, F: Fn(T, T) -> T>(run: F, f: spec_fn(T, T) -> T) -> bool {
    forall|a: T, b: T, r: T| #[trigger] run.ensures((a, b), r) ==> r == f(a, b)
}

/// The sum, from left to right, of the first `count` channels at cell `p`.
pub open spec fn channel_sum<T>(
    channels: Seq<T>,
    cells: nat,
    p: int,
    count: nat,
    zero: T,
    plus: spec_fn(T, T) -> T,
) -> T
    decreases count,
{
    if count == 0 {
        zero
    } else {
        plus(
            channel_sum(channels, cells, p, (count - 1) as nat, zero, plus),
            channels[(count - 1) * cells + p],
        )
    }
}

/// The sum of all channels at each cell.
pub open spec fn channels_summed<T>(
    channels: Seq<T>,
    cells: nat,
    num_channels: nat,
    zero: T,
    plus: spec_fn(T, T) -> T,
) -> Seq<T> {
    Seq::new(cells, |p: int| channel_sum(channels, cells, p, num_channels, zero, plus))
}

/// Sums the channels at each cell of a grid of `width` times `width` cells.
pub fn sum_channels<T: Copy, F: Fn(T, T) -> T>(
    channels: &Vec<T>,
    width: u32,
    num_channels: u32,
    zero: T,
    plus: &F,
) -> (sums: Vec<T>)
    requires
        width * width * num_channels <= channels.len(),
        width * width <= usize::MAX,
        forall|a: T, b: T| #[trigger] plus.requires((a, b)),
    ensures
        sums.len() == width * width,
        forall|f: spec_fn(T, T) -> T| #[trigger]
            computes2(*plus, f) ==> sums@ == channels_summed(
                channels@,
                (width * width) as nat,
                num_channels as nat,
                zero,
                f,
            ),
{
    let cells: usize = width as usize * width as usize;
    let mut sums: Vec<T> = Vec::new();
    let mut p: usize = 0;
    while p < cells
        invariant
            p <= cells == width * width,
            cells * num_channels <= channels.len(),
            sums.len() == p,
            forall|a: T, b: T| #[trigger] plus.requires((a, b)),
            forall|f: spec_fn(T, T) -> T, q: int|
                #![trigger computes2(*plus, f), sums@[q]]
                computes2(*plus, f) && 0 <= q < p ==> sums@[q] == channel_sum(
                    channels@,
                    cells as nat,
                    q,
                    num_channels as nat,
                    zero,
                    f,
                ),
        decreases cells - p,
    {
        let mut sum: T = zero;
        let mut c: u32 = 0;
        while c < num_channels
            invariant
                c <= num_channels,
                p < cells,
                cells * num_channels <= channels.len(),
                forall|a: T, b: T| #[trigger] plus.requires((a, b)),
                forall|f: spec_fn(T, T) -> T| #[trigger]
                    computes2(*plus, f) ==> sum == channel_sum(
                        channels@,
                        cells as nat,
                        p as int,
                        c as nat,
                        zero,
                        f,
                    ),
            decreases num_channels - c,
        {
            proof {
                lemma_packed_cell(c as int, num_channels as int, cells as int, p as int);
            }
            sum = plus(sum, channels[c as usize * cells + p]);
            c = c + 1;
        }
        sums.push(sum);
        p = p + 1;
    }
    proof {
        assert forall|f: spec_fn(T, T) -> T| #[trigger] computes2(*plus, f) implies sums@
            == channels_summed(channels@, cells as nat, num_channels as nat, zero, f) by {
            assert(sums@ =~= channels_summed(
                channels@,
                cells as nat,
                num_channels as nat,
                zero,
                f,
            ));
        }
    }
    sums
}

/// Cell `p` of part `i` of a packed buffer of `count` parts.
proof fn lemma_packed_cell(i: int, count: int, cells: int, p: int)
    requires
        0 <= i < count,
        0 <= p < cells,
    ensures
        0 <= i * cells,
        i * cells + p < cells * count,
{
    assert(i * cells >= 0) by (nonlinear_arith)
        requires
            i >= 0,
            cells >= 0,
    ;
    assert(i * cells + cells <= cells * count) by (nonlinear_arith)
        requires
            i + 1 <= count,
            cells >= 0,
    ;
}

/// The part and the cell of an element of a packed buffer.
proof fn lemma_unpacked(i: int, count: int, cells: int)
    requires
        0 <= i < cells * count,
        0 < cells,
    ensures
        0 <= i / cells < count,
        0 <= i % cells < cells,
        (i / cells) * cells + i % cells == i,
{
    lemma_fundamental_div_mod(i, cells);
    lemma_mod_bound(i, cells);
    lemma_mul_is_commutative(cells, i / cells);
    let q = i / cells;
    assert(q < count) by (nonlinear_arith)
        requires
            cells * q <= i,
            i < cells * count,
            cells > 0,
    ;
    lemma_div_pos_is_pos(i, cells);
}

/// The sum, from left to right, of the growth at cell `p` of `count` kernels, listed
/// in `flat` from `start` on.
pub open spec fn kernel_sum<T>(
    u: Seq<T>,
    flat: Seq<u32>,
    cells: nat,
    p: int,
    start: int,
    count: nat,
    zero: T,
    plus: spec_fn(T, T) -> T,
) -> T
    decreases count,
{
    if count == 0 {
        zero
    } else {
        plus(
            kernel_sum(u, flat, cells, p, start, (count - 1) as nat, zero, plus),
            u[flat[start + count - 1] * cells + p],
        )
    }
}

/// The growth of every channel at every cell: the sum over the kernels between the
/// offset of the channel and the next.
pub open spec fn aggregated<T>(
    u: Seq<T>,
    flat: Seq<u32>,
    offsets: Seq<u32>,
    cells: nat,
    num_channels: nat,
    zero: T,
    plus: spec_fn(T, T) -> T,
) -> Seq<T> {
    Seq::new(
        cells * num_channels,
        |i: int|
            {
                let c = i / (cells as int);
                kernel_sum(
                    u,
                    flat,
                    cells,
                    i % (cells as int),
                    offsets[c] as int,
                    (offsets[c + 1] - offsets[c]) as nat,
                    zero,
                    plus,
                )
            },
    )
}

/// The offsets of list `c` bound a part of `len` elements.
pub open spec fn lists_part(offsets: Seq<u32>, c: int, len: nat) -> bool {
    offsets[c] <= offsets[c + 1] <= len
}

/// The lists of kernels are well formed: the offsets do not decrease and stay within
/// the list, and every kernel listed exists.
pub open spec fn lists_kernels(
    flat: Seq<u32>,
    offsets: Seq<u32>,
    num_channels: nat,
    num_kernels: nat,
) -> bool {
    &&& offsets.len() == num_channels + 1
    &&& forall|c: int| 0 <= c < num_channels ==> #[trigger] lists_part(offsets, c, flat.len())
    &&& forall|j: int| 0 <= j < flat.len() ==> (#[trigger] flat[j]) < num_kernels
}

/// Sums the growth of the kernels of each channel, on a grid of `width` times
/// `width` cells.
pub fn channel_aggregate<T: Copy, F: Fn(T, T) -> T>(
    u: &Vec<T>,
    flat: &Vec<u32>,
    offsets: &Vec<u32>,
    width: u32,
    num_kernels: u32,
    num_channels: u32,
    zero: T,
    plus: &F,
) -> (sums: Vec<T>)
    requires
        lists_kernels(flat@, offsets@, num_channels as nat, num_kernels as nat),
        width * width * num_kernels <= u.len(),
        width * width * num_channels <= usize::MAX,
        width * width <= usize::MAX,
        forall|a: T, b: T| #[trigger] plus.requires((a, b)),
    ensures
        sums.len() == width * width * num_channels,
        forall|f: spec_fn(T, T) -> T| #[trigger]
            computes2(*plus, f) ==> sums@ == aggregated(
                u@,
                flat@,
                offsets@,
                (width * width) as nat,
                num_channels as nat,
                zero,
                f,
            ),
{
    let cells: usize = width as usize * width as usize;
    let total: usize = cells * num_channels as usize;
    let mut sums: Vec<T> = Vec::new();
    let mut i: usize = 0;
    while i < total
        invariant
            i <= total == cells * num_channels,
            cells == width * width,
            cells * num_kernels <= u.len(),
            lists_kernels(flat@, offsets@, num_channels as nat, num_kernels as nat),
            sums.len() == i,
            forall|a: T, b: T| #[trigger] plus.requires((a, b)),
            forall|f: spec_fn(T, T) -> T, q: int|
                #![trigger computes2(*plus, f), sums@[q]]
                computes2(*plus, f) && 0 <= q < i ==> sums@[q] == aggregated(
                    u@,
                    flat@,
                    offsets@,
                    cells as nat,
                    num_channels as nat,
                    zero,
                    f,
                )[q],
        decreases total - i,
    {
        proof {
            assert(cells > 0) by {
                if cells == 0 {
                    assert(cells * num_channels == 0) by (nonlinear_arith)
                        requires
                            cells == 0,
                    ;
                }
            }
            lemma_unpacked(i as int, num_channels as int, cells as int);
        }
        let c: usize = i / cells;
        let p: usize = i % cells;
        assert(lists_part(offsets@, c as int, flat@.len()));
        let start: u32 = offsets[c];
        let end: u32 = offsets[c + 1];
        let mut sum: T = zero;
        let mut j: u32 = start;
        while j < end
            invariant
                start <= j <= end <= flat.len(),
                p < cells,
                cells * num_kernels <= u.len(),
                forall|k: int| 0 <= k < flat.len() ==> (#[trigger] flat@[k]) < num_kernels,
                forall|a: T, b: T| #[trigger] plus.requires((a, b)),
                forall|f: spec_fn(T, T) -> T| #[trigger]
                    computes2(*plus, f) ==> sum == kernel_sum(
                        u@,
                        flat@,
                        cells as nat,
                        p as int,
                        start as int,
                        (j - start) as nat,
                        zero,
                        f,
                    ),
            decreases end - j,
        {
            let k: usize = flat[j as usize] as usize;
            proof {
                assert(flat@[j as int] < num_kernels);
                lemma_packed_cell(k as int, num_kernels as int, cells as int, p as int);
            }
            sum = plus(sum, u[k * cells + p]);
            j = j + 1;
        }
        sums.push(sum);
        i = i + 1;
    }
    proof {
        assert forall|f: spec_fn(T, T) -> T| #[trigger] computes2(*plus, f) implies sums@
            == aggregated(u@, flat@, offsets@, cells as nat, num_channels as nat, zero, f) by {
            assert(sums@ =~= aggregated(
                u@,
                flat@,
                offsets@,
                cells as nat,
                num_channels as nat,
                zero,
                f,
            ));
        }
    }
    sums
}

/// The eight neighbours of a cell: the rows above, at and below it, from left to
/// right.
#[derive(Debug)]
pub struct Neighbours<T> {
    pub tl: T,
    pub tc: T,
    pub tr: T,
    pub ml: T,
    pub mr: T,
    pub bl: T,
    pub bc: T,
    pub br: T,
}

/// The coordinate before `x`, or `x` itself at the edge.
pub open spec fn before(x: int) -> int {
    if x == 0 {
        0
    } else {
        x - 1
    }
}

/// The coordinate after `x`, or the last one at the edge.
pub open spec fn after(x: int, n: int) -> int {
    if x + 1 >= n {
        n - 1
    } else {
        x + 1
    }
}

/// The neighbours of cell `(x, y)` of the field that starts at `base`. At the edges
/// of the grid the edge itself is repeated.
pub open spec fn neighbours<T>(
    field: Seq<T>,
    base: int,
    x: int,
    y: int,
    w: int,
    h: int,
) -> Neighbours<T> {
    let (xl, xr, yu, yd) = (before(x), after(x, w), before(y), after(y, h));
    Neighbours {
        tl: field[base + (yu * w + xl)],
        tc: field[base + (yu * w + x)],
        tr: field[base + (yu * w + xr)],
        ml: field[base + (y * w + xl)],
        mr: field[base + (y * w + xr)],
        bl: field[base + (yd * w + xl)],
        bc: field[base + (yd * w + x)],
        br: field[base + (yd * w + xr)],
    }
}

/// `f` is the gradient that `run` computes from the neighbours of a cell.
pub open spec fn computes_gradient<T, F: Fn(Neighbours<T>) -> (T, T)>(
    run: F,
    f: spec_fn(Neighbours<T>) -> (T, T),
) -> bool {
    forall|n: Neighbours<T>, r: (T, T)| #[trigger] run.ensures((n,), r) ==> r == f(n)
}

/// The gradient at element `i` of packed fields.
pub open spec fn gradient_at<T>(
    field: Seq<T>,
    w: int,
    h: int,
    i: int,
    f: spec_fn(Neighbours<T>) -> (T, T),
) -> (T, T) {
    let cells = w * h;
    let pixel = i % cells;
    f(neighbours(field, (i / cells) * cells, pixel % w, pixel / w, w, h))
}

/// A cell of a grid has its place in the packed fields.
proof fn lemma_cell_place(base: int, x: int, y: int, w: int, h: int, total: int)
    requires
        0 <= x < w,
        0 <= y < h,
        0 <= base,
        base + w * h <= total,
    ensures
        0 <= y * w,
        y * w + x < w * h,
        base + (y * w + x) < total,
{
    lemma_packed_cell(y, h, w, x);
}

/// Cell `(x, y)` of the field that starts at `base`.
fn cell_at<T: Copy>(field: &Vec<T>, base: usize, x: usize, y: usize, w: usize, h: usize) -> (cell:
    T)
    requires
        x < w,
        y < h,
        base + w * h <= field.len(),
    ensures
        cell == field@[base + (y * w + x)],
{
    proof {
        lemma_cell_place(
            base as int,
            x as int,
            y as int,
            w as int,
            h as int,
            field.len() as int,
        );
    }
    field[base + (y * w + x)]
}

/// The neighbours of cell `(x, y)` of the field that starts at `base`.
fn neighbours_of<T: Copy>(
    field: &Vec<T>,
    base: usize,
    x: usize,
    y: usize,
    w: usize,
    h: usize,
) -> (around: Neighbours<T>)
    requires
        x < w,
        y < h,
        base + w * h <= field.len(),
    ensures
        around == neighbours(field@, base as int, x as int, y as int, w as int, h as int),
{
    let xl: usize = if x == 0 {
        0
    } else {
        x - 1
    };
    let xr: usize = if x + 1 >= w {
        w - 1
    } else {
        x + 1
    };
    let yu: usize = if y == 0 {
        0
    } else {
        y - 1
    };
    let yd: usize = if y + 1 >= h {
        h - 1
    } else {
        y + 1
    };
    Neighbours {
        tl: cell_at(field, base, xl, yu, w, h),
        tc: cell_at(field, base, x, yu, w, h),
        tr: cell_at(field, base, xr, yu, w, h),
        ml: cell_at(field, base, xl, y, w, h),
        mr: cell_at(field, base, xr, y, w, h),
        bl: cell_at(field, base, xl, yd, w, h),
        bc: cell_at(field, base, x, yd, w, h),
        br: cell_at(field, base, xr, yd, w, h),
    }
}

/// Computes the gradient of packed fields of `width` times `height` cells.
pub fn sobel<T: Copy, F: Fn(Neighbours<T>) -> (T, T)>(
    field: &Vec<T>,
    width: u32,
    height: u32,
    num_fields: u32,
    gradient: &F,
) -> (r: (Vec<T>, Vec<T>))
    requires
        width * height * num_fields <= field.len(),
        width * height <= usize::MAX,
        forall|n: Neighbours<T>| #[trigger] gradient.requires((n,)),
    ensures
        r.0.len() == width * height * num_fields,
        r.1.len() == width * height * num_fields,
        forall|f: spec_fn(Neighbours<T>) -> (T, T), i: int|
            #![trigger computes_gradient(*gradient, f), r.0@[i]]
            #![trigger computes_gradient(*gradient, f), r.1@[i]]
            computes_gradient(*gradient, f) && 0 <= i < width * height * num_fields ==> (
                r.0@[i],
                r.1@[i],
            ) == gradient_at(field@, width as int, height as int, i, f),
{
    let w: usize = width as usize;
    let h: usize = height as usize;
    let cells: usize = w * h;
    let total: usize = cells * num_fields as usize;
    let mut grad_x: Vec<T> = Vec::new();
    let mut grad_y: Vec<T> = Vec::new();
    let mut i: usize = 0;
    while i < total
        invariant
            i <= total == cells * num_fields <= field.len(),
            cells == w * h,
            w == width,
            h == height,
            grad_x.len() == i,
            grad_y.len() == i,
            forall|n: Neighbours<T>| #[trigger] gradient.requires((n,)),
            forall|f: spec_fn(Neighbours<T>) -> (T, T), q: int|
                #![trigger computes_gradient(*gradient, f), grad_x@[q]]
                #![trigger computes_gradient(*gradient, f), grad_y@[q]]
                computes_gradient(*gradient, f) && 0 <= q < i ==> (grad_x@[q], grad_y@[q])
                    == gradient_at(field@, w as int, h as int, q, f),
        decreases total - i,
    {
        proof {
            lemma_factors_positive(cells as int, num_fields as int, i as int);
            lemma_factors_positive(w as int, h as int, 0);
            lemma_unpacked(i as int, num_fields as int, cells as int);
            lemma_unpacked(i as int % cells as int, h as int, w as int);
            lemma_packed_cell(i as int / cells as int, num_fields as int, cells as int, 0);
            lemma_packed_cell(
                i as int / cells as int,
                num_fields as int,
                cells as int,
                cells - 1,
            );
        }
        let base: usize = (i / cells) * cells;
        let pixel: usize = i % cells;
        let x: usize = pixel % w;
        let y: usize = pixel / w;
        let around: Neighbours<T> = neighbours_of(field, base, x, y, w, h);
        let (gx, gy) = gradient(around);
        grad_x.push(gx);
        grad_y.push(gy);
        i = i + 1;
    }
    (grad_x, grad_y)
}

/// The factors of a positive product of naturals are positive.
proof fn lemma_factors_positive(a: int, b: int, i: int)
    requires
        0 <= a,
        0 <= b,
        0 <= i,
        i < a * b || 0 < a * b,
    ensures
        0 < a,
        0 < b,
{
    assert(a > 0 && b > 0) by (nonlinear_arith)
        requires
            0 <= a,
            0 <= b,
            0 < a * b,
    ;
}

/// The fold of `f` over the cells of column `nx` whose row differs from `y` by at
/// most `radius`, from the first row on, for the first `count` rows, leaving out
/// those outside of the grid.
pub open spec fn column_fold<T>(
    start: T,
    nx: int,
    y: int,
    h: int,
    radius: int,
    count: nat,
    f: spec_fn(T, int, int) -> T,
) -> T
    decreases count,
{
    if count == 0 {
        start
    } else {
        let acc = column_fold(start, nx, y, h, radius, (count - 1) as nat, f);
        let ny = y - radius + count - 1;
        if 0 <= ny < h {
            f(acc, nx, ny)
        } else {
            acc
        }
    }
}

/// The number of rows or columns of a window.
pub open spec fn window_size(radius: int) -> nat {
    if radius < 0 {
        0
    } else {
        (2 * radius + 1) as nat
    }
}

/// The fold of `f` over the window of cells around `(x, y)`, column by column, for
/// the first `count` columns, leaving out what lies outside of the grid.
pub open spec fn window_fold<T>(
    start: T,
    x: int,
    y: int,
    w: int,
    h: int,
    radius: int,
    count: nat,
    f: spec_fn(T, int, int) -> T,
) -> T
    decreases count,
{
    if count == 0 {
        start
    } else {
        let acc = window_fold(start, x, y, w, h, radius, (count - 1) as nat, f);
        let nx = x - radius + count - 1;
        if 0 <= nx < w {
            column_fold(acc, nx, y, h, radius, window_size(radius), f)
        } else {
            acc
        }
    }
}

/// The coordinate `nx` differs from `x` by at most `radius`.
pub open spec fn in_window(x: int, nx: int, radius: int) -> bool {
    x - radius <= nx <= x + radius
}

/// `f` is what `run` makes of a sum and a cell.
pub open spec fn computes_fold<T, F: Fn(T, usize, usize) -> T>(
    run: F,
    f: spec_fn(T, int, int) -> T,
) -> bool {
    forall|acc: T, nx: usize, ny: usize, r: T| #[trigger]
        run.ensures((acc, nx, ny), r) ==> r == f(acc, nx as int, ny as int)
}

/// Folds the cells of the window around `(x, y)`, column by column, leaving out
/// those outside of the grid.
pub fn fold_window<T: Copy, F: Fn(T, usize, usize) -> T>(
    start: T,
    x: usize,
    y: usize,
    w: usize,
    h: usize,
    radius: i32,
    step: &F,
) -> (acc: T)
    requires
        x < w <= i32::MAX,
        y < h <= i32::MAX,
        forall|acc: T, nx: usize, ny: usize|
            nx < w && ny < h && in_window(x as int, nx as int, radius as int) && in_window(
                y as int,
                ny as int,
                radius as int,
            ) ==> #[trigger] step.requires((acc, nx, ny)),
    ensures
        forall|f: spec_fn(T, int, int) -> T| #[trigger]
            computes_fold(*step, f) ==> acc == window_fold(
                start,
                x as int,
                y as int,
                w as int,
                h as int,
                radius as int,
                window_size(radius as int),
                f,
            ),
{
    let r: i64 = radius as i64;
    let mut acc: T = start;
    let mut dx: i64 = -r;
    while dx <= r
        invariant
            x < w <= i32::MAX,
            y < h <= i32::MAX,
            r == radius,
            dx == -r || -r <= dx <= r + 1,
            forall|acc: T, nx: usize, ny: usize|
                nx < w && ny < h && in_window(x as int, nx as int, radius as int) && in_window(
                    y as int,
                    ny as int,
                    radius as int,
                ) ==> #[trigger] step.requires((acc, nx, ny)),
            forall|f: spec_fn(T, int, int) -> T| #[trigger]
                computes_fold(*step, f) ==> acc == window_fold(
                    start,
                    x as int,
                    y as int,
                    w as int,
                    h as int,
                    r as int,
                    (dx + r) as nat,
                    f,
                ),
        decreases r + 1 - dx,
    {
        let nx: i64 = x as i64 + dx;
        if 0 <= nx && nx < w as i64 {
            let ghost before_column = acc;
            let mut dy: i64 = -r;
            while dy <= r
                invariant
                    0 <= nx < w <= i32::MAX,
                    in_window(x as int, nx as int, radius as int),
                    y < h <= i32::MAX,
                    r == radius,
                    0 <= r,
                    -r <= dy <= r + 1,
                    forall|acc: T, nx: usize, ny: usize|
                        nx < w && ny < h && in_window(x as int, nx as int, radius as int)
                            && in_window(y as int, ny as int, radius as int)
                            ==> #[trigger] step.requires((acc, nx, ny)),
                    forall|f: spec_fn(T, int, int) -> T| #[trigger]
                        computes_fold(*step, f) ==> acc == column_fold(
                            before_column,
                            nx as int,
                            y as int,
                            h as int,
                            r as int,
                            (dy + r) as nat,
                            f,
                        ),
                decreases r + 1 - dy,
            {
                let ny: i64 = y as i64 + dy;
                if 0 <= ny && ny < h as i64 {
                    acc = step(acc, nx as usize, ny as usize);
                }
                dy = dy + 1;
            }
        }
        dx = dx + 1;
    }
    acc
}

/// The state of a source cell of the reintegration: its mass and its flow.
#[derive(Debug)]
pub struct Source<T> {
    pub mass: T,
    pub flow_x: T,
    pub flow_y: T,
}

/// The state of cell `(x, y)` of the channel that starts at `base`.
pub open spec fn source_at<T>(
    channel: Seq<T>,
    flow_x: Seq<T>,
    flow_y: Seq<T>,
    base: int,
    x: int,
    y: int,
    w: int,
) -> Source<T> {
    Source {
        mass: channel[base + (y * w + x)],
        flow_x: flow_x[base + (y * w + x)],
        flow_y: flow_y[base + (y * w + x)],
    }
}

/// `f` is what `run` adds to the mass of cell `(x, y)` for the source `(nx, ny)`.
pub open spec fn computes_gather<T, F: Fn(T, (usize, usize), (usize, usize), Source<T>) -> T>(
    run: F,
    f: spec_fn(T, (int, int), (int, int), Source<T>) -> T,
) -> bool {
    forall|acc: T, at: (usize, usize), from: (usize, usize), source: Source<T>, r: T| #[trigger]
        run.ensures((acc, at, from, source), r) ==> r == f(
            acc,
            (at.0 as int, at.1 as int),
            (from.0 as int, from.1 as int),
            source,
        )
}

/// `f` is what `run` makes of the gathered mass of a cell and its own state.
pub open spec fn computes_finish<T, F: Fn(T, Source<T>) -> T>(
    run: F,
    f: spec_fn(T, Source<T>) -> T,
) -> bool {
    forall|acc: T, own: Source<T>, r: T| #[trigger] run.ensures((acc, own), r) ==> r == f(acc, own)
}

/// What cell `(x, y)` gathers from the sources in its window.
pub open spec fn gathered<T>(
    channel: Seq<T>,
    flow_x: Seq<T>,
    flow_y: Seq<T>,
    base: int,
    x: int,
    y: int,
    w: int,
    h: int,
    dd: int,
    zero: T,
    gather: spec_fn(T, (int, int), (int, int), Source<T>) -> T,
) -> T {
    window_fold(
        zero,
        x,
        y,
        w,
        h,
        dd,
        window_size(dd),
        |acc: T, nx: int, ny: int|
            gather(
                acc,
                (x, y),
                (nx, ny),
                source_at(channel, flow_x, flow_y, base, nx, ny, w),
            ),
    )
}

/// Element `i` of the packed channels after reintegration.
pub open spec fn reintegrated_at<T>(
    channel: Seq<T>,
    flow_x: Seq<T>,
    flow_y: Seq<T>,
    w: int,
    h: int,
    dd: int,
    i: int,
    zero: T,
    gather: spec_fn(T, (int, int), (int, int), Source<T>) -> T,
    finish: spec_fn(T, Source<T>) -> T,
) -> T {
    let cells = w * h;
    let base = (i / cells) * cells;
    let pixel = i % cells;
    let (x, y) = (pixel % w, pixel / w);
    finish(
        gathered(channel, flow_x, flow_y, base, x, y, w, h, dd, zero, gather),
        source_at(channel, flow_x, flow_y, base, x, y, w),
    )
}

/// Moves the mass of packed channels of `width` times `height` cells along their
/// flow: every cell gathers mass from the cells at most `dd` columns and rows away.
pub fn reintegrate<
    T: Copy,
    G: Fn(T, (usize, usize), (usize, usize), Source<T>) -> T,
    F: Fn(T, Source<T>) -> T,
>(
    channel: &Vec<T>,
    flow_x: &Vec<T>,
    flow_y: &Vec<T>,
    width: u32,
    height: u32,
    num_channels: u32,
    dd: i32,
    zero: T,
    gather: &G,
    finish: &F,
) -> (new_channel: Vec<T>)
    requires
        width <= i32::MAX,
        height <= i32::MAX,
        width * height * num_channels <= channel.len(),
        width * height * num_channels <= flow_x.len(),
        width * height * num_channels <= flow_y.len(),
        width * height <= usize::MAX,
        forall|acc: T, at: (usize, usize), from: (usize, usize), source: Source<T>|
            at.0 < width && at.1 < height && from.0 < width && from.1 < height
                ==> #[trigger] gather.requires((acc, at, from, source)),
        forall|acc: T, own: Source<T>| #[trigger] finish.requires((acc, own)),
    ensures
        new_channel.len() == width * height * num_channels,
        forall|
            g: spec_fn(T, (int, int), (int, int), Source<T>) -> T,
            f: spec_fn(T, Source<T>) -> T,
            i: int,
        |
            #![trigger computes_gather(*gather, g), computes_finish(*finish, f), new_channel@[i]]
            computes_gather(*gather, g) && computes_finish(*finish, f) && 0 <= i < width * height
                * num_channels ==> new_channel@[i] == reintegrated_at(
                channel@,
                flow_x@,
                flow_y@,
                width as int,
                height as int,
                dd as int,
                i,
                zero,
                g,
                f,
            ),
{
    let w: usize = width as usize;
    let h: usize = height as usize;
    let cells: usize = w * h;
    let total: usize = cells * num_channels as usize;
    let mut new_channel: Vec<T> = Vec::new();
    let mut i: usize = 0;
    while i < total
        invariant
            i <= total == cells * num_channels,
            total <= channel.len(),
            total <= flow_x.len(),
            total <= flow_y.len(),
            cells == w * h,
            w == width <= i32::MAX,
            h == height <= i32::MAX,
            new_channel.len() == i,
            forall|acc: T, at: (usize, usize), from: (usize, usize), source: Source<T>|
                at.0 < w && at.1 < h && from.0 < w && from.1 < h ==> #[trigger] gather.requires(
                    (acc, at, from, source),
                ),
            forall|acc: T, own: Source<T>| #[trigger] finish.requires((acc, own)),
            forall|
                g: spec_fn(T, (int, int), (int, int), Source<T>) -> T,
                f: spec_fn(T, Source<T>) -> T,
                q: int,
            |
                #![trigger computes_gather(*gather, g), computes_finish(*finish, f), new_channel@[q]]
                computes_gather(*gather, g) && computes_finish(*finish, f) && 0 <= q < i
                    ==> new_channel@[q] == reintegrated_at(
                    channel@,
                    flow_x@,
                    flow_y@,
                    w as int,
                    h as int,
                    dd as int,
                    q,
                    zero,
                    g,
                    f,
                ),
        decreases total - i,
    {
        proof {
            lemma_factors_positive(cells as int, num_channels as int, i as int);
            lemma_factors_positive(w as int, h as int, 0);
            lemma_unpacked(i as int, num_channels as int, cells as int);
            lemma_unpacked(i as int % cells as int, h as int, w as int);
            lemma_packed_cell(
                i as int / cells as int,
                num_channels as int,
                cells as int,
                cells - 1,
            );
        }
        let base: usize = (i / cells) * cells;
        let pixel: usize = i % cells;
        let x: usize = pixel % w;
        let y: usize = pixel / w;
        let sum: T = gather_cell(channel, flow_x, flow_y, base, x, y, w, h, dd, zero, gather);
        proof {
            lemma_cell_place(base as int, x as int, y as int, w as int, h as int, total as int);
        }
        let own: Source<T> = Source {
            mass: channel[base + (y * w + x)],
            flow_x: flow_x[base + (y * w + x)],
            flow_y: flow_y[base + (y * w + x)],
        };
        new_channel.push(finish(sum, own));
        i = i + 1;
    }
    new_channel
}

/// Gathers the mass of one cell.
fn gather_cell<T: Copy, G: Fn(T, (usize, usize), (usize, usize), Source<T>) -> T>(
    channel: &Vec<T>,
    flow_x: &Vec<T>,
    flow_y: &Vec<T>,
    base: usize,
    x: usize,
    y: usize,
    w: usize,
    h: usize,
    dd: i32,
    zero: T,
    gather: &G,
) -> (sum: T)
    requires
        x < w <= i32::MAX,
        y < h <= i32::MAX,
        base + w * h <= channel.len(),
        base + w * h <= flow_x.len(),
        base + w * h <= flow_y.len(),
        forall|acc: T, at: (usize, usize), from: (usize, usize), source: Source<T>|
            at.0 < w && at.1 < h && from.0 < w && from.1 < h ==> #[trigger] gather.requires(
                (acc, at, from, source),
            ),
    ensures
        forall|g: spec_fn(T, (int, int), (int, int), Source<T>) -> T| #[trigger]
            computes_gather(*gather, g) ==> sum == gathered(
                channel@,
                flow_x@,
                flow_y@,
                base as int,
                x as int,
                y as int,
                w as int,
                h as int,
                dd as int,
                zero,
                g,
            ),
{
    let step = |acc: T, nx: usize, ny: usize| -> (r: T)
        requires
            nx < w,
            ny < h,
        ensures
            gather.ensures(
                (
                    acc,
                    (x, y),
                    (nx, ny),
                    source_at(
                        channel@,
                        flow_x@,
                        flow_y@,
                        base as int,
                        nx as int,
                        ny as int,
                        w as int,
                    ),
                ),
                r,
            ),
        {
            proof {
                lemma_cell_place(
                    base as int,
                    nx as int,
                    ny as int,
                    w as int,
                    h as int,
                    base + w * h,
                );
            }
            let source: Source<T> = Source {
                mass: channel[base + (ny * w + nx)],
                flow_x: flow_x[base + (ny * w + nx)],
                flow_y: flow_y[base + (ny * w + nx)],
            };
            gather(acc, (x, y), (nx, ny), source)
        };
    let sum: T = fold_window(zero, x, y, w, h, dd, &step);
    proof {
        assert forall|g: spec_fn(T, (int, int), (int, int), Source<T>) -> T| #[trigger]
            computes_gather(*gather, g) implies sum == gathered(
            channel@,
            flow_x@,
            flow_y@,
            base as int,
            x as int,
            y as int,
            w as int,
            h as int,
            dd as int,
            zero,
            g,
        ) by {
            let (xi, yi) = (x as int, y as int);
            let f = |acc: T, nx: int, ny: int|
                g(
                    acc,
                    (xi, yi),
                    (nx, ny),
                    source_at(channel@, flow_x@, flow_y@, base as int, nx, ny, w as int),
                );
            assert(computes_fold(step, f));
        }
    }
    sum
}

/// How far obstacles reach, in cells.
pub const WALL_RADIUS: i32 = 3;

/// `f` is what `run` adds for an obstacle at a given squared distance.
pub open spec fn computes_wall<T, F: Fn(T, u32, T) -> T>(
    run: F,
    f: spec_fn(T, int, T) -> T,
) -> bool {
    forall|acc: T, distance: u32, obstacle: T, r: T| #[trigger]
        run.ensures((acc, distance, obstacle), r) ==> r == f(acc, distance as int, obstacle)
}

/// The squared distance of two cells.
pub open spec fn squared_distance(x: int, y: int, nx: int, ny: int) -> int {
    (nx - x) * (nx - x) + (ny - y) * (ny - y)
}

/// What the obstacles near cell `(x, y)` add up to, row by row.
pub open spec fn wall_sum<T>(
    obstacle: Seq<T>,
    x: int,
    y: int,
    w: int,
    h: int,
    zero: T,
    gather: spec_fn(T, int, T) -> T,
) -> T {
    window_fold(
        zero,
        y,
        x,
        h,
        w,
        WALL_RADIUS as int,
        window_size(WALL_RADIUS as int),
        |acc: T, ny: int, nx: int|
            gather(acc, squared_distance(x, y, nx, ny), obstacle[ny * w + nx]),
    )
}

/// Element `i` of the packed growth of the channels after the obstacles have acted
/// on it.
pub open spec fn walled_at<T>(
    obstacle: Seq<T>,
    u: Seq<T>,
    w: int,
    h: int,
    i: int,
    zero: T,
    gather: spec_fn(T, int, T) -> T,
    finish: spec_fn(T, T) -> T,
) -> T {
    let pixel = i % (w * h);
    finish(u[i], wall_sum(obstacle, pixel % w, pixel / w, w, h, zero, gather))
}

/// Sums what the obstacles near one cell add.
fn wall_cell<T: Copy, G: Fn(T, u32, T) -> T>(
    obstacle: &Vec<T>,
    x: usize,
    y: usize,
    w: usize,
    h: usize,
    zero: T,
    gather: &G,
) -> (sum: T)
    requires
        x < w <= i32::MAX,
        y < h <= i32::MAX,
        w * h <= obstacle.len(),
        forall|acc: T, distance: u32, o: T| #[trigger] gather.requires((acc, distance, o)),
    ensures
        forall|g: spec_fn(T, int, T) -> T| #[trigger]
            computes_wall(*gather, g) ==> sum == wall_sum(
                obstacle@,
                x as int,
                y as int,
                w as int,
                h as int,
                zero,
                g,
            ),
{
    let step = |acc: T, ny: usize, nx: usize| -> (r: T)
        requires
            nx < w,
            ny < h,
            in_window(x as int, nx as int, 3),
            in_window(y as int, ny as int, 3),
        ensures
            exists|distance: u32|
                distance == squared_distance(x as int, y as int, nx as int, ny as int)
                    && #[trigger] gather.ensures(
                    (acc, distance, obstacle@[ny * w + nx]),
                    r,
                ),
        {
            let dx: i32 = nx as i32 - x as i32;
            let dy: i32 = ny as i32 - y as i32;
            proof {
                assert(0 <= dx * dx <= 9 && 0 <= dy * dy <= 9) by (nonlinear_arith)
                    requires
                        -3 <= dx <= 3,
                        -3 <= dy <= 3,
                ;
                lemma_cell_place(0, nx as int, ny as int, w as int, h as int, w * h);
            }
            let distance: u32 = (dx * dx + dy * dy) as u32;
            gather(acc, distance, obstacle[ny * w + nx])
        };
    let sum: T = fold_window(zero, y, x, h, w, WALL_RADIUS, &step);
    proof {
        assert forall|g: spec_fn(T, int, T) -> T| #[trigger]
            computes_wall(*gather, g) implies sum == wall_sum(
            obstacle@,
            x as int,
            y as int,
            w as int,
            h as int,
            zero,
            g,
        ) by {
            let f = |acc: T, ny: int, nx: int|
                g(acc, squared_distance(x as int, y as int, nx, ny), obstacle@[ny * w + nx]);
            assert(computes_fold(step, f));
        }
    }
    sum
}

/// Lets the obstacles act on the packed growth of the channels.
pub fn wall_interaction<T: Copy, G: Fn(T, u32, T) -> T, F: Fn(T, T) -> T>(
    obstacle: &Vec<T>,
    u: &Vec<T>,
    width: u32,
    height: u32,
    num_channels: u32,
    zero: T,
    gather: &G,
    finish: &F,
) -> (out: Vec<T>)
    requires
        width <= i32::MAX,
        height <= i32::MAX,
        width * height <= obstacle.len(),
        width * height * num_channels <= u.len(),
        forall|acc: T, distance: u32, o: T| #[trigger] gather.requires((acc, distance, o)),
        forall|a: T, b: T| #[trigger] finish.requires((a, b)),
    ensures
        out.len() == width * height * num_channels,
        forall|g: spec_fn(T, int, T) -> T, f: spec_fn(T, T) -> T, i: int|
            #![trigger computes_wall(*gather, g), computes2(*finish, f), out@[i]]
            computes_wall(*gather, g) && computes2(*finish, f) && 0 <= i < width * height
                * num_channels ==> out@[i] == walled_at(
                obstacle@,
                u@,
                width as int,
                height as int,
                i,
                zero,
                g,
                f,
            ),
{
    let w: usize = width as usize;
    let h: usize = height as usize;
    let cells: usize = w * h;
    let total: usize = cells * num_channels as usize;
    let mut out: Vec<T> = Vec::new();
    let mut i: usize = 0;
    while i < total
        invariant
            i <= total == cells * num_channels <= u.len(),
            cells == w * h <= obstacle.len(),
            w == width <= i32::MAX,
            h == height <= i32::MAX,
            out.len() == i,
            forall|acc: T, distance: u32, o: T| #[trigger] gather.requires((acc, distance, o)),
            forall|a: T, b: T| #[trigger] finish.requires((a, b)),
            forall|g: spec_fn(T, int, T) -> T, f: spec_fn(T, T) -> T, q: int|
                #![trigger computes_wall(*gather, g), computes2(*finish, f), out@[q]]
                computes_wall(*gather, g) && computes2(*finish, f) && 0 <= q < i ==> out@[q]
                    == walled_at(obstacle@, u@, w as int, h as int, q, zero, g, f),
        decreases total - i,
    {
        proof {
            lemma_factors_positive(cells as int, num_channels as int, i as int);
            lemma_factors_positive(w as int, h as int, 0);
            lemma_unpacked(i as int, num_channels as int, cells as int);
            lemma_unpacked(i as int % cells as int, h as int, w as int);
        }
        let pixel: usize = i % cells;
        let sum: T = wall_cell(obstacle, pixel % w, pixel / w, w, h, zero, gather);
        out.push(finish(u[i], sum));
        i = i + 1;
    }
    out
}

} // verus!
