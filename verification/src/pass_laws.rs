//! What the passes of [`crate::passes`] do to single cells.
//!
//! The laws give the cells that a result depends on by their channel, column and row,
//! and say what becomes of a field that differs from an empty one in a single cell.
use crate::convolve::{lemma_cell, lemma_place};
use crate::exact::exact_gradient;
use crate::mass::{lemma_total_equal, total};
use crate::passes::{
    aggregated, channels_summed, column_fold, gathered, gradient_at, kernel_sum,
    reintegrated_at, source_at, squared_distance, wall_sum, walled_at, window_fold, window_size,
    Neighbours, Source,
};
use vstd::arithmetic::div_mod::*;
use vstd::prelude::*;

verus! {

/// Where cell `(x, y)` of part `c` of packed fields of `w * h` cells lies.
proof fn lemma_packed_place(w: int, h: int, c: int, x: int, y: int)
    requires
        0 <= x < w,
        0 <= y < h,
        0 <= c,
    ensures
        0 <= y * w + x < w * h,
        (c * (w * h) + (y * w + x)) / (w * h) == c,
        (c * (w * h) + (y * w + x)) % (w * h) == y * w + x,
        (y * w + x) % w == x,
        (y * w + x) / w == y,
        0 <= c * (w * h),
{
    lemma_cell(w as nat, h as nat, x, y);
    let i = c * (w * h) + (y * w + x);
    lemma_fundamental_div_mod_converse(i, w * h, c, y * w + x);
    assert(0 <= c * (w * h)) by (nonlinear_arith)
        requires
            0 <= c,
            0 <= w * h,
    ;
}

/// The sum of the channels at a cell adds up what the channels hold at that cell, from
/// the first channel to the last.
pub proof fn sums_add_up_every_channel<T>(
    channels: Seq<T>,
    cells: nat,
    num_channels: nat,
    p: int,
    zero: T,
    plus: spec_fn(T, T) -> T,
)
    requires
        0 <= p < cells,
    ensures
        channels_summed(channels, cells, num_channels, zero, plus).len() == cells,
        channels_summed(channels, cells, num_channels, zero, plus)[p] == Seq::new(
            num_channels,
            |c: int| channels[c * cells + p],
        ).fold_left(zero, plus),
    decreases num_channels,
{
    let list = Seq::new(num_channels, |c: int| channels[c * cells + p]);
    if num_channels > 0 {
        let n = (num_channels - 1) as nat;
        sums_add_up_every_channel(channels, cells, n, p, zero, plus);
        assert(list.drop_last() =~= Seq::new(n, |c: int| channels[c * cells + p]));
    }
}

/// Folding a list of exact numbers by their sum gives their total.
proof fn lemma_fold_is_total(list: Seq<real>, plus: spec_fn(real, real) -> real)
    requires
        forall|a: real, b: real| #[trigger] plus(a, b) == a + b,
    ensures
        list.fold_left(0real, plus) == total(|j: int| list[j], list.len()),
    decreases list.len(),
{
    if list.len() > 0 {
        let short = list.drop_last();
        lemma_fold_is_total(short, plus);
        lemma_total_equal(|j: int| short[j], |j: int| list[j], short.len());
    }
}

/// In exact arithmetic, the sum of the channels at a cell is the total of the channels at
/// that cell.
pub proof fn exact_sums_are_totals(channels: Seq<real>, cells: nat, num_channels: nat, p: int)
    requires
        0 <= p < cells,
    ensures
        channels_summed(channels, cells, num_channels, 0real, |a: real, b: real| a + b)[p]
            == total(|c: int| channels[c * cells + p], num_channels),
{
    let plus = |a: real, b: real| a + b;
    let list = Seq::new(num_channels, |c: int| channels[c * cells + p]);
    sums_add_up_every_channel(channels, cells, num_channels, p, 0real, plus);
    lemma_fold_is_total(list, plus);
    lemma_total_equal(
        |j: int| list[j],
        |c: int| channels[c * cells + p],
        num_channels,
    );
}

/// The growth of a channel at a cell adds up the growth at that same cell of the kernels
/// of its list, in the order of the list.
pub proof fn growth_adds_up_listed_kernels<T>(
    u: Seq<T>,
    flat: Seq<u32>,
    offsets: Seq<u32>,
    cells: nat,
    num_channels: nat,
    c: int,
    p: int,
    zero: T,
    plus: spec_fn(T, T) -> T,
)
    requires
        0 <= c < num_channels,
        0 <= p < cells,
        offsets[c] <= offsets[c + 1] <= flat.len(),
    ensures
        aggregated(u, flat, offsets, cells, num_channels, zero, plus).len() == cells * num_channels,
        aggregated(u, flat, offsets, cells, num_channels, zero, plus)[c * cells + p]
            == flat.subrange(offsets[c] as int, offsets[c + 1] as int).fold_left(
            zero,
            |acc: T, k: u32| plus(acc, u[k * cells + p]),
        ),
{
    let (start, end) = (offsets[c] as int, offsets[c + 1] as int);
    lemma_cell(cells, num_channels, p, c);
    lemma_kernel_sum_folds(u, flat, cells, p, start, (end - start) as nat, zero, plus);
    assert(cells * num_channels == num_channels * cells) by (nonlinear_arith);
}

/// The sum over a part of a list folds that part.
proof fn lemma_kernel_sum_folds<T>(
    u: Seq<T>,
    flat: Seq<u32>,
    cells: nat,
    p: int,
    start: int,
    count: nat,
    zero: T,
    plus: spec_fn(T, T) -> T,
)
    requires
        0 <= start,
        start + count <= flat.len(),
        0 <= p < cells,
    ensures
        kernel_sum(u, flat, cells, p, start, count, zero, plus) == flat.subrange(
            start,
            start + count,
        ).fold_left(zero, |acc: T, k: u32| plus(acc, u[k * cells + p])),
    decreases count,
{
    let list = flat.subrange(start, start + count);
    if count > 0 {
        let n = (count - 1) as nat;
        lemma_kernel_sum_folds(u, flat, cells, p, start, n, zero, plus);
        assert(list.drop_last() =~= flat.subrange(start, start + n));
    }
}

/// A channel that a single kernel contributes to grows, at every cell, as that kernel
/// does at that cell.
pub proof fn growth_of_a_single_kernel<T>(
    u: Seq<T>,
    flat: Seq<u32>,
    offsets: Seq<u32>,
    cells: nat,
    num_channels: nat,
    c: int,
    p: int,
    zero: T,
    plus: spec_fn(T, T) -> T,
)
    requires
        0 <= c < num_channels,
        0 <= p < cells,
        offsets[c + 1] == offsets[c] + 1,
        offsets[c + 1] <= flat.len(),
        forall|v: T| #[trigger] plus(zero, v) == v,
    ensures
        aggregated(u, flat, offsets, cells, num_channels, zero, plus)[c * cells + p]
            == u[flat[offsets[c] as int] * cells + p],
{
    growth_adds_up_listed_kernels(u, flat, offsets, cells, num_channels, c, p, zero, plus);
    let list = flat.subrange(offsets[c] as int, offsets[c + 1] as int);
    assert(list.len() == 1 && list.drop_last().len() == 0);
    reveal_with_fuel(Seq::fold_left, 2);
}

/// The growth of a channel at a cell depends on the growth of the kernels at that cell
/// alone.
pub proof fn growth_stays_at_its_cell<T>(
    u: Seq<T>,
    v: Seq<T>,
    flat: Seq<u32>,
    offsets: Seq<u32>,
    cells: nat,
    num_channels: nat,
    c: int,
    p: int,
    zero: T,
    plus: spec_fn(T, T) -> T,
)
    requires
        0 <= c < num_channels,
        0 <= p < cells,
        offsets[c] <= offsets[c + 1] <= flat.len(),
        forall|j: int|
            offsets[c] <= j < offsets[c + 1] ==> u[#[trigger] flat[j] * cells + p] == v[flat[j]
                * cells + p],
    ensures
        aggregated(u, flat, offsets, cells, num_channels, zero, plus)[c * cells + p]
            == aggregated(v, flat, offsets, cells, num_channels, zero, plus)[c * cells + p],
{
    growth_adds_up_listed_kernels(u, flat, offsets, cells, num_channels, c, p, zero, plus);
    growth_adds_up_listed_kernels(v, flat, offsets, cells, num_channels, c, p, zero, plus);
    let (start, end) = (offsets[c] as int, offsets[c + 1] as int);
    let list = flat.subrange(start, end);
    assert forall|j: int| 0 <= j < list.len() implies u[#[trigger] list[j] * cells + p]
        == v[list[j] * cells + p] by {
        assert(list[j] == flat[start + j]);
    }
    lemma_folds_agree(u, v, list, cells, p, zero, plus);
}

/// Folds of equal growth are equal.
proof fn lemma_folds_agree<T>(
    u: Seq<T>,
    v: Seq<T>,
    list: Seq<u32>,
    cells: nat,
    p: int,
    zero: T,
    plus: spec_fn(T, T) -> T,
)
    requires
        forall|j: int|
            0 <= j < list.len() ==> u[#[trigger] list[j] * cells + p] == v[list[j] * cells + p],
    ensures
        list.fold_left(zero, |acc: T, k: u32| plus(acc, u[k * cells + p])) == list.fold_left(
            zero,
            |acc: T, k: u32| plus(acc, v[k * cells + p]),
        ),
    decreases list.len(),
{
    if list.len() > 0 {
        let short = list.drop_last();
        assert forall|j: int| 0 <= j < short.len() implies u[#[trigger] short[j] * cells + p]
            == v[short[j] * cells + p] by {
            assert(short[j] == list[j]);
        }
        lemma_folds_agree(u, v, short, cells, p, zero, plus);
        assert(u[list[list.len() - 1] * cells + p] == v[list[list.len() - 1] * cells + p]);
    }
}

/// The gradient of packed fields at a cell is that of its own field alone.
pub proof fn packed_fields_have_their_own_gradients<T>(
    fields: Seq<T>,
    w: int,
    h: int,
    c: int,
    q: int,
    f: spec_fn(Neighbours<T>) -> (T, T),
)
    requires
        0 < w,
        0 < h,
        0 <= c,
        0 <= q < w * h,
        (c + 1) * (w * h) <= fields.len(),
    ensures
        gradient_at(fields, w, h, c * (w * h) + q, f) == gradient_at(
            fields.subrange(c * (w * h), (c + 1) * (w * h)),
            w,
            h,
            q,
            f,
        ),
{
    let cells = w * h;
    let (x, y) = (q % w, q / w);
    lemma_place(w as nat, h as nat, q);
    lemma_packed_place(w, h, c, x, y);
    lemma_packed_place(w, h, 0, x, y);
    assert((c + 1) * cells == c * cells + cells) by (nonlinear_arith);
    let alone = fields.subrange(c * cells, (c + 1) * cells);
    let (l, r) = (if x == 0 { 0 } else { x - 1 }, if x + 1 >= w { w - 1 } else { x + 1 });
    let (a, b) = (if y == 0 { 0 } else { y - 1 }, if y + 1 >= h { h - 1 } else { y + 1 });
    lemma_cell(w as nat, h as nat, l, a);
    lemma_cell(w as nat, h as nat, x, a);
    lemma_cell(w as nat, h as nat, r, a);
    lemma_cell(w as nat, h as nat, l, y);
    lemma_cell(w as nat, h as nat, r, y);
    lemma_cell(w as nat, h as nat, l, b);
    lemma_cell(w as nat, h as nat, x, b);
    lemma_cell(w as nat, h as nat, r, b);
}

/// The gradient at a cell is taken from the eight cells around it, in its own field.
/// Beyond the edges, the cells of the edge are taken once more.
pub proof fn gradients_see_the_cells_around<T>(
    fields: Seq<T>,
    w: int,
    h: int,
    c: int,
    x: int,
    y: int,
    f: spec_fn(Neighbours<T>) -> (T, T),
)
    requires
        0 <= x < w,
        0 <= y < h,
        0 <= c,
    ensures
        ({
            let left = if x > 0 {
                x - 1
            } else {
                x
            };
            let right = if x < w - 1 {
                x + 1
            } else {
                x
            };
            let up = if y > 0 {
                y - 1
            } else {
                y
            };
            let down = if y < h - 1 {
                y + 1
            } else {
                y
            };
            let first = c * (w * h);
            gradient_at(fields, w, h, first + (y * w + x), f) == f(
                Neighbours {
                    tl: fields[first + (up * w + left)],
                    tc: fields[first + (up * w + x)],
                    tr: fields[first + (up * w + right)],
                    ml: fields[first + (y * w + left)],
                    mr: fields[first + (y * w + right)],
                    bl: fields[first + (down * w + left)],
                    bc: fields[first + (down * w + x)],
                    br: fields[first + (down * w + right)],
                },
            )
        }),
{
    lemma_packed_place(w, h, c, x, y);
}

/// The exact gradient of a field that rises evenly is, inside of the grid, eight times
/// the slope along each axis, whatever the other fields hold.
pub proof fn slopes_have_even_gradients(
    fields: Seq<real>,
    w: int,
    h: int,
    c: int,
    x: int,
    y: int,
    start: real,
    slope_x: real,
    slope_y: real,
)
    requires
        0 < x < w - 1,
        0 < y < h - 1,
        0 <= c,
        forall|nx: int, ny: int|
            0 <= nx < w && 0 <= ny < h ==> #[trigger] fields[c * (w * h) + (ny * w + nx)] == start
                + slope_x * (nx as real) + slope_y * (ny as real),
    ensures
        gradient_at(fields, w, h, c * (w * h) + (y * w + x), exact_gradient()) == (
            8real * slope_x,
            8real * slope_y,
        ),
{
    gradients_see_the_cells_around(fields, w, h, c, x, y, exact_gradient());
    let first = c * (w * h);
    let (a, b) = (slope_x, slope_y);
    let (rx, ry) = (x as real, y as real);
    lemma_slope_steps(a, rx);
    lemma_slope_steps(b, ry);
    let v = start + a * rx + b * ry;
    assert((x - 1) as real == rx - 1real && (x + 1) as real == rx + 1real);
    assert((y - 1) as real == ry - 1real && (y + 1) as real == ry + 1real);
    assert(fields[first + ((y - 1) * w + (x - 1))] == v - a - b);
    assert(fields[first + ((y - 1) * w + x)] == v - b);
    assert(fields[first + ((y - 1) * w + (x + 1))] == v + a - b);
    assert(fields[first + (y * w + (x - 1))] == v - a);
    assert(fields[first + (y * w + (x + 1))] == v + a);
    assert(fields[first + ((y + 1) * w + (x - 1))] == v - a + b);
    assert(fields[first + ((y + 1) * w + x)] == v + b);
    assert(fields[first + ((y + 1) * w + (x + 1))] == v + a + b);
}

/// One step along a slope.
proof fn lemma_slope_steps(s: real, r: real)
    ensures
        s * (r - 1real) == s * r - s,
        s * (r + 1real) == s * r + s,
{
    assert(s * (r - 1real) == s * r - s) by (nonlinear_arith);
    assert(s * (r + 1real) == s * r + s) by (nonlinear_arith);
}

/// What folding a column comes to if all cells but one do nothing.
proof fn lemma_single_in_column<T>(
    start: T,
    nx: int,
    y: int,
    h: int,
    radius: int,
    count: nat,
    at: (int, int),
    f: spec_fn(T, int, int) -> T,
)
    requires
        0 <= at.1 < h,
        count <= window_size(radius),
        forall|acc: T, ny: int|
            0 <= ny < h && (nx, ny) != at ==> #[trigger] f(acc, nx, ny) == acc,
    ensures
        column_fold(start, nx, y, h, radius, count, f) == if nx == at.0 && y - radius <= at.1 < y
            - radius + count {
            f(start, nx, at.1)
        } else {
            start
        },
    decreases count,
{
    if count > 0 {
        lemma_single_in_column(start, nx, y, h, radius, (count - 1) as nat, at, f);
    }
}

/// What folding a window comes to if all cells but one do nothing.
proof fn lemma_single_in_window<T>(
    start: T,
    x: int,
    y: int,
    w: int,
    h: int,
    radius: int,
    count: nat,
    at: (int, int),
    f: spec_fn(T, int, int) -> T,
)
    requires
        0 <= at.0 < w,
        0 <= at.1 < h,
        0 <= radius,
        count <= window_size(radius),
        forall|acc: T, nx: int, ny: int|
            0 <= nx < w && 0 <= ny < h && (nx, ny) != at ==> #[trigger] f(acc, nx, ny) == acc,
    ensures
        window_fold(start, x, y, w, h, radius, count, f) == if x - radius <= at.0 < x - radius
            + count && y - radius <= at.1 <= y + radius {
            f(start, at.0, at.1)
        } else {
            start
        },
    decreases count,
{
    if count > 0 {
        lemma_single_in_window(start, x, y, w, h, radius, (count - 1) as nat, at, f);
        let nx = x - radius + count - 1;
        if 0 <= nx < w {
            let acc = window_fold(start, x, y, w, h, radius, (count - 1) as nat, f);
            lemma_single_in_column(acc, nx, y, h, radius, window_size(radius), at, f);
        }
    }
}

/// A single obstacle at column `ox` and row `oy` acts on the cells at most three columns
/// and three rows away, in every channel, by its squared distance, and on no other cell.
pub proof fn single_obstacle_acts_around_itself<T>(
    obstacle: Seq<T>,
    u: Seq<T>,
    w: int,
    h: int,
    ox: int,
    oy: int,
    none: T,
    c: int,
    x: int,
    y: int,
    zero: T,
    gather: spec_fn(T, int, T) -> T,
    finish: spec_fn(T, T) -> T,
)
    requires
        0 <= ox < w,
        0 <= oy < h,
        0 <= x < w,
        0 <= y < h,
        0 <= c,
        forall|j: int| 0 <= j < w * h && j != oy * w + ox ==> #[trigger] obstacle[j] == none,
        forall|acc: T, d: int| #[trigger] gather(acc, d, none) == acc,
    ensures
        walled_at(obstacle, u, w, h, c * (w * h) + (y * w + x), zero, gather, finish) == finish(
            u[c * (w * h) + (y * w + x)],
            if -3 <= x - ox <= 3 && -3 <= y - oy <= 3 {
                gather(zero, (x - ox) * (x - ox) + (y - oy) * (y - oy), obstacle[oy * w + ox])
            } else {
                zero
            },
        ),
{
    lemma_packed_place(w, h, c, x, y);
    let f = |acc: T, ny: int, nx: int|
        gather(
            acc,
            squared_distance(x, y, nx, ny),
            obstacle[ny * w + nx],
        );
    assert forall|acc: T, ny: int, nx: int|
        0 <= ny < h && 0 <= nx < w && (ny, nx) != (oy, ox) implies #[trigger] f(acc, ny, nx)
        == acc by {
        lemma_cell(w as nat, h as nat, nx, ny);
        lemma_cell(w as nat, h as nat, ox, oy);
        assert(obstacle[ny * w + nx] == none);
    }
    lemma_single_in_window(zero, y, x, h, w, 3, window_size(3), (oy, ox), f);
    assert((x - ox) * (x - ox) == (ox - x) * (ox - x)) by (nonlinear_arith);
    assert((y - oy) * (y - oy) == (oy - y) * (oy - y)) by (nonlinear_arith);
}

/// Where there are no obstacles, nothing is taken from the growth but the effect of none.
pub proof fn free_cells_are_finished_with_zero<T>(
    obstacle: Seq<T>,
    u: Seq<T>,
    w: int,
    h: int,
    none: T,
    c: int,
    x: int,
    y: int,
    zero: T,
    gather: spec_fn(T, int, T) -> T,
    finish: spec_fn(T, T) -> T,
)
    requires
        0 <= x < w,
        0 <= y < h,
        0 <= c,
        forall|nx: int, ny: int|
            0 <= nx < w && 0 <= ny < h && -3 <= nx - x <= 3 && -3 <= ny - y <= 3
                ==> #[trigger] obstacle[ny * w + nx] == none,
        forall|acc: T, d: int| #[trigger] gather(acc, d, none) == acc,
    ensures
        walled_at(obstacle, u, w, h, c * (w * h) + (y * w + x), zero, gather, finish) == finish(
            u[c * (w * h) + (y * w + x)],
            zero,
        ),
{
    lemma_packed_place(w, h, c, x, y);
    obstacles_act_row_by_row(obstacle, u, w, h, c, x, y, zero, gather, finish);
    let step = |acc: T, i: int|
        {
            let (dx, dy) = (i % 7 - 3, i / 7 - 3);
            if 0 <= x + dx < w && 0 <= y + dy < h {
                gather(acc, dx * dx + dy * dy, obstacle[(y + dy) * w + (x + dx)])
            } else {
                acc
            }
        };
    assert forall|acc: T, i: int| 0 <= i < 49 implies #[trigger] step(acc, i) == acc by {
        let (dx, dy) = (i % 7 - 3, i / 7 - 3);
        if 0 <= x + dx < w && 0 <= y + dy < h {
            assert(obstacle[(y + dy) * w + (x + dx)] == none);
        }
    }
    lemma_idle_fold(zero, 49, step);
}

/// Folding by steps that do nothing gives the start.
proof fn lemma_idle_fold<T>(start: T, n: nat, step: spec_fn(T, int) -> T)
    requires
        forall|acc: T, i: int| 0 <= i < n ==> #[trigger] step(acc, i) == acc,
    ensures
        Seq::new(n, |i: int| i).fold_left(start, step) == start,
    decreases n,
{
    let list = Seq::new(n, |i: int| i);
    if n > 0 {
        let m = (n - 1) as nat;
        lemma_idle_fold(start, m, step);
        assert(list.drop_last() =~= Seq::new(m, |i: int| i));
    }
}

/// The next `count` cells of a window, in column `column`.
proof fn lemma_fold_extends<T>(
    start: T,
    x: int,
    y: int,
    w: int,
    h: int,
    radius: int,
    column: nat,
    count: nat,
    f: spec_fn(T, int, int) -> T,
    step: spec_fn(T, int) -> T,
)
    requires
        0 <= radius,
        count <= 2 * radius + 1,
        step == (|acc: T, i: int|
            {
                let nx = x - radius + i / (2 * radius + 1);
                let ny = y - radius + i % (2 * radius + 1);
                if 0 <= nx < w && 0 <= ny < h {
                    f(acc, nx, ny)
                } else {
                    acc
                }
            }),
    ensures
        ({
            let n = (2 * radius + 1) as nat;
            let nx = x - radius + column;
            let before = Seq::new(column * n, |i: int| i).fold_left(start, step);
            Seq::new(column * n + count, |i: int| i).fold_left(start, step) == if 0 <= nx < w {
                column_fold(before, nx, y, h, radius, count, f)
            } else {
                before
            }
        }),
    decreases count,
{
    let n = (2 * radius + 1) as nat;
    let all = Seq::new(column * n + count, |i: int| i);
    if count > 0 {
        let m = (count - 1) as nat;
        lemma_fold_extends(start, x, y, w, h, radius, column, m, f, step);
        assert(all.drop_last() =~= Seq::new(column * n + m, |i: int| i));
        assert(all.last() == column * n + m);
        let next = (column * n + m) as int;
        lemma_fundamental_div_mod_converse(next, n as int, column as int, m as int);
    }
}

/// Folding a window visits its cells column by column, each column from its first row
/// on, and leaves out those outside of the grid. The first `count` columns are `count`
/// times as many cells as a column has.
pub proof fn windows_are_folded_column_by_column<T>(
    start: T,
    x: int,
    y: int,
    w: int,
    h: int,
    radius: int,
    count: nat,
    f: spec_fn(T, int, int) -> T,
    step: spec_fn(T, int) -> T,
)
    requires
        0 <= radius,
        count <= 2 * radius + 1,
        step == (|acc: T, i: int|
            {
                let nx = x - radius + i / (2 * radius + 1);
                let ny = y - radius + i % (2 * radius + 1);
                if 0 <= nx < w && 0 <= ny < h {
                    f(acc, nx, ny)
                } else {
                    acc
                }
            }),
    ensures
        window_fold(start, x, y, w, h, radius, count, f) == Seq::new(
            count * (2 * radius + 1) as nat,
            |i: int| i,
        ).fold_left(start, step),
    decreases count,
{
    let n = (2 * radius + 1) as nat;
    if count > 0 {
        let m = (count - 1) as nat;
        windows_are_folded_column_by_column(start, x, y, w, h, radius, m, f, step);
        lemma_fold_extends(start, x, y, w, h, radius, m, n, f, step);
        assert(m * n + n == count * n) by (nonlinear_arith)
            requires
                count == m + 1,
        ;
    } else {
        assert(count * n == 0) by (nonlinear_arith)
            requires
                count == 0,
        ;
    }
}

/// A window reaches as far to both sides, and has no cells if its radius is negative.
pub proof fn windows_reach_as_far_to_both_sides<T>(
    start: T,
    x: int,
    y: int,
    w: int,
    h: int,
    radius: int,
    f: spec_fn(T, int, int) -> T,
)
    ensures
        radius >= 0 ==> window_size(radius) == radius + 1 + radius,
        radius < 0 ==> window_fold(start, x, y, w, h, radius, window_size(radius), f) == start,
{
}

/// The obstacles at most three rows and columns away act on a cell one after the other,
/// row by row, each by its squared distance.
pub proof fn obstacles_act_row_by_row<T>(
    obstacle: Seq<T>,
    u: Seq<T>,
    w: int,
    h: int,
    c: int,
    x: int,
    y: int,
    zero: T,
    gather: spec_fn(T, int, T) -> T,
    finish: spec_fn(T, T) -> T,
)
    requires
        0 <= x < w,
        0 <= y < h,
        0 <= c,
    ensures
        walled_at(obstacle, u, w, h, c * (w * h) + (y * w + x), zero, gather, finish) == finish(
            u[c * (w * h) + (y * w + x)],
            Seq::new(49, |i: int| i).fold_left(
                zero,
                |acc: T, i: int|
                    {
                        let (dx, dy) = (i % 7 - 3, i / 7 - 3);
                        if 0 <= x + dx < w && 0 <= y + dy < h {
                            gather(acc, dx * dx + dy * dy, obstacle[(y + dy) * w + (x + dx)])
                        } else {
                            acc
                        }
                    },
            ),
        ),
{
    lemma_packed_place(w, h, c, x, y);
    let f = |acc: T, ny: int, nx: int|
        gather(
            acc,
            squared_distance(x, y, nx, ny),
            obstacle[ny * w + nx],
        );
    let r: int = 3;
    let step = |acc: T, i: int|
        {
            let ny = y - r + i / (2 * r + 1);
            let nx = x - r + i % (2 * r + 1);
            if 0 <= ny < h && 0 <= nx < w {
                f(acc, ny, nx)
            } else {
                acc
            }
        };
    windows_are_folded_column_by_column(zero, y, x, h, w, r, 7, f, step);
    let plain = |acc: T, i: int|
        {
            let (dx, dy) = (i % 7 - 3, i / 7 - 3);
            if 0 <= x + dx < w && 0 <= y + dy < h {
                gather(acc, dx * dx + dy * dy, obstacle[(y + dy) * w + (x + dx)])
            } else {
                acc
            }
        };
    assert(step =~= plain) by {
        assert forall|acc: T, i: int| #[trigger] step(acc, i) == plain(acc, i) by {
            let (dx, dy) = (i % 7 - 3, i / 7 - 3);
            assert(y - 3 + i / 7 == y + dy && x - 3 + i % 7 == x + dx);
        }
    }
    assert(wall_sum(obstacle, x, y, w, h, zero, gather) == Seq::new(49, |i: int| i).fold_left(
        zero,
        plain,
    ));
}

/// A cell gathers from the cells of its own channel at most `dd` columns and rows away,
/// column by column, and what it gathered is finished with its own state.
pub proof fn cells_gather_column_by_column<T>(
    channel: Seq<T>,
    flow: (Seq<T>, Seq<T>),
    w: int,
    h: int,
    dd: int,
    c: int,
    x: int,
    y: int,
    zero: T,
    gather: spec_fn(T, (int, int), (int, int), Source<T>) -> T,
    finish: spec_fn(T, Source<T>) -> T,
)
    requires
        0 <= x < w,
        0 <= y < h,
        0 <= c,
        0 <= dd,
    ensures
        ({
            let n = 2 * dd + 1;
            let state = |nx: int, ny: int|
                Source {
                    mass: channel[c * (w * h) + (ny * w + nx)],
                    flow_x: flow.0[c * (w * h) + (ny * w + nx)],
                    flow_y: flow.1[c * (w * h) + (ny * w + nx)],
                };
            reintegrated_at(
                channel,
                flow.0,
                flow.1,
                w,
                h,
                dd,
                c * (w * h) + (y * w + x),
                zero,
                gather,
                finish,
            ) == finish(
                Seq::new((n * n) as nat, |i: int| i).fold_left(
                    zero,
                    |acc: T, i: int|
                        {
                            let (nx, ny) = (x - dd + i / n, y - dd + i % n);
                            if 0 <= nx < w && 0 <= ny < h {
                                gather(acc, (x, y), (nx, ny), state(nx, ny))
                            } else {
                                acc
                            }
                        },
                ),
                state(x, y),
            )
        }),
{
    lemma_packed_place(w, h, c, x, y);
    let n = 2 * dd + 1;
    let base = c * (w * h);
    let f = |acc: T, nx: int, ny: int|
        gather(acc, (x, y), (nx, ny), source_at(channel, flow.0, flow.1, base, nx, ny, w));
    let step = |acc: T, i: int|
        {
            let nx = x - dd + i / (2 * dd + 1);
            let ny = y - dd + i % (2 * dd + 1);
            if 0 <= nx < w && 0 <= ny < h {
                f(acc, nx, ny)
            } else {
                acc
            }
        };
    windows_are_folded_column_by_column(zero, x, y, w, h, dd, n as nat, f, step);
    let state = |nx: int, ny: int|
        Source {
            mass: channel[base + (ny * w + nx)],
            flow_x: flow.0[base + (ny * w + nx)],
            flow_y: flow.1[base + (ny * w + nx)],
        };
    let plain = |acc: T, i: int|
        {
            let (nx, ny) = (x - dd + i / n, y - dd + i % n);
            if 0 <= nx < w && 0 <= ny < h {
                gather(acc, (x, y), (nx, ny), state(nx, ny))
            } else {
                acc
            }
        };
    assert(step =~= plain);
    assert(gathered(channel, flow.0, flow.1, base, x, y, w, h, dd, zero, gather) == Seq::new(
        (n * n) as nat,
        |i: int| i,
    ).fold_left(zero, plain));
}

/// With a negative reach a cell gathers nothing.
pub proof fn negative_reach_gathers_nothing<T>(
    channel: Seq<T>,
    flow: (Seq<T>, Seq<T>),
    w: int,
    h: int,
    dd: int,
    c: int,
    x: int,
    y: int,
    zero: T,
    gather: spec_fn(T, (int, int), (int, int), Source<T>) -> T,
    finish: spec_fn(T, Source<T>) -> T,
)
    requires
        0 <= x < w,
        0 <= y < h,
        0 <= c,
        dd < 0,
    ensures
        ({
            let own = c * (w * h) + (y * w + x);
            reintegrated_at(channel, flow.0, flow.1, w, h, dd, own, zero, gather, finish)
                == finish(
                zero,
                Source { mass: channel[own], flow_x: flow.0[own], flow_y: flow.1[own] },
            )
        }),
{
    lemma_packed_place(w, h, c, x, y);
}

/// If all cells of a channel but one are without effect, a cell gathers from that one
/// alone, and only if it is at most `dd` columns and rows away.
pub proof fn single_source_is_gathered_around_itself<T>(
    channel: Seq<T>,
    flow: (Seq<T>, Seq<T>),
    w: int,
    h: int,
    dd: int,
    c: int,
    sx: int,
    sy: int,
    x: int,
    y: int,
    zero: T,
    gather: spec_fn(T, (int, int), (int, int), Source<T>) -> T,
    finish: spec_fn(T, Source<T>) -> T,
)
    requires
        0 <= sx < w,
        0 <= sy < h,
        0 <= x < w,
        0 <= y < h,
        0 <= c,
        0 <= dd,
        forall|acc: T, nx: int, ny: int, s: Source<T>|
            0 <= nx < w && 0 <= ny < h && (nx, ny) != (sx, sy) && s.mass == channel[c * (w * h) + (
            ny * w + nx)] ==> #[trigger] gather(acc, (x, y), (nx, ny), s) == acc,
    ensures
        ({
            let (own, from) = (c * (w * h) + (y * w + x), c * (w * h) + (sy * w + sx));
            reintegrated_at(
                channel,
                flow.0,
                flow.1,
                w,
                h,
                dd,
                own,
                zero,
                gather,
                finish,
            ) == finish(
                if -dd <= x - sx <= dd && -dd <= y - sy <= dd {
                    gather(
                        zero,
                        (x, y),
                        (sx, sy),
                        Source {
                            mass: channel[from],
                            flow_x: flow.0[from],
                            flow_y: flow.1[from],
                        },
                    )
                } else {
                    zero
                },
                Source { mass: channel[own], flow_x: flow.0[own], flow_y: flow.1[own] },
            )
        }),
{
    lemma_packed_place(w, h, c, x, y);
    let base = c * (w * h);
    let f = |acc: T, nx: int, ny: int|
        gather(acc, (x, y), (nx, ny), source_at(channel, flow.0, flow.1, base, nx, ny, w));
    assert forall|acc: T, nx: int, ny: int|
        0 <= nx < w && 0 <= ny < h && (nx, ny) != (sx, sy) implies #[trigger] f(acc, nx, ny)
        == acc by {
        let s = source_at(channel, flow.0, flow.1, base, nx, ny, w);
        assert(s.mass == channel[base + (ny * w + nx)]);
        assert(gather(acc, (x, y), (nx, ny), s) == acc);
    }
    lemma_single_in_window(zero, x, y, w, h, dd, window_size(dd), (sx, sy), f);
}

} // verus!
