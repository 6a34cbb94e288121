//! What a step depends on: how far mass moves, and which kernels count.
use crate::convolve::{lemma_cell, lemma_place};
use crate::gpu_flow_lenia::GpuFlowLenia;
use crate::mass::{limited, reintegrated, Motion};
use crate::passes::{
    aggregated, column_fold, gathered, in_window, kernel_sum, lists_kernels, lists_part,
    reintegrated_at, source_at, window_fold, window_size, Source,
};
use crate::step::{all_growth, kernel_growth, moved, next_channels, pairs, Arithmetic};
use vstd::arithmetic::div_mod::*;
use vstd::prelude::*;

verus! {

/// The column of element `i` of packed channels of `w * h` cells.
pub open spec fn column_of(w: int, h: int, i: int) -> int {
    (i % (w * h)) % w
}

/// The row of element `i` of packed channels of `w * h` cells.
pub open spec fn row_of(w: int, h: int, i: int) -> int {
    (i % (w * h)) / w
}

/// Whether element `j` of packed channels lies in the channel of element `i`, at most
/// `dd` columns and rows away.
pub open spec fn in_reach(w: int, h: int, dd: int, i: int, j: int) -> bool {
    &&& j / (w * h) == i / (w * h)
    &&& in_window(column_of(w, h, i), column_of(w, h, j), dd)
    &&& in_window(row_of(w, h, i), row_of(w, h, j), dd)
}

/// Whether element `j` has the same mass and flow in two states.
pub open spec fn same_element<T>(
    channel: Seq<T>,
    flow: (Seq<T>, Seq<T>),
    other_channel: Seq<T>,
    other_flow: (Seq<T>, Seq<T>),
    j: int,
) -> bool {
    &&& channel[j] == other_channel[j]
    &&& flow.0[j] == other_flow.0[j]
    &&& flow.1[j] == other_flow.1[j]
}

/// Functions that agree on the cells of a column fold it to the same.
proof fn lemma_column_fold_equal<T>(
    start: T,
    nx: int,
    y: int,
    h: int,
    radius: int,
    count: nat,
    f: spec_fn(T, int, int) -> T,
    g: spec_fn(T, int, int) -> T,
)
    requires
        count <= window_size(radius),
        forall|acc: T, ny: int|
            0 <= ny < h && in_window(y, ny, radius) ==> #[trigger] f(acc, nx, ny) == g(
                acc,
                nx,
                ny,
            ),
    ensures
        column_fold(start, nx, y, h, radius, count, f) == column_fold(
            start,
            nx,
            y,
            h,
            radius,
            count,
            g,
        ),
    decreases count,
{
    if count > 0 {
        lemma_column_fold_equal(start, nx, y, h, radius, (count - 1) as nat, f, g);
        let ny = y - radius + count - 1;
        let acc = column_fold(start, nx, y, h, radius, (count - 1) as nat, f);
        if 0 <= ny < h {
            assert(in_window(y, ny, radius));
            assert(f(acc, nx, ny) == g(acc, nx, ny));
        }
    }
}

/// Functions that agree on the cells of a window fold it to the same.
proof fn lemma_window_fold_equal<T>(
    start: T,
    x: int,
    y: int,
    w: int,
    h: int,
    radius: int,
    count: nat,
    f: spec_fn(T, int, int) -> T,
    g: spec_fn(T, int, int) -> T,
)
    requires
        count <= window_size(radius),
        forall|acc: T, nx: int, ny: int|
            0 <= nx < w && 0 <= ny < h && in_window(x, nx, radius) && in_window(y, ny, radius)
                ==> #[trigger] f(acc, nx, ny) == g(acc, nx, ny),
    ensures
        window_fold(start, x, y, w, h, radius, count, f) == window_fold(
            start,
            x,
            y,
            w,
            h,
            radius,
            count,
            g,
        ),
    decreases count,
{
    if count > 0 {
        lemma_window_fold_equal(start, x, y, w, h, radius, (count - 1) as nat, f, g);
        let nx = x - radius + count - 1;
        let acc = window_fold(start, x, y, w, h, radius, (count - 1) as nat, f);
        if 0 <= nx < w {
            assert(in_window(x, nx, radius));
            lemma_column_fold_equal(acc, nx, y, h, radius, window_size(radius), f, g);
        }
    }
}

/// The cells of the window of element `i` are in its reach.
proof fn lemma_in_reach(w: int, h: int, dd: int, i: int, nx: int, ny: int)
    requires
        0 < w,
        0 < h,
        0 <= i,
        0 <= nx < w,
        0 <= ny < h,
        in_window(column_of(w, h, i), nx, dd),
        in_window(row_of(w, h, i), ny, dd),
    ensures
        in_reach(w, h, dd, i, (i / (w * h)) * (w * h) + (ny * w + nx)),
{
    let cells = w * h;
    lemma_cell(w as nat, h as nat, nx, ny);
    let j = (i / cells) * cells + (ny * w + nx);
    lemma_fundamental_div_mod_converse(j, cells, i / cells, ny * w + nx);
}

/// Where element `i` of packed channels lies.
proof fn lemma_element(w: int, h: int, i: int)
    requires
        0 < w,
        0 < h,
        0 <= i,
    ensures
        0 <= column_of(w, h, i) < w,
        0 <= row_of(w, h, i) < h,
        (i / (w * h)) * (w * h) + (row_of(w, h, i) * w + column_of(w, h, i)) == i,
{
    let cells = w * h;
    assert(cells > 0) by (nonlinear_arith)
        requires
            cells == w * h,
            w > 0,
            h > 0,
    ;
    lemma_fundamental_div_mod(i, cells);
    lemma_mod_bound(i, cells);
    lemma_place(w as nat, h as nat, i % cells);
    assert(cells * (i / cells) == (i / cells) * cells) by (nonlinear_arith);
}

/// What a cell holds after reintegration depends only on its own state and on that of
/// the cells of its own channel at most `dd` columns and rows away. So mass moves no
/// farther, and stays in its channel.
pub proof fn reintegration_is_local<T>(
    channel: Seq<T>,
    flow: (Seq<T>, Seq<T>),
    other_channel: Seq<T>,
    other_flow: (Seq<T>, Seq<T>),
    w: int,
    h: int,
    dd: int,
    i: int,
    zero: T,
    gather: spec_fn(T, (int, int), (int, int), Source<T>) -> T,
    finish: spec_fn(T, Source<T>) -> T,
)
    requires
        0 < w,
        0 < h,
        0 <= i,
        same_element(channel, flow, other_channel, other_flow, i),
        forall|j: int| #[trigger]
            in_reach(w, h, dd, i, j) ==> same_element(
                channel,
                flow,
                other_channel,
                other_flow,
                j,
            ),
    ensures
        reintegrated_at(channel, flow.0, flow.1, w, h, dd, i, zero, gather, finish)
            == reintegrated_at(
            other_channel,
            other_flow.0,
            other_flow.1,
            w,
            h,
            dd,
            i,
            zero,
            gather,
            finish,
        ),
{
    let base = (i / (w * h)) * (w * h);
    let (x, y) = (column_of(w, h, i), row_of(w, h, i));
    lemma_element(w, h, i);
    let f = |acc: T, nx: int, ny: int|
        gather(acc, (x, y), (nx, ny), source_at(channel, flow.0, flow.1, base, nx, ny, w));
    let g = |acc: T, nx: int, ny: int|
        gather(
            acc,
            (x, y),
            (nx, ny),
            source_at(other_channel, other_flow.0, other_flow.1, base, nx, ny, w),
        );
    assert forall|acc: T, nx: int, ny: int|
        0 <= nx < w && 0 <= ny < h && in_window(x, nx, dd) && in_window(
            y,
            ny,
            dd,
        ) implies #[trigger] f(acc, nx, ny) == g(acc, nx, ny) by {
        lemma_in_reach(w, h, dd, i, nx, ny);
    }
    lemma_window_fold_equal(zero, x, y, w, h, dd, window_size(dd), f, g);
    assert(gathered(channel, flow.0, flow.1, base, x, y, w, h, dd, zero, gather) == gathered(
        other_channel,
        other_flow.0,
        other_flow.1,
        base,
        x,
        y,
        w,
        h,
        dd,
        zero,
        gather,
    ));
    assert(source_at(channel, flow.0, flow.1, base, x, y, w) == source_at(
        other_channel,
        other_flow.0,
        other_flow.1,
        base,
        x,
        y,
        w,
    ));
}

/// In a step, what a cell holds depends on the channels and the flow only at the cell
/// itself and at the cells of its channel at most `dd` columns and rows away.
pub proof fn channels_move_locally<T>(
    sim: GpuFlowLenia,
    ops: Arithmetic<T>,
    channels: Seq<T>,
    flow: (Seq<T>, Seq<T>),
    other_channels: Seq<T>,
    other_flow: (Seq<T>, Seq<T>),
    i: int,
)
    requires
        0 < sim.shape@[0],
        0 < sim.shape@[1],
        0 <= i < sim.shape@[0] * sim.shape@[1] * sim.num_channels,
        same_element(channels, flow, other_channels, other_flow, i),
        forall|j: int| #[trigger]
            in_reach(sim.shape@[0] as int, sim.shape@[1] as int, sim.dd as int, i, j)
                ==> same_element(channels, flow, other_channels, other_flow, j),
    ensures
        moved(sim, ops, channels, flow)[i] == moved(sim, ops, other_channels, other_flow)[i],
{
    reintegration_is_local(
        channels,
        flow,
        other_channels,
        other_flow,
        sim.shape@[0] as int,
        sim.shape@[1] as int,
        sim.dd as int,
        i,
        ops.zero,
        ops.gather,
        ops.finish,
    );
}

/// A column without mass adds nothing.
proof fn lemma_empty_column(
    motion: Motion,
    source: spec_fn(int, int) -> Source<real>,
    at: (int, int),
    nx: int,
    start: real,
    count: nat,
)
    requires
        count <= window_size(motion.dd),
        forall|ny: int|
            0 <= ny < motion.h && in_window(at.1, ny, motion.dd) ==> (#[trigger] source(
                nx,
                ny,
            )).mass <= 0real,
    ensures
        column_fold(
            start,
            nx,
            at.1,
            motion.h as int,
            motion.dd,
            count,
            |acc: real, nx: int, ny: int| motion.gather()(acc, at, (nx, ny), source(nx, ny)),
        ) == start,
    decreases count,
{
    if count > 0 {
        lemma_empty_column(motion, source, at, nx, start, (count - 1) as nat);
        let ny = at.1 - motion.dd + count - 1;
        if 0 <= ny < motion.h {
            assert(in_window(at.1, ny, motion.dd));
            assert(source(nx, ny).mass <= 0real);
        }
    }
}

/// A window without mass gathers nothing.
proof fn lemma_empty_window(
    motion: Motion,
    source: spec_fn(int, int) -> Source<real>,
    at: (int, int),
    count: nat,
)
    requires
        count <= window_size(motion.dd),
        forall|nx: int, ny: int|
            0 <= nx < motion.w && 0 <= ny < motion.h && in_window(at.0, nx, motion.dd)
                && in_window(at.1, ny, motion.dd) ==> (#[trigger] source(nx, ny)).mass <= 0real,
    ensures
        window_fold(
            0real,
            at.0,
            at.1,
            motion.w as int,
            motion.h as int,
            motion.dd,
            count,
            |acc: real, nx: int, ny: int| motion.gather()(acc, at, (nx, ny), source(nx, ny)),
        ) == 0real,
    decreases count,
{
    if count > 0 {
        lemma_empty_window(motion, source, at, (count - 1) as nat);
        let nx = at.0 - motion.dd + count - 1;
        if 0 <= nx < motion.w {
            assert(in_window(at.0, nx, motion.dd));
            lemma_empty_column(motion, source, at, nx, 0real, window_size(motion.dd));
        }
    }
}

/// After reintegration a cell holds mass only if a cell of its own channel at most `dd`
/// columns and rows away held mass before.
pub proof fn mass_comes_from_within_reach(
    motion: Motion,
    channel: Seq<real>,
    flow_x: Seq<real>,
    flow_y: Seq<real>,
    basal_rate: real,
    kinetic_cost: real,
    speed: spec_fn(real, real) -> real,
    i: int,
)
    requires
        0 < motion.w,
        0 < motion.h,
        0real <= motion.dt,
        kinetic_cost >= 0real,
        forall|a: real, b: real| #[trigger] speed(a, b) >= 0real,
        0 <= i < channel.len(),
        forall|j: int| #[trigger]
            in_reach(motion.w as int, motion.h as int, motion.dd, i, j) ==> channel[j] <= 0real,
    ensures
        reintegrated(motion, channel, flow_x, flow_y, basal_rate, kinetic_cost, speed)[i]
            == 0real,
{
    let (w, h) = (motion.w as int, motion.h as int);
    let base = (i / (w * h)) * (w * h);
    let at = (column_of(w, h, i), row_of(w, h, i));
    lemma_element(w, h, i);
    let source = |nx: int, ny: int| source_at(channel, flow_x, flow_y, base, nx, ny, w);
    assert forall|nx: int, ny: int|
        0 <= nx < w && 0 <= ny < h && in_window(at.0, nx, motion.dd) && in_window(
            at.1,
            ny,
            motion.dd,
        ) implies (#[trigger] source(nx, ny)).mass <= 0real by {
        lemma_in_reach(w, h, motion.dd, i, nx, ny);
    }
    lemma_empty_window(motion, source, at, window_size(motion.dd));
    let f = |acc: real, nx: int, ny: int| motion.gather()(acc, at, (nx, ny), source(nx, ny));
    let g = |acc: real, nx: int, ny: int|
        motion.gather()(
            acc,
            at,
            (nx, ny),
            source_at(channel, flow_x, flow_y, base, nx, ny, w),
        );
    assert(f =~= g);
    assert(gathered(
        channel,
        flow_x,
        flow_y,
        base,
        at.0,
        at.1,
        w,
        h,
        motion.dd,
        0real,
        motion.gather(),
    ) == 0real);
    let own = source_at(channel, flow_x, flow_y, base, at.0, at.1, w);
    let most = motion.dd as real - motion.sigma;
    let flow = speed(
        limited(own.flow_x, 0real - most, most),
        limited(own.flow_y, 0real - most, most),
    );
    let kept = 1real - basal_rate * motion.dt;
    assert(0real * kept == 0real) by (nonlinear_arith);
    assert(kinetic_cost * flow >= 0real) by (nonlinear_arith)
        requires
            kinetic_cost >= 0real,
            flow >= 0real,
    ;
    let cost = kinetic_cost * flow;
    let dt = motion.dt;
    assert(cost * dt >= 0real) by (nonlinear_arith)
        requires
            cost >= 0real,
            dt >= 0real,
    ;
}

/// Whether kernel `k` is in a list.
pub open spec fn is_listed(flat: Seq<u32>, k: int) -> bool {
    exists|j: int| 0 <= j < flat.len() && #[trigger] flat[j] == k
}

/// Whether `u` and `v` give kernel `k` the same growth at all cells.
pub open spec fn same_growth<T>(u: Seq<T>, v: Seq<T>, cells: nat, k: int) -> bool {
    forall|i: int| k * cells <= i < k * cells + cells ==> #[trigger] u[i] == v[i]
}

/// Sums of the same growth are the same.
proof fn lemma_kernel_sum_equal<T>(
    u: Seq<T>,
    v: Seq<T>,
    flat: Seq<u32>,
    cells: nat,
    p: int,
    start: int,
    count: nat,
    zero: T,
    plus: spec_fn(T, T) -> T,
)
    requires
        0 <= p < cells,
        0 <= start,
        start + count <= flat.len(),
        forall|k: int| #[trigger] is_listed(flat, k) ==> same_growth(u, v, cells, k),
    ensures
        kernel_sum(u, flat, cells, p, start, count, zero, plus) == kernel_sum(
            v,
            flat,
            cells,
            p,
            start,
            count,
            zero,
            plus,
        ),
    decreases count,
{
    if count > 0 {
        lemma_kernel_sum_equal(u, v, flat, cells, p, start, (count - 1) as nat, zero, plus);
        let k = flat[start + count - 1] as int;
        assert(is_listed(flat, k));
        assert(u[k * cells + p] == v[k * cells + p]);
    }
}

/// Kernels that are in no list do not count: the growth of the channels is the same
/// whatever theirs is.
pub proof fn unlisted_kernels_do_not_count<T>(
    u: Seq<T>,
    v: Seq<T>,
    flat: Seq<u32>,
    offsets: Seq<u32>,
    cells: nat,
    num_channels: nat,
    num_kernels: nat,
    zero: T,
    plus: spec_fn(T, T) -> T,
)
    requires
        lists_kernels(flat, offsets, num_channels, num_kernels),
        forall|k: int| #[trigger] is_listed(flat, k) ==> same_growth(u, v, cells, k),
    ensures
        aggregated(u, flat, offsets, cells, num_channels, zero, plus) == aggregated(
            v,
            flat,
            offsets,
            cells,
            num_channels,
            zero,
            plus,
        ),
{
    let left = aggregated(u, flat, offsets, cells, num_channels, zero, plus);
    let right = aggregated(v, flat, offsets, cells, num_channels, zero, plus);
    assert forall|i: int| 0 <= i < left.len() implies left[i] == right[i] by {
        if cells > 0 {
            lemma_place(cells, num_channels, i);
            let c = i / (cells as int);
            assert(lists_part(offsets, c, flat.len()));
            lemma_kernel_sum_equal(
                u,
                v,
                flat,
                cells,
                i % (cells as int),
                offsets[c] as int,
                (offsets[c + 1] - offsets[c]) as nat,
                zero,
                plus,
            );
        } else {
            assert(cells * num_channels == 0) by (nonlinear_arith)
                requires
                    cells == 0,
            ;
        }
    }
    assert(left =~= right);
}

/// Whether two simulations have the same grid, channels and lists of kernels.
pub open spec fn same_layout(a: GpuFlowLenia, b: GpuFlowLenia) -> bool {
    &&& a.shape@ == b.shape@
    &&& a.total_elements == b.total_elements
    &&& a.num_channels == b.num_channels
    &&& a.num_kernels == b.num_kernels
    &&& a.dd == b.dd
    &&& a.c1_flat@ == b.c1_flat@
    &&& a.c1_offsets@ == b.c1_offsets@
}

/// Whether kernel `k` has the same source, parameters and spectrum in two simulations.
pub open spec fn same_kernel<T>(
    a: GpuFlowLenia,
    b: GpuFlowLenia,
    kernels: Seq<T>,
    other_kernels: Seq<T>,
    k: int,
) -> bool {
    let total = a.total_elements as int;
    &&& a.c0@[k] == b.c0@[k]
    &&& a.kernel_m@[k] == b.kernel_m@[k]
    &&& a.kernel_s@[k] == b.kernel_s@[k]
    &&& a.kernel_h@[k] == b.kernel_h@[k]
    &&& pairs(kernels).subrange(k * total, k * total + total) == pairs(other_kernels).subrange(
        k * total,
        k * total + total,
    )
}

/// Kernels that are in no list have no effect: a step gives the same channels whatever
/// their sources, parameters and spectra are.
pub proof fn unlisted_kernels_have_no_effect<T>(
    a: GpuFlowLenia,
    b: GpuFlowLenia,
    ops: Arithmetic<T>,
    channels: Seq<T>,
    kernels: Seq<T>,
    other_kernels: Seq<T>,
    obstacle: Seq<T>,
)
    requires
        same_layout(a, b),
        lists_kernels(
            a.c1_flat@,
            a.c1_offsets@,
            a.num_channels as nat,
            a.num_kernels as nat,
        ),
        forall|k: int| #[trigger]
            is_listed(a.c1_flat@, k) ==> same_kernel(a, b, kernels, other_kernels, k),
    ensures
        next_channels(a, ops, channels, kernels, obstacle) == next_channels(
            b,
            ops,
            channels,
            other_kernels,
            obstacle,
        ),
{
    let total = a.total_elements as int;
    let u = all_growth(a, ops, channels, kernels);
    let v = all_growth(b, ops, channels, other_kernels);
    assert forall|k: int| #[trigger] is_listed(a.c1_flat@, k) implies same_growth(
        u,
        v,
        total as nat,
        k,
    ) by {
        assert(same_kernel(a, b, kernels, other_kernels, k));
        let mine = kernel_growth(a, ops, channels, kernels, k);
        let theirs = kernel_growth(b, ops, channels, other_kernels, k);
        assert(mine == theirs);
        assert(0 <= k < a.num_kernels);
        assert forall|i: int| k * total <= i < k * total + total implies #[trigger] u[i]
            == v[i] by {
            lemma_fundamental_div_mod_converse(i, total, k, i - k * total);
            assert(0 <= i < total * a.num_kernels) by (nonlinear_arith)
                requires
                    k * total <= i < k * total + total,
                    0 <= k < a.num_kernels,
                    0 <= total,
            ;
        }
    }
    unlisted_kernels_do_not_count(
        u,
        v,
        a.c1_flat@,
        a.c1_offsets@,
        total as nat,
        a.num_channels as nat,
        a.num_kernels as nat,
        ops.zero,
        ops.plus,
    );
}

} // verus!
