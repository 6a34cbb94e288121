//! One-dimensional lanes of an array in row-major order.
//!
//! Along an axis of length `d` whose neighbours lie `s` cells apart, the cells fall
//! into lanes of `d` cells each; the lanes are numbered in the order of their first
//! cells.
use vstd::arithmetic::div_mod::*;
use vstd::arithmetic::mul::*;
use vstd::prelude::*;

verus! {

/// The number of cells of an array of the given shape.
pub open spec fn volume(shape: Seq<usize>) -> nat
    decreases shape.len(),
{
    if shape.len() == 0 {
        1
    } else {
        volume(shape.drop_last()) * shape.last() as nat
    }
}

/// All axes have cells.
pub open spec fn all_positive(shape: Seq<usize>) -> bool {
    forall|a: int| 0 <= a < shape.len() ==> #[trigger] shape[a] > 0
}

/// Cell `i` of lane `l`.
pub open spec fn lane_cell(s: nat, d: nat, l: nat, i: nat) -> nat {
    (l / s) * (s * d) + i * s + l % s
}

/// The lane of cell `p`.
pub open spec fn lane_of(s: nat, d: nat, p: nat) -> nat {
    (p / (s * d)) * s + p % s
}

/// The position of cell `p` in its lane.
pub open spec fn position_of(s: nat, d: nat, p: nat) -> nat {
    (p / s) % d
}

/// Cell `i` of lane `l` belongs to lane `l`, at position `i`.
pub proof fn lemma_lane_of_cell(s: nat, d: nat, l: nat, i: nat)
    requires
        s > 0,
        i < d,
    ensures
        lane_of(s, d, lane_cell(s, d, l, i)) == l,
        position_of(s, d, lane_cell(s, d, l, i)) == i,
{
    let q = l / s;
    let r = l % s;
    let p = lane_cell(s, d, l, i);
    lemma_fundamental_div_mod(l as int, s as int);
    lemma_mul_is_commutative(s as int, q as int);
    assert(q * (s * d) == (q * d) * s) by (nonlinear_arith);
    assert(p == (q * d + i) * s + r) by (nonlinear_arith)
        requires
            p == (q * d) * s + i * s + r,
    ;
    lemma_fundamental_div_mod_converse(p as int, s as int, (q * d + i) as int, r as int);
    lemma_fundamental_div_mod_converse((q * d + i) as int, d as int, q as int, i as int);
    let low = i * s + r;
    assert(low < s * d) by (nonlinear_arith)
        requires
            low == i * s + r,
            i + 1 <= d,
            r < s,
    ;
    lemma_fundamental_div_mod_converse(p as int, (s * d) as int, q as int, low as int);
}

/// Every cell is the cell of its lane at its position.
pub proof fn lemma_cell_of_lane(s: nat, d: nat, p: nat)
    requires
        s > 0,
        d > 0,
    ensures
        lane_cell(s, d, lane_of(s, d, p), position_of(s, d, p)) == p,
        position_of(s, d, p) < d,
{
    let r = p % s;
    let u = p / s;
    let i = u % d;
    let q = u / d;
    lemma_fundamental_div_mod(p as int, s as int);
    lemma_fundamental_div_mod(u as int, d as int);
    lemma_div_denominator(p as int, s as int, d as int);
    assert(p / (s * d) == q);
    let l = lane_of(s, d, p);
    lemma_fundamental_div_mod_converse(l as int, s as int, q as int, r as int);
    assert(q * (s * d) + i * s == s * (d * q + i)) by (nonlinear_arith);
}

/// The cells of the first `outer * s` lanes are the first `outer * d * s` cells.
pub proof fn lemma_lane_bounds(s: nat, d: nat, outer: nat, l: nat, i: nat, p: nat)
    requires
        s > 0,
        d > 0,
        i < d,
    ensures
        l < outer * s ==> lane_cell(s, d, l, i) < outer * (d * s),
        p < outer * (d * s) ==> lane_of(s, d, p) < outer * s,
{
    if l < outer * s {
        let q = l / s;
        let r = l % s;
        lemma_fundamental_div_mod(l as int, s as int);
        assert(q < outer) by (nonlinear_arith)
            requires
                l == s * q + r,
                l < outer * s,
                r >= 0,
                s > 0,
        ;
        assert(i * s + r < s * d) by (nonlinear_arith)
            requires
                i + 1 <= d,
                r < s,
        ;
        assert((q + 1) * (s * d) <= outer * (d * s)) by (nonlinear_arith)
            requires
                q + 1 <= outer,
        ;
        assert((q + 1) * (s * d) == q * (s * d) + s * d) by (nonlinear_arith);
    }
    if p < outer * (d * s) {
        let q = p / (s * d);
        assert(s * d > 0) by (nonlinear_arith)
            requires
                s > 0,
                d > 0,
        ;
        lemma_fundamental_div_mod(p as int, (s * d) as int);
        assert(q < outer) by (nonlinear_arith)
            requires
                (s * d) * q <= p,
                p < outer * (d * s),
                s * d > 0,
        ;
        assert((q + 1) * s <= outer * s) by (nonlinear_arith)
            requires
                q + 1 <= outer,
        ;
        assert((q + 1) * s == q * s + s) by (nonlinear_arith);
    }
}

/// The distance between neighbours along an axis.
pub open spec fn axis_stride(shape: Seq<usize>, axis: int) -> nat {
    volume(shape.skip(axis + 1))
}

/// The number of lanes along an axis.
pub open spec fn lane_count(shape: Seq<usize>, axis: int) -> nat {
    volume(shape.take(axis)) * axis_stride(shape, axis)
}

/// The volume of a shape is the product of the volumes of its parts.
pub proof fn lemma_volume_split(shape: Seq<usize>, k: int)
    requires
        0 <= k <= shape.len(),
    ensures
        volume(shape) == volume(shape.take(k)) * volume(shape.skip(k)),
    decreases shape.len() - k,
{
    if k == shape.len() {
        assert(shape.take(k) =~= shape);
        assert(shape.skip(k) =~= Seq::empty());
    } else {
        let short = shape.drop_last();
        let last = shape.last() as nat;
        lemma_volume_split(short, k);
        assert(short.take(k) =~= shape.take(k));
        assert(shape.skip(k).drop_last() =~= short.skip(k));
        assert(shape.skip(k).last() == shape.last());
        lemma_mul_is_associative(
            volume(shape.take(k)) as int,
            volume(short.skip(k)) as int,
            last as int,
        );
    }
}

/// The cells along an axis: `volume == outer * (length * stride)`.
pub proof fn lemma_axis_volume(shape: Seq<usize>, axis: int)
    requires
        0 <= axis < shape.len(),
    ensures
        volume(shape) == volume(shape.take(axis)) * (shape[axis] as nat * axis_stride(shape, axis)),
{
    lemma_volume_split(shape, axis);
    let rest = shape.skip(axis);
    lemma_volume_split(rest, 1);
    assert(rest.take(1).drop_last() =~= Seq::empty());
    assert(rest.take(1).last() == shape[axis]);
    assert(volume(rest.take(1)) == volume(rest.take(1).drop_last()) * rest.take(1).last() as nat);
    assert(volume(Seq::<usize>::empty()) == 1);
    assert(volume(rest.take(1)) == shape[axis] as nat) by {
        lemma_mul_basics(shape[axis] as int);
    }
    assert(rest.skip(1) =~= shape.skip(axis + 1));
    assert(volume(rest) == shape[axis] as nat * axis_stride(shape, axis));
}

/// A shape without empty axes has cells.
pub proof fn lemma_volume_positive(shape: Seq<usize>)
    requires
        all_positive(shape),
    ensures
        volume(shape) > 0,
    decreases shape.len(),
{
    if shape.len() > 0 {
        assert(all_positive(shape.drop_last())) by {
            assert forall|a: int| 0 <= a < shape.drop_last().len() implies #[trigger] shape.drop_last()[a]
                > 0 by {
                assert(shape[a] > 0);
            }
        }
        lemma_volume_positive(shape.drop_last());
        assert(shape[shape.len() - 1] > 0);
        assert(volume(shape.drop_last()) * shape.last() as nat > 0) by (nonlinear_arith)
            requires
                volume(shape.drop_last()) > 0,
                shape.last() as nat > 0,
        ;
    }
}

/// The distance between neighbours is positive if no axis is empty.
pub proof fn lemma_stride_positive(shape: Seq<usize>, axis: int)
    requires
        all_positive(shape),
        0 <= axis < shape.len(),
    ensures
        axis_stride(shape, axis) > 0,
{
    let rest = shape.skip(axis + 1);
    assert(all_positive(rest)) by {
        assert forall|a: int| 0 <= a < rest.len() implies #[trigger] rest[a] > 0 by {
            assert(shape[a + axis + 1] > 0);
        }
    }
    lemma_volume_positive(rest);
}

/// Lane `l` along an axis.
pub open spec fn lane<T>(elems: Seq<T>, shape: Seq<usize>, axis: int, l: nat) -> Seq<T> {
    let s = axis_stride(shape, axis);
    let d = shape[axis] as nat;
    Seq::new(d, |i: int| elems[lane_cell(s, d, l, i as nat) as int])
}

/// The elements with lane `l` along an axis replaced.
pub open spec fn with_lane<T>(
    elems: Seq<T>,
    shape: Seq<usize>,
    axis: int,
    l: nat,
    values: Seq<T>,
) -> Seq<T> {
    let s = axis_stride(shape, axis);
    let d = shape[axis] as nat;
    Seq::new(
        elems.len(),
        |p: int|
            if lane_of(s, d, p as nat) == l {
                values[position_of(s, d, p as nat) as int]
            } else {
                elems[p]
            },
    )
}

/// The elements with every lane along an axis replaced by what `f` makes of it.
pub open spec fn map_lanes<T>(
    elems: Seq<T>,
    shape: Seq<usize>,
    axis: int,
    f: spec_fn(int, Seq<T>) -> Seq<T>,
) -> Seq<T> {
    let s = axis_stride(shape, axis);
    let d = shape[axis] as nat;
    Seq::new(
        elems.len(),
        |p: int|
            f(axis, lane(elems, shape, axis, lane_of(s, d, p as nat)))[position_of(
                s,
                d,
                p as nat,
            ) as int],
    )
}

/// The axes in the order in which a transform visits them: first to last, or last
/// to first for an inverse transform.
pub open spec fn axis_order(rank: nat, inverse: bool) -> Seq<int> {
    Seq::new(
        rank,
        |k: int|
            if inverse {
                rank - 1 - k
            } else {
                k
            },
    )
}

/// The elements after the lanes along the first `count` of `axes` have been
/// transformed, axis by axis.
pub open spec fn map_axes<T>(
    elems: Seq<T>,
    shape: Seq<usize>,
    axes: Seq<int>,
    f: spec_fn(int, Seq<T>) -> Seq<T>,
    count: nat,
) -> Seq<T>
    decreases count,
{
    if count == 0 {
        elems
    } else {
        map_lanes(
            map_axes(elems, shape, axes, f, (count - 1) as nat),
            shape,
            axes[count - 1],
            f,
        )
    }
}

/// `f` keeps the length of the lanes along an axis.
pub open spec fn keeps_length<T>(f: spec_fn(int, Seq<T>) -> Seq<T>, axis: int, d: nat) -> bool {
    forall|x: Seq<T>| x.len() == d ==> (#[trigger] f(axis, x)).len() == d
}

/// `g` undoes `f` on the lanes along an axis.
pub open spec fn undoes<T>(
    g: spec_fn(int, Seq<T>) -> Seq<T>,
    f: spec_fn(int, Seq<T>) -> Seq<T>,
    axis: int,
    d: nat,
) -> bool {
    forall|x: Seq<T>| x.len() == d ==> g(axis, #[trigger] f(axis, x)) == x
}

/// Mapping the lanes along an axis keeps the number of elements and puts `f` of the
/// old lane in the place of each lane.
pub proof fn lemma_lane_of_mapped<T>(
    elems: Seq<T>,
    shape: Seq<usize>,
    axis: int,
    f: spec_fn(int, Seq<T>) -> Seq<T>,
    l: nat,
)
    requires
        0 <= axis < shape.len(),
        all_positive(shape),
        elems.len() == volume(shape),
        l < lane_count(shape, axis),
        keeps_length(f, axis, shape[axis] as nat),
    ensures
        lane(map_lanes(elems, shape, axis, f), shape, axis, l) == f(
            axis,
            lane(elems, shape, axis, l),
        ),
{
    let s = axis_stride(shape, axis);
    let d = shape[axis] as nat;
    let outer = volume(shape.take(axis));
    lemma_stride_positive(shape, axis);
    lemma_axis_volume(shape, axis);
    let mapped = map_lanes(elems, shape, axis, f);
    let old_lane = lane(elems, shape, axis, l);
    let new_lane = lane(mapped, shape, axis, l);
    assert(f(axis, old_lane).len() == d);
    assert forall|i: int| 0 <= i < d implies new_lane[i] == f(axis, old_lane)[i] by {
        lemma_lane_bounds(s, d, outer, l, i as nat, 0);
        lemma_lane_of_cell(s, d, l, i as nat);
    }
    assert(new_lane =~= f(axis, old_lane));
}

/// If `g` undoes `f` on the lanes along an axis, mapping by `f` and then by `g`
/// gives the elements back.
pub proof fn lemma_map_lanes_undone<T>(
    elems: Seq<T>,
    shape: Seq<usize>,
    axis: int,
    f: spec_fn(int, Seq<T>) -> Seq<T>,
    g: spec_fn(int, Seq<T>) -> Seq<T>,
)
    requires
        0 <= axis < shape.len(),
        all_positive(shape),
        elems.len() == volume(shape),
        keeps_length(f, axis, shape[axis] as nat),
        undoes(g, f, axis, shape[axis] as nat),
    ensures
        map_lanes(map_lanes(elems, shape, axis, f), shape, axis, g) == elems,
{
    let s = axis_stride(shape, axis);
    let d = shape[axis] as nat;
    let outer = volume(shape.take(axis));
    lemma_stride_positive(shape, axis);
    lemma_axis_volume(shape, axis);
    let mapped = map_lanes(elems, shape, axis, f);
    let back = map_lanes(mapped, shape, axis, g);
    assert forall|p: int| 0 <= p < elems.len() implies back[p] == elems[p] by {
        let l = lane_of(s, d, p as nat);
        assert(shape[axis] > 0);
        lemma_cell_of_lane(s, d, p as nat);
        lemma_lane_bounds(s, d, outer, l, 0, p as nat);
        lemma_lane_of_mapped(elems, shape, axis, f, l);
        let old_lane = lane(elems, shape, axis, l);
        assert(g(axis, f(axis, old_lane)) == old_lane);
    }
    assert(back =~= elems);
}

/// Mapping keeps the number of elements.
pub proof fn lemma_map_axes_len<T>(
    elems: Seq<T>,
    shape: Seq<usize>,
    axes: Seq<int>,
    f: spec_fn(int, Seq<T>) -> Seq<T>,
    count: nat,
)
    ensures
        map_axes(elems, shape, axes, f, count).len() == elems.len(),
    decreases count,
{
    if count > 0 {
        lemma_map_axes_len(elems, shape, axes, f, (count - 1) as nat);
    }
}

/// Undoing the last `done` axes of a transform leaves the transform of the other axes.
proof fn lemma_axes_undone<T>(
    elems: Seq<T>,
    shape: Seq<usize>,
    last_first: bool,
    f: spec_fn(int, Seq<T>) -> Seq<T>,
    g: spec_fn(int, Seq<T>) -> Seq<T>,
    done: nat,
)
    requires
        all_positive(shape),
        elems.len() == volume(shape),
        done <= shape.len(),
        forall|a: int|
            0 <= a < shape.len() ==> keeps_length(f, a, #[trigger] shape[a] as nat) && undoes(
                g,
                f,
                a,
                shape[a] as nat,
            ),
    ensures
        map_axes(
            map_axes(elems, shape, axis_order(shape.len(), last_first), f, shape.len()),
            shape,
            axis_order(shape.len(), !last_first),
            g,
            done,
        ) == map_axes(
            elems,
            shape,
            axis_order(shape.len(), last_first),
            f,
            (shape.len() - done) as nat,
        ),
    decreases done,
{
    let rank = shape.len();
    let there = axis_order(rank, last_first);
    if done > 0 {
        lemma_axes_undone(elems, shape, last_first, f, g, (done - 1) as nat);
        let at = rank - done;
        let axis = there[at];
        let before = map_axes(elems, shape, there, f, at as nat);
        lemma_map_axes_len(elems, shape, there, f, at as nat);
        assert(0 <= axis < rank);
        assert(shape[axis] as nat >= 0);
        assert(axis_order(rank, !last_first)[done - 1] == axis);
        assert(map_axes(elems, shape, there, f, (at + 1) as nat) == map_lanes(
            before,
            shape,
            axis,
            f,
        ));
        lemma_map_lanes_undone(before, shape, axis, f, g);
    }
}

/// Transforms in an array of any shape undo each other: if `g` undoes `f` on single
/// lanes, then transforming the lanes of every axis by `f`, and then by `g` with the axes
/// in the opposite order, gives the array back. With `last_first` the last axis is
/// transformed first by `f`, otherwise the first axis.
pub proof fn opposite_axes_undo_each_other<T>(
    elems: Seq<T>,
    shape: Seq<usize>,
    last_first: bool,
    f: spec_fn(int, Seq<T>) -> Seq<T>,
    g: spec_fn(int, Seq<T>) -> Seq<T>,
)
    requires
        all_positive(shape),
        elems.len() == volume(shape),
        forall|a: int|
            0 <= a < shape.len() ==> keeps_length(f, a, #[trigger] shape[a] as nat) && undoes(
                g,
                f,
                a,
                shape[a] as nat,
            ),
    ensures
        map_axes(
            map_axes(elems, shape, axis_order(shape.len(), last_first), f, shape.len()),
            shape,
            axis_order(shape.len(), !last_first),
            g,
            shape.len(),
        ) == elems,
{
    lemma_axes_undone(elems, shape, last_first, f, g, shape.len());
}

} // verus!
