//! Arrays of `ndarray`, holding the bit patterns of numbers.
//!
//! The types wrap the arrays; what an array holds is given by the names
//! [`nd_elems`] and [`grid_elems`], in row-major order, and its axes by
//! [`nd_shape`] and [`grid_shape`].
use crate::lanes::{all_positive, lane, lane_count, volume, with_lane};
use vstd::prelude::*;

verus! {

/// An array of any number of axes (`ndarray::ArrayD<u64>`).
#[verifier::external_body]
pub struct NdArray {
    array: ndarray::ArrayD<u64>,
}

/// The elements of an array, in row-major order.
pub uninterp spec fn nd_elems(a: NdArray) -> Seq<u64>;

/// The lengths of the axes of an array.
pub uninterp spec fn nd_shape(a: NdArray) -> Seq<usize>;

/// `ndarray::Array::from_shape_vec`: an array of the given shape that holds the
/// given elements in row-major order. It succeeds because the shape has exactly
/// that many cells.
#[verifier::external_body]
fn nd_from_shape_vec(shape: &Vec<usize>, elems: Vec<u64>) -> (a: NdArray)
    requires
        all_positive(shape@),
        volume(shape@) == elems.len(),
    ensures
        nd_shape(a) == shape@,
        nd_elems(a) == elems@,
{
    NdArray { array: ndarray::ArrayD::from_shape_vec(ndarray::IxDyn(shape), elems).unwrap() }
}

/// `ndarray::ArrayBase::shape`: the lengths of the axes.
#[verifier::external_body]
fn nd_shape_vec(a: &NdArray) -> (shape: Vec<usize>)
    ensures
        shape@ == nd_shape(*a),
{
    a.array.shape().to_vec()
}

/// `ndarray::ArrayBase::len`: the number of elements. An array has as many elements
/// as its shape has cells.
#[verifier::external_body]
pub(crate) fn nd_len(a: &NdArray) -> (len: usize)
    ensures
        len == nd_elems(*a).len(),
        len == volume(nd_shape(*a)),
{
    a.array.len()
}

/// `ndarray::ArrayBase::iter`: the elements in row-major order.
#[verifier::external_body]
fn nd_elems_vec(a: &NdArray) -> (elems: Vec<u64>)
    ensures
        elems@ == nd_elems(*a),
{
    a.array.iter().copied().collect()
}

/// `ndarray::ArrayBase::lanes`: lane `l` along an axis. The lanes come in row-major
/// order of the other axes, each from the front of its axis to the back.
#[verifier::external_body]
pub(crate) fn nd_lane(a: &NdArray, axis: usize, l: usize) -> (values: Vec<u64>)
    requires
        axis < nd_shape(*a).len(),
        all_positive(nd_shape(*a)),
        l < lane_count(nd_shape(*a), axis as int),
    ensures
        values@ == lane(nd_elems(*a), nd_shape(*a), axis as int, l as nat),
{
    a.array.lanes(ndarray::Axis(axis)).into_iter().nth(l).unwrap().to_vec()
}

/// `ndarray::ArrayBase::lanes_mut`: assigns to lane `l` along an axis, in the same
/// order as [`nd_lane`], and to no other element.
#[verifier::external_body]
pub(crate) fn nd_set_lane(a: &mut NdArray, axis: usize, l: usize, values: &Vec<u64>)
    requires
        axis < nd_shape(*old(a)).len(),
        all_positive(nd_shape(*old(a))),
        l < lane_count(nd_shape(*old(a)), axis as int),
        values.len() == nd_shape(*old(a))[axis as int],
    ensures
        nd_shape(*final(a)) == nd_shape(*old(a)),
        nd_elems(*final(a)) == with_lane(
            nd_elems(*old(a)),
            nd_shape(*old(a)),
            axis as int,
            l as nat,
            values@,
        ),
{
    let mut lanes = a.array.lanes_mut(ndarray::Axis(axis)).into_iter();
    lanes.nth(l).unwrap().assign(&ndarray::ArrayView1::from(values));
}

impl NdArray {
    /// An array of the given shape that holds the given elements in row-major
    /// order.
    pub fn from_vec(shape: &Vec<usize>, elems: Vec<u64>) -> (a: NdArray)
        requires
            all_positive(shape@),
            volume(shape@) == elems.len(),
        ensures
            nd_shape(a) == shape@,
            nd_elems(a) == elems@,
    {
        nd_from_shape_vec(shape, elems)
    }

    /// The lengths of the axes.
    pub fn shape(&self) -> (shape: Vec<usize>)
        ensures
            shape@ == nd_shape(*self),
    {
        nd_shape_vec(self)
    }

    /// The elements in row-major order.
    pub fn to_vec(&self) -> (elems: Vec<u64>)
        ensures
            elems@ == nd_elems(*self),
    {
        nd_elems_vec(self)
    }
}

/// An array of two axes (`ndarray::Array2<u64>`).
#[verifier::external_body]
pub struct Grid {
    array: ndarray::Array2<u64>,
}

/// The elements of a grid, row by row.
pub uninterp spec fn grid_elems(g: Grid) -> Seq<u64>;

/// The numbers of rows and columns of a grid.
pub uninterp spec fn grid_shape(g: Grid) -> (usize, usize);

/// `ndarray::Array2::zeros`: a grid of zeros.
#[verifier::external_body]
pub(crate) fn grid_zeros(rows: usize, cols: usize) -> (g: Grid)
    requires
        rows > 0,
        cols > 0,
        rows * cols * 8 <= isize::MAX,
    ensures
        grid_shape(g) == (rows, cols),
        grid_elems(g) == Seq::new((rows * cols) as nat, |p: int| 0u64),
{
    Grid { array: ndarray::Array2::zeros([rows, cols]) }
}

/// Indexing of `ndarray::Array2` for reading: the element of row `i` and column
/// `j`.
#[verifier::external_body]
pub(crate) fn grid_get(g: &Grid, i: usize, j: usize) -> (value: u64)
    requires
        i < grid_shape(*g).0,
        j < grid_shape(*g).1,
    ensures
        value == grid_elems(*g)[i * grid_shape(*g).1 + j],
{
    g.array[[i, j]]
}

/// Indexing of `ndarray::Array2` for writing: replaces the element of row `i` and
/// column `j` and no other.
#[verifier::external_body]
pub(crate) fn grid_set(g: &mut Grid, i: usize, j: usize, value: u64)
    requires
        i < grid_shape(*old(g)).0,
        j < grid_shape(*old(g)).1,
    ensures
        grid_shape(*final(g)) == grid_shape(*old(g)),
        grid_elems(*final(g)) == grid_elems(*old(g)).update(
            i * grid_shape(*old(g)).1 + j,
            value,
        ),
{
    g.array[[i, j]] = value;
}

/// `ndarray::ArrayBase::iter` of a grid: the elements row by row.
#[verifier::external_body]
pub(crate) fn grid_elems_vec(g: &Grid) -> (elems: Vec<u64>)
    ensures
        elems@ == grid_elems(*g),
{
    g.array.iter().copied().collect()
}

} // verus!
