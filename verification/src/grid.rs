//! The voxel grid: a three-dimensional `ndarray` array of cell codes.

use vstd::prelude::*;
use ndarray::Array3;

verus! {

/// A three-dimensional array of cell codes, stored in standard (row-major) order.
/// The array type itself cannot be declared to Verus (its storage parameter is
/// bounded by a trait of `ndarray`), so it is held in a private field here.
#[verifier::external_body]
pub struct CellArray {
    cells: Array3<usize>,
}

/// What a cell array holds: each in-bounds index `(x, y, z)` mapped to its element.
pub uninterp spec fn cell_array_contents(a: CellArray) -> Map<(usize, usize, usize), usize>;

/// The contents of a `dx`-by-`dy`-by-`dz` array filled in standard order from `cells`.
pub open spec fn row_major_contents(dx: usize, dy: usize, dz: usize, cells: Seq<usize>) -> Map<(usize, usize, usize), usize> {
    Map::new(
        |i: (usize, usize, usize)| i.0 < dx && i.1 < dy && i.2 < dz,
        |i: (usize, usize, usize)| cells[(i.0 * dy + i.1) * dz + i.2],
    )
}

/// A number of elements along an axis, with an empty axis counted as one.
pub open spec fn nonzero_extent(d: int) -> int {
    if d == 0 { 1 } else { d }
}

/// `Array3::from_shape_vec((dx, dy, dz), cells)`: succeeds exactly when the
/// product of the non-empty axis lengths fits an `isize` and the shape holds
/// as many elements as `cells` does, and then lays the elements out in
/// standard order, the last index varying fastest.
#[verifier::external_body]
pub(crate) fn cell_array_from_shape_vec(dx: usize, dy: usize, dz: usize, cells: Vec<usize>) -> (r: Option<CellArray>)
    ensures
        r is Some <==> (nonzero_extent(dx as int) * nonzero_extent(dy as int) * nonzero_extent(dz as int) <= isize::MAX
            && dx * dy * dz == cells.len()),
        r matches Some(a) ==> cell_array_contents(a) == row_major_contents(dx, dy, dz, cells@),
{
    match Array3::from_shape_vec((dx, dy, dz), cells) {
        Ok(c) => Some(CellArray { cells: c }),
        Err(_) => None,
    }
}

/// `ArrayBase::get((x, y, z))`: the element at that index, or `None` where the
/// index lies outside the array.
#[verifier::external_body]
pub(crate) fn cell_array_get(a: &CellArray, x: usize, y: usize, z: usize) -> (r: Option<usize>)
    ensures
        r == (if cell_array_contents(*a).dom().contains((x, y, z)) {
            Some(cell_array_contents(*a)[(x, y, z)])
        } else {
            None
        }),
{
    a.cells.get((x, y, z)).copied()
}

} // verus!
