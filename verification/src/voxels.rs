//! The voxel grid of a scene, as the packets see it: one coin per cell.

use vstd::prelude::*;
use vstd::arithmetic::div_mod::{lemma_fundamental_div_mod_converse_div, lemma_fundamental_div_mod_converse_mod};
use crate::coins::{QuantumCoin, coin_of_code, code_of_coin};
use crate::fixed_point::{PacketPosition, cell_of, cell_index};
use crate::grid::{CellArray, cell_array_contents, cell_array_from_shape_vec, cell_array_get, row_major_contents, nonzero_extent};

verus! {

/// A voxel, as far as packets are concerned: its coin.
#[derive(Clone, Copy, Debug, PartialEq, Eq, Structural)]
pub struct Voxel {
    pub coin: QuantumCoin,
}

/// The vertex indices of the twelve triangles that make up the six faces of a
/// voxel. Vertex `i` of a voxel takes its x coordinate from the maximum corner
/// when bit 2 of `i` is set, y when bit 1 is set, z when bit 0 is set, and
/// from the minimum corner otherwise.
pub open spec fn cube_triangles() -> Seq<usize> {
    seq![
        0, 1, 2, 1, 3, 2,
        4, 5, 6, 5, 7, 6,
        0, 2, 4, 2, 6, 4,
        1, 5, 3, 5, 7, 3,
        0, 4, 1, 4, 5, 1,
        2, 3, 6, 3, 7, 6,
    ]
}

/// Whether vertex `v` of a voxel lies on the face of the voxel where the
/// coordinate chosen by `bit` (4 for x, 2 for y, 1 for z) is at its maximum
/// (`high`) or its minimum.
pub open spec fn on_face(v: int, bit: int, high: bool) -> bool {
    ((v / bit) % 2 == 1) == high
}

impl Voxel {
    /// An empty voxel: air.
    pub fn new() -> (v: Voxel)
        ensures
            v.coin == QuantumCoin::Air,
    {
        Voxel { coin: QuantumCoin::Air }
    }

    /// The voxel with its coin replaced by the given surface.
    pub fn add_surface(self, surface: usize) -> (v: Voxel)
        ensures
            v.coin == (QuantumCoin::Surface { surface }),
    {
        let mut v = self;
        v.coin = QuantumCoin::Surface { surface };
        v
    }

    /// The vertex indices of the voxel's twelve triangles, three per triangle.
    pub fn indeices() -> (r: [usize; 36])
        ensures
            r@ == cube_triangles(),
    {
        let r: [usize; 36] = [
            0, 1, 2,
            1, 3, 2,
            4, 5, 6,
            5, 7, 6,
            0, 2, 4,
            2, 6, 4,
            1, 5, 3,
            5, 7, 3,
            0, 4, 1,
            4, 5, 1,
            2, 3, 6,
            3, 7, 6,
        ];
        assert(r@ =~= cube_triangles());
        r
    }
}

/// Whether the `t`-th triangle of a voxel lies in one of its faces: its three
/// vertices agree on one coordinate.
pub open spec fn triangle_on_face(t: int) -> bool {
    exists|bit: int, high: bool|
        (bit == 1 || bit == 2 || bit == 4)
        && #[trigger] on_face(cube_triangles()[3 * t] as int, bit, high)
        && on_face(cube_triangles()[3 * t + 1] as int, bit, high)
        && on_face(cube_triangles()[3 * t + 2] as int, bit, high)
}

/// Every triangle of a voxel joins three of its eight vertices and lies in one
/// of its faces.
pub proof fn lemma_cube_triangles_on_faces()
    ensures
        cube_triangles().len() == 36,
        forall|i: int| 0 <= i < 36 ==> #[trigger] cube_triangles()[i] < 8,
        forall|t: int| 0 <= t < 12 ==> #[trigger] triangle_on_face(t),
{
    let s = cube_triangles();
    assert forall|t: int| 0 <= t < 12 implies #[trigger] triangle_on_face(t) by {
        if t == 0 {
            assert(on_face(s[0] as int, 4, false) && on_face(s[1] as int, 4, false) && on_face(s[2] as int, 4, false));
            assert(on_face(s[3 * t] as int, 4, false) && on_face(s[3 * t + 1] as int, 4, false) && on_face(s[3 * t + 2] as int, 4, false));
        } else if t == 1 {
            assert(on_face(s[3] as int, 4, false) && on_face(s[4] as int, 4, false) && on_face(s[5] as int, 4, false));
            assert(on_face(s[3 * t] as int, 4, false) && on_face(s[3 * t + 1] as int, 4, false) && on_face(s[3 * t + 2] as int, 4, false));
        } else if t == 2 {
            assert(on_face(s[6] as int, 4, true) && on_face(s[7] as int, 4, true) && on_face(s[8] as int, 4, true));
            assert(on_face(s[3 * t] as int, 4, true) && on_face(s[3 * t + 1] as int, 4, true) && on_face(s[3 * t + 2] as int, 4, true));
        } else if t == 3 {
            assert(on_face(s[9] as int, 4, true) && on_face(s[10] as int, 4, true) && on_face(s[11] as int, 4, true));
            assert(on_face(s[3 * t] as int, 4, true) && on_face(s[3 * t + 1] as int, 4, true) && on_face(s[3 * t + 2] as int, 4, true));
        } else if t == 4 {
            assert(on_face(s[12] as int, 1, false) && on_face(s[13] as int, 1, false) && on_face(s[14] as int, 1, false));
            assert(on_face(s[3 * t] as int, 1, false) && on_face(s[3 * t + 1] as int, 1, false) && on_face(s[3 * t + 2] as int, 1, false));
        } else if t == 5 {
            assert(on_face(s[15] as int, 1, false) && on_face(s[16] as int, 1, false) && on_face(s[17] as int, 1, false));
            assert(on_face(s[3 * t] as int, 1, false) && on_face(s[3 * t + 1] as int, 1, false) && on_face(s[3 * t + 2] as int, 1, false));
        } else if t == 6 {
            assert(on_face(s[18] as int, 1, true) && on_face(s[19] as int, 1, true) && on_face(s[20] as int, 1, true));
            assert(on_face(s[3 * t] as int, 1, true) && on_face(s[3 * t + 1] as int, 1, true) && on_face(s[3 * t + 2] as int, 1, true));
        } else if t == 7 {
            assert(on_face(s[21] as int, 1, true) && on_face(s[22] as int, 1, true) && on_face(s[23] as int, 1, true));
            assert(on_face(s[3 * t] as int, 1, true) && on_face(s[3 * t + 1] as int, 1, true) && on_face(s[3 * t + 2] as int, 1, true));
        } else if t == 8 {
            assert(on_face(s[24] as int, 2, false) && on_face(s[25] as int, 2, false) && on_face(s[26] as int, 2, false));
            assert(on_face(s[3 * t] as int, 2, false) && on_face(s[3 * t + 1] as int, 2, false) && on_face(s[3 * t + 2] as int, 2, false));
        } else if t == 9 {
            assert(on_face(s[27] as int, 2, false) && on_face(s[28] as int, 2, false) && on_face(s[29] as int, 2, false));
            assert(on_face(s[3 * t] as int, 2, false) && on_face(s[3 * t + 1] as int, 2, false) && on_face(s[3 * t + 2] as int, 2, false));
        } else if t == 10 {
            assert(on_face(s[30] as int, 2, true) && on_face(s[31] as int, 2, true) && on_face(s[32] as int, 2, true));
            assert(on_face(s[3 * t] as int, 2, true) && on_face(s[3 * t + 1] as int, 2, true) && on_face(s[3 * t + 2] as int, 2, true));
        } else {
            assert(on_face(s[33] as int, 2, true) && on_face(s[34] as int, 2, true) && on_face(s[35] as int, 2, true));
            assert(on_face(s[3 * t] as int, 2, true) && on_face(s[3 * t + 1] as int, 2, true) && on_face(s[3 * t + 2] as int, 2, true));
        }
    }
}

/// The grid of coins that packets march through.
pub struct Voxels {
    dim: (u32, u32, u32),
    cells: CellArray,
}

impl Voxels {
    /// The number of cells along each axis.
    pub closed spec fn dims(&self) -> (u32, u32, u32) {
        self.dim
    }

    /// The code of each cell.
    pub closed spec fn codes(&self) -> Map<(usize, usize, usize), usize> {
        cell_array_contents(self.cells)
    }

    /// Whether the cell `(x, y, z)` lies in the grid.
    pub open spec fn in_grid(&self, x: int, y: int, z: int) -> bool {
        &&& 0 <= x < self.dims().0
        &&& 0 <= y < self.dims().1
        &&& 0 <= z < self.dims().2
    }

    /// The grid holds a code for exactly the cells that lie in it.
    pub open spec fn wf(&self) -> bool {
        forall|k: (usize, usize, usize)| #[trigger] self.codes().dom().contains(k)
            <==> self.in_grid(k.0 as int, k.1 as int, k.2 as int)
    }

    /// The coin of the cell that a position falls in, if that cell lies in the grid.
    pub open spec fn spec_coin(&self, p: PacketPosition) -> Option<QuantumCoin> {
        if self.in_grid(cell_of(p.x), cell_of(p.y), cell_of(p.z)) {
            Some(coin_of_code(self.codes()[(cell_of(p.x) as usize, cell_of(p.y) as usize, cell_of(p.z) as usize)]))
        } else {
            None
        }
    }

    /// Makes a grid of `dim.0 * dim.1 * dim.2` cells from their codes, listed
    /// with the x index varying slowest and the z index fastest.
    pub fn new(dim: (u32, u32, u32), codes: Vec<usize>) -> (v: Voxels)
        requires
            codes.len() == dim.0 * dim.1 * dim.2,
            nonzero_extent(dim.0 as int) * nonzero_extent(dim.1 as int) * nonzero_extent(dim.2 as int) <= isize::MAX,
        ensures
            v.wf(),
            v.dims() == dim,
            v.codes() == row_major_contents(dim.0 as usize, dim.1 as usize, dim.2 as usize, codes@),
    {
        let cells = cell_array_from_shape_vec(dim.0 as usize, dim.1 as usize, dim.2 as usize, codes).unwrap();
        let v = Voxels { dim, cells };
        assert forall|k: (usize, usize, usize)| #[trigger] v.codes().dom().contains(k)
            <==> v.in_grid(k.0 as int, k.1 as int, k.2 as int) by {}
        v
    }

    /// The number of cells along each axis.
    pub fn dim(&self) -> (r: (u32, u32, u32))
        ensures
            r == self.dims(),
    {
        self.dim
    }

    /// The coin of the cell that a position falls in, or `None` where that
    /// cell lies outside the grid.
    pub fn get_coin(&self, pos: PacketPosition) -> (r: Option<QuantumCoin>)
        requires
            self.wf(),
        ensures
            r == self.spec_coin(pos),
            self.in_grid(cell_of(pos.x), cell_of(pos.y), cell_of(pos.z)) ==> (r is Some
                && code_of_coin(r->0) == self.codes()[(cell_of(pos.x) as usize, cell_of(pos.y) as usize, cell_of(pos.z) as usize)]),
            !self.in_grid(cell_of(pos.x), cell_of(pos.y), cell_of(pos.z)) ==> r is None,
    {
        proof {
            lemma_coin_read_back(*self, pos);
        }
        let x = cell_index(pos.x);
        let y = cell_index(pos.y);
        let z = cell_index(pos.z);
        match cell_array_get(&self.cells, x, y, z) {
            Some(code) => Some(QuantumCoin::from_code(code)),
            None => None,
        }
    }
}

/// The coin read at a position is the one the grid stores for the position's
/// cell: its code is exactly the cell's code. Outside the grid nothing is read.
pub proof fn lemma_coin_read_back(v: Voxels, p: PacketPosition)
    ensures
        v.in_grid(cell_of(p.x), cell_of(p.y), cell_of(p.z)) ==> (v.spec_coin(p) is Some
            && code_of_coin(v.spec_coin(p)->0) == v.codes()[(cell_of(p.x) as usize, cell_of(p.y) as usize, cell_of(p.z) as usize)]),
        !v.in_grid(cell_of(p.x), cell_of(p.y), cell_of(p.z)) ==> v.spec_coin(p) is None,
{
}

/// In a grid made from a list of codes, the coin read at a position in cell
/// `(x, y, z)` has the code listed at `(x * dy + y) * dz + z`.
pub proof fn lemma_coin_of_listed_code(v: Voxels, dim: (u32, u32, u32), codes: Seq<usize>, p: PacketPosition)
    requires
        v.dims() == dim,
        codes.len() == dim.0 * dim.1 * dim.2,
        v.codes() == row_major_contents(dim.0 as usize, dim.1 as usize, dim.2 as usize, codes),
        v.in_grid(cell_of(p.x), cell_of(p.y), cell_of(p.z)),
    ensures
        v.spec_coin(p) is Some,
        code_of_coin(v.spec_coin(p)->0) == codes[(cell_of(p.x) * dim.1 + cell_of(p.y)) * dim.2 + cell_of(p.z)],
{
    lemma_coin_read_back(v, p);
}

/// Row-major layout: the cell `(x, y, z)` of a grid with `dy` and `dz` cells
/// along the last two axes sits at `(x * dy + y) * dz + z`, and that index
/// gives the cell back.
pub proof fn lemma_row_major_index(x: int, y: int, z: int, dy: int, dz: int)
    requires
        0 <= x,
        0 <= y < dy,
        0 <= z < dz,
    ensures
        ((x * dy + y) * dz + z) / dz == x * dy + y,
        ((x * dy + y) * dz + z) % dz == z,
        (((x * dy + y) * dz + z) / dz) / dy == x,
        (((x * dy + y) * dz + z) / dz) % dy == y,
{
    lemma_fundamental_div_mod_converse_div((x * dy + y) * dz + z, dz, x * dy + y, z);
    lemma_fundamental_div_mod_converse_mod((x * dy + y) * dz + z, dz, x * dy + y, z);
    lemma_fundamental_div_mod_converse_div(x * dy + y, dy, x, y);
    lemma_fundamental_div_mod_converse_mod(x * dy + y, dy, x, y);
}


/// The cell at position `i` of a grid's cells listed in storage order: the
/// x index varies slowest and the z index fastest.
pub open spec fn grid_coordinate(dim: (u32, u32, u32), i: int) -> (u32, u32, u32) {
    (((i / dim.2 as int) / dim.1 as int) as u32, ((i / dim.2 as int) % dim.1 as int) as u32, (i % dim.2 as int) as u32)
}

/// The cells of a grid, listed in storage order (each x, then each y, then
/// each z).
pub fn cell_coordinates(dim: (u32, u32, u32)) -> (r: Vec<(u32, u32, u32)>)
    requires
        dim.0 * dim.1 * dim.2 <= usize::MAX,
    ensures
        r.len() == dim.0 * dim.1 * dim.2,
        forall|i: int| 0 <= i < r.len() ==> #[trigger] r@[i] == grid_coordinate(dim, i),
{
    let ghost d0 = dim.0 as int;
    let ghost d1 = dim.1 as int;
    let ghost d2 = dim.2 as int;
    let mut r: Vec<(u32, u32, u32)> = Vec::new();
    let mut x: u32 = 0;
    assert(0 * d1 * d2 == 0) by (nonlinear_arith);
    while x < dim.0
        invariant
            d0 == dim.0 && d1 == dim.1 && d2 == dim.2,
            d0 * d1 * d2 <= usize::MAX,
            x <= d0,
            r.len() == x * d1 * d2,
            forall|i: int| 0 <= i < r.len() ==> #[trigger] r@[i] == grid_coordinate(dim, i),
        decreases d0 - x,
    {
        let mut y: u32 = 0;
        assert(x * d1 * d2 == (x * d1 + 0) * d2);
        while y < dim.1
            invariant
                d0 == dim.0 && d1 == dim.1 && d2 == dim.2,
                d0 * d1 * d2 <= usize::MAX,
                x < d0,
                y <= d1,
                r.len() == (x * d1 + y) * d2,
                forall|i: int| 0 <= i < r.len() ==> #[trigger] r@[i] == grid_coordinate(dim, i),
            decreases d1 - y,
        {
            let mut z: u32 = 0;
            while z < dim.2
                invariant
                    d0 == dim.0 && d1 == dim.1 && d2 == dim.2,
                    d0 * d1 * d2 <= usize::MAX,
                    x < d0,
                    y < d1,
                    z <= d2,
                    r.len() == (x * d1 + y) * d2 + z,
                    forall|i: int| 0 <= i < r.len() ==> #[trigger] r@[i] == grid_coordinate(dim, i),
                decreases d2 - z,
            {
                proof {
                    lemma_row_major_index(x as int, y as int, z as int, d1, d2);
                    lemma_row_major_bound(x as int, y as int, z as int, d0, d1, d2);
                }
                let ghost i = r.len() as int;
                r.push((x, y, z));
                assert(r@[i] == grid_coordinate(dim, i));
                z = z + 1;
            }
            assert((x * d1 + y) * d2 + d2 == (x * d1 + (y + 1)) * d2) by (nonlinear_arith);
            y = y + 1;
        }
        assert((x * d1 + d1) * d2 == (x + 1) * d1 * d2) by (nonlinear_arith);
        x = x + 1;
    }
    r
}

/// A cell inside the grid sits before the end of the grid's storage.
pub proof fn lemma_row_major_bound(x: int, y: int, z: int, d0: int, d1: int, d2: int)
    requires
        0 <= x < d0,
        0 <= y < d1,
        0 <= z < d2,
    ensures
        0 <= (x * d1 + y) * d2 + z < d0 * d1 * d2,
{
    assert(0 <= (x * d1 + y) * d2 + z < d0 * d1 * d2) by (nonlinear_arith)
        requires
            0 <= x < d0,
            0 <= y < d1,
            0 <= z < d2;
}

/// Cells listed in storage order and then laid out into a grid land where they
/// belong: if the code of each listed cell is computed from the cell, the
/// grid holds at `(x, y, z)` the code computed for `(x, y, z)`.
pub proof fn lemma_storage_order_round_trip(
    dim: (u32, u32, u32),
    coords: Seq<(u32, u32, u32)>,
    codes: Seq<usize>,
    code_of: spec_fn((u32, u32, u32)) -> usize,
    x: usize,
    y: usize,
    z: usize,
)
    requires
        coords.len() == dim.0 * dim.1 * dim.2,
        forall|i: int| 0 <= i < coords.len() ==> #[trigger] coords[i] == grid_coordinate(dim, i),
        codes.len() == coords.len(),
        forall|i: int| 0 <= i < codes.len() ==> #[trigger] codes[i] == code_of(coords[i]),
        x < dim.0,
        y < dim.1,
        z < dim.2,
    ensures
        row_major_contents(dim.0 as usize, dim.1 as usize, dim.2 as usize, codes).dom().contains((x, y, z)),
        row_major_contents(dim.0 as usize, dim.1 as usize, dim.2 as usize, codes)[(x, y, z)]
            == code_of((x as u32, y as u32, z as u32)),
{
    let i = (x * dim.1 + y) * dim.2 + z;
    lemma_row_major_index(x as int, y as int, z as int, dim.1 as int, dim.2 as int);
    lemma_row_major_bound(x as int, y as int, z as int, dim.0 as int, dim.1 as int, dim.2 as int);
    assert(coords[i] == grid_coordinate(dim, i));
    assert(codes[i] == code_of(coords[i]));
}

} // verus!
