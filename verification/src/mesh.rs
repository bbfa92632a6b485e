//! Unrolling the faces of an indexed triangle mesh.

use vstd::prelude::*;

verus! {

/// The range of a mesh's flat position (or normal) list that holds the
/// coordinates of vertex `v`: three numbers per vertex.
pub open spec fn vertex_range(v: u32) -> (usize, usize) {
    ((3 * v) as usize, (3 * v + 3) as usize)
}

/// For each corner of each triangle of an indexed mesh, face after face, the
/// range of the flat coordinate list that holds the corner's vertex. The
/// faces take three indices each, so there must be a whole number of them;
/// the ranges are computed in `u32`, so they must fit it.
pub fn face_corner_ranges(indices: &Vec<u32>) -> (r: Vec<(usize, usize)>)
    requires
        indices.len() % 3 == 0,
        forall|i: int| 0 <= i < indices.len() ==> 3 * #[trigger] indices[i] + 3 <= u32::MAX,
    ensures
        r.len() == indices.len(),
        forall|i: int| 0 <= i < r.len() ==> #[trigger] r@[i] == vertex_range(indices[i]),
        forall|i: int| 0 <= i < r.len() ==> #[trigger] r@[i].0 == 3 * indices[i] && r@[i].1 == 3 * indices[i] + 3,
{
    let mut r: Vec<(usize, usize)> = Vec::new();
    let faces = indices.len() / 3;
    let mut f: usize = 0;
    while f < faces
        invariant
            faces * 3 == indices.len(),
            f <= faces,
            r.len() == 3 * f,
            forall|i: int| 0 <= i < indices.len() ==> 3 * #[trigger] indices[i] + 3 <= u32::MAX,
            forall|i: int| 0 <= i < r.len() ==> #[trigger] r@[i] == vertex_range(indices[i]),
        decreases faces - f,
    {
        let mut k: usize = 3 * f;
        while k < 3 * f + 3
            invariant
                faces * 3 == indices.len(),
                f < faces,
                3 * f <= k <= 3 * f + 3,
                r.len() == k,
                forall|i: int| 0 <= i < indices.len() ==> 3 * #[trigger] indices[i] + 3 <= u32::MAX,
                forall|i: int| 0 <= i < r.len() ==> #[trigger] r@[i] == vertex_range(indices[i]),
            decreases 3 * f + 3 - k,
        {
            let v = indices[k];
            r.push(((3 * v) as usize, (3 * v + 3) as usize));
            k = k + 1;
        }
        f = f + 1;
    }
    proof {
        assert forall|i: int| 0 <= i < r.len() implies #[trigger] r@[i].0 == 3 * indices[i] && r@[i].1 == 3 * indices[i] + 3 by {
            lemma_vertex_range(indices[i]);
        }
    }
    r
}

/// The coordinates of vertex `v` are the three numbers starting at `3 * v`.
pub proof fn lemma_vertex_range(v: u32)
    requires
        3 * v + 3 <= u32::MAX,
    ensures
        vertex_range(v).0 == 3 * v,
        vertex_range(v).1 == 3 * v + 3,
        vertex_range(v).1 - vertex_range(v).0 == 3,
{
}

} // verus!
