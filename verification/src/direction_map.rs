//! The direction map: the finite set of directions a ray packet can travel in.
//!
//! Each direction is held as the fixed-point step that moves a packet one unit
//! along it, and, for each surface normal of the scene, whether the direction
//! leaves that surface on its outer side.

use vstd::prelude::*;
use crate::fixed_point::{PacketPosition, add_position, moved};

verus! {

/// A direction map: one step per direction, and one row of flags per surface
/// normal telling which directions point away from that surface.
pub struct DirMap {
    steps: Vec<PacketPosition>,
    facing: Vec<Vec<bool>>,
    direction_num: usize,
}

/// The indices `i` of `row` at which `row[i]` holds, in increasing order.
pub open spec fn facing_indices(row: Seq<bool>) -> Seq<usize>
    decreases row.len(),
{
    if row.len() == 0 {
        Seq::empty()
    } else {
        let earlier = facing_indices(row.drop_last());
        if row.last() {
            earlier.push((row.len() - 1) as usize)
        } else {
            earlier
        }
    }
}

/// The flag rows of a table, each row by its view.
pub open spec fn rows_view(rows: Seq<Vec<bool>>) -> Seq<Seq<bool>> {
    rows.map_values(|r: Vec<bool>| r@)
}

impl DirMap {
    /// The step of each direction.
    pub closed spec fn step_table(&self) -> Seq<PacketPosition> {
        self.steps@
    }

    /// For each surface normal, the flag of each direction.
    pub closed spec fn facing_table(&self) -> Seq<Seq<bool>> {
        rows_view(self.facing@)
    }

    /// The number of directions.
    pub closed spec fn num_directions(&self) -> usize {
        self.direction_num
    }

    /// One step per direction, and one flag per direction in every row.
    pub open spec fn wf(&self) -> bool {
        &&& self.step_table().len() == self.num_directions()
        &&& forall|n: int| 0 <= n < self.facing_table().len()
            ==> (#[trigger] self.facing_table()[n]).len() == self.num_directions()
    }

    /// The number of directions.
    pub fn direction_num(&self) -> (r: usize)
        ensures
            r == self.num_directions(),
    {
        self.direction_num
    }

    /// Makes a direction map from the step of each direction and, for each
    /// surface normal, the flag of each direction.
    pub fn new(steps: Vec<PacketPosition>, facing: Vec<Vec<bool>>) -> (d: DirMap)
        requires
            forall|n: int| 0 <= n < facing.len() ==> (#[trigger] facing[n])@.len() == steps.len(),
        ensures
            d.wf(),
            d.num_directions() == steps.len(),
            d.step_table() == steps@,
            d.facing_table() == rows_view(facing@),
    {
        let direction_num = steps.len();
        DirMap { steps, facing, direction_num }
    }

    /// Moves a position one step along direction `dir`.
    pub fn step(&self, p: PacketPosition, dir: usize) -> (r: PacketPosition)
        requires
            dir < self.step_table().len(),
        ensures
            r == moved(p, self.step_table()[dir as int]),
    {
        add_position(p, self.steps[dir])
    }

    /// The directions that leave the surface with the given normal on its
    /// outer side, in increasing order.
    pub fn scatter(&self, normal: usize) -> (r: Vec<usize>)
        requires
            normal < self.facing_table().len(),
        ensures
            r@ == facing_indices(self.facing_table()[normal as int]),
    {
        let row = &self.facing[normal];
        let n = row.len();
        let mut r: Vec<usize> = Vec::new();
        let mut i: usize = 0;
        while i < n
            invariant
                n == row@.len(),
                i <= n,
                r@ == facing_indices(row@.take(i as int)),
            decreases n - i,
        {
            assert(row@.take(i as int + 1).drop_last() == row@.take(i as int));
            if row[i] {
                r.push(i);
            }
            i = i + 1;
        }
        assert(row@.take(n as int) == row@);
        r
    }
}

/// Every index that `facing_indices` gives is an index of the row at which the
/// flag holds, every index at which it holds is given, and the indices come in
/// strictly increasing order.
pub proof fn lemma_facing_indices(row: Seq<bool>)
    requires
        row.len() <= usize::MAX,
    ensures
        forall|k: int| 0 <= k < facing_indices(row).len()
            ==> (#[trigger] facing_indices(row)[k]) < row.len() && row[facing_indices(row)[k] as int],
        forall|i: int| 0 <= i < row.len() && row[i]
            ==> facing_indices(row).contains(i as usize),
        forall|k: int, l: int| 0 <= k < l < facing_indices(row).len()
            ==> facing_indices(row)[k] < facing_indices(row)[l],
        facing_indices(row).len() <= row.len(),
    decreases row.len(),
{
    if row.len() > 0 {
        let front = row.drop_last();
        lemma_facing_indices(front);
        let earlier = facing_indices(front);
        let all = facing_indices(row);
        assert forall|k: int| 0 <= k < earlier.len() implies all[k] == earlier[k] by {}
        assert forall|i: int| 0 <= i < row.len() && row[i] implies all.contains(i as usize) by {
            if i < row.len() - 1 {
                assert(front[i] == row[i]);
                let k = choose|k: int| 0 <= k < earlier.len() && earlier[k] == i as usize;
                assert(all[k] == i as usize);
            } else {
                assert(all[all.len() - 1] == i as usize);
            }
        }
        assert forall|k: int, l: int| 0 <= k < l < all.len() implies all[k] < all[l] by {
            if l == earlier.len() {
                assert(earlier[k] < front.len());
            }
        }
    }
}

} // verus!
