//! What a voxel holds: air, or a surface that scatters incoming packets.

use vstd::prelude::*;
use crate::direction_map::{DirMap, facing_indices, lemma_facing_indices};
use crate::ray_packet::RayPacket;

verus! {

/// The content of a voxel. A surface is identified by its index in the
/// scene's table of surfaces; the same index names the row of the direction
/// map that tells which directions leave the surface on its outer side.
#[derive(Clone, Copy, Debug, PartialEq, Eq, Structural)]
pub enum QuantumCoin {
    Air,
    Surface { surface: usize },
}

/// The coin that a cell code stands for: code 0 is air, code `k + 1` is the surface `k`.
pub open spec fn coin_of_code(code: usize) -> QuantumCoin {
    if code == 0 {
        QuantumCoin::Air
    } else {
        QuantumCoin::Surface { surface: (code - 1) as usize }
    }
}

/// The cell code of a coin.
pub open spec fn code_of_coin(c: QuantumCoin) -> int {
    match c {
        QuantumCoin::Air => 0,
        QuantumCoin::Surface { surface } => surface + 1,
    }
}

impl QuantumCoin {
    /// The directions a packet travelling in `direction` goes on in after
    /// meeting this coin: air lets it pass, a surface scatters it into every
    /// direction that leaves the surface on its outer side.
    pub open spec fn spec_flip(self, direction: usize, d_map: DirMap) -> Seq<usize> {
        match self {
            QuantumCoin::Air => seq![direction],
            QuantumCoin::Surface { surface } => facing_indices(d_map.facing_table()[surface as int]),
        }
    }

    /// The coin that a cell code stands for.
    pub fn from_code(code: usize) -> (c: QuantumCoin)
        ensures
            c == coin_of_code(code),
    {
        if code == 0 {
            QuantumCoin::Air
        } else {
            QuantumCoin::Surface { surface: code - 1 }
        }
    }

    /// The cell code of this coin.
    pub fn to_code(&self) -> (code: usize)
        requires
            code_of_coin(*self) <= usize::MAX,
        ensures
            code == code_of_coin(*self),
            coin_of_code(code) == *self,
    {
        match self {
            QuantumCoin::Air => 0,
            QuantumCoin::Surface { surface } => *surface + 1,
        }
    }

    /// The directions a packet goes on in after meeting this coin.
    pub fn flip(&self, ray_packet: &RayPacket, d_map: &DirMap) -> (r: Vec<usize>)
        requires
            self matches QuantumCoin::Surface { surface } ==> surface < d_map.facing_table().len(),
        ensures
            r@ == self.spec_flip(ray_packet.direction, *d_map),
    {
        match self {
            QuantumCoin::Air => {
                let mut r: Vec<usize> = Vec::new();
                r.push(ray_packet.direction);
                r
            },
            QuantumCoin::Surface { surface } => d_map.scatter(*surface),
        }
    }
}

/// Air lets a packet pass in its own direction; a surface sends it into each
/// direction its row flags, each once, in increasing order, and into no other.
pub proof fn lemma_flip(c: QuantumCoin, direction: usize, d_map: DirMap)
    requires
        d_map.wf(),
        c matches QuantumCoin::Surface { surface } ==> surface < d_map.facing_table().len(),
    ensures
        c == QuantumCoin::Air ==> c.spec_flip(direction, d_map) == seq![direction],
        c matches QuantumCoin::Surface { surface } ==> {
            let r = c.spec_flip(direction, d_map);
            let row = d_map.facing_table()[surface as int];
            &&& forall|k: int| 0 <= k < r.len() ==> (#[trigger] r[k]) < d_map.num_directions() && row[r[k] as int]
            &&& forall|i: int| 0 <= i < d_map.num_directions() && row[i] ==> r.contains(i as usize)
            &&& forall|k: int, l: int| 0 <= k < l < r.len() ==> r[k] < r[l]
        },
{
    if let QuantumCoin::Surface { surface } = c {
        lemma_facing_indices(d_map.facing_table()[surface as int]);
    }
}

/// A cell code read back gives the coin it was made from.
pub proof fn lemma_code_round_trip(c: QuantumCoin)
    requires
        code_of_coin(c) <= usize::MAX,
    ensures
        coin_of_code(code_of_coin(c) as usize) == c,
{
}

} // verus!
