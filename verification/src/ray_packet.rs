//! Ray packets and their evaluation: a packet marches through the voxel
//! grid, takes a sample where it starts, and splits into one packet per
//! direction that the coin it reaches sends it on in, down to a given depth.
//!
//! A sample is recorded as the position it is taken at; what the sample is
//! worth (the colour of the voxel there) is read off the scene by the caller.

use vstd::prelude::*;
use crate::coins::QuantumCoin;
use crate::direction_map::{DirMap, facing_indices, lemma_facing_indices};
use crate::fixed_point::{PacketPosition, moved, cell_of, wrapped_sum};
use crate::voxels::Voxels;
use vstd::arithmetic::power::{pow, lemma_pow_positive};
use vstd::arithmetic::mul::lemma_mul_inequality;

verus! {

/// A packet of rays: where it is, and which direction of the map it travels in.
#[derive(Clone, Copy, Debug)]
pub struct RayPacket {
    pub position: PacketPosition,
    pub direction: usize,
}

/// The bits of a step coordinate read as a two's-complement number.
pub open spec fn signed_bits(b: u16) -> int {
    if b < 0x8000 { b as int } else { b as int - 0x10000 }
}

/// The absolute value of an integer.
pub open spec fn abs_int(i: int) -> int {
    if i < 0 { -i } else { i }
}

/// A step that, taken from inside a grid of the given dimensions, moves by an
/// exact signed amount for as long as it stays inside (it never wraps around
/// into the grid), and that moves at all.
pub open spec fn step_fits(dims: (u32, u32, u32), s: PacketPosition) -> bool {
    &&& 8 * dims.0 + abs_int(signed_bits(s.x.bits)) <= 0x8000
    &&& 8 * dims.1 + abs_int(signed_bits(s.y.bits)) <= 0x8000
    &&& 8 * dims.2 + abs_int(signed_bits(s.z.bits)) <= 0x8000
    &&& (s.x.bits != 0 || s.y.bits != 0 || s.z.bits != 0)
}

/// How far a coordinate still has to go in the direction of its step.
pub open spec fn axis_progress(c: u16, s: u16) -> nat {
    if s == 0 {
        0
    } else if s < 0x8000 {
        (0x10000 - c) as nat
    } else {
        c as nat
    }
}

/// How far a position still has to go in the direction of a step.
pub open spec fn progress(p: PacketPosition, s: PacketPosition) -> nat {
    axis_progress(p.x.bits, s.x.bits) + axis_progress(p.y.bits, s.y.bits) + axis_progress(p.z.bits, s.z.bits)
}

/// One coordinate of a step that fits the grid, taken from a cell in the grid
/// to a cell in the grid, does not get farther from the end of its way, and
/// gets closer where it moves.
proof fn lemma_axis_progress(c: u16, s: u16, d: u32)
    requires
        8 * d + abs_int(signed_bits(s)) <= 0x8000,
        c / 8 < d,
        wrapped_sum(c, s) / 8 < d,
    ensures
        axis_progress(wrapped_sum(c, s), s) <= axis_progress(c, s),
        s != 0 ==> axis_progress(wrapped_sum(c, s), s) < axis_progress(c, s),
{
    let t = wrapped_sum(c, s);
    assert(c < 8 * d);
    assert(t < 8 * d);
    if s == 0 {
        assert(t == c);
    } else if s < 0x8000 {
        assert(c + s < 0x10000);
        assert(t == c + s);
    } else {
        assert(0x10000 - s <= 0x8000 - 8 * d);
        if c + s >= 0x10000 {
            assert(t == c + s - 0x10000);
        } else {
            assert(t == c + s);
            assert(false);
        }
    }
}

/// A step that fits the grid, taken from a cell in the grid to a cell in the
/// grid, gets strictly closer to the end of its way.
pub proof fn lemma_step_progress(dims: (u32, u32, u32), p: PacketPosition, s: PacketPosition)
    requires
        step_fits(dims, s),
        0 <= cell_of(p.x) < dims.0,
        0 <= cell_of(p.y) < dims.1,
        0 <= cell_of(p.z) < dims.2,
        0 <= cell_of(moved(p, s).x) < dims.0,
        0 <= cell_of(moved(p, s).y) < dims.1,
        0 <= cell_of(moved(p, s).z) < dims.2,
    ensures
        progress(moved(p, s), s) < progress(p, s),
{
    lemma_axis_progress(p.x.bits, s.x.bits, dims.0);
    lemma_axis_progress(p.y.bits, s.y.bits, dims.1);
    lemma_axis_progress(p.z.bits, s.z.bits, dims.2);
}

/// A surface met in the grid has a row in the direction map.
proof fn lemma_surface_mapped(voxels: Voxels, d_map: DirMap, p: PacketPosition)
    requires
        voxels.wf(),
        surfaces_mapped(voxels, d_map),
        voxels.spec_coin(p) is Some,
    ensures
        voxels.spec_coin(p) matches Some(QuantumCoin::Surface { surface }) ==> surface < d_map.facing_table().len(),
{
    let k = (cell_of(p.x) as usize, cell_of(p.y) as usize, cell_of(p.z) as usize);
    assert(voxels.codes().dom().contains(k));
}

/// Where a packet at `p` travelling in `dir` stands once it has skipped
/// through air: with `cheat`, it keeps stepping while both the cell it is in
/// and the next one are air.
pub open spec fn advance(voxels: Voxels, d_map: DirMap, cheat: bool, p: PacketPosition, dir: usize) -> PacketPosition
    decreases progress(p, d_map.step_table()[dir as int]),
{
    let s = d_map.step_table()[dir as int];
    let t = moved(p, s);
    if cheat && dir < d_map.step_table().len() && voxels.spec_coin(p) == Some(QuantumCoin::Air)
        && voxels.spec_coin(t) == Some(QuantumCoin::Air) && step_fits(voxels.dims(), s) {
        proof {
            lemma_step_progress(voxels.dims(), p, s);
        }
        advance(voxels, d_map, cheat, t, dir)
    } else {
        p
    }
}

/// Skipping through air moves a packet only from air to air, and stops in
/// front of the first cell that is not air (or that lies outside the grid).
pub proof fn lemma_advance_skips_air(voxels: Voxels, d_map: DirMap, cheat: bool, p: PacketPosition, dir: usize)
    requires
        dir < d_map.step_table().len(),
        step_fits(voxels.dims(), d_map.step_table()[dir as int]),
    ensures
        advance(voxels, d_map, cheat, p, dir) == p || (cheat
            && voxels.spec_coin(p) == Some(QuantumCoin::Air)
            && voxels.spec_coin(advance(voxels, d_map, cheat, p, dir)) == Some(QuantumCoin::Air)),
        cheat && voxels.spec_coin(advance(voxels, d_map, cheat, p, dir)) == Some(QuantumCoin::Air)
            ==> voxels.spec_coin(moved(advance(voxels, d_map, cheat, p, dir), d_map.step_table()[dir as int]))
                != Some(QuantumCoin::Air),
    decreases progress(p, d_map.step_table()[dir as int]),
{
    let s = d_map.step_table()[dir as int];
    let t = moved(p, s);
    if cheat && voxels.spec_coin(p) == Some(QuantumCoin::Air) && voxels.spec_coin(t) == Some(QuantumCoin::Air) {
        lemma_step_progress(voxels.dims(), p, s);
        lemma_advance_skips_air(voxels, d_map, cheat, t, dir);
    }
}

/// The directions a packet that reaches `p` travelling in `dir` goes on in.
pub open spec fn next_directions(voxels: Voxels, d_map: DirMap, p: PacketPosition, dir: usize) -> Seq<usize> {
    match voxels.spec_coin(p) {
        Some(c) => c.spec_flip(dir, d_map),
        None => Seq::empty(),
    }
}

/// The sample paths of a packet that starts at `pos` travelling in `dir`,
/// with `current` the samples taken before it: the packet takes its sample at
/// `pos`, skips through air, and, with depth left and somewhere to go, each
/// of its next directions gives the paths of a packet one step on, in order.
pub open spec fn eval_paths(
    voxels: Voxels,
    d_map: DirMap,
    cheat: bool,
    pos: PacketPosition,
    dir: usize,
    depth: nat,
    current: Seq<PacketPosition>,
) -> Seq<Seq<PacketPosition>>
    decreases depth, 0nat,
{
    let p = advance(voxels, d_map, cheat, pos, dir);
    let sampled = current.push(pos);
    let dirs = next_directions(voxels, d_map, p, dir);
    if depth == 0 || dirs.len() == 0 {
        seq![sampled]
    } else {
        eval_branches(voxels, d_map, cheat, p, dirs, (depth - 1) as nat, sampled)
    }
}

/// The paths of the packets that leave `p` in each of `dirs`, one after the other.
pub open spec fn eval_branches(
    voxels: Voxels,
    d_map: DirMap,
    cheat: bool,
    p: PacketPosition,
    dirs: Seq<usize>,
    depth: nat,
    current: Seq<PacketPosition>,
) -> Seq<Seq<PacketPosition>>
    decreases depth, dirs.len(),
{
    if dirs.len() == 0 {
        Seq::empty()
    } else {
        let d = dirs.last();
        eval_branches(voxels, d_map, cheat, p, dirs.drop_last(), depth, current)
            + eval_paths(voxels, d_map, cheat, moved(p, d_map.step_table()[d as int]), d, depth, current)
    }
}

/// The paths of a vector of sample vectors.
pub open spec fn paths_view(v: Seq<Vec<PacketPosition>>) -> Seq<Seq<PacketPosition>> {
    v.map_values(|p: Vec<PacketPosition>| p@)
}

/// Every surface that the grid names has a row in the direction map.
pub open spec fn surfaces_mapped(voxels: Voxels, d_map: DirMap) -> bool {
    forall|k: (usize, usize, usize)| #[trigger] voxels.codes().dom().contains(k) && voxels.codes()[k] > 0
        ==> voxels.codes()[k] - 1 < d_map.facing_table().len()
}

/// Every step of the map fits the grid.
pub open spec fn steps_fit(voxels: Voxels, d_map: DirMap) -> bool {
    forall|d: int| 0 <= d < d_map.step_table().len() ==> step_fits(voxels.dims(), #[trigger] d_map.step_table()[d])
}

/// What evaluation asks of its inputs: well-formed grid and map, a row for
/// every surface, steps that fit the grid where the packet skips through air,
/// and a valid direction wherever the packet's direction is used.
pub open spec fn evaluable(
    voxels: Voxels,
    d_map: DirMap,
    cheat: bool,
    pos: PacketPosition,
    dir: usize,
    depth: nat,
) -> bool {
    &&& voxels.wf()
    &&& d_map.wf()
    &&& surfaces_mapped(voxels, d_map)
    &&& cheat ==> steps_fit(voxels, d_map)
    &&& (dir < d_map.num_directions() || voxels.spec_coin(pos) != Some(QuantumCoin::Air) || (!cheat && depth == 0))
}

/// Whether `path` is `current` followed by at least one and at most
/// `depth + 1` further samples.
pub open spec fn path_extends(path: Seq<PacketPosition>, current: Seq<PacketPosition>, depth: nat) -> bool {
    &&& current.len() < path.len() <= current.len() + depth + 1
    &&& path.subrange(0, current.len() as int) == current
}

/// Evaluation gives at least one path; every path continues the samples
/// taken before, first with the sample at the packet's own position, and
/// holds at most one further sample per level of depth.
pub proof fn lemma_eval_paths_shape(
    voxels: Voxels,
    d_map: DirMap,
    cheat: bool,
    pos: PacketPosition,
    dir: usize,
    depth: nat,
    current: Seq<PacketPosition>,
)
    ensures
        eval_paths(voxels, d_map, cheat, pos, dir, depth, current).len() >= 1,
        forall|i: int| 0 <= i < eval_paths(voxels, d_map, cheat, pos, dir, depth, current).len() ==> {
            let path = #[trigger] eval_paths(voxels, d_map, cheat, pos, dir, depth, current)[i];
            path_extends(path, current, depth) && path[current.len() as int] == pos
        },
    decreases depth, 0nat,
{
    let p = advance(voxels, d_map, cheat, pos, dir);
    let sampled = current.push(pos);
    let dirs = next_directions(voxels, d_map, p, dir);
    let paths = eval_paths(voxels, d_map, cheat, pos, dir, depth, current);
    if depth == 0 || dirs.len() == 0 {
        assert(paths[0].subrange(0, current.len() as int) =~= current);
    } else {
        lemma_eval_branches_shape(voxels, d_map, cheat, p, dirs, (depth - 1) as nat, sampled);
        assert forall|i: int| 0 <= i < paths.len() implies {
            let path = #[trigger] paths[i];
            path_extends(path, current, depth) && path[current.len() as int] == pos
        } by {
            let path = paths[i];
            assert(path_extends(path, sampled, (depth - 1) as nat));
            assert(path[current.len() as int] == path.subrange(0, sampled.len() as int)[current.len() as int]);
            assert(path.subrange(0, current.len() as int) =~= path.subrange(0, sampled.len() as int).subrange(0, current.len() as int));
            assert(sampled.subrange(0, current.len() as int) =~= current);
        }
    }
}

/// The packets that leave a cell in each of `dirs` give at least one path per
/// direction, and each path continues the samples taken before.
pub proof fn lemma_eval_branches_shape(
    voxels: Voxels,
    d_map: DirMap,
    cheat: bool,
    p: PacketPosition,
    dirs: Seq<usize>,
    depth: nat,
    current: Seq<PacketPosition>,
)
    ensures
        eval_branches(voxels, d_map, cheat, p, dirs, depth, current).len() >= dirs.len(),
        forall|i: int| 0 <= i < eval_branches(voxels, d_map, cheat, p, dirs, depth, current).len()
            ==> path_extends(#[trigger] eval_branches(voxels, d_map, cheat, p, dirs, depth, current)[i], current, depth),
    decreases depth, dirs.len(),
{
    if dirs.len() > 0 {
        let d = dirs.last();
        let front = eval_branches(voxels, d_map, cheat, p, dirs.drop_last(), depth, current);
        let back = eval_paths(voxels, d_map, cheat, moved(p, d_map.step_table()[d as int]), d, depth, current);
        lemma_eval_branches_shape(voxels, d_map, cheat, p, dirs.drop_last(), depth, current);
        lemma_eval_paths_shape(voxels, d_map, cheat, moved(p, d_map.step_table()[d as int]), d, depth, current);
        let all = eval_branches(voxels, d_map, cheat, p, dirs, depth, current);
        assert forall|i: int| 0 <= i < all.len() implies path_extends(#[trigger] all[i], current, depth) by {
            if i < front.len() {
                assert(all[i] == front[i]);
            } else {
                assert(all[i] == back[i - front.len()]);
            }
        }
    }
}

/// With no depth left, a packet gives exactly one path: the samples taken
/// before, followed by its own.
pub proof fn lemma_eval_no_depth(
    voxels: Voxels,
    d_map: DirMap,
    cheat: bool,
    pos: PacketPosition,
    dir: usize,
    current: Seq<PacketPosition>,
)
    ensures
        eval_paths(voxels, d_map, cheat, pos, dir, 0, current) == seq![current.push(pos)],
{
}

/// A step is determined by where it leads: two steps that move a position
/// to the same place are the same step.
proof fn lemma_moved_injective(p: PacketPosition, a: PacketPosition, b: PacketPosition)
    requires
        moved(p, a) == moved(p, b),
    ensures
        a == b,
{
    assert(a.x.bits == b.x.bits);
    assert(a.y.bits == b.y.bits);
    assert(a.z.bits == b.z.bits);
}

/// Whether sample `k + 2` of `path` goes on straight from sample `k + 1`:
/// wherever sample `k + 1` is sample `k` moved one step of a direction `d`
/// and lies in air, sample `k + 2` (if there is one) is sample `k + 1` moved
/// one more step of `d`.
pub open spec fn continues_straight(voxels: Voxels, d_map: DirMap, path: Seq<PacketPosition>, k: int) -> bool {
    forall|d: int|
        0 <= d < d_map.step_table().len() && k + 2 < path.len()
            && path[k + 1] == moved(path[k], #[trigger] d_map.step_table()[d])
            && voxels.spec_coin(path[k + 1]) == Some(QuantumCoin::Air)
            ==> path[k + 2] == moved(path[k + 1], d_map.step_table()[d])
}

/// Whether every packet along `path`, from sample `start` on, keeps the
/// direction it was sent in while it travels through air.
pub open spec fn keeps_direction(voxels: Voxels, d_map: DirMap, path: Seq<PacketPosition>, start: int) -> bool {
    forall|k: int| start <= k ==> #[trigger] continues_straight(voxels, d_map, path, k)
}

/// Without skipping, a packet keeps the direction it was split into: along
/// every path, from the packet's own sample on, a packet that steps into air
/// steps on in the same direction; and a packet that starts in air takes its
/// next sample one step of its own direction further.
pub proof fn lemma_eval_keeps_direction(
    voxels: Voxels,
    d_map: DirMap,
    pos: PacketPosition,
    dir: usize,
    depth: nat,
    current: Seq<PacketPosition>,
)
    ensures
        forall|i: int| 0 <= i < eval_paths(voxels, d_map, false, pos, dir, depth, current).len() ==> {
            let path = #[trigger] eval_paths(voxels, d_map, false, pos, dir, depth, current)[i];
            &&& keeps_direction(voxels, d_map, path, current.len() as int)
            &&& (voxels.spec_coin(pos) == Some(QuantumCoin::Air) && path.len() >= current.len() + 2
                ==> path[current.len() + 1int] == moved(pos, d_map.step_table()[dir as int]))
        },
    decreases depth, 0nat,
{
    let p = advance(voxels, d_map, false, pos, dir);
    assert(p == pos);
    let sampled = current.push(pos);
    let dirs = next_directions(voxels, d_map, p, dir);
    let paths = eval_paths(voxels, d_map, false, pos, dir, depth, current);
    if depth == 0 || dirs.len() == 0 {
        assert forall|i: int| 0 <= i < paths.len() implies {
            let path = #[trigger] paths[i];
            &&& keeps_direction(voxels, d_map, path, current.len() as int)
            &&& (voxels.spec_coin(pos) == Some(QuantumCoin::Air) && path.len() >= current.len() + 2
                ==> path[current.len() + 1int] == moved(pos, d_map.step_table()[dir as int]))
        } by {
            let path = paths[i];
            assert(path == sampled);
            assert forall|k: int| current.len() <= k implies #[trigger] continues_straight(voxels, d_map, path, k) by {}
        }
    } else {
        let d1 = (depth - 1) as nat;
        lemma_eval_branches_keep_direction(voxels, d_map, p, dirs, d1, sampled);
        if voxels.spec_coin(pos) == Some(QuantumCoin::Air) {
            assert(dirs == seq![dir]);
            let child = moved(pos, d_map.step_table()[dir as int]);
            assert(dirs.drop_last() =~= Seq::<usize>::empty());
            assert(dirs.last() == dir);
            let eb = eval_branches(voxels, d_map, false, p, dirs, d1, sampled);
            assert(paths == eb);
            assert(eval_branches(voxels, d_map, false, p, dirs.drop_last(), d1, sampled).len() == 0);
            assert(eb =~= eval_paths(voxels, d_map, false, child, dir, d1, sampled));
            lemma_eval_paths_shape(voxels, d_map, false, child, dir, d1, sampled);
        }
        assert forall|i: int| 0 <= i < paths.len() implies {
            let path = #[trigger] paths[i];
            &&& keeps_direction(voxels, d_map, path, current.len() as int)
            &&& (voxels.spec_coin(pos) == Some(QuantumCoin::Air) && path.len() >= current.len() + 2
                ==> path[current.len() + 1int] == moved(pos, d_map.step_table()[dir as int]))
        } by {
            let path = paths[i];
            assert(path == eval_branches(voxels, d_map, false, p, dirs, d1, sampled)[i]);
            assert(keeps_direction(voxels, d_map, path, sampled.len() - 1));
        }
    }
}

/// The packets that leave `p` (the last sample taken) in each of `dirs`, without
/// skipping, each keep the direction they were sent in, from `p` on.
pub proof fn lemma_eval_branches_keep_direction(
    voxels: Voxels,
    d_map: DirMap,
    p: PacketPosition,
    dirs: Seq<usize>,
    depth: nat,
    current: Seq<PacketPosition>,
)
    requires
        current.len() >= 1,
        current.last() == p,
    ensures
        forall|i: int| 0 <= i < eval_branches(voxels, d_map, false, p, dirs, depth, current).len()
            ==> keeps_direction(voxels, d_map, #[trigger] eval_branches(voxels, d_map, false, p, dirs, depth, current)[i], current.len() - 1),
    decreases depth, dirs.len(),
{
    if dirs.len() > 0 {
        let d = dirs.last();
        let child = moved(p, d_map.step_table()[d as int]);
        let front = eval_branches(voxels, d_map, false, p, dirs.drop_last(), depth, current);
        let back = eval_paths(voxels, d_map, false, child, d, depth, current);
        lemma_eval_branches_keep_direction(voxels, d_map, p, dirs.drop_last(), depth, current);
        lemma_eval_keeps_direction(voxels, d_map, child, d, depth, current);
        lemma_eval_paths_shape(voxels, d_map, false, child, d, depth, current);
        let all = eval_branches(voxels, d_map, false, p, dirs, depth, current);
        let n = current.len() as int;
        assert forall|i: int| 0 <= i < all.len() implies keeps_direction(voxels, d_map, #[trigger] all[i], n - 1) by {
            if i < front.len() {
                assert(all[i] == front[i]);
            } else {
                let path = back[i - front.len()];
                assert(all[i] == path);
                assert(path.subrange(0, n) == current);
                assert(path[n - 1] == path.subrange(0, n)[n - 1]);
                assert(path[n] == child);
                assert forall|k: int| n - 1 <= k implies #[trigger] continues_straight(voxels, d_map, path, k) by {
                    if k == n - 1 {
                        assert forall|e: int|
                            0 <= e < d_map.step_table().len() && k + 2 < path.len()
                                && path[k + 1] == moved(path[k], #[trigger] d_map.step_table()[e])
                                && voxels.spec_coin(path[k + 1]) == Some(QuantumCoin::Air)
                                implies path[k + 2] == moved(path[k + 1], d_map.step_table()[e]) by {
                            lemma_moved_injective(p, d_map.step_table()[e], d_map.step_table()[d as int]);
                        }
                    } else {
                        assert(continues_straight(voxels, d_map, path, k));
                    }
                }
            }
        }
    }
}

/// Whether `path` holds `q` at index `n`.
pub open spec fn sample_at(path: Seq<PacketPosition>, n: int, q: PacketPosition) -> bool {
    0 <= n < path.len() && path[n] == q
}

/// Whether some path of `paths` holds `q` at index `n`.
pub open spec fn some_path_through(paths: Seq<Seq<PacketPosition>>, n: int, q: PacketPosition) -> bool {
    exists|i: int| 0 <= i < paths.len() && #[trigger] sample_at(paths[i], n, q)
}

/// Whether `path` holds at index `n` one step of some direction of `dirs` from `p`.
pub open spec fn stepped_into_one_of(d_map: DirMap, path: Seq<PacketPosition>, n: int, p: PacketPosition, dirs: Seq<usize>) -> bool {
    exists|j: int| 0 <= j < dirs.len() && #[trigger] sample_at(path, n, moved(p, d_map.step_table()[dirs[j] as int]))
}

/// A packet with depth left splits into exactly its next directions: for
/// each of them some path takes its next sample one step of that direction
/// from where the packet stands (after skipping), and every path that goes
/// on does so one step of one of them.
pub proof fn lemma_eval_splits(
    voxels: Voxels,
    d_map: DirMap,
    cheat: bool,
    pos: PacketPosition,
    dir: usize,
    depth: nat,
    current: Seq<PacketPosition>,
)
    requires
        depth > 0,
    ensures
        ({
            let p = advance(voxels, d_map, cheat, pos, dir);
            let dirs = next_directions(voxels, d_map, p, dir);
            let paths = eval_paths(voxels, d_map, cheat, pos, dir, depth, current);
            &&& forall|j: int| 0 <= j < dirs.len()
                ==> some_path_through(paths, current.len() + 1int, moved(p, d_map.step_table()[#[trigger] dirs[j] as int]))
            &&& forall|i: int| 0 <= i < paths.len() && paths[i].len() > current.len() + 1
                ==> stepped_into_one_of(d_map, #[trigger] paths[i], current.len() + 1int, p, dirs)
        }),
{
    let p = advance(voxels, d_map, cheat, pos, dir);
    let dirs = next_directions(voxels, d_map, p, dir);
    let sampled = current.push(pos);
    let paths = eval_paths(voxels, d_map, cheat, pos, dir, depth, current);
    if dirs.len() > 0 {
        lemma_eval_branches_cover(voxels, d_map, cheat, p, dirs, (depth - 1) as nat, sampled);
        lemma_eval_branches_only(voxels, d_map, cheat, p, dirs, (depth - 1) as nat, sampled);
        assert(paths == eval_branches(voxels, d_map, cheat, p, dirs, (depth - 1) as nat, sampled));
        assert(sampled.len() == current.len() + 1);
    } else {
        assert(paths == seq![sampled]);
    }
}

/// The packets that leave `p` in each of `dirs` start, for each direction,
/// a path one step of it from `p`.
pub proof fn lemma_eval_branches_cover(
    voxels: Voxels,
    d_map: DirMap,
    cheat: bool,
    p: PacketPosition,
    dirs: Seq<usize>,
    depth: nat,
    current: Seq<PacketPosition>,
)
    ensures
        forall|j: int| 0 <= j < dirs.len() ==> some_path_through(
            eval_branches(voxels, d_map, cheat, p, dirs, depth, current),
            current.len() as int,
            moved(p, d_map.step_table()[#[trigger] dirs[j] as int]),
        ),
    decreases dirs.len(),
{
    if dirs.len() > 0 {
        let n = current.len() as int;
        let d = dirs.last();
        let child = moved(p, d_map.step_table()[d as int]);
        let front_dirs = dirs.drop_last();
        let front = eval_branches(voxels, d_map, cheat, p, front_dirs, depth, current);
        let back = eval_paths(voxels, d_map, cheat, child, d, depth, current);
        let all = eval_branches(voxels, d_map, cheat, p, dirs, depth, current);
        lemma_eval_branches_cover(voxels, d_map, cheat, p, front_dirs, depth, current);
        lemma_eval_paths_shape(voxels, d_map, cheat, child, d, depth, current);
        assert(all == front + back);
        assert forall|j: int| 0 <= j < dirs.len() implies some_path_through(all, n,
            moved(p, d_map.step_table()[#[trigger] dirs[j] as int])) by {
            let q = moved(p, d_map.step_table()[dirs[j] as int]);
            if j < dirs.len() - 1 {
                assert(front_dirs[j] == dirs[j]);
                assert(some_path_through(front, n, q));
                let i = choose|i: int| 0 <= i < front.len() && #[trigger] sample_at(front[i], n, q);
                assert(all[i] == front[i]);
                assert(sample_at(all[i], n, q));
            } else {
                let i = front.len() as int;
                assert(all[i] == back[0]);
                assert(sample_at(all[i], n, q));
            }
        }
    }
}

/// Every path that the packets leaving `p` in each of `dirs` give starts one
/// step of one of `dirs` from `p`.
pub proof fn lemma_eval_branches_only(
    voxels: Voxels,
    d_map: DirMap,
    cheat: bool,
    p: PacketPosition,
    dirs: Seq<usize>,
    depth: nat,
    current: Seq<PacketPosition>,
)
    ensures
        forall|i: int| 0 <= i < eval_branches(voxels, d_map, cheat, p, dirs, depth, current).len()
            ==> stepped_into_one_of(d_map, #[trigger] eval_branches(voxels, d_map, cheat, p, dirs, depth, current)[i],
                current.len() as int, p, dirs),
    decreases dirs.len(),
{
    if dirs.len() > 0 {
        let n = current.len() as int;
        let last = dirs.len() - 1;
        let d = dirs.last();
        let child = moved(p, d_map.step_table()[d as int]);
        let front_dirs = dirs.drop_last();
        let front = eval_branches(voxels, d_map, cheat, p, front_dirs, depth, current);
        let back = eval_paths(voxels, d_map, cheat, child, d, depth, current);
        let all = eval_branches(voxels, d_map, cheat, p, dirs, depth, current);
        lemma_eval_branches_only(voxels, d_map, cheat, p, front_dirs, depth, current);
        lemma_eval_paths_shape(voxels, d_map, cheat, child, d, depth, current);
        assert(all == front + back);
        assert forall|i: int| 0 <= i < all.len() implies stepped_into_one_of(d_map, #[trigger] all[i], n, p, dirs) by {
            if i < front.len() {
                assert(all[i] == front[i]);
                assert(stepped_into_one_of(d_map, front[i], n, p, front_dirs));
                let j = choose|j: int| 0 <= j < front_dirs.len()
                    && #[trigger] sample_at(front[i], n, moved(p, d_map.step_table()[front_dirs[j] as int]));
                assert(front_dirs[j] == dirs[j]);
                assert(sample_at(all[i], n, moved(p, d_map.step_table()[dirs[j] as int])));
            } else {
                assert(all[i] == back[i - front.len()]);
                assert(sample_at(all[i], n, moved(p, d_map.step_table()[dirs[last] as int])));
            }
        }
    }
}

/// The number of directions of a map, counted as at least one.
pub open spec fn branching(d_map: DirMap) -> int {
    if d_map.num_directions() == 0 { 1 } else { d_map.num_directions() as int }
}

/// A packet that meets something in the grid goes on in at most as many
/// directions as the map has.
proof fn lemma_next_directions_count(voxels: Voxels, d_map: DirMap, p: PacketPosition, dir: usize)
    requires
        voxels.wf(),
        d_map.wf(),
        surfaces_mapped(voxels, d_map),
    ensures
        next_directions(voxels, d_map, p, dir).len() <= branching(d_map),
{
    if voxels.spec_coin(p) is Some {
        lemma_surface_mapped(voxels, d_map, p);
        if let Some(QuantumCoin::Surface { surface }) = voxels.spec_coin(p) {
            lemma_facing_indices(d_map.facing_table()[surface as int]);
        }
    }
}

/// Evaluation to a given depth gives at most `n^depth` paths, where `n` is the
/// number of directions of the map (at least one).
pub proof fn lemma_eval_paths_count(
    voxels: Voxels,
    d_map: DirMap,
    cheat: bool,
    pos: PacketPosition,
    dir: usize,
    depth: nat,
    current: Seq<PacketPosition>,
)
    requires
        voxels.wf(),
        d_map.wf(),
        surfaces_mapped(voxels, d_map),
    ensures
        eval_paths(voxels, d_map, cheat, pos, dir, depth, current).len() <= pow(branching(d_map), depth),
    decreases depth, 0nat,
{
    let n = branching(d_map);
    lemma_pow_positive(n, depth);
    let p = advance(voxels, d_map, cheat, pos, dir);
    let dirs = next_directions(voxels, d_map, p, dir);
    if depth > 0 && dirs.len() > 0 {
        let d1 = (depth - 1) as nat;
        lemma_eval_branches_count(voxels, d_map, cheat, p, dirs, d1, current.push(pos));
        lemma_next_directions_count(voxels, d_map, p, dir);
        lemma_pow_positive(n, d1);
        lemma_mul_inequality(dirs.len() as int, n, pow(n, d1));
        assert(pow(n, depth) == n * pow(n, d1)) by {
            reveal(pow);
        }
    }
}

/// The packets that leave a cell in each of `dirs` give at most
/// `dirs.len() * n^depth` paths.
pub proof fn lemma_eval_branches_count(
    voxels: Voxels,
    d_map: DirMap,
    cheat: bool,
    p: PacketPosition,
    dirs: Seq<usize>,
    depth: nat,
    current: Seq<PacketPosition>,
)
    requires
        voxels.wf(),
        d_map.wf(),
        surfaces_mapped(voxels, d_map),
    ensures
        eval_branches(voxels, d_map, cheat, p, dirs, depth, current).len() <= dirs.len() * pow(branching(d_map), depth),
    decreases depth, dirs.len(),
{
    if dirs.len() > 0 {
        let d = dirs.last();
        lemma_eval_branches_count(voxels, d_map, cheat, p, dirs.drop_last(), depth, current);
        lemma_eval_paths_count(voxels, d_map, cheat, moved(p, d_map.step_table()[d as int]), d, depth, current);
        let m = pow(branching(d_map), depth);
        assert((dirs.len() - 1) * m + m == dirs.len() * m) by (nonlinear_arith);
    }
}

impl RayPacket {
    /// A packet at a position already in fixed-point form.
    pub fn new_converted(index: PacketPosition, direction: usize) -> (r: RayPacket)
        ensures
            r.position == index,
            r.direction == direction,
    {
        RayPacket { position: index, direction }
    }

    /// The sample paths of this packet, each extending `current_sample`.
    pub fn evaluate(
        &self,
        voxels: &Voxels,
        d_map: &DirMap,
        cheat: bool,
        depth: usize,
        current_sample: Vec<PacketPosition>,
    ) -> (r: Vec<Vec<PacketPosition>>)
        requires
            evaluable(*voxels, *d_map, cheat, self.position, self.direction, depth as nat),
        ensures
            paths_view(r@) == eval_paths(*voxels, *d_map, cheat, self.position, self.direction, depth as nat, current_sample@),
        decreases depth,
    {
        let ghost vox = *voxels;
        let ghost dm = *d_map;
        let dir = self.direction;
        let mut pos = self.position;
        loop
            invariant_except_break
                evaluable(vox, dm, cheat, self.position, dir, depth as nat),
                vox == *voxels,
                dm == *d_map,
                advance(vox, dm, cheat, pos, dir) == advance(vox, dm, cheat, self.position, dir),
            ensures
                pos == advance(vox, dm, cheat, self.position, dir),
            decreases progress(pos, dm.step_table()[dir as int]),
        {
            if !(cheat && matches!(voxels.get_coin(pos), Some(QuantumCoin::Air))) {
                break;
            }
            let temp_pos = d_map.step(pos, dir);
            if !matches!(voxels.get_coin(temp_pos), Some(QuantumCoin::Air)) {
                break;
            }
            proof {
                lemma_step_progress(vox.dims(), pos, dm.step_table()[dir as int]);
            }
            pos = d_map.step(pos, dir);
        }
        let mut sampled = current_sample;
        sampled.push(self.position);
        if depth == 0 {
            let mut r: Vec<Vec<PacketPosition>> = Vec::new();
            r.push(sampled);
            assert(paths_view(r@) =~= seq![sampled@]);
            return r;
        }
        let packet = RayPacket::new_converted(pos, dir);
        proof {
            if vox.spec_coin(pos) is Some {
                lemma_surface_mapped(vox, dm, pos);
            }
        }
        let directions = match voxels.get_coin(pos) {
            Some(c) => c.flip(&packet, d_map),
            None => Vec::new(),
        };
        if directions.len() == 0 {
            let mut r: Vec<Vec<PacketPosition>> = Vec::new();
            r.push(sampled);
            assert(paths_view(r@) =~= seq![sampled@]);
            return r;
        }
        proof {
            match vox.spec_coin(pos) {
                Some(QuantumCoin::Surface { surface }) => {
                    lemma_facing_indices(dm.facing_table()[surface as int]);
                },
                Some(QuantumCoin::Air) => {
                    if vox.spec_coin(self.position) != Some(QuantumCoin::Air) {
                        assert(pos == self.position);
                    }
                },
                None => {},
            }
            assert forall|j: int| 0 <= j < directions@.len() implies directions@[j] < dm.num_directions() by {
                match vox.spec_coin(pos) {
                    Some(QuantumCoin::Surface { surface }) => {
                        assert(directions@[j] == facing_indices(dm.facing_table()[surface as int])[j]);
                    },
                    _ => {},
                }
            }
        }
        let mut out: Vec<Vec<PacketPosition>> = Vec::new();
        let n = directions.len();
        let mut i: usize = 0;
        while i < n
            invariant
                n == directions@.len(),
                i <= n,
                0 < depth,
                vox == *voxels,
                dm == *d_map,
                evaluable(vox, dm, cheat, self.position, dir, depth as nat),
                pos == advance(vox, dm, cheat, self.position, dir),
                directions@ == next_directions(vox, dm, pos, dir),
                forall|j: int| 0 <= j < directions@.len() ==> directions@[j] < dm.num_directions(),
                paths_view(out@) == eval_branches(vox, dm, cheat, pos, directions@.take(i as int), (depth - 1) as nat, sampled@),
            decreases n - i,
        {
            let d = directions[i];
            let child = RayPacket::new_converted(d_map.step(pos, d), d);
            let mut paths = child.evaluate(voxels, d_map, cheat, depth - 1, sampled.clone());
            let ghost before = out@;
            let ghost child_paths = paths@;
            out.append(&mut paths);
            assert(directions@.take(i as int + 1).drop_last() =~= directions@.take(i as int));
            assert(paths_view(out@) =~= paths_view(before) + paths_view(child_paths));
            i = i + 1;
        }
        assert(directions@.take(n as int) =~= directions@);
        out
    }
}

} // verus!
