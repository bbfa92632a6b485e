//! Fixed-point coordinates of ray packets.
//!
//! A coordinate is an unsigned 16-bit fixed-point number with three
//! fractional bits (`fixed::FixedU16<U3>`): the stored bits `b` stand for
//! the value `b / 8`, and the integer part `b / 8` names the voxel cell the
//! coordinate falls in.

use vstd::prelude::*;
use fixed::types::extra::U3;
use fixed::FixedU16;
use az::Cast;

verus! {

/// One coordinate of a ray packet position, held by its raw bits.
#[derive(Clone, Copy, Debug, PartialEq, Eq, Structural)]
pub struct RayPacketValue {
    pub bits: u16,
}

/// A ray packet position: one fixed-point coordinate per axis.
#[derive(Clone, Copy, Debug, PartialEq, Eq, Structural)]
pub struct PacketPosition {
    pub x: RayPacketValue,
    pub y: RayPacketValue,
    pub z: RayPacketValue,
}

/// The bits of a sum of two coordinates, wrapping around at `2^16`.
pub open spec fn wrapped_sum(a: u16, b: u16) -> u16 {
    ((a + b) % 0x10000) as u16
}

/// The voxel cell a coordinate falls in: its integer part.
pub open spec fn cell_of(a: RayPacketValue) -> int {
    a.bits as int / 8
}

/// A position moved by a step: componentwise wrapping sum of the bits.
pub open spec fn moved(p: PacketPosition, s: PacketPosition) -> PacketPosition {
    PacketPosition {
        x: RayPacketValue { bits: wrapped_sum(p.x.bits, s.x.bits) },
        y: RayPacketValue { bits: wrapped_sum(p.y.bits, s.y.bits) },
        z: RayPacketValue { bits: wrapped_sum(p.z.bits, s.z.bits) },
    }
}

/// The step that moves nowhere.
pub open spec fn no_step() -> PacketPosition {
    PacketPosition { x: RayPacketValue { bits: 0 }, y: RayPacketValue { bits: 0 }, z: RayPacketValue { bits: 0 } }
}

/// The step that undoes a step: each coordinate's bits negated modulo `2^16`.
pub open spec fn reverse_step(s: PacketPosition) -> PacketPosition {
    PacketPosition {
        x: RayPacketValue { bits: ((0x10000 - s.x.bits) % 0x10000) as u16 },
        y: RayPacketValue { bits: ((0x10000 - s.y.bits) % 0x10000) as u16 },
        z: RayPacketValue { bits: ((0x10000 - s.z.bits) % 0x10000) as u16 },
    }
}

/// One coordinate of a move: adding nothing keeps it, adding the reverse
/// comes back, and two additions commute.
proof fn lemma_wrapped_sum_arithmetic(c: u16, a: u16, b: u16)
    ensures
        wrapped_sum(c, 0) == c,
        wrapped_sum(wrapped_sum(c, a), ((0x10000 - a) % 0x10000) as u16) == c,
        wrapped_sum(wrapped_sum(c, a), b) == wrapped_sum(wrapped_sum(c, b), a),
{
    let ca = wrapped_sum(c, a);
    if a == 0 {
        assert(ca == c);
    } else if c + a < 0x10000 {
        assert(ca == c + a);
    } else {
        assert(ca == c + a - 0x10000);
    }
    let cb = wrapped_sum(c, b);
    if c + b < 0x10000 {
        assert(cb == c + b);
    } else {
        assert(cb == c + b - 0x10000);
    }
    if ca + b < 0x10000 {
        assert(wrapped_sum(ca, b) == ca + b);
    } else {
        assert(wrapped_sum(ca, b) == ca + b - 0x10000);
    }
    if cb + a < 0x10000 {
        assert(wrapped_sum(cb, a) == cb + a);
    } else {
        assert(wrapped_sum(cb, a) == cb + a - 0x10000);
    }
}

/// Moving is arithmetic on the coordinates modulo `2^16`: no step leaves a
/// position where it is, a step followed by its reverse comes back, and two
/// steps can be taken in either order.
pub proof fn lemma_moved_arithmetic(p: PacketPosition, s: PacketPosition, t: PacketPosition)
    ensures
        moved(p, no_step()) == p,
        moved(moved(p, s), reverse_step(s)) == p,
        moved(moved(p, s), t) == moved(moved(p, t), s),
        moved(p, s).x.bits as int == (p.x.bits + s.x.bits) % 0x10000,
        moved(p, s).y.bits as int == (p.y.bits + s.y.bits) % 0x10000,
        moved(p, s).z.bits as int == (p.z.bits + s.z.bits) % 0x10000,
{
    lemma_wrapped_sum_arithmetic(p.x.bits, s.x.bits, t.x.bits);
    lemma_wrapped_sum_arithmetic(p.y.bits, s.y.bits, t.y.bits);
    lemma_wrapped_sum_arithmetic(p.z.bits, s.z.bits, t.z.bits);
}

/// The cell of a coordinate is the whole number of cells below it: the
/// coordinate lies in `[8 * cell, 8 * cell + 8)`.
pub proof fn lemma_cell_of_bounds(a: RayPacketValue)
    ensures
        0 <= cell_of(a),
        8 * cell_of(a) <= a.bits < 8 * cell_of(a) + 8,
{
}

/// `FixedU16::<U3>::wrapping_add`: the sum of the bits, wrapping around at
/// `2^16`. The `+` of the crate computes the same sum where debug assertions
/// are off, and panics where they are on and the sum overflows.
#[verifier::external_body]
pub(crate) fn fixed_add(a: RayPacketValue, b: RayPacketValue) -> (r: RayPacketValue)
    ensures
        r.bits == wrapped_sum(a.bits, b.bits),
{
    let s = FixedU16::<U3>::from_bits(a.bits).wrapping_add(FixedU16::<U3>::from_bits(b.bits));
    RayPacketValue { bits: s.to_bits() }
}

/// `FixedU16::<U3>::int`: the integer part, that is the bits with the three
/// fractional bits cleared.
#[verifier::external_body]
pub(crate) fn fixed_int(a: RayPacketValue) -> (r: RayPacketValue)
    ensures
        r.bits == a.bits - a.bits % 8,
{
    RayPacketValue { bits: FixedU16::<U3>::from_bits(a.bits).int().to_bits() }
}

/// `az::Cast<usize>` on `FixedU16<U3>`: the value rounded towards minus
/// infinity, that is the bits divided by eight; every such value fits a `usize`.
#[verifier::external_body]
pub(crate) fn fixed_to_usize(a: RayPacketValue) -> (r: usize)
    ensures
        r == a.bits / 8,
{
    let f: FixedU16<U3> = FixedU16::<U3>::from_bits(a.bits);
    f.cast()
}

/// The voxel cell index of a coordinate: its integer part, converted to `usize`.
pub fn cell_index(a: RayPacketValue) -> (r: usize)
    ensures
        r == cell_of(a),
{
    let i = fixed_int(a);
    fixed_to_usize(i)
}

/// A position moved by a step, coordinate by coordinate.
pub fn add_position(p: PacketPosition, s: PacketPosition) -> (r: PacketPosition)
    ensures
        r == moved(p, s),
{
    PacketPosition { x: fixed_add(p.x, s.x), y: fixed_add(p.y, s.y), z: fixed_add(p.z, s.z) }
}

} // verus!
