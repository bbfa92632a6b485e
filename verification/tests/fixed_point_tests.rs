use ray_marching::fixed_point::{add_position, cell_index, PacketPosition, RayPacketValue};

fn v(bits: u16) -> RayPacketValue {
    RayPacketValue { bits }
}

#[test]
fn cell_index_is_integer_part() {
    // 2.125 is 17 / 8
    assert_eq!(cell_index(v(17)), 2);
    assert_eq!(cell_index(v(7)), 0);
    assert_eq!(cell_index(v(8)), 1);
    assert_eq!(cell_index(v(u16::MAX)), 8191);
}

#[test]
fn cell_index_rounds_down_within_a_cell() {
    assert_eq!(cell_index(v(16)), 2);
    assert_eq!(cell_index(v(23)), 2);
    assert_eq!(cell_index(v(24)), 3);
    assert_eq!(cell_index(v(5)), 0);
}

#[test]
fn add_position_sums_bits() {
    let p = PacketPosition { x: v(12), y: v(0), z: v(0) };
    let s = PacketPosition { x: v(8), y: v(0), z: v(0) };
    assert_eq!(add_position(p, s).x.bits, 20);
}

#[test]
fn add_position_wraps_around() {
    let p = PacketPosition { x: v(u16::MAX), y: v(20), z: v(0) };
    // the bits of -1.0 move one cell back
    let s = PacketPosition { x: v(2), y: v(65528), z: v(0) };
    let r = add_position(p, s);
    assert_eq!(r.x.bits, 1);
    assert_eq!(r.y.bits, 12);
}

#[test]
fn add_position_moves_each_coordinate() {
    let p = PacketPosition { x: v(4), y: v(10), z: v(65535) };
    let s = PacketPosition { x: v(8), y: v(65528), z: v(1) };
    let r = add_position(p, s);
    assert_eq!(r, PacketPosition { x: v(12), y: v(2), z: v(0) });
}
