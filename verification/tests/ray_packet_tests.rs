use ray_marching::direction_map::DirMap;
use ray_marching::fixed_point::{PacketPosition, RayPacketValue};
use ray_marching::ray_packet::RayPacket;
use ray_marching::voxels::Voxels;

fn pos(x: u16, y: u16, z: u16) -> PacketPosition {
    PacketPosition { x: RayPacketValue { bits: x }, y: RayPacketValue { bits: y }, z: RayPacketValue { bits: z } }
}

/// A row of three cells along x: air, air, and surface 1 (which faces -x).
fn corridor() -> (Voxels, DirMap) {
    let voxels = Voxels::new((3, 1, 1), vec![0, 0, 2]);
    // direction 0 steps one cell along +x, direction 1 one cell along -x
    let d_map = DirMap::new(vec![pos(8, 0, 0), pos(65528, 0, 0)], vec![vec![true, false], vec![false, true]]);
    (voxels, d_map)
}

#[test]
fn new_converted_keeps_fields() {
    let p = RayPacket::new_converted(pos(1, 2, 3), 7);
    assert_eq!(p.position, pos(1, 2, 3));
    assert_eq!(p.direction, 7);
}

#[test]
fn evaluate_depth_zero_samples_start() {
    let (voxels, d_map) = corridor();
    let packet = RayPacket::new_converted(pos(4, 4, 4), 0);
    let paths = packet.evaluate(&voxels, &d_map, true, 0, vec![pos(1, 1, 1)]);
    assert_eq!(paths, vec![vec![pos(1, 1, 1), pos(4, 4, 4)]]);
}

#[test]
fn evaluate_cheat_skips_air() {
    let (voxels, d_map) = corridor();
    let packet = RayPacket::new_converted(pos(4, 4, 4), 0);
    let paths = packet.evaluate(&voxels, &d_map, true, 1, vec![]);
    // skips to cell 1, in front of the surface, then steps into it
    assert_eq!(paths, vec![vec![pos(4, 4, 4), pos(20, 4, 4)]]);
}

#[test]
fn evaluate_cheat_bounces_off_surface() {
    let (voxels, d_map) = corridor();
    let packet = RayPacket::new_converted(pos(4, 4, 4), 0);
    let paths = packet.evaluate(&voxels, &d_map, true, 2, vec![]);
    assert_eq!(paths, vec![vec![pos(4, 4, 4), pos(20, 4, 4), pos(12, 4, 4)]]);
}

#[test]
fn evaluate_without_cheat_steps_cell_by_cell() {
    let (voxels, d_map) = corridor();
    let packet = RayPacket::new_converted(pos(4, 4, 4), 0);
    let paths = packet.evaluate(&voxels, &d_map, false, 2, vec![]);
    assert_eq!(paths, vec![vec![pos(4, 4, 4), pos(12, 4, 4), pos(20, 4, 4)]]);
}

#[test]
fn evaluate_outside_grid_stops() {
    let (voxels, d_map) = corridor();
    let packet = RayPacket::new_converted(pos(100, 4, 4), 0);
    let paths = packet.evaluate(&voxels, &d_map, true, 3, vec![]);
    assert_eq!(paths, vec![vec![pos(100, 4, 4)]]);
}

#[test]
fn evaluate_surface_splits_into_each_facing_direction() {
    // a surface cell in the middle of a 3-cell corridor that scatters both ways
    let voxels = Voxels::new((3, 1, 1), vec![0, 1, 0]);
    let d_map = DirMap::new(vec![pos(8, 0, 0), pos(65528, 0, 0)], vec![vec![true, true]]);
    let packet = RayPacket::new_converted(pos(12, 0, 0), 0);
    let paths = packet.evaluate(&voxels, &d_map, false, 1, vec![]);
    assert_eq!(paths, vec![vec![pos(12, 0, 0), pos(20, 0, 0)], vec![pos(12, 0, 0), pos(4, 0, 0)]]);
    // at most 2^depth paths, each one sample longer per level at most
    let deeper = packet.evaluate(&voxels, &d_map, false, 3, vec![]);
    assert!(deeper.len() <= 8);
    for p in &deeper {
        assert_eq!(p[0], pos(12, 0, 0));
        assert!(p.len() >= 1 && p.len() <= 4);
    }
}

#[test]
fn evaluate_invalid_direction_on_surface_is_unused() {
    let voxels = Voxels::new((1, 1, 1), vec![1]);
    let d_map = DirMap::new(vec![pos(8, 0, 0)], vec![vec![false]]);
    let packet = RayPacket::new_converted(pos(0, 0, 0), 99);
    let paths = packet.evaluate(&voxels, &d_map, true, 2, vec![]);
    assert_eq!(paths, vec![vec![pos(0, 0, 0)]]);
}
