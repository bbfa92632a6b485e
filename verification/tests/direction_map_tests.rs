use ray_marching::direction_map::DirMap;
use ray_marching::fixed_point::{PacketPosition, RayPacketValue};

fn pos(x: u16, y: u16, z: u16) -> PacketPosition {
    PacketPosition { x: RayPacketValue { bits: x }, y: RayPacketValue { bits: y }, z: RayPacketValue { bits: z } }
}

#[test]
fn new_counts_directions() {
    let d = DirMap::new(vec![pos(8, 0, 0), pos(0, 8, 0)], vec![vec![true, true]]);
    assert_eq!(d.direction_num(), 2);
    let e = DirMap::new(vec![], vec![]);
    assert_eq!(e.direction_num(), 0);
}

#[test]
fn step_adds_the_direction() {
    let d = DirMap::new(vec![pos(8, 0, 0), pos(65528, 4, 0)], vec![]);
    assert_eq!(d.step(pos(16, 16, 16), 0), pos(24, 16, 16));
    assert_eq!(d.step(pos(16, 16, 16), 1), pos(8, 20, 16));
    // stepping back from the first cell wraps around, far outside any grid
    assert_eq!(d.step(pos(4, 0, 0), 1), pos(65532, 4, 0));
}

#[test]
fn scatter_lists_facing_directions_in_order() {
    let d = DirMap::new(
        vec![pos(1, 0, 0); 5],
        vec![vec![true, false, true, true, false], vec![false; 5], vec![true; 5]],
    );
    assert_eq!(d.scatter(0), vec![0, 2, 3]);
    assert_eq!(d.scatter(1), Vec::<usize>::new());
    assert_eq!(d.scatter(2), vec![0, 1, 2, 3, 4]);
}
