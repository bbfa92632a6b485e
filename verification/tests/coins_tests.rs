use ray_marching::coins::QuantumCoin;
use ray_marching::direction_map::DirMap;
use ray_marching::fixed_point::{PacketPosition, RayPacketValue};
use ray_marching::ray_packet::RayPacket;

fn pos(x: u16, y: u16, z: u16) -> PacketPosition {
    PacketPosition { x: RayPacketValue { bits: x }, y: RayPacketValue { bits: y }, z: RayPacketValue { bits: z } }
}

fn map() -> DirMap {
    DirMap::new(
        vec![pos(8, 0, 0), pos(0, 8, 0), pos(0, 0, 8)],
        vec![vec![true, false, true], vec![false, false, false]],
    )
}

#[test]
fn code_round_trip() {
    assert_eq!(QuantumCoin::from_code(0), QuantumCoin::Air);
    assert_eq!(QuantumCoin::from_code(5), QuantumCoin::Surface { surface: 4 });
    assert_eq!(QuantumCoin::Air.to_code(), 0);
    assert_eq!(QuantumCoin::Surface { surface: 4 }.to_code(), 5);
    for c in [QuantumCoin::Air, QuantumCoin::Surface { surface: 0 }, QuantumCoin::Surface { surface: 9 }] {
        assert_eq!(QuantumCoin::from_code(c.to_code()), c);
    }
}

#[test]
fn flip_air_keeps_direction() {
    let packet = RayPacket::new_converted(pos(0, 0, 0), 2);
    assert_eq!(QuantumCoin::Air.flip(&packet, &map()), vec![2]);
}

#[test]
fn flip_surface_scatters() {
    let packet = RayPacket::new_converted(pos(0, 0, 0), 1);
    assert_eq!(QuantumCoin::Surface { surface: 0 }.flip(&packet, &map()), vec![0, 2]);
    assert_eq!(QuantumCoin::Surface { surface: 1 }.flip(&packet, &map()), Vec::<usize>::new());
}
