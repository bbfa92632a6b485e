use ray_marching::coins::QuantumCoin;
use ray_marching::fixed_point::{PacketPosition, RayPacketValue};
use ray_marching::voxels::{cell_coordinates, Voxel, Voxels};

fn pos(x: u16, y: u16, z: u16) -> PacketPosition {
    PacketPosition { x: RayPacketValue { bits: x }, y: RayPacketValue { bits: y }, z: RayPacketValue { bits: z } }
}

#[test]
fn indeices_are_the_cube_triangles() {
    let expected: [usize; 36] = [
        0, 1, 2, 1, 3, 2, 4, 5, 6, 5, 7, 6, 0, 2, 4, 2, 6, 4, 1, 5, 3, 5, 7, 3, 0, 4, 1, 4, 5, 1, 2, 3, 6, 3, 7, 6,
    ];
    assert_eq!(Voxel::indeices(), expected);
}

#[test]
fn every_triangle_lies_in_a_face() {
    let idx = Voxel::indeices();
    for t in 0..12 {
        let (a, b, c) = (idx[3 * t], idx[3 * t + 1], idx[3 * t + 2]);
        assert!(a < 8 && b < 8 && c < 8);
        let shared = [1usize, 2, 4].iter().any(|bit| (a & bit) == (b & bit) && (b & bit) == (c & bit));
        assert!(shared, "triangle {} is not on a face", t);
    }
}

#[test]
fn voxel_new_is_air_and_add_surface_sets_coin() {
    let v = Voxel::new();
    assert_eq!(v.coin, QuantumCoin::Air);
    let s = v.add_surface(4);
    assert_eq!(s.coin, QuantumCoin::Surface { surface: 4 });
}

#[test]
fn cell_coordinates_in_storage_order() {
    let c = cell_coordinates((2, 3, 4));
    assert_eq!(c.len(), 24);
    assert_eq!(c[0], (0, 0, 0));
    assert_eq!(c[1], (0, 0, 1));
    assert_eq!(c[4], (0, 1, 0));
    assert_eq!(c[12], (1, 0, 0));
    assert_eq!(c[23], (1, 2, 3));
    for (i, &(x, y, z)) in c.iter().enumerate() {
        assert_eq!((x as usize * 3 + y as usize) * 4 + z as usize, i);
    }
}

#[test]
fn cell_coordinates_of_empty_grid() {
    assert!(cell_coordinates((0, 5, 5)).is_empty());
}

#[test]
fn get_coin_reads_the_cell_of_a_position() {
    // a 2x2x2 grid whose cell (x, y, z) holds code x*4 + y*2 + z
    let coords = cell_coordinates((2, 2, 2));
    let codes: Vec<usize> = coords.iter().map(|&(x, y, z)| (x * 4 + y * 2 + z) as usize).collect();
    let voxels = Voxels::new((2, 2, 2), codes);
    assert_eq!(voxels.dim(), (2, 2, 2));
    assert_eq!(voxels.get_coin(pos(0, 0, 0)), Some(QuantumCoin::Air));
    assert_eq!(voxels.get_coin(pos(7, 7, 15)), Some(QuantumCoin::Surface { surface: 0 }));
    assert_eq!(voxels.get_coin(pos(8, 0, 0)), Some(QuantumCoin::Surface { surface: 3 }));
    assert_eq!(voxels.get_coin(pos(15, 15, 15)), Some(QuantumCoin::Surface { surface: 6 }));
    assert_eq!(voxels.get_coin(pos(0, 12, 3)), Some(QuantumCoin::Surface { surface: 1 }));
}

#[test]
fn get_coin_outside_grid_is_none() {
    let voxels = Voxels::new((2, 2, 2), vec![0; 8]);
    assert_eq!(voxels.get_coin(pos(16, 0, 0)), None);
    assert_eq!(voxels.get_coin(pos(0, 16, 0)), None);
    assert_eq!(voxels.get_coin(pos(0, 0, 65535)), None);
}
