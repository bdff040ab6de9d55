use wfc::grid_2d::{Axis2d, Coordinate2d, Direction2d, Grid2d, Rotation2d};
use wfc::grid_3d::{Axis3d, Coordinate3d, Direction3d, Grid3d};
use wfc::space::{InvertDelta, Space};

fn at(x: u32, y: u32) -> Coordinate2d {
    Coordinate2d { x, y }
}

fn at3(x: u32, y: u32, z: u32) -> Coordinate3d {
    Coordinate3d { x, y, z }
}

#[test]
fn grid_2d_holds_what_init_gives() {
    let grid = Grid2d::new(at(3, 2), |c: Coordinate2d| c.x + 10 * c.y);
    assert_eq!(grid.dimensions(), at(3, 2));
    for y in 0..2 {
        for x in 0..3 {
            assert_eq!(*grid.get(at(x, y)), x + 10 * y);
        }
    }
}

#[test]
fn grid_2d_cells_change_in_place() {
    let mut grid = Grid2d::new(at(3, 2), |_: Coordinate2d| 0u32);
    *grid.get_mut(at(2, 1)) = 7;
    *grid.get_mut(at(0, 1)) = 5;
    assert_eq!(*grid.get(at(2, 1)), 7);
    assert_eq!(*grid.get(at(0, 1)), 5);
    assert_eq!(*grid.get(at(2, 0)), 0);
    assert_eq!(grid.dimensions(), at(3, 2));
}

#[test]
fn grid_2d_coordinates_run_row_by_row() {
    assert_eq!(
        <Grid2d<u8>>::coordinates(at(3, 2)),
        vec![at(0, 0), at(1, 0), at(2, 0), at(0, 1), at(1, 1), at(2, 1)]
    );
    assert_eq!(<Grid2d<u8>>::coordinates(at(0, 4)), vec![]);
    assert_eq!(<Grid2d<u8>>::coordinates(at(4, 0)), vec![]);
}

#[test]
fn grid_2d_has_no_neighbor_past_the_edge() {
    let grid = Grid2d::new(at(3, 2), |_: Coordinate2d| 0u8);
    assert_eq!(grid.neighbor(at(0, 0), Direction2d::Left), None);
    assert_eq!(grid.neighbor(at(0, 0), Direction2d::Down), None);
    assert_eq!(grid.neighbor(at(2, 1), Direction2d::Right), None);
    assert_eq!(grid.neighbor(at(2, 1), Direction2d::Up), None);
    assert_eq!(grid.neighbor(at(1, 1), Direction2d::Up), None);
    assert_eq!(grid.neighbor(at(2, 0), Direction2d::Right), None);
    let single = Grid2d::new(at(1, 1), |_: Coordinate2d| 0u8);
    for direction in <Grid2d<u8>>::directions() {
        assert_eq!(single.neighbor(at(0, 0), direction), None);
    }
}

#[test]
fn grid_2d_neighbor_is_one_step_away() {
    let grid = Grid2d::new(at(3, 3), |_: Coordinate2d| 0u8);
    assert_eq!(grid.neighbor(at(1, 1), Direction2d::Right), Some(at(2, 1)));
    assert_eq!(grid.neighbor(at(1, 1), Direction2d::Up), Some(at(1, 2)));
    assert_eq!(grid.neighbor(at(1, 1), Direction2d::Left), Some(at(0, 1)));
    assert_eq!(grid.neighbor(at(1, 1), Direction2d::Down), Some(at(1, 0)));
    assert_eq!(grid.neighbor(at(0, 0), Direction2d::Right), Some(at(1, 0)));
    assert_eq!(grid.neighbor(at(0, 0), Direction2d::Up), Some(at(0, 1)));
}

#[test]
fn grid_2d_opposite_step_leads_back() {
    let grid = Grid2d::new(at(4, 3), |_: Coordinate2d| 0u8);
    for c in <Grid2d<u8>>::coordinates(at(4, 3)) {
        for direction in <Grid2d<u8>>::directions() {
            if let Some(n) = grid.neighbor(c, direction) {
                assert!(n.x < 4 && n.y < 3);
                assert_eq!(grid.neighbor(n, direction.invert_delta()), Some(c));
            }
        }
    }
}

#[test]
fn direction_2d_offsets_and_opposites() {
    assert_eq!(Direction2d::Right.offset(), (1, 0));
    assert_eq!(Direction2d::Up.offset(), (0, 1));
    assert_eq!(Direction2d::Left.offset(), (-1, 0));
    assert_eq!(Direction2d::Down.offset(), (0, -1));
    assert_eq!(Direction2d::Right.invert_delta(), Direction2d::Left);
    assert_eq!(Direction2d::Left.invert_delta(), Direction2d::Right);
    assert_eq!(Direction2d::Up.invert_delta(), Direction2d::Down);
    assert_eq!(Direction2d::Down.invert_delta(), Direction2d::Up);
    assert_eq!(
        <Grid2d<u8>>::directions(),
        vec![Direction2d::Right, Direction2d::Up, Direction2d::Left, Direction2d::Down]
    );
}

#[test]
fn grid_2d_add_sub_stays_inside() {
    let grid = Grid2d::new(at(3, 3), |_: Coordinate2d| 0u8);
    assert_eq!(grid.add_sub(at(1, 1), at(0, 1), at(1, 0)), Some(at(0, 2)));
    assert_eq!(grid.add_sub(at(0, 0), at(2, 2), at(0, 0)), Some(at(2, 2)));
    assert_eq!(grid.add_sub(at(2, 2), at(0, 0), at(2, 2)), Some(at(0, 0)));
    assert_eq!(grid.add_sub(at(0, 0), at(0, 0), at(1, 0)), None);
    assert_eq!(grid.add_sub(at(0, 0), at(0, 0), at(0, 1)), None);
    assert_eq!(grid.add_sub(at(2, 2), at(1, 0), at(0, 0)), None);
    assert_eq!(grid.add_sub(at(2, 2), at(0, 1), at(0, 0)), None);
    assert_eq!(
        grid.add_sub(at(1, 1), at(u32::MAX, u32::MAX), at(u32::MAX, u32::MAX)),
        Some(at(1, 1))
    );
    assert_eq!(grid.add_sub(at(1, 1), at(u32::MAX, 0), at(0, 0)), None);
    assert_eq!(grid.add_sub(at(1, 1), at(0, 0), at(0, u32::MAX)), None);
}

#[test]
fn grid_2d_perp_turns_a_quarter() {
    let grid = Grid2d::new(at(3, 3), |_: Coordinate2d| 0u8);
    assert_eq!(grid.perp(at(0, 0), Rotation2d), at(2, 0));
    assert_eq!(grid.perp(at(1, 0), Rotation2d), at(2, 1));
    assert_eq!(grid.perp(at(2, 0), Rotation2d), at(2, 2));
    assert_eq!(grid.perp(at(2, 1), Rotation2d), at(1, 2));
    assert_eq!(grid.perp(at(1, 1), Rotation2d), at(1, 1));
    let mut c = at(0, 1);
    for _ in 0..4 {
        c = grid.perp(c, Rotation2d);
    }
    assert_eq!(c, at(0, 1));
}

#[test]
fn grid_2d_map_and_index_go_by_axis() {
    let c = at(5, 9);
    assert_eq!(c.index(Axis2d::X), 5);
    assert_eq!(c.index(Axis2d::Y), 9);
    assert_eq!(<Grid2d<u8>>::index(c, Axis2d::Y), 9);
    assert_eq!(<Grid2d<u8>>::map(c, |_: Axis2d, v: u32| v / 2), at(2, 4));
    assert_eq!(
        <Grid2d<u8>>::map(c, |axis: Axis2d, v: u32| if axis == Axis2d::X { 10 - 1 - v } else { v }),
        at(4, 9)
    );
}

#[test]
fn grid_3d_holds_what_init_gives() {
    let mut grid = Grid3d::new(at3(2, 3, 4), |c: Coordinate3d| c.x + 10 * c.y + 100 * c.z);
    assert_eq!(grid.dimensions(), at3(2, 3, 4));
    for z in 0..4 {
        for y in 0..3 {
            for x in 0..2 {
                assert_eq!(*grid.get(at3(x, y, z)), x + 10 * y + 100 * z);
            }
        }
    }
    *grid.get_mut(at3(1, 2, 3)) = 7;
    assert_eq!(*grid.get(at3(1, 2, 3)), 7);
    assert_eq!(*grid.get(at3(0, 2, 3)), 320);
    assert_eq!(*grid.get(at3(1, 1, 3)), 311);
    assert_eq!(*grid.get(at3(1, 2, 2)), 221);
}

#[test]
fn grid_3d_coordinates_run_layer_by_layer() {
    assert_eq!(
        <Grid3d<u8>>::coordinates(at3(2, 2, 2)),
        vec![
            at3(0, 0, 0),
            at3(1, 0, 0),
            at3(0, 1, 0),
            at3(1, 1, 0),
            at3(0, 0, 1),
            at3(1, 0, 1),
            at3(0, 1, 1),
            at3(1, 1, 1),
        ]
    );
    assert_eq!(<Grid3d<u8>>::coordinates(at3(2, 0, 2)), vec![]);
    assert_eq!(<Grid3d<u8>>::coordinates(at3(2, 3, 4)).len(), 24);
}

#[test]
fn grid_3d_has_no_neighbor_past_the_faces() {
    let grid = Grid3d::new(at3(2, 3, 4), |_: Coordinate3d| 0u8);
    assert_eq!(grid.neighbor(at3(0, 0, 0), Direction3d::NegX), None);
    assert_eq!(grid.neighbor(at3(0, 0, 0), Direction3d::NegY), None);
    assert_eq!(grid.neighbor(at3(0, 0, 0), Direction3d::NegZ), None);
    assert_eq!(grid.neighbor(at3(1, 2, 3), Direction3d::PosX), None);
    assert_eq!(grid.neighbor(at3(1, 2, 3), Direction3d::PosY), None);
    assert_eq!(grid.neighbor(at3(1, 2, 3), Direction3d::PosZ), None);
    assert_eq!(grid.neighbor(at3(0, 1, 1), Direction3d::PosX), Some(at3(1, 1, 1)));
    assert_eq!(grid.neighbor(at3(1, 1, 1), Direction3d::NegX), Some(at3(0, 1, 1)));
    assert_eq!(grid.neighbor(at3(0, 1, 1), Direction3d::PosY), Some(at3(0, 2, 1)));
    assert_eq!(grid.neighbor(at3(0, 1, 1), Direction3d::NegY), Some(at3(0, 0, 1)));
    assert_eq!(grid.neighbor(at3(0, 1, 1), Direction3d::PosZ), Some(at3(0, 1, 2)));
    assert_eq!(grid.neighbor(at3(0, 1, 1), Direction3d::NegZ), Some(at3(0, 1, 0)));
}

#[test]
fn grid_3d_opposite_step_leads_back() {
    let grid = Grid3d::new(at3(2, 3, 2), |_: Coordinate3d| 0u8);
    for c in <Grid3d<u8>>::coordinates(at3(2, 3, 2)) {
        for direction in <Grid3d<u8>>::directions() {
            if let Some(n) = grid.neighbor(c, direction) {
                assert!(n.x < 2 && n.y < 3 && n.z < 2);
                assert_eq!(grid.neighbor(n, direction.invert_delta()), Some(c));
            }
        }
    }
}

#[test]
fn direction_3d_offsets_and_opposites() {
    assert_eq!(Direction3d::PosX.offset(), (1, 0, 0));
    assert_eq!(Direction3d::NegX.offset(), (-1, 0, 0));
    assert_eq!(Direction3d::PosY.offset(), (0, 1, 0));
    assert_eq!(Direction3d::NegY.offset(), (0, -1, 0));
    assert_eq!(Direction3d::PosZ.offset(), (0, 0, 1));
    assert_eq!(Direction3d::NegZ.offset(), (0, 0, -1));
    assert_eq!(Direction3d::PosX.invert_delta(), Direction3d::NegX);
    assert_eq!(Direction3d::NegY.invert_delta(), Direction3d::PosY);
    assert_eq!(Direction3d::PosZ.invert_delta(), Direction3d::NegZ);
    assert_eq!(
        <Grid3d<u8>>::directions(),
        vec![
            Direction3d::PosX,
            Direction3d::NegX,
            Direction3d::PosY,
            Direction3d::NegY,
            Direction3d::PosZ,
            Direction3d::NegZ,
        ]
    );
}

#[test]
fn grid_3d_add_sub_stays_inside() {
    let grid = Grid3d::new(at3(2, 3, 4), |_: Coordinate3d| 0u8);
    assert_eq!(grid.add_sub(at3(1, 1, 1), at3(0, 1, 2), at3(1, 0, 0)), Some(at3(0, 2, 3)));
    assert_eq!(grid.add_sub(at3(1, 2, 3), at3(0, 0, 0), at3(0, 0, 0)), Some(at3(1, 2, 3)));
    assert_eq!(grid.add_sub(at3(1, 2, 3), at3(1, 0, 0), at3(0, 0, 0)), None);
    assert_eq!(grid.add_sub(at3(1, 2, 3), at3(0, 1, 0), at3(0, 0, 0)), None);
    assert_eq!(grid.add_sub(at3(1, 2, 3), at3(0, 0, 1), at3(0, 0, 0)), None);
    assert_eq!(grid.add_sub(at3(0, 0, 0), at3(0, 0, 0), at3(0, 0, 1)), None);
    assert_eq!(grid.add_sub(at3(0, 0, 0), at3(0, 0, 0), at3(1, 0, 0)), None);
}

#[test]
fn grid_3d_perp_turns_around_each_axis() {
    let grid = Grid3d::new(at3(3, 3, 3), |_: Coordinate3d| 0u8);
    assert_eq!(grid.perp(at3(1, 0, 2), Axis3d::X), at3(1, 0, 0));
    assert_eq!(grid.perp(at3(1, 2, 0), Axis3d::X), at3(1, 2, 2));
    assert_eq!(grid.perp(at3(0, 1, 2), Axis3d::Y), at3(2, 1, 2));
    assert_eq!(grid.perp(at3(2, 1, 0), Axis3d::Y), at3(0, 1, 0));
    assert_eq!(grid.perp(at3(0, 0, 1), Axis3d::Z), at3(2, 0, 1));
    assert_eq!(grid.perp(at3(1, 0, 1), Axis3d::Z), at3(2, 1, 1));
    for axis in [Axis3d::X, Axis3d::Y, Axis3d::Z] {
        let mut c = at3(0, 1, 2);
        for _ in 0..4 {
            c = grid.perp(c, axis);
        }
        assert_eq!(c, at3(0, 1, 2));
    }
}

#[test]
fn grid_3d_perp_needs_only_the_turned_extents_equal() {
    let grid = Grid3d::new(at3(2, 3, 3), |_: Coordinate3d| 0u8);
    assert_eq!(grid.perp(at3(1, 0, 1), Axis3d::X), at3(1, 1, 0));
    assert_eq!(grid.perp(at3(0, 2, 2), Axis3d::X), at3(0, 0, 2));
}

#[test]
fn grid_3d_map_and_index_go_by_axis() {
    let c = at3(5, 9, 12);
    assert_eq!(c.index(Axis3d::X), 5);
    assert_eq!(c.index(Axis3d::Y), 9);
    assert_eq!(c.index(Axis3d::Z), 12);
    assert_eq!(<Grid3d<u8>>::index(c, Axis3d::Z), 12);
    assert_eq!(<Grid3d<u8>>::map(c, |_: Axis3d, v: u32| v / 2), at3(2, 4, 6));
    assert_eq!(
        <Grid3d<u8>>::map(c, |axis: Axis3d, v: u32| if axis == Axis3d::Z { v + 1 } else { v }),
        at3(5, 9, 13)
    );
}

#[test]
fn grids_compare_and_copy_cell_by_cell() {
    let grid = Grid2d::new(at(3, 2), |c: Coordinate2d| c.x + 10 * c.y);
    let mut copy = grid.clone();
    assert!(grid == copy);
    *copy.get_mut(at(1, 1)) = 0;
    assert!(grid != copy);
    assert_eq!(*grid.get(at(1, 1)), 11);
    assert!(grid != Grid2d::new(at(2, 3), |c: Coordinate2d| c.x + 10 * c.y));
    let grid = Grid3d::new(at3(2, 2, 2), |c: Coordinate3d| c.x + c.y + c.z);
    let mut copy = grid.clone();
    assert!(grid == copy);
    *copy.get_mut(at3(1, 1, 1)) = 0;
    assert!(grid != copy);
}
