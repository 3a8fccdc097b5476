use hexgrid::direction::{DiagonalDirection, Direction};
use hexgrid::hex::{hex, Hex};

#[test]
fn hex_arithmetic() {
    let a = hex(3, -5);
    let b = Hex::new(-1, 2);
    assert_eq!(a + b, hex(2, -3));
    assert_eq!(a - b, hex(4, -7));
    assert_eq!(-a, hex(-3, 5));
    assert_eq!(a * 3, hex(9, -15));
    assert_eq!(a.x(), 3);
    assert_eq!(a.y(), -5);
    assert_eq!(a.z(), 2);
    assert_eq!(Hex::zero(), hex(0, 0));
}

#[test]
fn hex_length_and_distance() {
    assert_eq!(hex(0, 0).length(), 0);
    assert_eq!(hex(3, -5).length(), 5);
    assert_eq!(hex(3, 2).ulength(), 5);
    assert_eq!(hex(-3, -2).ulength(), 5);
    assert_eq!(hex(1, 1).distance_to(hex(-2, 5)), 4);
    assert_eq!(hex(-2, 5).distance_to(hex(1, 1)), 4);
    assert_eq!(hex(7, 7).unsigned_distance_to(hex(7, 7)), 0);
    assert_eq!(
        hex(i32::MIN, 0).unsigned_distance_to(hex(i32::MAX, 0)),
        u32::MAX
    );
}

#[test]
fn hex_neighbors_follow_the_directions() {
    let expected = [(1, -1), (0, -1), (-1, 0), (-1, 1), (0, 1), (1, 0)];
    let center = hex(10, 20);
    let all = center.all_neighbors();
    for (i, dir) in Direction::ALL_DIRECTIONS.into_iter().enumerate() {
        let (x, y) = expected[i];
        assert_eq!(Hex::neighbor_coord(dir), hex(x, y));
        assert_eq!(center.neighbor(dir), hex(10 + x, 20 + y));
        assert_eq!(all[i], center.neighbor(dir));
        assert_eq!(center.distance_to(all[i]), 1);
    }
}

#[test]
fn hex_diagonals_are_sums_of_two_neighbors() {
    let expected = [(2, -1), (1, -2), (-1, -1), (-2, 1), (-1, 2), (1, 1)];
    for (i, dir) in DiagonalDirection::ALL_DIRECTIONS.into_iter().enumerate() {
        let (x, y) = expected[i];
        assert_eq!(Hex::diagonal_neighbor_coord(dir), hex(x, y));
        assert_eq!(
            Hex::neighbor_coord(dir.direction_cw()) + Hex::neighbor_coord(dir.direction_ccw()),
            hex(x, y)
        );
        assert_eq!(hex(5, 5).diagonal_neighbor(dir), hex(5 + x, 5 + y));
    }
}

#[test]
fn hex_rotations() {
    let h = hex(3, -1);
    assert_eq!(h.counter_clockwise(), hex(2, -3));
    assert_eq!(h.clockwise(), hex(1, 2));
    assert_eq!(h.rotate_ccw(0), h);
    assert_eq!(h.rotate_ccw(1), h.counter_clockwise());
    assert_eq!(h.rotate_ccw(2), h.counter_clockwise().counter_clockwise());
    assert_eq!(h.rotate_ccw(3), -h);
    assert_eq!(h.rotate_cw(3), -h);
    assert_eq!(h.rotate_cw(2), h.clockwise().clockwise());
    assert_eq!(h.rotate_cw(6), h);
    assert_eq!(h.rotate_ccw(600), h);
    for m in 0..14 {
        assert_eq!(h.rotate_cw(m).rotate_ccw(m), h);
        assert_eq!(h.rotate_ccw(m), h.rotate_cw(6 * 3 - m));
        assert_eq!(h.rotate_cw(m).length(), h.length());
    }
}

#[test]
fn hex_rotation_matches_direction_rotation() {
    for dir in Direction::ALL_DIRECTIONS {
        for m in 0..7u32 {
            assert_eq!(
                Hex::neighbor_coord(dir).rotate_ccw(m),
                Hex::neighbor_coord(dir.rotate_ccw(m as usize))
            );
            assert_eq!(
                Hex::neighbor_coord(dir).rotate_cw(m),
                Hex::neighbor_coord(dir.rotate_cw(m as usize))
            );
        }
    }
}

#[test]
fn hex_reflections() {
    let h = hex(3, -5);
    assert_eq!(h.reflect_x(), hex(3, 2));
    assert_eq!(h.reflect_y(), hex(2, -5));
    assert_eq!(h.reflect_z(), hex(-5, 3));
    assert_eq!(h.reflect_x().reflect_x(), h);
    assert_eq!(h.reflect_y().reflect_y(), h);
    assert_eq!(h.reflect_z().reflect_z(), h);
    assert_eq!(h.reflect_x().length(), h.length());
}
