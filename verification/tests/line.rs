use hexgrid::hex::{hex, Hex};
use hexgrid::round::FractionalCube;
use std::collections::HashSet;

#[test]
fn round_trip_of_lattice_points() {
    for x in -6..7 {
        for y in -6..7 {
            let h = hex(x, y);
            let f = h.to_fractional_cube();
            assert_eq!(f, FractionalCube::new(x as i64, y as i64, 1));
            assert_eq!(Hex::round(f), h);
            assert_eq!(
                Hex::round(FractionalCube::new(7 * x as i64, 7 * y as i64, 7)),
                h
            );
        }
    }
}

#[test]
fn round_picks_the_nearest_hexagon() {
    // (0.4, 0.4, -0.8): z is furthest from an integer after rounding
    assert_eq!(Hex::round(FractionalCube::new(4, 4, 10)), hex(0, 1));
    // (0.6, -0.2, -0.4)
    assert_eq!(Hex::round(FractionalCube::new(6, -2, 10)), hex(1, 0));
    // (0.1, 0.2, -0.3)
    assert_eq!(Hex::round(FractionalCube::new(1, 2, 10)), hex(0, 0));
    // (-2.5, 1.0, 1.5): ties go away from zero, then x is set anew
    assert_eq!(Hex::round(FractionalCube::new(-5, 2, 2)), hex(-3, 1));
    // (1.5, -1.5, 0)
    assert_eq!(Hex::round(FractionalCube::new(3, -3, 2)), hex(2, -2));
}

#[test]
fn line_to_itself_is_one_point() {
    assert_eq!(hex(3, 3).line_to(hex(3, 3)), vec![hex(3, 3)]);
}

#[test]
fn line_along_an_axis() {
    assert_eq!(
        hex(0, 0).line_to(hex(3, 0)),
        vec![hex(0, 0), hex(1, 0), hex(2, 0), hex(3, 0)]
    );
    assert_eq!(
        hex(1, -1).line_to(hex(1, 2)),
        vec![hex(1, -1), hex(1, 0), hex(1, 1), hex(1, 2)]
    );
}

#[test]
fn line_has_distance_plus_one_points() {
    for (a, b) in [
        (hex(0, 0), hex(5, -2)),
        (hex(-3, 7), hex(4, 4)),
        (hex(2, 2), hex(-9, 30)),
        (hex(0, 0), hex(1, 1)),
        (hex(100, -50), hex(-100, 50)),
    ] {
        let line = a.line_to(b);
        assert_eq!(line.len() as u32, a.unsigned_distance_to(b) + 1);
        assert_eq!(line.first(), Some(&a));
        assert_eq!(line.last(), Some(&b));
        for (i, h) in line.iter().enumerate() {
            assert_eq!(a.unsigned_distance_to(*h) as usize, i);
            assert_eq!(h.unsigned_distance_to(b) as usize, line.len() - 1 - i);
        }
        for pair in line.windows(2) {
            assert_eq!(pair[0].unsigned_distance_to(pair[1]), 1);
        }
        let unique: HashSet<Hex> = line.iter().copied().collect();
        assert_eq!(unique.len(), line.len());
    }
}

#[test]
fn line_between_far_corners_of_the_coordinate_space() {
    let a = hex(i32::MAX, i32::MIN);
    let b = hex(i32::MAX - 3, i32::MIN + 1);
    let line = a.line_to(b);
    assert_eq!(line.len(), 4);
    assert_eq!(line[0], a);
    assert_eq!(line[3], b);
}
