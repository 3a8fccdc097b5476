use hexgrid::hex::{hex, Hex};
use std::collections::HashSet;

#[test]
fn ring_of_radius_zero_is_the_center() {
    assert_eq!(hex(4, -2).ring(0), vec![hex(4, -2)]);
}

#[test]
fn ring_of_radius_one_runs_clockwise_from_top_right() {
    assert_eq!(
        hex(0, 0).ring(1),
        vec![hex(1, -1), hex(1, 0), hex(0, 1), hex(-1, 1), hex(-1, 0), hex(0, -1)]
    );
}

#[test]
fn ring_of_radius_two() {
    assert_eq!(
        hex(1, 1).ring(2),
        vec![
            hex(3, -1),
            hex(3, 0),
            hex(3, 1),
            hex(2, 2),
            hex(1, 3),
            hex(0, 3),
            hex(-1, 3),
            hex(-1, 2),
            hex(-1, 1),
            hex(0, 0),
            hex(1, -1),
            hex(2, -1)
        ]
    );
}

#[test]
fn ring_has_six_r_distinct_cells_at_distance_r() {
    let center = hex(-7, 3);
    for r in 1..30u32 {
        let ring = center.ring(r);
        assert_eq!(ring.len(), 6 * r as usize);
        let unique: HashSet<Hex> = ring.iter().copied().collect();
        assert_eq!(unique.len(), ring.len());
        assert!(ring.iter().all(|h| h.unsigned_distance_to(center) == r));
        assert_eq!(ring[0], center + hex(1, -1) * r as i32);
        for pair in ring.windows(2) {
            assert_eq!(pair[0].unsigned_distance_to(pair[1]), 1);
        }
    }
}

#[test]
fn spiral_counts_follow_the_closed_formula() {
    let center = hex(2, 9);
    for r in 0..25u32 {
        let spiral = center.spiral_range(0, r);
        assert_eq!(spiral.len(), (1 + 3 * r * (r + 1)) as usize);
        let unique: HashSet<Hex> = spiral.iter().copied().collect();
        assert_eq!(unique.len(), spiral.len());
        assert!(spiral.iter().all(|h| h.unsigned_distance_to(center) <= r));
        assert_eq!(spiral, center.range(r));
    }
}

#[test]
fn spiral_is_rings_in_order() {
    let center = hex(0, 0);
    let spiral = center.spiral_range(1, 3);
    let mut expected = center.ring(1);
    expected.extend(center.ring(2));
    expected.extend(center.ring(3));
    assert_eq!(spiral, expected);
    assert_eq!(spiral.len(), 6 + 12 + 18);
    assert_eq!(center.spiral_range(3, 2), Vec::<Hex>::new());
    assert_eq!(center.spiral_range(2, 2), center.ring(2));
    assert_eq!(center.spiral_range(0, 0), vec![center]);
}
