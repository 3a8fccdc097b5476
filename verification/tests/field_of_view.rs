use hexgrid::algorithms::field_of_view::range_fov;
use hexgrid::hex::{hex, Hex};
use std::collections::HashSet;

#[test]
fn fov_without_blockers_is_the_whole_range() {
    for (center, range) in [(hex(0, 0), 0u32), (hex(0, 0), 1), (hex(3, -8), 4), (hex(-5, 5), 9)] {
        let seen = range_fov(center, range, |_| false);
        let unique: HashSet<Hex> = seen.iter().copied().collect();
        assert_eq!(unique.len(), seen.len());
        let all: HashSet<Hex> = center.spiral_range(0, range).into_iter().collect();
        assert_eq!(unique, all);
        assert_eq!(seen[0], center);
    }
}

#[test]
fn fov_with_everything_blocking_sees_nothing() {
    assert_eq!(range_fov(hex(1, 1), 3, |_| true), Vec::<Hex>::new());
}

#[test]
fn fov_stops_at_a_blocker() {
    let center = hex(0, 0);
    let wall = hex(2, 0);
    let seen: HashSet<Hex> = range_fov(center, 4, |h| h == wall).into_iter().collect();
    assert!(seen.contains(&hex(1, 0)));
    assert!(!seen.contains(&wall));
    // straight behind the wall, on the line to (4, 0)
    assert!(!seen.contains(&hex(3, 0)));
    assert!(!seen.contains(&hex(4, 0)));
    // the other way nothing is in the way
    assert!(seen.contains(&hex(-4, 0)));
    assert!(seen.contains(&hex(-3, 0)));
    assert!(seen.iter().all(|h| h.unsigned_distance_to(center) <= 4));
}

#[test]
fn fov_inside_a_closed_room() {
    let center = hex(2, 2);
    let seen: HashSet<Hex> = range_fov(center, 6, |h| h.unsigned_distance_to(center) == 3)
        .into_iter()
        .collect();
    let room: HashSet<Hex> = center.spiral_range(0, 2).into_iter().collect();
    assert_eq!(seen, room);
}
