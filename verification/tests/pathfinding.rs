use hexgrid::algorithms::pathfinding::a_star;
use hexgrid::hex::{hex, Hex};
use std::collections::HashSet;

fn assert_is_walk(path: &[Hex], start: Hex, end: Hex) {
    assert_eq!(path.first(), Some(&start));
    assert_eq!(path.last(), Some(&end));
    for pair in path.windows(2) {
        assert_eq!(pair[0].unsigned_distance_to(pair[1]), 1);
    }
    let unique: HashSet<Hex> = path.iter().copied().collect();
    assert_eq!(unique.len(), path.len());
}

#[test]
fn a_star_uniform_cost_takes_ten_steps() {
    let start = hex(0, 0);
    let end = hex(10, 0);
    let path = a_star(start, end, |_| Some(0)).unwrap();
    assert_eq!(path.len(), 11);
    assert_is_walk(&path, start, end);
}

#[test]
fn a_star_excluded_goal_has_no_path() {
    let start = hex(0, 0);
    let end = hex(3, -1);
    let path = a_star(start, end, |h| {
        if h == end || h.unsigned_distance_to(start) > 6 {
            None
        } else {
            Some(1)
        }
    });
    assert_eq!(path, None);
}

#[test]
fn a_star_start_is_goal() {
    let here = hex(4, -7);
    assert_eq!(a_star(here, here, |_| None), Some(vec![here]));
    assert_eq!(a_star(here, here, |_| Some(3)), Some(vec![here]));
}

#[test]
fn a_star_neighbor_goal() {
    let start = hex(2, 2);
    let end = hex(3, 1);
    assert_eq!(a_star(start, end, |_| Some(5)), Some(vec![start, end]));
}

#[test]
fn a_star_walks_around_a_wall() {
    let start = hex(0, 0);
    let end = hex(4, 0);
    let wall: HashSet<Hex> = [hex(2, -2), hex(2, -1), hex(2, 0), hex(2, 1)].into_iter().collect();
    let cost = |h: Hex| {
        if wall.contains(&h) || h.unsigned_distance_to(start) > 8 {
            None
        } else {
            Some(0)
        }
    };
    let path = a_star(start, end, cost).unwrap();
    assert_is_walk(&path, start, end);
    assert!(path.len() > 5);
    assert!(path.iter().all(|h| !wall.contains(h)));
}

#[test]
fn a_star_enclosed_start_has_no_path() {
    let start = hex(0, 0);
    let end = hex(5, 5);
    let path = a_star(start, end, |h| {
        if h.unsigned_distance_to(start) == 2 {
            None
        } else {
            Some(1)
        }
    });
    assert_eq!(path, None);
}

#[test]
fn a_star_prefers_the_cheap_detour() {
    let start = hex(0, 0);
    let end = hex(2, 0);
    // the straight way leads over (1, 0), which is expensive
    let cost = |h: Hex| {
        if h.unsigned_distance_to(start) > 5 {
            None
        } else if h == hex(1, 0) {
            Some(100)
        } else {
            Some(0)
        }
    };
    let path = a_star(start, end, cost).unwrap();
    assert_is_walk(&path, start, end);
    assert!(!path.contains(&hex(1, 0)));
    assert_eq!(path.len(), 4);
}

#[test]
fn a_star_at_the_edge_of_the_coordinate_space() {
    let start = hex(i32::MAX, i32::MIN);
    let end = hex(i32::MAX - 2, i32::MIN + 1);
    let path = a_star(start, end, |h| {
        if h.x < i32::MAX - 4 || h.y > i32::MIN + 4 {
            None
        } else {
            Some(0)
        }
    })
    .unwrap();
    assert_eq!(path.first(), Some(&start));
    assert_eq!(path.last(), Some(&end));
    assert_eq!(path.len(), 3);
}
