use hexgrid::bounds::HexBounds;
use hexgrid::hex::{hex, Hex};
use std::collections::HashSet;

#[test]
fn bounds_membership() {
    let bounds = HexBounds::new(hex(3, -2), 4);
    assert!(bounds.is_in_bounds(hex(3, -2)));
    assert!(bounds.is_in_bounds(hex(7, -2)));
    assert!(bounds.is_in_bounds(hex(3, 2)));
    assert!(bounds.is_in_bounds(hex(-1, 2)));
    assert!(!bounds.is_in_bounds(hex(8, -2)));
    assert!(!bounds.is_in_bounds(hex(5, 1)));
    assert!(!HexBounds::new(hex(0, 0), 0).is_in_bounds(hex(0, 1)));
    assert!(HexBounds::new(hex(i32::MIN, i32::MAX), u32::MAX).is_in_bounds(hex(i32::MAX, i32::MIN)));
}

#[test]
fn bounds_count_and_coords() {
    let bounds = HexBounds::new(hex(1, 1), 3);
    assert_eq!(bounds.hex_count(), 37);
    let all = bounds.all_coords();
    assert_eq!(all.len(), 37);
    assert_eq!(all[0], hex(1, 1));
    assert!(all.iter().all(|h| bounds.is_in_bounds(*h)));
    assert_eq!(HexBounds::new(hex(0, 0), 0).hex_count(), 1);
    assert_eq!(HexBounds::new(hex(0, 0), 10).hex_count(), 331);
}

#[test]
fn wrap_leaves_the_region_alone() {
    let bounds = HexBounds::new(hex(-2, 5), 3);
    for h in bounds.all_coords() {
        assert_eq!(bounds.wrap(h), h);
    }
}

#[test]
fn wrap_steps_over_the_border_to_the_other_side() {
    let bounds = HexBounds::new(hex(0, 0), 2);
    // the copies of the region are centered at (5, -2) and its rotations
    assert_eq!(bounds.wrap(hex(5, -2)), hex(0, 0));
    assert_eq!(bounds.wrap(hex(3, 0)), hex(-2, 2));
    assert_eq!(bounds.wrap(hex(3, -3)), hex(0, 2));
    assert_eq!(bounds.wrap(hex(-3, 0)), hex(2, -2));
    assert_eq!(bounds.wrap(hex(10, -4)), hex(0, 0));
    assert_eq!(bounds.wrap(hex(11, -4)), hex(1, 0));
}

#[test]
fn wrap_maps_each_copy_onto_the_region() {
    for radius in 0..5u32 {
        let center = hex(7, -3);
        let bounds = HexBounds::new(center, radius);
        let r = radius as i32;
        let copy_center = center + hex(2 * r + 1, -r);
        let copy = HexBounds::new(copy_center, radius);
        let wrapped: HashSet<Hex> = copy.all_coords().into_iter().map(|h| bounds.wrap(h)).collect();
        let region: HashSet<Hex> = bounds.all_coords().into_iter().collect();
        assert_eq!(wrapped, region);
        for h in copy.all_coords() {
            assert_eq!(bounds.wrap(h), h - hex(2 * r + 1, -r));
        }
        for h in center.range(4 * radius + 6) {
            assert!(bounds.is_in_bounds(bounds.wrap(h)));
        }
    }
}
