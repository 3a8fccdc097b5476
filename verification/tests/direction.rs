use hexgrid::direction::{DiagonalDirection, Direction};

#[test]
fn rotate_ccw_cw() {
    for direction in Direction::ALL_DIRECTIONS {
        assert_eq!(direction, direction.rotate_cw(6));
        assert_eq!(direction, direction.rotate_cw(12));
        assert_eq!(direction, direction.rotate_cw(1).rotate_ccw(1));
        assert_eq!(direction, direction.rotate_ccw(1).rotate_cw(1));
        assert_eq!(direction.counter_clockwise(), direction.rotate_ccw(1));
        assert_eq!(
            direction.counter_clockwise().counter_clockwise(),
            direction.rotate_ccw(2)
        );
        assert_eq!(direction.clockwise(), direction.rotate_cw(1));
        assert_eq!(direction.clockwise().clockwise(), direction.rotate_cw(2));
    }
}

#[test]
fn rotations_reverse_each_other() {
    for direction in Direction::ALL_DIRECTIONS {
        assert_eq!(direction, direction.counter_clockwise().clockwise());
        assert_eq!(direction, direction.clockwise().counter_clockwise());
    }
}

#[test]
fn six_rotations_comes_home() {
    for direction in Direction::ALL_DIRECTIONS {
        let mut clockwise_dir = direction;
        let mut counter_clockwise_dir = direction;

        for _ in 0..6 {
            clockwise_dir = clockwise_dir.counter_clockwise();
            counter_clockwise_dir = counter_clockwise_dir.clockwise();
        }

        assert_eq!(direction, clockwise_dir);
        assert_eq!(direction, counter_clockwise_dir);
    }
}

#[test]
fn diagonal_neighbors() {
    for dir in Direction::ALL_DIRECTIONS {
        assert_eq!(dir.diagonal_ccw().direction_cw(), dir);
        assert_eq!(dir.diagonal_cw().direction_ccw(), dir);
    }
}

#[test]
fn dir_neighbors() {
    for dir in DiagonalDirection::ALL_DIRECTIONS {
        assert_eq!(dir.direction_ccw().diagonal_cw(), dir);
        assert_eq!(dir.direction_cw().diagonal_ccw(), dir);
    }
}

#[test]
fn iter_lists_the_directions_in_order() {
    let all = Direction::iter();
    assert_eq!(all, Direction::ALL_DIRECTIONS);
    for (i, dir) in all.into_iter().enumerate() {
        assert_eq!(dir.index() as usize, i);
        assert_eq!(Direction::from_index(i as u8), dir);
    }
    assert_eq!(Direction::from_index(7), Direction::Top);
}

#[test]
fn rotations_of_any_size_cancel() {
    for dir in Direction::ALL_DIRECTIONS {
        for n in [0usize, 1, 5, 6, 7, 100, usize::MAX] {
            assert_eq!(dir.rotate_ccw(n).rotate_cw(n), dir);
            assert_eq!(dir.rotate_cw(n).rotate_ccw(n), dir);
        }
        assert_eq!(dir.opposite(), dir.rotate_cw(3));
        assert_eq!(dir.opposite().opposite(), dir);
    }
    for dir in DiagonalDirection::ALL_DIRECTIONS {
        for n in [0usize, 1, 5, 6, 7, 100, usize::MAX] {
            assert_eq!(dir.rotate_ccw(n).rotate_cw(n), dir);
        }
        assert_eq!(dir.clockwise(), dir.rotate_cw(1));
        assert_eq!(dir.counter_clockwise(), dir.rotate_ccw(1));
        assert_eq!(dir.rotate_cw(6), dir);
    }
}
