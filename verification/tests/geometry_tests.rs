use upolygon::geometry::{Direction, Error, Extents, Point};

#[test]
fn point_new_and_to_tuple() {
    let p = Point::new(3, -4);
    assert_eq!(p.x, 3);
    assert_eq!(p.y, -4);
    assert_eq!(p.to_tuple(), vec![3, -4]);
}

#[test]
fn point_shift_moves_in_place() {
    let mut p = Point::new(1, 2);
    assert_eq!(p.shift(10, -5), Ok(()));
    assert_eq!(p, Point::new(11, -3));
}

#[test]
fn point_shift_refuses_overflow_and_keeps_the_point() {
    let mut p = Point::new(i64::MAX, 0);
    assert_eq!(p.shift(1, 0), Err(Error::InvalidArgument));
    assert_eq!(p, Point::new(i64::MAX, 0));
    let mut q = Point::new(0, i64::MIN);
    assert_eq!(q.shift(0, -1), Err(Error::InvalidArgument));
    assert_eq!(q, Point::new(0, i64::MIN));
}

#[test]
fn point_shift_clone_leaves_the_point() {
    let p = Point::new(1, 2);
    assert_eq!(p.shift_clone(-1, -2), Ok(Point::new(0, 0)));
    assert_eq!(p, Point::new(1, 2));
    assert_eq!(Point::new(i64::MIN, 0).shift_clone(-1, 0), Err(Error::InvalidArgument));
}

#[test]
fn point_out_of_bounds_is_half_open() {
    assert!(!Point::new(0, 0).out_of_bounds(4, 3));
    assert!(!Point::new(3, 2).out_of_bounds(4, 3));
    assert!(Point::new(4, 2).out_of_bounds(4, 3));
    assert!(Point::new(3, 3).out_of_bounds(4, 3));
    assert!(Point::new(-1, 0).out_of_bounds(4, 3));
    assert!(Point::new(0, -1).out_of_bounds(4, 3));
    assert!(Point::new(0, 0).out_of_bounds(0, 0));
    assert!(!Point::new(i64::MAX, i64::MAX).out_of_bounds(usize::MAX, usize::MAX));
}

#[test]
fn point_as_mut_gives_the_point_itself() {
    let mut p = Point::new(1, 1);
    p.as_mut().x = 9;
    assert_eq!(p, Point::new(9, 1));
}

#[test]
fn extents_hold_their_four_sides() {
    let e = Extents { min_x: -1, min_y: 2, max_x: 3, max_y: 4 };
    assert_eq!(e, Extents { min_x: -1, min_y: 2, max_x: 3, max_y: 4 });
    assert_ne!(e, Extents { min_x: -1, min_y: 2, max_x: 3, max_y: 5 });
}

#[test]
fn direction_indices_follow_the_cyclic_order() {
    assert_eq!(Direction::Right.to_index(), 0);
    assert_eq!(Direction::DownRight.to_index(), 1);
    assert_eq!(Direction::Down.to_index(), 2);
    assert_eq!(Direction::DownLeft.to_index(), 3);
    assert_eq!(Direction::Left.to_index(), 4);
    assert_eq!(Direction::UpLeft.to_index(), 5);
    assert_eq!(Direction::Up.to_index(), 6);
    assert_eq!(Direction::UpRight.to_index(), 7);
}

#[test]
fn direction_from_index_inverts_to_index() {
    let mut i: usize = 0;
    while i < 8 {
        assert_eq!(Direction::from_index(i).to_index(), i);
        i += 1;
    }
    assert_eq!(Direction::from_index(5), Direction::UpLeft);
}

#[test]
fn direction_to_point_is_the_unit_offset() {
    assert_eq!(Direction::Right.to_point(), Point::new(1, 0));
    assert_eq!(Direction::DownRight.to_point(), Point::new(1, 1));
    assert_eq!(Direction::Down.to_point(), Point::new(0, 1));
    assert_eq!(Direction::DownLeft.to_point(), Point::new(-1, 1));
    assert_eq!(Direction::Left.to_point(), Point::new(-1, 0));
    assert_eq!(Direction::UpLeft.to_point(), Point::new(-1, -1));
    assert_eq!(Direction::Up.to_point(), Point::new(0, -1));
    assert_eq!(Direction::UpRight.to_point(), Point::new(1, -1));
}

#[test]
fn direction_iter_is_canonical() {
    assert_eq!(
        Direction::iter(),
        vec![
            Direction::Right,
            Direction::DownRight,
            Direction::Down,
            Direction::DownLeft,
            Direction::Left,
            Direction::UpLeft,
            Direction::Up,
            Direction::UpRight,
        ]
    );
}

#[test]
fn direction_iter_from_rotates() {
    assert_eq!(
        Direction::iter_from(5),
        vec![
            Direction::UpLeft,
            Direction::Up,
            Direction::UpRight,
            Direction::Right,
            Direction::DownRight,
            Direction::Down,
            Direction::DownLeft,
            Direction::Left,
        ]
    );
    assert_eq!(Direction::iter_from(0), Direction::iter());
    assert_eq!(Direction::iter_from(8), Direction::iter());
    assert_eq!(Direction::iter_from(13), Direction::iter_from(5));
}

#[test]
fn direction_iter_from_direction_starts_there() {
    let from_down = Direction::iter_from_direction(Direction::Down);
    assert_eq!(from_down.len(), 8);
    assert_eq!(from_down[0], Direction::Down);
    assert_eq!(from_down[7], Direction::DownRight);
    assert_eq!(from_down, Direction::iter_from(2));
}

#[test]
fn point_add_sums_the_coordinates() {
    assert_eq!(Point::new(1, 2) + Point::new(-4, 10), Point::new(-3, 12));
    assert_eq!(Direction::UpLeft.to_point() + Point::new(1, 1), Point::new(0, 0));
}
