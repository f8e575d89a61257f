use radix_spline::{Direction, Line, Point};

#[test]
fn point_accessors_and_key_equality() {
    let p = Point::new(7, 3);
    assert_eq!(p.key(), 7);
    assert_eq!(p.position(), 3);
    // equality and order look at the key alone
    assert_eq!(Point::new(7, 3), Point::new(7, 9));
    assert_ne!(Point::new(7, 3), Point::new(8, 3));
    assert!(Point::new(1, 9) < Point::new(2, 0));
    assert_eq!(Point::new(5, 1).partial_cmp(&Point::new(5, 2)), Some(std::cmp::Ordering::Equal));
}

#[test]
fn vertical_lines() {
    assert!(Line::new(Point::new(4, 0), Point::new(4, 9)).is_vertical());
    assert!(!Line::new(Point::new(4, 0), Point::new(5, 0)).is_vertical());
}

#[test]
fn directions_exact() {
    let base = Point::new(10, 5);
    let steep = Line::new(base, Point::new(11, 9));
    let flat = Line::new(base, Point::new(14, 6));
    let same = Line::new(base, Point::new(12, 13));
    assert_eq!(steep.get_direction(&flat), Direction::Left);
    assert_eq!(flat.get_direction(&steep), Direction::Right);
    assert_eq!(steep.get_direction(&same), Direction::Coincide);
    // falling lines compare below rising ones
    let falling = Line::new(base, Point::new(12, 1));
    let falling_more = Line::new(base, Point::new(11, 0));
    assert_eq!(falling.get_direction(&flat), Direction::Right);
    assert_eq!(falling.get_direction(&falling_more), Direction::Left);
    assert!(!falling.is_left(&flat));
    assert!(falling_more.is_right(&falling));
}

#[test]
fn directions_at_the_extremes() {
    let base = Point::new(0, 0);
    let a = Line::new(base, Point::new(u64::MAX, usize::MAX));
    let b = Line::new(base, Point::new(u64::MAX - 1, usize::MAX));
    assert_eq!(b.get_direction(&a), Direction::Left);
    assert_eq!(a.get_direction(&a), Direction::Coincide);
}
