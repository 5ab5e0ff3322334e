//! Covers, escape lines and freedom tests of the obstacle set.

use hightower::{Bounds, ObstacleSet, Orientation, Point, Segment};

fn set() -> ObstacleSet {
    let mut o = ObstacleSet::new(Bounds::new(Point::new(0, 0), Point::new(100, 100)));
    o.add_segment(Segment::horizontal(50, 20, 60)); // ceiling
    o.add_segment(Segment::horizontal(10, 0, 100)); // floor
    o.add_segment(Segment::vertical(70, 0, 100)); // wall right
    o
}

#[test]
fn covers_are_nearest_covering_segments() {
    let o = set();
    let p = Point::new(30, 30);
    assert_eq!(o.cover_above(p), Some(Segment::horizontal(50, 20, 60)));
    assert_eq!(o.cover_below(p), Some(Segment::horizontal(10, 0, 100)));
    assert_eq!(o.cover_right(p), Some(Segment::vertical(70, 0, 100)));
    assert_eq!(o.cover_left(p), None);
    // exactly beside the ceiling's end: not covered
    assert_eq!(o.cover_above(Point::new(61, 30)), None);
    // exactly at the end: covered (inclusive)
    assert_eq!(
        o.cover_above(Point::new(60, 30)),
        Some(Segment::horizontal(50, 20, 60))
    );
}

#[test]
fn escape_lines_stop_one_unit_short() {
    let o = set();
    let p = Point::new(30, 30);
    assert_eq!(
        o.escape_line(p, Orientation::Vertical),
        Segment::vertical(30, 11, 49)
    );
    assert_eq!(
        o.escape_line(p, Orientation::Horizontal),
        Segment::horizontal(30, 0, 69)
    );
    // point in the open: clipped to the bounds
    let q = Point::new(80, 80);
    assert_eq!(
        o.escape_line(q, Orientation::Horizontal),
        Segment::horizontal(80, 71, 100)
    );
    assert_eq!(
        o.escape_line(q, Orientation::Vertical),
        Segment::vertical(80, 11, 100)
    );
}

#[test]
fn zero_length_escape_line() {
    let mut o = ObstacleSet::new(Bounds::new(Point::new(0, 0), Point::new(10, 10)));
    o.add_segment(Segment::horizontal(4, 0, 10));
    o.add_segment(Segment::horizontal(6, 0, 10));
    let p = Point::new(5, 5);
    let l = o.escape_line(p, Orientation::Vertical);
    assert_eq!(l, Segment::vertical(5, 5, 5));
    assert_eq!(l.len(), 0);
}

#[test]
fn collinear_obstacle_blocks_escape_line() {
    let mut o = ObstacleSet::new(Bounds::new(Point::new(0, 0), Point::new(10, 10)));
    o.add_segment(Segment::horizontal(5, 7, 9));
    let l = o.escape_line(Point::new(3, 5), Orientation::Horizontal);
    assert_eq!(l, Segment::horizontal(5, 0, 6));
}

#[test]
fn point_and_segment_freedom() {
    let o = set();
    assert!(o.is_on_obstacle(Point::new(20, 50)));
    assert!(o.is_on_obstacle(Point::new(70, 3)));
    assert!(!o.is_on_obstacle(Point::new(19, 50)));
    assert!(o.is_free_segment(&Segment::vertical(30, 11, 49)));
    assert!(!o.is_free_segment(&Segment::vertical(30, 11, 50))); // T-touch
    assert!(!o.is_free_segment(&Segment::horizontal(50, 60, 65))); // collinear touch at 60
    assert!(o.is_free_segment(&Segment::horizontal(50, 61, 65)));
    assert!(!o.is_free_segment(&Segment::horizontal(30, 0, 101))); // leaves the bounds
}

#[test]
fn rect_and_path_helpers() {
    let mut o = ObstacleSet::new(Bounds::new(Point::new(0, 0), Point::new(10, 10)));
    o.add_rect(Point::new(2, 2), Point::new(5, 4));
    assert_eq!(o.len(), 4);
    o.add_path(&[Point::new(7, 7), Point::new(9, 7), Point::new(9, 9)]);
    assert_eq!(o.len(), 6);
    assert!(o.is_on_obstacle(Point::new(9, 8)));
}
