//! Segment predicates.

use hightower::{Point, Segment};

#[test]
fn covers_uses_perpendicular_projection() {
    let s = Segment::horizontal(10, 0, 5);
    assert!(s.covers(Point::new(0, 3)));
    assert!(s.covers(Point::new(5, 30)));
    assert!(!s.covers(Point::new(6, 10)));
    let v = Segment::vertical(2, -1, 1);
    assert!(v.covers(Point::new(100, 0)));
    assert!(!v.covers(Point::new(2, 2)));
}

#[test]
fn crossing_is_inclusive_and_handles_points() {
    let h = Segment::horizontal(0, 0, 10);
    let v = Segment::vertical(10, 0, 10);
    assert_eq!(h.crossing(&v), Some(Point::new(10, 0)));
    assert_eq!(v.crossing(&h), Some(Point::new(10, 0)));
    let far = Segment::vertical(11, -5, 5);
    assert_eq!(h.crossing(&far), None);
    let point = Segment::vertical(4, 0, 0);
    assert_eq!(h.crossing(&point), Some(Point::new(4, 0)));
    let point_off = Segment::vertical(4, 1, 1);
    assert_eq!(h.crossing(&point_off), None);
}

#[test]
fn collinear_overlap_and_touch() {
    let a = Segment::horizontal(3, 0, 5);
    let b = Segment::horizontal(3, 5, 9);
    let c = Segment::horizontal(3, 6, 9);
    let d = Segment::horizontal(4, 0, 5);
    assert!(a.touches(&b));
    assert!(!a.touches(&c));
    assert!(!a.touches(&d));
    let p = Segment::horizontal(3, 2, 2);
    assert!(a.touches(&p));
}

#[test]
fn between_and_endpoints() {
    let s = Segment::between(Point::new(5, 2), Point::new(1, 2)).unwrap();
    assert_eq!(s, Segment::horizontal(2, 1, 5));
    assert_eq!(s.start(), Point::new(1, 2));
    assert_eq!(s.end(), Point::new(5, 2));
    assert!(Segment::between(Point::new(0, 0), Point::new(1, 1)).is_none());
    assert_eq!(
        Segment::between(Point::new(0, 0), Point::new(0, 0))
            .unwrap()
            .len(),
        0
    );
}
