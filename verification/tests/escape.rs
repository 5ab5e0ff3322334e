//! Process I helpers.

use hightower::escape::{beyond_ends, toward};
use hightower::{Point, Segment};

#[test]
fn toward_helper() {
    let z = Point::new(5, 5);
    assert_eq!(toward(Point::new(9, 5), z), Point::new(8, 5));
    assert_eq!(toward(Point::new(5, 1), z), Point::new(5, 2));
    assert_eq!(toward(Point::new(5, 6), z), z);
}

#[test]
fn beyond_ends_steps_outward_from_the_cover() {
    let cover = Segment::horizontal(12, 10, 20);
    assert_eq!(
        beyond_ends(&cover),
        [(Point::new(10, 12), 9), (Point::new(20, 12), 21)]
    );
    // a zero-length cover yields both neighbours
    let point = Segment::vertical(4, 7, 7);
    assert_eq!(
        beyond_ends(&point),
        [(Point::new(4, 7), 6), (Point::new(4, 7), 8)]
    );
}
