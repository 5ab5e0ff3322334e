//! The orthogonal visibility graph router.

use hightower::{
    Bounds, ObstacleSet, Point, Segment, VisibilityConfig, VisibilityGraph, route_visibility,
    route_visibility_with, validate_path,
};

fn p(x: i64, y: i64) -> Point {
    Point::new(x, y)
}

#[test]
fn candidate_coordinates_hug_obstacles() {
    let mut o = ObstacleSet::new(Bounds::new(p(0, 0), p(50, 50)));
    o.add_rect(p(10, 20), p(30, 40));
    let g = VisibilityGraph::new(&o, &[p(5, 5)]);
    assert_eq!(g.xs(), &[0, 5, 9, 31, 50]);
    assert_eq!(g.ys(), &[0, 5, 19, 41, 50]);
    // a loose segment gets both sides
    let mut o = ObstacleSet::new(Bounds::new(p(0, 0), p(50, 50)));
    o.add_segment(Segment::horizontal(20, 10, 30));
    let g = VisibilityGraph::new(&o, &[]);
    assert_eq!(g.xs(), &[0, 9, 31, 50]);
    assert_eq!(g.ys(), &[0, 19, 21, 50]);
}

#[test]
fn routes_around_a_box_with_shortest_length() {
    let mut o = ObstacleSet::new(Bounds::new(p(0, 0), p(100, 100)));
    o.add_rect(p(40, 20), p(60, 80));
    let (a, b) = (p(10, 50), p(90, 50));
    let r = route_visibility_with(&o, a, b, &VisibilityConfig::default());
    let path = r.path.expect("path");
    validate_path(&o, a, b, &path).unwrap();
    let len: i64 = path.windows(2).map(|w| w[0].manhattan(w[1])).sum();
    // 80 across plus 2 * 31 to clear the box (to y = 19 or 81)
    assert_eq!(len, 80 + 62);
    assert_eq!(r.cost, Some(len));
}

#[test]
fn bend_penalty_trades_length_for_bends() {
    let mut o = ObstacleSet::new(Bounds::new(p(0, 0), p(100, 100)));
    o.add_rect(p(30, 20), p(45, 55));
    o.add_rect(p(55, 45), p(70, 80));
    let (a, b) = (p(10, 50), p(90, 50));
    let short = route_visibility_with(&o, a, b, &VisibilityConfig { bend_penalty: 0 })
        .path
        .unwrap();
    let calm = route_visibility_with(&o, a, b, &VisibilityConfig { bend_penalty: 30 })
        .path
        .unwrap();
    validate_path(&o, a, b, &short).unwrap();
    validate_path(&o, a, b, &calm).unwrap();
    assert!(short.len() > calm.len(), "short {short:?} calm {calm:?}");
}

#[test]
fn unreachable_and_degenerate_inputs() {
    let mut o = ObstacleSet::new(Bounds::new(p(0, 0), p(100, 100)));
    o.add_rect(p(30, 30), p(50, 50));
    assert!(route_visibility(&o, p(10, 10), p(40, 40)).is_none());
    assert_eq!(route_visibility(&o, p(5, 5), p(5, 5)), Some(vec![p(5, 5)]));
    assert!(route_visibility(&o, p(30, 40), p(5, 5)).is_none()); // on an obstacle
}
