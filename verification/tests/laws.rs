//! Concrete instances of the properties the library proves, plus the edge
//! cases of its smaller helpers.

use hightower::grid::{flood, route_grid};
use hightower::refine::{PathError, cleanup, improve_extension, improve_probe, validate_path};
use hightower::router::Network;
use hightower::svg::{Layers, c, rect_segments};
use hightower::visibility::states_fit_for;
use hightower::{
    Bounds, Improvement, NetId, ObstacleSet, Orientation, Outcome, Point, RouterConfig, Segment,
    Trace, TraceEvent, VisibilityConfig, VisibilityGraph, route, route_visibility, route_visibility_with,
    route_with,
};

fn p(x: i64, y: i64) -> Point {
    Point::new(x, y)
}

fn arena() -> ObstacleSet {
    ObstacleSet::new(Bounds::new(p(0, 0), p(100, 100)))
}

fn length(path: &[Point]) -> i64 {
    path.windows(2).map(|w| w[0].manhattan(w[1])).sum()
}

fn boxed() -> ObstacleSet {
    let mut o = arena();
    o.add_rect(p(40, 20), p(60, 80));
    o
}

#[test]
fn grid_path_is_shortest_around_a_box() {
    let o = boxed();
    let (a, b) = (p(10, 50), p(90, 50));
    let g = route_grid(&o, a, b).expect("reachable");
    validate_path(&o, a, b, &g).unwrap();
    // 80 across plus 2 * 31 to clear the box at unit distance
    assert_eq!(length(&g), 142);
    let h = route(&o, a, b).expect("line search finds it");
    assert!(length(&g) <= length(&h));
}

#[test]
fn grid_reports_unreachable_targets() {
    let mut o = arena();
    o.add_segment(Segment::vertical(50, 0, 100));
    let r = flood(&o, p(10, 40), p(90, 40));
    assert!(r.path.is_none());
    assert_eq!(r.visited[0], (p(10, 40), 0));
    assert!(r.visited.iter().all(|&(q, _)| o.is_free_point(q) && q.x < 50));
    // an endpoint on an obstacle visits nothing
    let r = flood(&o, p(50, 40), p(90, 40));
    assert!(r.path.is_none());
    assert!(r.visited.is_empty());
}

#[test]
fn grid_distances_start_at_zero_and_grow_by_one() {
    let o = arena();
    let r = flood(&o, p(3, 3), p(5, 3));
    assert_eq!(r.path, Some(vec![p(3, 3), p(5, 3)]));
    assert_eq!(r.visited[0], (p(3, 3), 0));
    for w in r.visited.windows(2) {
        assert!(w[1].1 == w[0].1 || w[1].1 == w[0].1 + 1);
    }
    assert_eq!(r.visited.last().map(|v| v.0), Some(p(5, 3)));
    assert_eq!(r.visited.last().map(|v| v.1), Some(2));
}

#[test]
fn raw_path_is_valid_and_improvements_never_lengthen_it() {
    let mut o = arena();
    o.add_rect(p(20, 40), p(35, 60));
    o.add_rect(p(50, 20), p(65, 45));
    o.add_segment(Segment::horizontal(75, 10, 80));
    let (a, b) = (p(10, 50), p(90, 30));
    for improve in [Improvement::CleanupOnly, Improvement::ExtensionOnly, Improvement::Full] {
        let r = route_with(&o, a, b, &RouterConfig { improve, ..Default::default() });
        let path = r.path.expect("path");
        let raws: Vec<&Vec<Point>> = r
            .trace
            .events
            .iter()
            .filter_map(|e| match e {
                TraceEvent::RawPath { corners } => Some(corners),
                _ => None,
            })
            .collect();
        assert_eq!(raws.len(), 1);
        validate_path(&o, a, b, raws[0]).unwrap();
        assert!(length(&path) <= length(raws[0]));
        if improve != Improvement::Full {
            assert!(path.len() <= raws[0].len());
        }
        if improve == Improvement::CleanupOnly {
            assert_eq!(&path, raws[0]);
        }
        assert_eq!(r.trace.final_path(), Some(path.as_slice()));
    }
}

#[test]
fn a_found_path_has_one_crossing_on_entered_lines() {
    let mut o = arena();
    o.add_segment(Segment::vertical(50, 0, 80));
    let r = route_with(&o, p(10, 40), p(90, 40), &RouterConfig::default());
    assert_eq!(r.outcome, Outcome::Found);
    let crossings: Vec<(Point, Segment, Segment)> = r
        .trace
        .events
        .iter()
        .filter_map(|e| match e {
            TraceEvent::Intersection { point, line_a, line_b } => Some((*point, *line_a, *line_b)),
            _ => None,
        })
        .collect();
    assert_eq!(crossings.len(), 1);
    let (x, la, lb) = crossings[0];
    assert!(la.contains(x) && lb.contains(x));
    let entered = |net: NetId, l: Segment| {
        r.trace.events.iter().any(|e| {
            matches!(e, TraceEvent::LineAdded { net: n, line, .. } if *n == net && *line == l)
        })
    };
    assert!(entered(NetId::A, la));
    assert!(entered(NetId::B, lb));
    assert!(r.steps <= RouterConfig::default().max_steps);
}

#[test]
fn giving_up_is_recorded_once_per_network() {
    let mut o = arena();
    o.add_rect(p(30, 30), p(50, 50));
    let r = route_with(&o, p(10, 10), p(40, 40), &RouterConfig::default());
    assert_eq!(r.outcome, Outcome::NoEscape);
    let gave_up: Vec<NetId> = r
        .trace
        .events
        .iter()
        .filter_map(|e| match e {
            TraceEvent::NoEscape { net } => Some(*net),
            _ => None,
        })
        .collect();
    assert_eq!(gave_up.len(), 2);
    assert!(gave_up.contains(&NetId::A) && gave_up.contains(&NetId::B));
    assert!(!r.trace.events.iter().any(|e| matches!(e, TraceEvent::Intersection { .. })));
    assert!(r.trace.final_path().is_none());
}

#[test]
fn invalid_input_leaves_an_empty_trace() {
    let mut o = arena();
    o.add_segment(Segment::horizontal(10, 0, 20));
    let r = route_with(&o, p(10, 10), p(90, 90), &RouterConfig::default());
    assert_eq!(r.outcome, Outcome::InvalidInput);
    assert_eq!(r.steps, 0);
    assert!(r.trace.is_empty());
    assert!(r.path.is_none());
}

#[test]
fn a_zero_step_limit_stops_at_once() {
    let mut o = arena();
    o.add_segment(Segment::vertical(50, 0, 80));
    let r = route_with(&o, p(10, 40), p(90, 40), &RouterConfig { max_steps: 0, ..Default::default() });
    assert_eq!(r.outcome, Outcome::StepLimit);
    assert_eq!(r.steps, 0);
    assert!(r.path.is_none());
}

#[test]
fn cleanup_is_idempotent_and_never_lengthens() {
    let mut path = vec![p(0, 0), p(5, 0), p(10, 0), p(10, 5), p(10, 5), p(10, 3), p(20, 3)];
    let before = length(&path);
    cleanup(&mut path);
    let once = path.clone();
    cleanup(&mut path);
    assert_eq!(path, once);
    assert!(length(&path) <= before);
    assert_eq!(length(&path), 23);
}

#[test]
fn improvements_shorten_detours() {
    let obstacles = arena();
    let mut path = vec![p(0, 0), p(0, 20), p(30, 20), p(30, 5), p(60, 5), p(60, 20), p(90, 20)];
    let before = length(&path);
    assert!(improve_extension(&obstacles, &mut path));
    assert!(length(&path) < before);
    let mut bulge = vec![p(0, 0), p(10, 0), p(10, 10), p(4, 10), p(4, 20)];
    let before = length(&bulge);
    assert!(improve_probe(&obstacles, &mut bulge));
    assert_eq!(length(&bulge), 24);
    assert!(length(&bulge) < before);
}

#[test]
fn every_validation_error_has_an_input() {
    let mut o = arena();
    o.add_segment(Segment::vertical(50, 0, 80));
    let (a, b) = (p(10, 10), p(90, 10));
    assert_eq!(validate_path(&o, a, b, &[]), Err(PathError::WrongStart));
    assert_eq!(validate_path(&o, a, b, &[p(11, 10), b]), Err(PathError::WrongStart));
    assert_eq!(validate_path(&o, a, b, &[a, p(90, 11)]), Err(PathError::WrongEnd));
    assert_eq!(
        validate_path(&o, a, b, &[a, p(10, 101), p(90, 101), b]),
        Err(PathError::OutsideBounds { index: 1, corner: p(10, 101) })
    );
    assert_eq!(
        validate_path(&o, p(50, 5), p(50, 5), &[p(50, 5)]),
        Err(PathError::OnObstacle { corner: p(50, 5) })
    );
    assert_eq!(
        validate_path(&o, a, b, &[a, a, b]),
        Err(PathError::ZeroLength { index: 0, corner: a })
    );
    assert_eq!(
        validate_path(&o, a, b, &[a, p(20, 20), b]),
        Err(PathError::Diagonal { from: a, to: p(20, 20) })
    );
    assert_eq!(
        validate_path(&o, a, b, &[a, p(10, 90), p(10, 95), p(90, 95), b]),
        Err(PathError::Collinear { index: 1 })
    );
    assert_eq!(validate_path(&o, a, b, &[a, b]), Err(PathError::Blocked { from: a, to: b }));
    assert_eq!(validate_path(&o, a, a, &[a]), Ok(()));
}

#[test]
fn validation_reports_the_first_failing_check() {
    let mut o = arena();
    o.add_segment(Segment::vertical(50, 0, 80));
    let (a, b) = (p(10, 10), p(90, 10));
    // a corner outside the bounds is reported before any stretch error
    assert_eq!(
        validate_path(&o, a, b, &[a, a, p(20, 20), p(10, 101), b]),
        Err(PathError::OutsideBounds { index: 3, corner: p(10, 101) })
    );
    // the earliest bad stretch wins: a diagonal before a blocked stretch
    assert_eq!(
        validate_path(&o, a, b, &[a, p(20, 20), p(20, 10), b]),
        Err(PathError::Diagonal { from: a, to: p(20, 20) })
    );
    // a blocked stretch before a repeated corner
    assert_eq!(
        validate_path(&o, a, b, &[a, p(60, 10), p(60, 10), b]),
        Err(PathError::Blocked { from: a, to: p(60, 10) })
    );
    // two stretches in one direction, the second also blocked
    assert_eq!(
        validate_path(&o, a, b, &[a, p(20, 10), b]),
        Err(PathError::Collinear { index: 1 })
    );
}

#[test]
fn visibility_cost_is_the_length_without_penalty() {
    let o = boxed();
    let (a, b) = (p(10, 50), p(90, 50));
    let r = route_visibility_with(&o, a, b, &VisibilityConfig::default());
    let path = r.path.expect("path");
    assert_eq!(r.cost, Some(length(&path)));
    assert_eq!(r.cost, Some(142));
    let calm = route_visibility_with(&o, a, b, &VisibilityConfig { bend_penalty: 20 });
    let calm_path = calm.path.expect("path");
    assert!(calm.cost.unwrap() >= length(&calm_path));
    assert_eq!(calm.cost, Some(length(&calm_path) + 20 * (calm_path.len() as i64 - 2)));
    let same = route_visibility_with(&o, a, a, &VisibilityConfig { bend_penalty: 5 });
    assert_eq!(same.path, Some(vec![a]));
    assert_eq!(same.cost, Some(0));
    let blocked = route_visibility_with(&o, p(40, 50), b, &VisibilityConfig::default());
    assert!(blocked.path.is_none() && blocked.cost.is_none());
    assert_eq!(blocked.expanded, 0);
}

#[test]
fn ordinary_scenes_fit_the_visibility_table() {
    let o = boxed();
    assert!(states_fit_for(&o));
    assert!(states_fit_for(&arena()));
    let r = route_visibility(&o, p(10, 50), p(90, 50)).expect("path");
    assert_eq!(length(&r), 142);
}

#[test]
fn visibility_graph_edges_join_neighbouring_candidates() {
    let mut o = ObstacleSet::new(Bounds::new(p(0, 0), p(10, 10)));
    o.add_segment(Segment::vertical(5, 0, 6));
    let g = VisibilityGraph::new(&o, &[p(2, 2)]);
    assert_eq!(g.xs(), &[0, 2, 4, 6, 10]);
    assert_eq!(g.ys(), &[0, 2, 7, 10]);
    assert_eq!(g.node_count(), 20);
    let edges = g.edges();
    assert!(edges.contains(&Segment::horizontal(7, 4, 6)));
    assert!(!edges.contains(&Segment::horizontal(2, 4, 6)));
    assert!(edges.iter().all(|e| o.is_free_segment(e)));
    let copy = g.clone();
    assert_eq!(copy.xs(), g.xs());
}

#[test]
fn svg_helpers() {
    assert_eq!(
        rect_segments(p(1, 2), p(5, 7)),
        [
            Segment::horizontal(2, 1, 5),
            Segment::horizontal(7, 1, 5),
            Segment::vertical(1, 2, 7),
            Segment::vertical(5, 2, 7),
        ]
    );
    assert_eq!(c(-7), -7);
    let l = Layers::default();
    assert!(l.lines && l.probes && l.escape_points && l.intersection && l.final_path);
    assert!(!l.raw_path);
}

#[test]
fn trace_counts_and_final_path() {
    let mut t = Trace::default();
    assert!(t.is_empty());
    assert_eq!(t.final_path(), None);
    let line = Segment::horizontal(0, 0, 5);
    t.push(TraceEvent::LineAdded { net: NetId::A, line, through: p(0, 0) });
    t.push(TraceEvent::ProbeLine { net: NetId::B, line, through: p(1, 0) });
    t.push(TraceEvent::RawPath { corners: vec![p(0, 0), p(5, 0)] });
    t.push(TraceEvent::Improved { corners: vec![p(0, 0), p(4, 0)] });
    t.push(TraceEvent::NoEscape { net: NetId::B });
    assert_eq!(t.len(), 5);
    assert_eq!(t.line_count(), 1);
    assert_eq!(t.probe_count(), 1);
    assert_eq!(t.final_path(), Some(&[p(0, 0), p(4, 0)][..]));
    assert_eq!(NetId::A.other(), NetId::B);
    assert_eq!(NetId::B.other(), NetId::A);
}

#[test]
fn networks_record_lines_and_read_off_chains() {
    let mut trace = Trace::default();
    let mut net = Network::new(NetId::A, p(10, 10));
    assert_eq!(net.object_point(), (0, p(10, 10)));
    let l0 = Segment::horizontal(10, 0, 20);
    assert_eq!(net.add_line(l0, 0, &mut trace), 0);
    assert!(net.is_used(&Segment::horizontal(10, 15, 30)));
    assert!(!net.is_used(&Segment::horizontal(11, 0, 20)));
    let e = net.push_point(p(15, 10), Some(0));
    assert_eq!(e, 1);
    assert_eq!(net.object_point(), (1, p(15, 10)));
    let l1 = Segment::vertical(15, 0, 40);
    assert_eq!(net.line_id_or_add(l1, 1, &mut trace), 1);
    assert_eq!(net.line_id_or_add(l1, 1, &mut trace), 1);
    assert_eq!(trace.line_count(), 2);
    assert_eq!(net.find_crossing(&Segment::horizontal(30, 0, 50)), Some((p(15, 30), 1)));
    assert_eq!(net.find_crossing(&Segment::horizontal(50, 0, 50)), None);
    assert_eq!(net.chain(1, p(15, 30)), vec![p(15, 30), p(15, 10), p(10, 10)]);
}

#[test]
fn geometry_helpers() {
    let a = p(1, 2);
    let b = p(4, -2);
    assert_eq!(a.manhattan(b), 7);
    assert_eq!(a.dist2(b), 25);
    assert_eq!(a.along(Orientation::Horizontal), 1);
    assert_eq!(a.across(Orientation::Horizontal), 2);
    assert_eq!(Point::from_along_across(Orientation::Vertical, 2, 1), a);
    assert_eq!(Point::from((3, 4)), p(3, 4));
    assert_eq!(Orientation::Horizontal.perpendicular(), Orientation::Vertical);
    let bounds = Bounds::new(p(5, 7), p(-1, 2));
    assert_eq!((bounds.min, bounds.max), (p(-1, 2), p(5, 7)));
    assert_eq!((bounds.width(), bounds.height()), (6, 5));
    assert!(bounds.contains(p(5, 2)) && !bounds.contains(p(6, 2)));
    let s = Segment::new(Orientation::Vertical, 3, 9, 1);
    assert_eq!((s.from, s.to), (1, 9));
    assert_eq!(s.endpoints(), [p(3, 1), p(3, 9)]);
    assert!(!s.is_empty());
    assert!(Segment::horizontal(0, 4, 4).is_empty());
}

#[test]
fn a_rectangle_is_the_same_from_either_corner() {
    let mut o1 = arena();
    o1.add_rect(p(40, 20), p(60, 80));
    let mut o2 = arena();
    o2.add_rect(p(60, 80), p(40, 20));
    let mut o3 = arena();
    o3.add_rect(p(40, 80), p(60, 20));
    assert_eq!(o1.len(), 4);
    assert_eq!(o1.segments(), o2.segments());
    assert_eq!(o1.segments(), o3.segments());
    assert_eq!(o1.rects(), o2.rects());
    assert_eq!(o1.rects(), &vec![(p(40, 20), p(60, 80))]);
}

#[test]
fn a_line_search_path_means_the_grid_finds_one() {
    let mut o = boxed();
    o.add_segment(Segment::horizontal(90, 0, 70));
    for (a, b) in [(p(10, 50), p(90, 50)), (p(5, 95), p(95, 5)), (p(10, 10), p(10, 95))] {
        let r = route_with(&o, a, b, &RouterConfig::default());
        assert_eq!(r.path.is_some(), r.outcome == Outcome::Found);
        if let Some(path) = r.path {
            validate_path(&o, a, b, &path).unwrap();
            assert!(route_grid(&o, a, b).is_some());
        }
    }
}
