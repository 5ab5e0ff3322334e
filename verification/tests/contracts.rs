//! Concrete instances of the contracts of the escape step, Process II, the
//! improvement passes, the editor's obstacle set and the trace marks.

use hightower::editor::Board;
use hightower::escape::{ProcessOutcome, process_ii};
use hightower::grid::flood;
use hightower::refine::{PathError, cleanup, improve_probe, validate_path};
use hightower::router::{Flag, Network, StepResult, escape_step};
use hightower::svg::{Layers, Mark, trace_marks};
use hightower::{
    Bounds, Improvement, NetId, ObstacleSet, Outcome, Point, Process, RouterConfig, Segment, Trace,
    TraceEvent, route, route_with,
};

fn p(x: i64, y: i64) -> Point {
    Point::new(x, y)
}

fn arena() -> ObstacleSet {
    ObstacleSet::new(Bounds::new(p(0, 0), p(100, 100)))
}

fn length(path: &[Point]) -> i64 {
    path.windows(2).map(|w| w[0].manhattan(w[1])).sum()
}

#[test]
fn crossing_escape_lines_are_always_found() {
    // The vertical escape line of A crosses the horizontal one of B.
    let mut o = arena();
    o.add_segment(Segment::horizontal(60, 0, 100));
    let (a, b) = (p(20, 10), p(70, 40));
    let r = route_with(&o, a, b, &RouterConfig::default());
    assert_eq!(r.outcome, Outcome::Found);
    assert_eq!(r.steps, 2);
    validate_path(&o, a, b, r.path.as_ref().unwrap()).unwrap();
    assert!(route(&o, a, b).is_some());
}

#[test]
fn first_step_enters_both_lines_of_a_fresh_network() {
    let o = arena();
    let mut net = Network::new(NetId::A, p(30, 30));
    let other = Network::new(NetId::B, p(70, 70));
    let mut trace = Trace::default();
    let step = escape_step(&o, &mut net, &other, &RouterConfig::default(), &mut trace);
    assert!(matches!(step, StepResult::NoEscape));
    assert_eq!(net.lines.len(), 2);
    assert_eq!(net.lines[0].segment, Segment::horizontal(30, 0, 100));
    assert_eq!(net.lines[1].segment, Segment::vertical(30, 0, 100));
    assert!(net.no_escape);
    assert_eq!(trace.events.last(), Some(&TraceEvent::NoEscape { net: NetId::A }));
}

#[test]
fn escape_step_crosses_the_other_network() {
    let o = arena();
    let mut other = Network::new(NetId::A, p(30, 30));
    let mut trace = Trace::default();
    let b = Network::new(NetId::B, p(70, 70));
    escape_step(&o, &mut other, &b, &RouterConfig::default(), &mut trace);
    let mut net = Network::new(NetId::B, p(70, 70));
    let step = escape_step(&o, &mut net, &other, &RouterConfig::default(), &mut trace);
    match step {
        StepResult::Intersection { point, line_here, line_other } => {
            assert_eq!(point, p(30, 70));
            assert_eq!(line_here, 0);
            assert_eq!(line_other, 1);
        }
        _ => panic!("the horizontal line of B crosses the vertical line of A"),
    }
}

#[test]
fn process_i_step_pushes_the_escape_point() {
    // A cover right above z: Process I slips around its end.
    let mut o = arena();
    o.add_segment(Segment::horizontal(40, 20, 60));
    let mut net = Network::new(NetId::A, p(50, 30));
    let other = Network::new(NetId::B, p(50, 90));
    let mut trace = Trace::default();
    let step = escape_step(&o, &mut net, &other, &RouterConfig::default(), &mut trace);
    assert!(matches!(step, StepResult::Continue));
    assert_eq!(net.points.len(), 2);
    assert_eq!(net.points[1].parent, Some(0));
    assert!(matches!(net.flag, Flag::One(_)));
}

#[test]
fn process_ii_failure_leaves_the_network_alone() {
    // z boxed in on all four sides: every retreat position fails.
    let mut o = arena();
    o.add_rect(p(10, 10), p(20, 20));
    let mut net = Network::new(NetId::A, p(15, 15));
    net.flag = Flag::One(hightower::Orientation::Horizontal);
    let other = Network::new(NetId::B, p(90, 90));
    let mut trace = Trace::default();
    let before = net.points.clone();
    let out = process_ii(&o, &mut net, &other, 0, p(15, 15), &RouterConfig::default(), &mut trace);
    assert!(matches!(out, ProcessOutcome::Failed));
    assert_eq!(net.points, before);
    assert!(net.lines.is_empty());
    assert!(!trace.events.is_empty());
    assert!(trace.events.iter().all(|e| matches!(e, TraceEvent::ProbeLine { .. })));
}

#[test]
fn process_ii_escape_adds_two_points() {
    // Retreating down z's vertical line reaches a row from which Process I
    // slips around the cover.
    let mut o = arena();
    o.add_segment(Segment::horizontal(50, 30, 70));
    o.add_segment(Segment::vertical(45, 40, 50));
    o.add_segment(Segment::vertical(55, 40, 50));
    let mut net = Network::new(NetId::A, p(50, 45));
    let other = Network::new(NetId::B, p(90, 90));
    let mut trace = Trace::default();
    let out = process_ii(&o, &mut net, &other, 0, p(50, 45), &RouterConfig::default(), &mut trace);
    match out {
        ProcessOutcome::Escaped => {
            assert_eq!(net.points.len(), 3);
            assert_eq!(net.points[1].parent, Some(0));
            assert_eq!(net.points[2].parent, Some(1));
            assert!(net.lines.is_empty());
            assert!(matches!(net.flag, Flag::One(_)));
        }
        ProcessOutcome::Failed => panic!("a retreat position escapes"),
        ProcessOutcome::Intersection { .. } => panic!("the other network has no lines"),
    }
}

#[test]
fn probe_splices_strictly_shorten() {
    let o = arena();
    let mut path = vec![p(0, 0), p(10, 0), p(10, 10), p(4, 10), p(4, 20)];
    let before = length(&path);
    assert!(improve_probe(&o, &mut path));
    assert!(length(&path) < before);
    let mut again = path.clone();
    assert!(!improve_probe(&o, &mut again));
    assert_eq!(again, path);
}

#[test]
fn cleanup_keeps_the_order_of_corners() {
    let mut path = vec![p(0, 0), p(5, 0), p(10, 0), p(10, 5), p(10, 5), p(10, 3), p(20, 3)];
    let old = path.clone();
    cleanup(&mut path);
    let mut k = 0;
    for q in &path {
        while old[k] != *q {
            k += 1;
        }
        k += 1;
    }
    assert_eq!(path, vec![p(0, 0), p(10, 0), p(10, 3), p(20, 3)]);
}

#[test]
fn cleanup_only_returns_the_raw_path() {
    let mut o = arena();
    o.add_rect(p(40, 20), p(60, 80));
    let config = RouterConfig { improve: Improvement::CleanupOnly, ..RouterConfig::default() };
    let r = route_with(&o, p(10, 50), p(90, 50), &config);
    let raw = r.trace.events.iter().find_map(|e| match e {
        TraceEvent::RawPath { corners } => Some(corners.clone()),
        _ => None,
    });
    assert_eq!(r.path, raw);
}

#[test]
fn flood_ends_with_the_target_and_its_distance() {
    let mut o = arena();
    o.add_rect(p(40, 20), p(60, 80));
    let r = flood(&o, p(10, 50), p(90, 50));
    let path = r.path.expect("reachable");
    assert_eq!(r.visited.last(), Some(&(p(90, 50), length(&path) as u32)));
    assert_eq!(length(&path), 142);
}

#[test]
fn obstacle_sets_clone_exactly() {
    let mut o = arena();
    o.add_rect(p(40, 20), p(60, 80));
    o.add_segment(Segment::vertical(10, 0, 5));
    let c = o.clone();
    assert_eq!(c.bounds(), o.bounds());
    assert_eq!(c.segments(), o.segments());
}

#[test]
fn path_errors_describe_themselves() {
    assert_eq!(PathError::WrongStart.describe(), "path does not start at the start point");
    assert_eq!(PathError::Collinear { index: 1 }.describe(), "collinear consecutive segments");
    let o = arena();
    let e = validate_path(&o, p(0, 0), p(5, 5), &[p(0, 0), p(5, 5)]).unwrap_err();
    assert_eq!(e.describe(), "diagonal segment");
}

#[test]
fn board_obstacles_are_the_block_sides() {
    let board = Board::article_scene();
    assert_eq!(board.blocks.len(), 8);
    assert_eq!(board.blocks[0].min, p(5, 2));
    assert_eq!(board.blocks[7].max, p(70, 96));
    let o = board.obstacles();
    let segs = o.segments();
    assert_eq!(segs.len(), 4 * 8);
    for blk in &board.blocks {
        assert!(segs.contains(&Segment::horizontal(blk.min.y, blk.min.x, blk.max.x)));
        assert!(segs.contains(&Segment::horizontal(blk.max.y, blk.min.x, blk.max.x)));
        assert!(segs.contains(&Segment::vertical(blk.min.x, blk.min.y, blk.max.y)));
        assert!(segs.contains(&Segment::vertical(blk.max.x, blk.min.y, blk.max.y)));
    }
}

#[test]
fn trace_marks_follow_the_layers() {
    let mut trace = Trace::default();
    let line = Segment::horizontal(5, 0, 10);
    let probe = Segment::vertical(3, 0, 10);
    trace.events.push(TraceEvent::LineAdded { net: NetId::A, line, through: p(1, 5) });
    trace.events.push(TraceEvent::ProbeLine { net: NetId::B, line: probe, through: p(3, 4) });
    trace.events.push(TraceEvent::EscapePoint { net: NetId::B, point: p(3, 4), process: Process::II });
    trace.events.push(TraceEvent::Intersection { point: p(3, 5), line_a: line, line_b: probe });
    trace.events.push(TraceEvent::RawPath { corners: vec![p(1, 5), p(3, 5)] });
    trace.events.push(TraceEvent::Improved { corners: vec![p(1, 5), p(3, 5)] });
    let all = Layers {
        lines: true,
        probes: true,
        escape_points: true,
        intersection: true,
        raw_path: true,
        final_path: true,
    };
    assert_eq!(
        trace_marks(&trace, 100, all),
        vec![
            Mark::Probe(NetId::B, probe),
            Mark::Line(NetId::A, line),
            Mark::Escape(NetId::B, p(3, 4), Process::II),
            Mark::Raw(4),
            Mark::Final(5),
            Mark::Crossing(p(3, 5)),
        ]
    );
    // a prefix: the final path is the last path event within it
    assert_eq!(
        trace_marks(&trace, 5, all),
        vec![
            Mark::Probe(NetId::B, probe),
            Mark::Line(NetId::A, line),
            Mark::Escape(NetId::B, p(3, 4), Process::II),
            Mark::Raw(4),
            Mark::Final(4),
            Mark::Crossing(p(3, 5)),
        ]
    );
    let lines_only = Layers { probes: false, escape_points: false, intersection: false, final_path: false, ..all };
    assert_eq!(trace_marks(&trace, 2, lines_only), vec![Mark::Line(NetId::A, line)]);
    assert!(trace_marks(&trace, 0, all).is_empty());
}

#[test]
fn visibility_edges_are_distinct_and_horizontal_first() {
    let mut o = ObstacleSet::new(Bounds::new(p(0, 0), p(10, 10)));
    o.add_segment(Segment::vertical(5, 0, 6));
    let g = hightower::VisibilityGraph::new(&o, &[p(2, 2)]);
    let edges = g.edges();
    for (i, e) in edges.iter().enumerate() {
        assert!(!edges[i + 1..].contains(e));
    }
    let first_vertical = edges
        .iter()
        .position(|e| e.orientation == hightower::Orientation::Vertical)
        .unwrap();
    assert!(edges[..first_vertical].iter().all(|e| e.orientation == hightower::Orientation::Horizontal));
    assert!(edges[first_vertical..].iter().all(|e| e.orientation == hightower::Orientation::Vertical));
}

#[test]
fn xml_text_is_escaped() {
    let e: String = hightower::svg::escape_xml("a<b & c>d").into_iter().collect();
    assert_eq!(e, "a&lt;b &amp; c&gt;d");
    let plain: String = hightower::svg::escape_xml("A").into_iter().collect();
    assert_eq!(plain, "A");
}

#[test]
fn route_passes_above_a_centred_box() {
    let mut o = arena();
    o.add_rect(p(40, 20), p(60, 80));
    assert_eq!(
        route(&o, p(10, 50), p(90, 50)),
        Some(vec![p(10, 50), p(10, 81), p(90, 81), p(90, 50)])
    );
}

#[test]
fn flat_and_recursive_retreat_both_fail_in_a_closed_box() {
    let mut o = arena();
    o.add_rect(p(10, 10), p(20, 20));
    for recursive_retreat in [false, true] {
        let config = RouterConfig { recursive_retreat, ..RouterConfig::default() };
        let mut net = Network::new(NetId::A, p(15, 15));
        let other = Network::new(NetId::B, p(90, 90));
        let mut trace = Trace::default();
        let out = process_ii(&o, &mut net, &other, 0, p(15, 15), &config, &mut trace);
        assert!(matches!(out, ProcessOutcome::Failed));
        assert_eq!(net.points.len(), 1);
        // every trial point lies inside the box
        for e in &trace.events {
            match e {
                TraceEvent::ProbeLine { through, .. } => {
                    assert!(through.x > 10 && through.x < 20 && through.y > 10 && through.y < 20)
                }
                _ => panic!("only trial lines are recorded"),
            }
        }
    }
}

#[test]
fn flat_process_ii_escape_adds_exactly_two_points() {
    let mut o = arena();
    o.add_segment(Segment::horizontal(50, 30, 70));
    o.add_segment(Segment::vertical(45, 40, 50));
    o.add_segment(Segment::vertical(55, 40, 50));
    let mut net = Network::new(NetId::A, p(50, 45));
    let other = Network::new(NetId::B, p(90, 90));
    let mut trace = Trace::default();
    let config = RouterConfig { recursive_retreat: false, ..RouterConfig::default() };
    let out = process_ii(&o, &mut net, &other, 0, p(50, 45), &config, &mut trace);
    assert!(matches!(out, ProcessOutcome::Escaped));
    assert_eq!(net.points.len(), 3);
    assert_eq!(net.points[1].parent, Some(0));
    assert_eq!(net.points[2].parent, Some(1));
}

#[test]
fn improvement_defaults_to_the_extension_shortcut() {
    assert_eq!(Improvement::default(), Improvement::ExtensionOnly);
    assert_eq!(RouterConfig::default().improve, Improvement::Full);
}


#[test]
fn process_ii_takes_the_first_position_in_round_robin_order() {
    // z = (50, 45) sits under a cover at y = 50 between walls at x = 45 and
    // x = 55. The upward retreat starts at (50, 49), the first position of
    // the first walk; from there Process I steps below the walls' lower ends.
    let mut o = arena();
    o.add_segment(Segment::horizontal(50, 30, 70));
    o.add_segment(Segment::vertical(45, 40, 50));
    o.add_segment(Segment::vertical(55, 40, 50));
    let mut net = Network::new(NetId::A, p(50, 45));
    let other = Network::new(NetId::B, p(90, 90));
    let mut trace = Trace::default();
    let out = process_ii(&o, &mut net, &other, 0, p(50, 45), &RouterConfig::default(), &mut trace);
    assert!(matches!(out, ProcessOutcome::Escaped));
    assert_eq!(net.points[1].point, p(50, 49));
    assert_eq!(net.points[2].point, p(50, 39));
}
