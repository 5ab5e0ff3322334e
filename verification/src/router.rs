//! The two escape-line networks, the main procedure and one escape step.

use vstd::prelude::*;

use crate::escape::{
    ProcessOutcome, lemma_same_lines, lemma_same_lines_retreat, net_uses, phase_possible, process_i,
    first_on_walks, lemma_fails_same_lines, lemma_first_same_lines, process_i_choice, process_i_result, process_ii,
    retreat_fails, retreat_orientation, retreat_orients, retreat_origin, retreat_position_fails, retreat_starts,
};
use crate::geometry::{Orientation, Point, Segment, lemma_along_across};
use crate::obstacles::{ObstacleModel, ObstacleSet};
use crate::refine::{
    aligned_at, chain_free, clean, cleanup, corners_free, extension_result, free_at, free_between,
    has_extension, has_probe_within, improve_extension, improve_probe, path_length, probe_result, lemma_chain_valid_path, lemma_free_segment_between, on_between, rectilinear,
    valid_path,
};
use crate::trace::{NetId, Process, Trace, TraceEvent, event_path};

verus! {

/// Orientation of the next escape line a network will construct.
#[derive(Clone, Copy, PartialEq, Eq, Structural, Debug)]
pub enum Flag {
    /// Only at the root: construct both lines.
    Both,
    /// Construct the line of this orientation.
    One(Orientation),
}

/// A node of a network's escape-point tree. Each point lies on an escape line
/// through its parent, so consecutive points share an `x` or a `y`.
#[derive(Clone, Copy, PartialEq, Eq, Structural, Debug)]
pub struct EscapePoint {
    /// The point.
    pub point: Point,
    /// Index of the escape point it was found from (`None` at the root).
    pub parent: Option<usize>,
}

/// The points from escape point `id` back to the root, following the parent
/// links (which always lead to smaller indices).
pub open spec fn ancestry(points: Seq<EscapePoint>, id: int) -> Seq<Point>
    decreases id,
{
    if 0 < id < points.len() && points[id].parent is Some && (points[id].parent->0 as int) < id {
        seq![points[id].point] + ancestry(points, points[id].parent->0 as int)
    } else {
        seq![points[id].point]
    }
}

/// A constructed escape line and the escape point it was drawn through.
#[derive(Clone, Copy, PartialEq, Eq, Structural, Debug)]
pub struct EscapeLine {
    /// The line.
    pub segment: Segment,
    /// Index of the escape point it was drawn through.
    pub through: usize,
}

/// One of the two growing networks (rooted at `A` or at `B`).
#[derive(Debug)]
pub struct Network {
    /// Which network this is.
    pub id: NetId,
    /// The escape-point tree; index 0 is the root.
    pub points: Vec<EscapePoint>,
    /// The escape lines entered so far.
    pub lines: Vec<EscapeLine>,
    /// Orientation of the next line through the object point.
    pub flag: Flag,
    /// The network found no further escape point.
    pub no_escape: bool,
}

/// Every entered line and trial line of the trace is free and contains the
/// point it was drawn through, every escape point is free, and every crossing
/// lies on both crossing lines.
pub open spec fn event_sound(m: ObstacleModel, e: TraceEvent) -> bool {
    match e {
        TraceEvent::LineAdded { line, through, .. } => m.free_segment(line) && line.contains(
            through,
        ),
        TraceEvent::ProbeLine { line, through, .. } => m.free_segment(line) && line.contains(
            through,
        ),
        TraceEvent::EscapePoint { point, .. } => m.free_point(point),
        TraceEvent::Intersection { point, line_a, line_b } => line_a.contains(point)
            && line_b.contains(point),
        _ => true,
    }
}

/// An event an escape process records: a line, a trial line or an escape point.
pub open spec fn step_event(e: TraceEvent) -> bool {
    e is LineAdded || e is ProbeLine || e is EscapePoint
}

/// An event of the search phase: a step event or a network giving up.
pub open spec fn search_event(e: TraceEvent) -> bool {
    step_event(e) || e is NoEscape
}

/// The search part of a trace: every event is sound and belongs to the search.
pub open spec fn search_trace(m: ObstacleModel, t: Seq<TraceEvent>) -> bool {
    forall|i: int| 0 <= i < t.len() ==> #[trigger] event_sound(m, t[i]) && search_event(t[i])
}

/// Every event of the trace is sound.
pub open spec fn sound_trace(m: ObstacleModel, t: Seq<TraceEvent>) -> bool {
    forall|i: int| 0 <= i < t.len() ==> #[trigger] event_sound(m, t[i])
}

/// Appending a sound search event keeps a search trace.
pub proof fn lemma_search_push(m: ObstacleModel, t: Seq<TraceEvent>, e: TraceEvent)
    requires
        search_trace(m, t),
        event_sound(m, e),
        search_event(e),
    ensures
        search_trace(m, t.push(e)),
{
    assert forall|i: int| 0 <= i < t.push(e).len() implies #[trigger] event_sound(m, t.push(e)[i])
        && search_event(t.push(e)[i]) by {
        if i < t.len() {
            assert(t.push(e)[i] == t[i]);
        }
    }
}

/// `t` is `t0` followed by step events only.
pub open spec fn grows_by_steps(t0: Seq<TraceEvent>, t: Seq<TraceEvent>) -> bool {
    &&& t0.len() <= t.len()
    &&& t.subrange(0, t0.len() as int) == t0
    &&& forall|i: int| t0.len() <= i < t.len() ==> #[trigger] step_event(t[i])
}

/// A trace grows from itself.
pub proof fn lemma_grows_refl(t: Seq<TraceEvent>)
    ensures
        grows_by_steps(t, t),
{
    assert(t.subrange(0, t.len() as int) =~= t);
}

/// Appending a step event keeps growing by steps.
pub proof fn lemma_grows_push(t0: Seq<TraceEvent>, t: Seq<TraceEvent>, e: TraceEvent)
    requires
        grows_by_steps(t0, t),
        step_event(e),
    ensures
        grows_by_steps(t0, t.push(e)),
{
    assert(t.push(e).subrange(0, t0.len() as int) =~= t.subrange(0, t0.len() as int));
    assert forall|i: int| t0.len() <= i < t.push(e).len() implies #[trigger] step_event(t.push(e)[i]) by {
        if i < t.len() {
            assert(t.push(e)[i] == t[i]);
        }
    }
}

/// Growing by steps is transitive.
pub proof fn lemma_grows_trans(t0: Seq<TraceEvent>, t1: Seq<TraceEvent>, t2: Seq<TraceEvent>)
    requires
        grows_by_steps(t0, t1),
        grows_by_steps(t1, t2),
    ensures
        grows_by_steps(t0, t2),
{
    assert(t2.subrange(0, t0.len() as int) =~= t1.subrange(0, t0.len() as int));
    assert forall|i: int| t0.len() <= i < t2.len() implies #[trigger] step_event(t2[i]) by {
        if i < t1.len() {
            assert(t2.subrange(0, t1.len() as int)[i] == t2[i]);
        }
    }
}


/// The trace records that network `id` gave up.
pub open spec fn gave_up(t: Seq<TraceEvent>, id: NetId) -> bool {
    exists|i: int| 0 <= i < t.len() && #[trigger] t[i] == TraceEvent::NoEscape { net: id }
}

/// No network gives up twice.
pub open spec fn gave_up_once(t: Seq<TraceEvent>) -> bool {
    forall|i: int, j: int| 0 <= i < j < t.len() && #[trigger] t[i] is NoEscape ==> #[trigger] t[j] != t[i]
}

/// The trace holds exactly one crossing, at index `i`.
pub open spec fn sole_crossing(t: Seq<TraceEvent>, i: int) -> bool {
    &&& 0 <= i < t.len()
    &&& t[i] is Intersection
    &&& forall|j: int| 0 <= j < t.len() && j != i ==> !(#[trigger] t[j] is Intersection)
}

/// Steps that do not give up change nothing about who gave up.
proof fn lemma_gave_up_steps(t0: Seq<TraceEvent>, t: Seq<TraceEvent>)
    requires
        grows_by_steps(t0, t),
    ensures
        forall|id: NetId| gave_up(t, id) == gave_up(t0, id),
        gave_up_once(t0) ==> gave_up_once(t),
{
    assert forall|id: NetId| gave_up(t, id) == gave_up(t0, id) by {
        if gave_up(t, id) {
            let i = choose|i: int| 0 <= i < t.len() && #[trigger] t[i] == TraceEvent::NoEscape { net: id };
            if i >= t0.len() {
                assert(step_event(t[i]));
            } else {
                assert(t.subrange(0, t0.len() as int)[i] == t[i]);
            }
        }
        if gave_up(t0, id) {
            let i = choose|i: int| 0 <= i < t0.len() && #[trigger] t0[i] == TraceEvent::NoEscape { net: id };
            assert(t.subrange(0, t0.len() as int)[i] == t[i]);
        }
    }
    if gave_up_once(t0) {
        assert forall|i: int, j: int| 0 <= i < j < t.len() && #[trigger] t[i] is NoEscape implies #[trigger] t[j] != t[i] by {
            if j >= t0.len() {
                assert(step_event(t[j]));
            } else {
                assert(t.subrange(0, t0.len() as int)[i] == t[i]);
                assert(t.subrange(0, t0.len() as int)[j] == t[j]);
            }
        }
    }
}

/// Steps followed by a network giving up for the first time.
proof fn lemma_gave_up_push(t0: Seq<TraceEvent>, t: Seq<TraceEvent>, id: NetId)
    requires
        t.len() > 0,
        grows_by_steps(t0, t.drop_last()),
        t.last() == (TraceEvent::NoEscape { net: id }),
        !gave_up(t0, id),
        gave_up_once(t0),
    ensures
        gave_up(t, id),
        forall|o: NetId| o != id ==> gave_up(t, o) == gave_up(t0, o),
        gave_up_once(t),
        t.len() >= t0.len(),
        t.subrange(0, t0.len() as int) == t0,
{
    let u = t.drop_last();
    lemma_gave_up_steps(t0, u);
    assert(t[t.len() - 1] == TraceEvent::NoEscape { net: id });
    assert forall|o: NetId| o != id implies gave_up(t, o) == gave_up(t0, o) by {
        if gave_up(t, o) {
            let i = choose|i: int| 0 <= i < t.len() && #[trigger] t[i] == TraceEvent::NoEscape { net: o };
            assert(i < u.len());
            assert(u[i] == t[i]);
        }
        if gave_up(u, o) {
            let i = choose|i: int| 0 <= i < u.len() && #[trigger] u[i] == TraceEvent::NoEscape { net: o };
            assert(t[i] == u[i]);
        }
    }
    assert forall|i: int, j: int| 0 <= i < j < t.len() && #[trigger] t[i] is NoEscape implies #[trigger] t[j] != t[i] by {
        assert(t[i] == u[i]);
        if j < u.len() {
            assert(t[j] == u[j]);
        } else if t[i] == t[j] {
            assert(gave_up(u, id));
        }
    }
    assert(t.subrange(0, t0.len() as int) =~= u.subrange(0, t0.len() as int));
}

/// The lines that network `id` entered, in the order of the trace.
pub open spec fn line_events(t: Seq<TraceEvent>, id: NetId) -> Seq<Segment>
    decreases t.len(),
{
    if t.len() == 0 {
        Seq::empty()
    } else {
        let rest = line_events(t.drop_last(), id);
        match t.last() {
            TraceEvent::LineAdded { net, line, .. } => if net == id {
                rest.push(line)
            } else {
                rest
            },
            _ => rest,
        }
    }
}

/// The event enters a line into network `id`.
pub open spec fn is_line_of(e: TraceEvent, id: NetId) -> bool {
    e matches TraceEvent::LineAdded { net, .. } && net == id
}

/// The trace lists exactly the network's lines, in order.
pub open spec fn lines_recorded(t: Seq<TraceEvent>, n: Network) -> bool {
    line_events(t, n.id) == n.lines@.map_values(|l: EscapeLine| l.segment)
}

/// No two lines that one network entered overlap.
pub open spec fn lines_never_reused(s: Seq<Segment>) -> bool {
    forall|i: int, j: int| #![trigger s[i], s[j]] 0 <= i < j < s.len() ==> !s[i].overlaps_collinear(&s[j])
}

/// Every network other than `id0` has entered the same lines in `t` as in `t0`.
pub open spec fn lines_kept(t0: Seq<TraceEvent>, t: Seq<TraceEvent>, id0: NetId) -> bool {
    forall|id: NetId| id != id0 ==> line_events(t, id) == line_events(t0, id)
}

/// Appending an event adds its line to the lines of its network only.
pub proof fn lemma_line_events_push(t: Seq<TraceEvent>, e: TraceEvent, id: NetId)
    ensures
        line_events(t.push(e), id) == (if is_line_of(e, id) {
            line_events(t, id).push(e->LineAdded_line)
        } else {
            line_events(t, id)
        }),
{
    assert(t.push(e).drop_last() =~= t);
}

/// A longer trace keeps every line entered in its prefix.
pub proof fn lemma_line_events_grow(t0: Seq<TraceEvent>, t: Seq<TraceEvent>, id: NetId, s: Segment)
    requires
        t0.len() <= t.len(),
        t.subrange(0, t0.len() as int) == t0,
        line_events(t0, id).contains(s),
    ensures
        line_events(t, id).contains(s),
    decreases t.len(),
{
    if t.len() == t0.len() {
        assert(t =~= t0);
    } else {
        let u = t.drop_last();
        assert(u.subrange(0, t0.len() as int) =~= t.subrange(0, t0.len() as int));
        lemma_line_events_grow(t0, u, id, s);
        lemma_line_events_push(u, t.last(), id);
        assert(u.push(t.last()) =~= t);
        let k = choose|k: int| 0 <= k < line_events(u, id).len() && line_events(u, id)[k] == s;
        if is_line_of(t.last(), id) {
            assert(line_events(t, id)[k] == s);
        }
    }
}

/// The flag asks for an escape line of orientation `o`.
pub open spec fn flag_asks(f: Flag, o: Orientation) -> bool {
    match f {
        Flag::Both => true,
        Flag::One(p) => p == o,
    }
}

/// The segment crosses a line of the network.
pub open spec fn crosses_net(s: Segment, net: Network) -> bool {
    exists|l: int| 0 <= l < net.lines@.len() && s.crossing(&(#[trigger] net.lines@[l]).segment) is Some
}

/// Line `l` of `net` is the first of its lines that `s` crosses, at `x`.
pub open spec fn first_crossing(s: Segment, net: Network, l: int, x: Point) -> bool {
    &&& 0 <= l < net.lines@.len()
    &&& s.crossing(&net.lines@[l].segment) == Some(x)
    &&& forall|k: int| 0 <= k < l ==> s.crossing(&(#[trigger] net.lines@[k]).segment) is None
}

/// The escape step of `n0` against `other` meets `other` first with `l`,
/// the escape line of orientation `o` through the object point: the flag
/// asks for `o`, `l` is not yet used and crosses `other`, and where the flag
/// asks for both, the horizontal line, which is tried first, does not.
pub open spec fn first_hit(m: ObstacleModel, n0: Network, other: Network, o: Orientation, l: Segment) -> bool {
    let z = n0.points@.last().point;
    &&& flag_asks(n0.flag, o)
    &&& m.is_escape_line(z, o, l)
    &&& !net_uses(n0, l)
    &&& crosses_net(l, other)
    &&& (n0.flag == Flag::Both && o == Orientation::Vertical) ==> forall|l2: Segment|
        #[trigger] m.is_escape_line(z, Orientation::Horizontal, l2) ==> net_uses(n0, l2) || !crosses_net(l2, other)
}

/// The corner list read off the two escape-point trees at a crossing `x` of
/// line `la` of `na` and line `lb` of `nb`: from the root of `na` along its
/// chain to `x`, then along the chain of `nb` to its root.
pub open spec fn read_off(na: Network, la: int, nb: Network, lb: int, x: Point) -> Seq<Point> {
    (seq![x] + ancestry(na.points@, na.lines@[la].through as int)).reverse() + ancestry(
        nb.points@,
        nb.lines@[lb].through as int,
    )
}

/// Network `id` gave up as Process I and II prescribe at the end of trace
/// `t`: for networks that hold the lines `t` records for it and for the other
/// network, Process I finds no escape point at its object point and Process
/// II, run with these retreat options, fails there.
pub open spec fn gave_up_rightly(m: ObstacleModel, t: Seq<TraceEvent>, id: NetId, b: bool, rec: bool) -> bool {
    exists|n: Network, o: Network|
        #![trigger lines_recorded(t, n), lines_recorded(t, o)]
        lines_recorded(t, n) && lines_recorded(t, o) && n.id == id && o.id != id && n.wf(m) && o.wf(m)
            && !phase_possible(m, n, n.points@.last().point, Orientation::Vertical) && !phase_possible(
            m,
            n,
            n.points@.last().point,
            Orientation::Horizontal,
        ) && retreat_fails(m, n, o, n.points@.last().point, b, rec)
}

/// Every give-up recorded in the trace happened as Process I and II prescribe.
pub open spec fn give_ups_right(m: ObstacleModel, t: Seq<TraceEvent>, b: bool, rec: bool) -> bool {
    forall|i: int|
        0 <= i < t.len() && #[trigger] t[i] is NoEscape ==> gave_up_rightly(m, t.take(i), t[i]->NoEscape_net, b, rec)
}

/// Appending events that are no give-ups keeps the recorded give-ups right.
proof fn lemma_give_ups_extend(m: ObstacleModel, t0: Seq<TraceEvent>, t: Seq<TraceEvent>, b: bool, rec: bool)
    requires
        give_ups_right(m, t0, b, rec),
        t0.len() <= t.len(),
        t.subrange(0, t0.len() as int) == t0,
        forall|i: int| t0.len() <= i < t.len() ==> !(#[trigger] t[i] is NoEscape),
    ensures
        give_ups_right(m, t, b, rec),
{
    assert forall|i: int| 0 <= i < t.len() && #[trigger] t[i] is NoEscape implies gave_up_rightly(
        m,
        t.take(i),
        t[i]->NoEscape_net,
        b,
        rec,
    ) by {
        assert(t.subrange(0, t0.len() as int)[i] == t[i]);
        assert(t0[i] is NoEscape);
        assert(t.take(i) =~= t0.take(i));
    }
}

/// Appending a give-up that happened rightly keeps the recorded give-ups right.
proof fn lemma_give_ups_push(m: ObstacleModel, t0: Seq<TraceEvent>, e: TraceEvent, b: bool, rec: bool)
    requires
        give_ups_right(m, t0, b, rec),
        e is NoEscape,
        gave_up_rightly(m, t0, e->NoEscape_net, b, rec),
    ensures
        give_ups_right(m, t0.push(e), b, rec),
{
    let t = t0.push(e);
    assert forall|i: int| 0 <= i < t.len() && #[trigger] t[i] is NoEscape implies gave_up_rightly(
        m,
        t.take(i),
        t[i]->NoEscape_net,
        b,
        rec,
    ) by {
        if i < t0.len() {
            assert(t[i] == t0[i]);
            assert(t.take(i) =~= t0.take(i));
        } else {
            assert(t.take(i) =~= t0);
        }
    }
}

/// The network has only its root `p`, no line, and asks for both lines.
pub open spec fn is_fresh(n: Network, p: Point) -> bool {
    &&& n.points@ == seq![EscapePoint { point: p, parent: None }]
    &&& n.lines@.len() == 0
    &&& n.flag == Flag::Both
    &&& !n.no_escape
}

/// Some escape line of `a` is crossed by some escape line of `b`: the second
/// escape step already finds a path.
pub open spec fn lines_meet(m: ObstacleModel, a: Point, b: Point) -> bool {
    exists|oa: Orientation, ob: Orientation, la: Segment, lb: Segment|
        #[trigger] m.is_escape_line(a, oa, la) && #[trigger] m.is_escape_line(b, ob, lb) && lb.crossing(&la) is Some
}

/// Appending events that enter no line of network `id` keeps its lines.
pub proof fn lemma_line_events_keep(t0: Seq<TraceEvent>, t: Seq<TraceEvent>, id: NetId)
    requires
        t0.len() <= t.len(),
        t.subrange(0, t0.len() as int) == t0,
        forall|i: int| t0.len() <= i < t.len() ==> !is_line_of(#[trigger] t[i], id),
    ensures
        line_events(t, id) == line_events(t0, id),
    decreases t.len(),
{
    if t.len() > t0.len() {
        let u = t.drop_last();
        assert(u.subrange(0, t0.len() as int) =~= t.subrange(0, t0.len() as int));
        assert forall|i: int| t0.len() <= i < u.len() implies !is_line_of(#[trigger] u[i], id) by {
            assert(u[i] == t[i]);
        }
        lemma_line_events_keep(t0, u, id);
        assert(!is_line_of(t[t.len() - 1], id));
        assert(u.push(t.last()) =~= t);
        lemma_line_events_push(u, t.last(), id);
    } else {
        assert(t =~= t0);
    }
}

/// Entering one more line into a recorded network and the trace keeps it recorded.
pub proof fn lemma_recorded_push_line(t0: Seq<TraceEvent>, n0: Network, n1: Network, e: TraceEvent, seg: Segment, through: usize)
    requires
        lines_recorded(t0, n0),
        n1.id == n0.id,
        n1.lines@ == n0.lines@.push(EscapeLine { segment: seg, through }),
        e matches TraceEvent::LineAdded { net, line, .. } && net == n0.id && line == seg,
    ensures
        lines_recorded(t0.push(e), n1),
{
    lemma_line_events_push(t0, e, n0.id);
    assert(n1.lines@.map_values(|l: EscapeLine| l.segment) =~= n0.lines@.map_values(|l: EscapeLine| l.segment).push(seg));
}

/// Appending an event that enters no line keeps every network's lines.
pub proof fn lemma_recorded_push_other(t0: Seq<TraceEvent>, n0: Network, n1: Network, e: TraceEvent)
    requires
        lines_recorded(t0, n0),
        n1.id == n0.id,
        n1.lines@ == n0.lines@,
        !(e is LineAdded),
    ensures
        lines_recorded(t0.push(e), n1),
        forall|id: NetId| line_events(t0.push(e), id) == line_events(t0, id),
{
    assert forall|id: NetId| line_events(t0.push(e), id) == line_events(t0, id) by {
        lemma_line_events_push(t0, e, id);
    }
    assert(n1.lines@.map_values(|l: EscapeLine| l.segment) =~= n0.lines@.map_values(|l: EscapeLine| l.segment));
}

/// Recorded lines of a network with disjoint lines are never reused.
pub proof fn lemma_recorded_disjoint(t: Seq<TraceEvent>, n: Network)
    requires
        lines_recorded(t, n),
        n.lines_disjoint(),
    ensures
        lines_never_reused(line_events(t, n.id)),
{
    let s = line_events(t, n.id);
    assert forall|i: int, j: int| #![trigger s[i], s[j]] 0 <= i < j < s.len() implies !s[i].overlaps_collinear(&s[j]) by {
        assert(s[i] == n.lines@[i].segment);
        assert(s[j] == n.lines@[j].segment);
    }
}


impl Network {
    /// Escape point `k` has a parent with a smaller index (none at the root).
    pub open spec fn point_shape(self, k: int) -> bool {
        let e = self.points@[k];
        &&& k == 0 ==> e.parent is None
        &&& k > 0 ==> e.parent is Some && e.parent->0 < k
    }

    /// Line `l` was drawn through an existing escape point.
    pub open spec fn line_shape(self, l: int) -> bool {
        self.lines@[l].through < self.points@.len()
    }

    /// The parent links form a tree rooted at index 0.
    pub open spec fn tree_ok(self) -> bool {
        &&& self.points@.len() >= 1
        &&& forall|k: int| 0 <= k < self.points@.len() ==> #[trigger] self.point_shape(k)
    }

    /// The parent links form a tree rooted at index 0 and every line names an escape point.
    pub open spec fn shape_ok(self) -> bool {
        &&& self.points@.len() >= 1
        &&& forall|k: int| 0 <= k < self.points@.len() ==> #[trigger] self.point_shape(k)
        &&& forall|l: int| 0 <= l < self.lines@.len() ==> #[trigger] self.line_shape(l)
    }

    /// Escape point `k` is free and joined to its parent by a free stretch.
    pub open spec fn point_ok(self, m: ObstacleModel, k: int) -> bool {
        let e = self.points@[k];
        &&& m.free_point(e.point)
        &&& k > 0 ==> free_between(m, self.points@[e.parent->0 as int].point, e.point)
    }

    /// Line `l` is the escape line, of its own orientation, of the escape
    /// point it was drawn through: free, normalized and maximal.
    pub open spec fn line_ok(self, m: ObstacleModel, l: int) -> bool {
        let ln = self.lines@[l];
        &&& m.free_segment(ln.segment)
        &&& ln.segment.from <= ln.segment.to
        &&& ln.segment.contains(self.points@[ln.through as int].point)
        &&& m.is_escape_line(self.points@[ln.through as int].point, ln.segment.orientation, ln.segment)
    }

    /// No two lines of the network overlap: no escape line is used twice.
    pub open spec fn lines_disjoint(self) -> bool {
        forall|i: int, j: int|
            0 <= i < j < self.lines@.len() ==> !(#[trigger] self.lines@[i]).segment.overlaps_collinear(
                &(#[trigger] self.lines@[j]).segment,
            )
    }

    /// The network is a tree of free escape points joined by free stretches,
    /// and its lines are free lines through its points.
    pub open spec fn wf(self, m: ObstacleModel) -> bool {
        &&& self.shape_ok()
        &&& forall|k: int| 0 <= k < self.points@.len() ==> #[trigger] self.point_ok(m, k)
        &&& forall|l: int| 0 <= l < self.lines@.len() ==> #[trigger] self.line_ok(m, l)
        &&& self.lines_disjoint()
    }

    /// The root of the tree.
    pub open spec fn root(self) -> Point {
        self.points@[0].point
    }

    /// Creates a network that consists of its root.
    pub fn new(id: NetId, root: Point) -> (r: Network)
        ensures
            r.id == id,
            r.points@ == seq![EscapePoint { point: root, parent: None }],
            r.lines@.len() == 0,
            r.flag == Flag::Both,
            !r.no_escape,
    {
        let mut points: Vec<EscapePoint> = Vec::new();
        points.push(EscapePoint { point: root, parent: None });
        Network { id, points, lines: Vec::new(), flag: Flag::Both, no_escape: false }
    }

    /// The current object point `Z`: the escape point found last.
    pub fn object_point(&self) -> (r: (usize, Point))
        requires
            self.points@.len() >= 1,
        ensures
            r.0 == self.points@.len() - 1,
            r.1 == self.points@[r.0 as int].point,
    {
        let id = self.points.len() - 1;
        (id, self.points[id].point)
    }

    /// Has an escape line with this orientation and fixed coordinate and an
    /// overlapping span already been constructed? (Since escape lines are
    /// maximal free intervals, overlapping means identical.)
    pub fn is_used(&self, candidate: &Segment) -> (r: bool)
        ensures
            r == exists|l: int|
                0 <= l < self.lines@.len() && (#[trigger] self.lines@[l]).segment.overlaps_collinear(
                    candidate,
                ),
    {
        let mut l: usize = 0;
        while l < self.lines.len()
            invariant
                l <= self.lines@.len(),
                forall|k: int|
                    0 <= k < l ==> !(#[trigger] self.lines@[k]).segment.overlaps_collinear(candidate),
            decreases self.lines@.len() - l,
        {
            if self.lines[l].segment.overlaps_collinear(candidate) {
                return true;
            }
            l = l + 1;
        }
        false
    }

    /// Appends an escape point and returns its index.
    pub fn push_point(&mut self, point: Point, parent: Option<usize>) -> (r: usize)
        ensures
            final(self).points@ == old(self).points@.push(EscapePoint { point, parent }),
            final(self).lines@ == old(self).lines@,
            final(self).id == old(self).id,
            final(self).flag == old(self).flag,
            final(self).no_escape == old(self).no_escape,
            r == old(self).points@.len(),
    {
        self.points.push(EscapePoint { point, parent });
        self.points.len() - 1
    }

    /// Enters an escape line drawn through escape point `through`, records it
    /// in the trace and returns its index.
    pub fn add_line(&mut self, segment: Segment, through: usize, trace: &mut Trace) -> (r: usize)
        requires
            through < old(self).points@.len(),
        ensures
            final(self).lines@ == old(self).lines@.push(EscapeLine { segment, through }),
            final(self).points@ == old(self).points@,
            final(self).id == old(self).id,
            final(self).flag == old(self).flag,
            final(self).no_escape == old(self).no_escape,
            final(trace).events@ == old(trace).events@.push(
                TraceEvent::LineAdded {
                    net: old(self).id,
                    line: segment,
                    through: old(self).points@[through as int].point,
                },
            ),
            r == old(self).lines@.len(),
    {
        self.lines.push(EscapeLine { segment, through });
        trace.push(TraceEvent::LineAdded { net: self.id, line: segment, through: self.points[through].point });
        self.lines.len() - 1
    }

    /// The index of the line equal to `segment`, entering it through escape
    /// point `through` first if it is not yet there.
    pub fn line_id_or_add(&mut self, segment: Segment, through: usize, trace: &mut Trace) -> (r: usize)
        requires
            through < old(self).points@.len(),
        ensures
            final(self).points@ == old(self).points@,
            final(self).id == old(self).id,
            final(self).flag == old(self).flag,
            final(self).no_escape == old(self).no_escape,
            r < final(self).lines@.len(),
            final(self).lines@[r as int].segment == segment,
            final(self).lines@ == old(self).lines@ || (final(self).lines@ == old(self).lines@.push(
                EscapeLine { segment, through },
            ) && final(trace).events@ == old(trace).events@.push(
                TraceEvent::LineAdded {
                    net: old(self).id,
                    line: segment,
                    through: old(self).points@[through as int].point,
                },
            )),
            final(self).lines@ == old(self).lines@ ==> final(trace).events@ == old(trace).events@,
            final(self).lines@ != old(self).lines@ ==> forall|k: int|
                0 <= k < old(self).lines@.len() ==> (#[trigger] old(self).lines@[k]).segment != segment,
    {
        let mut l: usize = 0;
        while l < self.lines.len()
            invariant
                l <= self.lines@.len(),
                forall|k: int| 0 <= k < l ==> (#[trigger] self.lines@[k]).segment != segment,
            decreases self.lines@.len() - l,
        {
            if self.lines[l].segment == segment {
                return l;
            }
            l = l + 1;
        }
        self.add_line(segment, through, trace)
    }

    /// Does `segment` cross any perpendicular line of this network?
    /// Returns the crossing point and the id of the first crossed line.
    pub fn find_crossing(&self, segment: &Segment) -> (r: Option<(Point, usize)>)
        ensures
            r is None ==> forall|l: int|
                0 <= l < self.lines@.len() ==> segment.crossing(&(#[trigger] self.lines@[l]).segment) is None,
            r matches Some((x, l)) ==> l < self.lines@.len() && segment.crossing(
                &self.lines@[l as int].segment,
            ) == Some(x) && forall|k: int|
                0 <= k < l ==> segment.crossing(&(#[trigger] self.lines@[k]).segment) is None,
    {
        let mut l: usize = 0;
        while l < self.lines.len()
            invariant
                l <= self.lines@.len(),
                forall|k: int|
                    0 <= k < l ==> segment.crossing(&(#[trigger] self.lines@[k]).segment) is None,
            decreases self.lines@.len() - l,
        {
            if let Some(x) = segment.crossing(&self.lines[l].segment) {
                return Some((x, l));
            }
            l = l + 1;
        }
        None
    }

    /// Corner candidates from `x` (which lies on `line`) back to the root.
    pub fn chain(&self, line: usize, x: Point) -> (r: Vec<Point>)
        requires
            self.tree_ok(),
            line < self.lines@.len(),
            self.line_shape(line as int),
        ensures
            r@.len() >= 2,
            r@[0] == x,
            r@[1] == self.points@[self.lines@[line as int].through as int].point,
            r@.last() == self.root(),
            r@ == seq![x] + ancestry(self.points@, self.lines@[line as int].through as int),
            forall|m: ObstacleModel|
                #![trigger self.wf(m)]
                self.wf(m) && self.lines@[line as int].segment.contains(x) ==> {
                    &&& rectilinear(r@)
                    &&& chain_free(m, r@)
                    &&& corners_free(m, r@)
                },
    {
        let mut pts: Vec<Point> = Vec::new();
        pts.push(x);
        let t = self.lines[line].through;
        assert(self.line_shape(line as int));
        proof {
            assert forall|m: ObstacleModel|
                #![trigger self.wf(m)]
                self.wf(m) && self.lines@[line as int].segment.contains(x) implies {
                    &&& corners_free(m, pts@)
                    &&& free_between(m, x, self.points@[t as int].point)
                } by {
                assert(self.line_ok(m, line as int));
                crate::refine::lemma_free_segment_contains(m, self.lines@[line as int].segment, x);
                lemma_free_segment_between(
                    m,
                    self.lines@[line as int].segment,
                    x,
                    self.points@[t as int].point,
                );
            }
        }
        let mut node: Option<usize> = Some(t);
        while node.is_some()
            invariant
                self.tree_ok(),
                pts@.len() >= 1,
                pts@[0] == x,
                pts@.len() == 1 ==> node == Some(t),
                pts@.len() >= 2 ==> pts@[1] == self.points@[t as int].point,
                t == self.lines@[line as int].through,
                t < self.points@.len(),
                line < self.lines@.len(),
                node matches Some(id) ==> id < self.points@.len(),
                node is None ==> pts@.last() == self.root(),
                node matches Some(id) ==> pts@ + ancestry(self.points@, id as int) == seq![x] + ancestry(
                    self.points@,
                    t as int,
                ),
                node is None ==> pts@ == seq![x] + ancestry(self.points@, t as int),
                forall|m: ObstacleModel|
                    #![trigger self.wf(m)]
                    self.wf(m) && self.lines@[line as int].segment.contains(x) ==> {
                        &&& rectilinear(pts@)
                        &&& chain_free(m, pts@)
                        &&& corners_free(m, pts@)
                        &&& node matches Some(id) ==> free_between(
                            m,
                            pts@.last(),
                            self.points@[id as int].point,
                        )
                    },
            decreases
                match node {
                    Some(id) => id + 1,
                    None => 0,
                },
        {
            let id = match node {
                Some(id) => id,
                None => 0,
            };
            let ghost before = pts@;
            let p = self.points[id].point;
            pts.push(p);
            node = self.points[id].parent;
            proof {
                assert(self.point_shape(id as int));
                let anc = ancestry(self.points@, id as int);
                if id == 0 {
                    assert(anc == seq![p]);
                    assert(pts@ =~= before + anc);
                } else {
                    let pid = self.points@[id as int].parent->0 as int;
                    assert(anc == seq![p] + ancestry(self.points@, pid));
                    assert(pts@ + ancestry(self.points@, pid) =~= before + anc);
                }
                assert forall|m: ObstacleModel|
                    #![trigger self.wf(m)]
                    self.wf(m) && self.lines@[line as int].segment.contains(x) implies {
                        &&& rectilinear(pts@)
                        &&& chain_free(m, pts@)
                        &&& corners_free(m, pts@)
                        &&& node matches Some(nid) ==> free_between(
                            m,
                            pts@.last(),
                            self.points@[nid as int].point,
                        )
                    } by {
                    assert(self.point_ok(m, id as int));
                    assert(free_between(m, before.last(), p));
                    if id > 0 {
                        crate::refine::lemma_free_between_sym(
                            m,
                            self.points@[self.points@[id as int].parent->0 as int].point,
                            p,
                        );
                    }
                    assert(pts@.last() == p);
                    assert forall|k: int| 0 <= k < pts@.len() - 1 implies #[trigger] aligned_at(pts@, k) by {
                        if k < before.len() - 1 {
                            assert(aligned_at(before, k));
                        }
                    }
                    assert forall|k: int| 0 <= k < pts@.len() - 1 implies #[trigger] free_at(m, pts@, k) by {
                        if k < before.len() - 1 {
                            assert(free_at(m, before, k));
                        }
                    }
                    assert forall|k: int| 0 <= k < pts@.len() implies m.free_point(#[trigger] pts@[k]) by {
                        if k < before.len() {
                            assert(m.free_point(before[k]));
                        }
                    }
                }
            }
        }
        pts
    }
}

/// Appending a free escape point joined to an existing parent by a free stretch
/// keeps a network well formed.
pub proof fn lemma_push_point(m: ObstacleModel, n0: Network, n1: Network, point: Point, parent: usize)
    requires
        n0.wf(m),
        n1.points@ == n0.points@.push(EscapePoint { point, parent: Some(parent) }),
        n1.lines@ == n0.lines@,
        parent < n0.points@.len(),
        m.free_point(point),
        free_between(m, n0.points@[parent as int].point, point),
    ensures
        n1.wf(m),
        n1.root() == n0.root(),
{
    assert forall|k: int| 0 <= k < n1.points@.len() implies #[trigger] n1.point_shape(k) by {
        if k < n0.points@.len() {
            assert(n0.point_shape(k));
        }
    }
    assert forall|k: int| 0 <= k < n1.points@.len() implies #[trigger] n1.point_ok(m, k) by {
        if k < n0.points@.len() {
            assert(n0.point_shape(k));
            assert(n0.point_ok(m, k));
        }
    }
    assert forall|l: int| 0 <= l < n1.lines@.len() implies #[trigger] n1.line_shape(l) by {
        assert(n0.line_shape(l));
    }
    assert forall|l: int| 0 <= l < n1.lines@.len() implies #[trigger] n1.line_ok(m, l) by {
        assert(n0.line_shape(l));
        assert(n0.line_ok(m, l));
    }
}

/// Well-formedness depends only on the escape points and lines.
pub proof fn lemma_wf_views(m: ObstacleModel, n0: Network, n1: Network)
    requires
        n0.wf(m),
        n1.points@ == n0.points@,
        n1.lines@ == n0.lines@,
    ensures
        n1.wf(m),
        n1.root() == n0.root(),
{
    assert forall|k: int| 0 <= k < n1.points@.len() implies #[trigger] n1.point_shape(k) by {
        assert(n0.point_shape(k));
    }
    assert forall|k: int| 0 <= k < n1.points@.len() implies #[trigger] n1.point_ok(m, k) by {
        assert(n0.point_ok(m, k));
    }
    assert forall|l: int| 0 <= l < n1.lines@.len() implies #[trigger] n1.line_shape(l) by {
        assert(n0.line_shape(l));
    }
    assert forall|l: int| 0 <= l < n1.lines@.len() implies #[trigger] n1.line_ok(m, l) by {
        assert(n0.line_ok(m, l));
    }
}

/// Entering a free line through an existing escape point keeps a network well formed.
pub proof fn lemma_push_line(m: ObstacleModel, n0: Network, n1: Network, segment: Segment, through: usize)
    requires
        n0.wf(m),
        n1.points@ == n0.points@,
        n1.lines@ == n0.lines@.push(EscapeLine { segment, through }),
        through < n0.points@.len(),
        m.free_segment(segment),
        segment.from <= segment.to,
        segment.contains(n0.points@[through as int].point),
        m.is_escape_line(n0.points@[through as int].point, segment.orientation, segment),
        forall|l: int| 0 <= l < n0.lines@.len() ==> !(#[trigger] n0.lines@[l]).segment.overlaps_collinear(&segment),
    ensures
        n1.wf(m),
        n1.root() == n0.root(),
{
    assert forall|k: int| 0 <= k < n1.points@.len() implies #[trigger] n1.point_shape(k) by {
        assert(n0.point_shape(k));
    }
    assert forall|k: int| 0 <= k < n1.points@.len() implies #[trigger] n1.point_ok(m, k) by {
        assert(n0.point_shape(k));
        assert(n0.point_ok(m, k));
    }
    assert forall|l: int| 0 <= l < n1.lines@.len() implies #[trigger] n1.line_shape(l) by {
        if l < n0.lines@.len() {
            assert(n0.line_shape(l));
        }
    }
    assert forall|l: int| 0 <= l < n1.lines@.len() implies #[trigger] n1.line_ok(m, l) by {
        if l < n0.lines@.len() {
            assert(n0.line_shape(l));
            assert(n0.line_ok(m, l));
        }
    }
    assert forall|i: int, j: int| 0 <= i < j < n1.lines@.len() implies !(#[trigger] n1.lines@[i]).segment.overlaps_collinear(
        &(#[trigger] n1.lines@[j]).segment,
    ) by {
        assert(n1.lines@[i] == n0.lines@[i]);
        if j < n0.lines@.len() {
            assert(n1.lines@[j] == n0.lines@[j]);
        }
    }
}

/// Which path improvements to run after a path was found.
#[derive(Clone, Copy, PartialEq, Eq, Structural, Debug)]
pub enum Improvement {
    /// Only the collinear cleanup; the path may contain visible detours.
    CleanupOnly,
    /// Cleanup plus the segment-extension shortcut (paper Fig. 10 → 11).
    ExtensionOnly,
    /// `ExtensionOnly` plus perpendicular probing along every segment
    /// (paper Fig. 8 → 9). Removes staircases, costs more time.
    Full,
}

impl Default for Improvement {
    /// The segment-extension shortcut.
    fn default() -> (r: Improvement)
        ensures
            r == Improvement::ExtensionOnly,
    {
        Improvement::ExtensionOnly
    }
}

/// Tunable parameters of [`route_with`].
#[derive(Clone, Debug)]
pub struct RouterConfig {
    /// Maximum number of escape steps (both networks together) before giving up.
    pub max_steps: usize,
    /// Post-processing of the found path.
    pub improve: Improvement,
    /// Let Escape Process II also retreat from escape-line ends that lie on
    /// the bounding box, not only from ends stopped by a cover.
    ///
    /// The paper only retreats from covers. That keeps the number of probe
    /// lines small in open scenes, but a network whose lines reach the box
    /// on all sides gives up immediately, which makes the router miss more
    /// paths. Enabling this finds more paths at the price of many probe
    /// lines in open scenes (up to one per unit of the bounding box).
    pub boundary_retreat: bool,
    /// Let Escape Process II recurse: when neither a retreat position nor
    /// Process I at it leads anywhere, retreat along the trial line
    /// constructed there as well (from that line's cover-stopped ends toward
    /// the position), and so on. Each position is tried at most once per
    /// call, so the search ends. This is what lets the router thread long
    /// corridors. Default: `true`.
    pub recursive_retreat: bool,
}

impl Default for RouterConfig {
    fn default() -> (r: RouterConfig)
        ensures
            r.max_steps == 10_000,
            r.improve == Improvement::Full,
            !r.boundary_retreat,
            r.recursive_retreat,
    {
        RouterConfig {
            max_steps: 10_000,
            improve: Improvement::Full,
            boundary_retreat: false,
            recursive_retreat: true,
        }
    }
}

/// Why a routing run ended.
#[derive(Clone, Copy, PartialEq, Eq, Structural, Debug)]
pub enum Outcome {
    /// A path was found.
    Found,
    /// Both networks ran out of escape points. Either no path exists or the
    /// algorithm missed it (it is not complete).
    NoEscape,
    /// [`RouterConfig::max_steps`] was exhausted.
    StepLimit,
    /// `A` or `B` lies outside the bounds or on an obstacle.
    InvalidInput,
}

/// Result of [`route_with`]: the path (if any), why the run ended and the full trace.
#[derive(Clone, Debug)]
pub struct RouteResult {
    /// Corner list from `A` to `B`; consecutive corners differ in exactly one coordinate.
    pub path: Option<Vec<Point>>,
    /// Why the run ended.
    pub outcome: Outcome,
    /// Number of escape steps performed.
    pub steps: usize,
    /// Everything that happened, for visualization.
    pub trace: Trace,
}

/// What one escape step achieved.
pub enum StepResult {
    /// A new escape point was found.
    Continue,
    /// The network gave up.
    NoEscape,
    /// A line of the stepping network crossed a line of the other one.
    Intersection {
        /// The crossing point.
        point: Point,
        /// The crossing line of the stepping network.
        line_here: usize,
        /// The crossed line of the other network.
        line_other: usize,
    },
}

/// A copy of a corner list.
pub(crate) fn copy_points(v: &Vec<Point>) -> (r: Vec<Point>)
    ensures
        r@ == v@,
{
    let mut r: Vec<Point> = Vec::new();
    let mut i: usize = 0;
    while i < v.len()
        invariant
            i <= v@.len(),
            r@ == v@.take(i as int),
        decreases v@.len() - i,
    {
        r.push(v[i]);
        i = i + 1;
        assert(r@ =~= v@.take(i as int));
    }
    assert(v@.take(v@.len() as int) =~= v@);
    r
}

/// Reverses a corner list in place.
pub(crate) fn reverse_points(path: &mut Vec<Point>)
    ensures
        final(path)@ == old(path)@.reverse(),
{
    let mut r: Vec<Point> = Vec::new();
    let mut i = path.len();
    while i > 0
        invariant
            i <= path@.len(),
            r@ == path@.subrange(i as int, path@.len() as int).reverse(),
        decreases i,
    {
        i = i - 1;
        r.push(path[i]);
        assert(r@ =~= path@.subrange(i as int, path@.len() as int).reverse());
    }
    assert(path@.subrange(0, path@.len() as int) =~= path@);
    *path = r;
}

/// Reversal keeps a path rectilinear, free and clean, and swaps its ends.
pub(crate) proof fn lemma_reverse_path(m: ObstacleModel, s: Seq<Point>)
    ensures
        rectilinear(s) ==> rectilinear(s.reverse()),
        chain_free(m, s) ==> chain_free(m, s.reverse()),
        corners_free(m, s) ==> corners_free(m, s.reverse()),
        clean(s) ==> clean(s.reverse()),
        s.reverse().len() == s.len(),
        s.len() > 0 ==> s.reverse()[0] == s.last() && s.reverse().last() == s[0],
        s.reverse().reverse() == s,
{
    let r = s.reverse();
    let n = s.len();
    assert(r.reverse() =~= s);
    if rectilinear(s) {
        assert forall|k: int| 0 <= k < n - 1 implies #[trigger] aligned_at(r, k) by {
            assert(aligned_at(s, n - 2 - k));
        }
    }
    if chain_free(m, s) {
        assert forall|k: int| 0 <= k < n - 1 implies #[trigger] free_at(m, r, k) by {
            assert(free_at(m, s, n - 2 - k));
            assert forall|z: Point| #[trigger] on_between(r[k], r[k + 1], z) implies m.free_point(z) by {
                assert(on_between(s[n - 2 - k], s[n - 2 - k + 1], z));
            }
        }
    }
    if corners_free(m, s) {
        assert forall|k: int| 0 <= k < n implies m.free_point(#[trigger] r[k]) by {
            assert(m.free_point(s[n - 1 - k]));
        }
    }
    if clean(s) {
        assert forall|k: int| 0 <= k < n - 1 implies #[trigger] crate::refine::distinct_at(r, k) by {
            assert(crate::refine::distinct_at(s, n - 2 - k));
        }
        assert forall|k: int| 1 <= k < n - 1 implies #[trigger] crate::refine::turn_at(r, k) by {
            assert(crate::refine::turn_at(s, n - 1 - k));
        }
    }
}

/// The last path event decides the trace's final path.
proof fn lemma_final_path_last(t: Trace)
    requires
        t.events@.len() > 0,
        event_path(t.events@.last()) is Some,
    ensures
        t.final_path_spec() == event_path(t.events@.last()),
{
    let s = t.events@;
    let n = s.len();
    assert(event_path(s[n - 1]) is Some);
    let i = choose|i: int|
        0 <= i < s.len() && (#[trigger] event_path(s[i])) is Some && forall|j: int|
            i < j < s.len() ==> (#[trigger] event_path(s[j])) is None;
    if i < n - 1 {
        assert(event_path(s[n - 1]) is None);
    }
}

/// A search trace has no final path and no crossing.
proof fn lemma_final_path_none(m: ObstacleModel, t: Trace)
    requires
        search_trace(m, t.events@),
    ensures
        t.final_path_spec() is None,
        forall|i: int| 0 <= i < t.events@.len() ==> !(#[trigger] t.events@[i] is Intersection),
{
    assert forall|i: int| 0 <= i < t.events@.len() implies !(#[trigger] t.events@[i] is Intersection) by {
        assert(event_sound(m, t.events@[i]));
        assert(search_event(t.events@[i]));
    }
    let s = t.events@;
    assert forall|i: int| 0 <= i < s.len() implies (#[trigger] event_path(s[i])) is None by {
        assert(event_sound(m, s[i]));
        assert(search_event(s[i]));
    }
}

/// Concatenates the corner chains of both networks: `A ... X ... B`.
pub fn reconstruct(net_a: &Network, line_a: usize, net_b: &Network, line_b: usize, x: Point) -> (r: Vec<Point>)
    requires
        net_a.shape_ok(),
        net_b.shape_ok(),
        line_a < net_a.lines@.len(),
        line_b < net_b.lines@.len(),
    ensures
        r@.len() >= 1,
        r@[0] == net_a.root(),
        r@.last() == net_b.root(),
        r@ == (seq![x] + ancestry(net_a.points@, net_a.lines@[line_a as int].through as int)).reverse() + ancestry(
            net_b.points@,
            net_b.lines@[line_b as int].through as int,
        ),
        forall|m: ObstacleModel|
            #![trigger net_a.wf(m), net_b.wf(m)]
            net_a.wf(m) && net_b.wf(m) && net_a.lines@[line_a as int].segment.contains(x)
                && net_b.lines@[line_b as int].segment.contains(x) ==> {
                &&& rectilinear(r@)
                &&& chain_free(m, r@)
                &&& corners_free(m, r@)
            },
{
    let mut path = net_a.chain(line_a, x);
    let ghost ca = path@;
    reverse_points(&mut path);
    let cb = net_b.chain(line_b, x);
    let ghost pa = path@;
    let mut k: usize = 1;
    while k < cb.len()
        invariant
            1 <= k <= cb@.len(),
            path@ == pa + cb@.subrange(1, k as int),
        decreases cb@.len() - k,
    {
        path.push(cb[k]);
        k = k + 1;
        assert(path@ =~= pa + cb@.subrange(1, k as int));
    }
    proof {
        let r = path@;
        let n = pa.len();
        assert(r =~= pa + cb@.subrange(1, cb@.len() as int));
        assert(cb@.subrange(1, cb@.len() as int) =~= ancestry(net_b.points@, net_b.lines@[line_b as int].through as int));
        lemma_reverse_path(ObstacleModel { bounds: crate::geometry::Bounds { min: x, max: x }, horizontal: Seq::empty(), vertical: Seq::empty(), rects: Seq::empty() }, ca);
        assert(pa.last() == x);
        assert(r[0] == pa[0]);
        assert(r.last() == cb@.last());
        assert forall|m: ObstacleModel|
            #![trigger net_a.wf(m), net_b.wf(m)]
            net_a.wf(m) && net_b.wf(m) && net_a.lines@[line_a as int].segment.contains(x)
                && net_b.lines@[line_b as int].segment.contains(x) implies {
                &&& rectilinear(r)
                &&& chain_free(m, r)
                &&& corners_free(m, r)
            } by {
            lemma_reverse_path(m, ca);
            assert(rectilinear(ca) && chain_free(m, ca) && corners_free(m, ca));
            assert(rectilinear(cb@) && chain_free(m, cb@) && corners_free(m, cb@));
            assert(rectilinear(pa) && chain_free(m, pa) && corners_free(m, pa));
            assert forall|i: int| 0 <= i < r.len() - 1 implies #[trigger] aligned_at(r, i) by {
                if i < n - 1 {
                    assert(aligned_at(pa, i));
                } else {
                    let j = i - n + 1;
                    assert(aligned_at(cb@, j));
                    assert(r[i] == cb@[j]);
                    assert(r[i + 1] == cb@[j + 1]);
                }
            }
            assert forall|i: int| 0 <= i < r.len() - 1 implies #[trigger] free_at(m, r, i) by {
                if i < n - 1 {
                    assert(free_at(m, pa, i));
                } else {
                    let j = i - n + 1;
                    assert(free_at(m, cb@, j));
                    assert(r[i] == cb@[j]);
                    assert(r[i + 1] == cb@[j + 1]);
                }
            }
            assert forall|i: int| 0 <= i < r.len() implies m.free_point(#[trigger] r[i]) by {
                if i < n {
                    assert(m.free_point(pa[i]));
                } else {
                    assert(r[i] == cb@[i - n + 1]);
                    assert(m.free_point(cb@[i - n + 1]));
                }
            }
        }
    }
    path
}

/// `s` is a finished route from `a` to `b`: a clean, rectilinear chain of free
/// stretches with free corners.
pub open spec fn route_ok(m: ObstacleModel, a: Point, b: Point, s: Seq<Point>) -> bool {
    &&& s.len() >= 1
    &&& s[0] == a
    &&& s.last() == b
    &&& clean(s)
    &&& rectilinear(s)
    &&& chain_free(m, s)
    &&& corners_free(m, s)
}

/// `t` extends `t0` by path events only.
pub open spec fn extended_by_paths(t0: Seq<TraceEvent>, t: Seq<TraceEvent>) -> bool {
    &&& t0.len() <= t.len()
    &&& t.subrange(0, t0.len() as int) == t0
    &&& forall|i: int| t0.len() <= i < t.len() ==> (#[trigger] event_path(t[i])) is Some
}

/// The last event of `t` is a path event carrying `s`.
pub open spec fn ends_with_path(t: Seq<TraceEvent>, s: Seq<Point>) -> bool {
    t.len() > 0 && event_path(t.last()) == Some(s)
}

/// Every event that `t` adds to `t0` is an `Improved` event.
pub open spec fn only_improved(t0: Seq<TraceEvent>, t: Seq<TraceEvent>) -> bool {
    forall|i: int| t0.len() <= i < t.len() ==> #[trigger] t[i] is Improved
}

/// The corners of a `RawPath` event.
pub open spec fn event_raw(e: TraceEvent) -> Option<Seq<Point>> {
    match e {
        TraceEvent::RawPath { corners } => Some(corners@),
        _ => None,
    }
}

/// The trace holds exactly one `RawPath` event, and it carries `raw`.
pub open spec fn sole_raw_path(t: Seq<TraceEvent>, raw: Seq<Point>) -> bool {
    exists|i: int|
        0 <= i < t.len() && #[trigger] event_raw(t[i]) == Some(raw) && forall|j: int|
            0 <= j < t.len() && j != i ==> (#[trigger] event_raw(t[j])) is None
}

/// Extension by path events is transitive.
proof fn lemma_extended_trans(t0: Seq<TraceEvent>, t1: Seq<TraceEvent>, t2: Seq<TraceEvent>)
    requires
        extended_by_paths(t0, t1),
        extended_by_paths(t1, t2),
    ensures
        extended_by_paths(t0, t2),
{
    assert(t2.subrange(0, t0.len() as int) =~= t1.subrange(0, t0.len() as int));
    assert forall|i: int| t0.len() <= i < t2.len() implies (#[trigger] event_path(t2[i])) is Some by {
        if i < t1.len() {
            assert(t2[i] == t1[i]);
        }
    }
}

/// Appending a path event extends a trace by path events.
proof fn lemma_extended_push(t: Seq<TraceEvent>, e: TraceEvent)
    requires
        event_path(e) is Some,
    ensures
        extended_by_paths(t, t.push(e)),
{
    assert(t.push(e).subrange(0, t.len() as int) =~= t);
}

/// A sound trace extended by path events stays sound.
proof fn lemma_extended_sound(m: ObstacleModel, t0: Seq<TraceEvent>, t: Seq<TraceEvent>)
    requires
        sound_trace(m, t0),
        extended_by_paths(t0, t),
    ensures
        sound_trace(m, t),
{
    assert forall|i: int| 0 <= i < t.len() implies #[trigger] event_sound(m, t[i]) by {
        if i < t0.len() {
            assert(t.subrange(0, t0.len() as int)[i] == t[i]);
        } else {
            assert(event_path(t[i]) is Some);
        }
    }
}

/// Records a copy of `path` as an `Improved` event.
fn record_improved(trace: &mut Trace, path: &Vec<Point>)
    ensures
        final(trace).events@.len() == old(trace).events@.len() + 1,
        final(trace).events@.last() is Improved,
        extended_by_paths(old(trace).events@, final(trace).events@),
        ends_with_path(final(trace).events@, path@),
{
    let corners = copy_points(path);
    let ghost t0 = trace.events@;
    let e = TraceEvent::Improved { corners };
    assert(event_path(e) == Some(path@));
    trace.push(e);
    proof {
        lemma_extended_push(t0, e);
    }
}

/// One improvement pass in both directions: the improvement runs on the path,
/// then on its reversal; each change is recorded in the trace.
/// The extension improvement run forward and then on the reversed path.
pub open spec fn extension_both_ways(m: ObstacleModel, s: Seq<Point>) -> Seq<Point> {
    extension_result(m, extension_result(m, s).reverse()).reverse()
}

/// The probe improvement run forward and then on the reversed path, each with
/// a fresh budget.
pub open spec fn probe_both_ways(m: ObstacleModel, s: Seq<Point>) -> Seq<Point> {
    probe_result(m, probe_result(m, s, 100_000).reverse(), 100_000).reverse()
}

/// The path that the configured improvements make of the raw path.
pub open spec fn improved_path(m: ObstacleModel, raw: Seq<Point>, improve: Improvement) -> Seq<Point> {
    match improve {
        Improvement::CleanupOnly => raw,
        Improvement::ExtensionOnly => extension_both_ways(m, raw),
        Improvement::Full => probe_both_ways(m, extension_both_ways(m, raw)),
    }
}

fn improve_both_ways(obstacles: &ObstacleSet, path: &mut Vec<Point>, probe: bool, trace: &mut Trace)
    requires
        route_ok(obstacles@, old(path)@[0], old(path)@.last(), old(path)@),
        ends_with_path(old(trace).events@, old(path)@),
    ensures
        route_ok(obstacles@, old(path)@[0], old(path)@.last(), final(path)@),
        extended_by_paths(old(trace).events@, final(trace).events@),
        only_improved(old(trace).events@, final(trace).events@),
        ends_with_path(final(trace).events@, final(path)@),
        crate::refine::path_length(final(path)@) <= crate::refine::path_length(old(path)@),
        !probe ==> final(path)@.len() <= old(path)@.len(),
        !probe && final(path)@.len() >= 4 ==> !has_extension(obstacles@, final(path)@.reverse()),
        !probe && old(path)@.len() >= 4 && has_extension(obstacles@, old(path)@) ==> final(path)@.len()
            < old(path)@.len(),
        !probe && !(old(path)@.len() >= 4 && has_extension(obstacles@, old(path)@)) && !(old(path)@.len() >= 4
            && has_extension(obstacles@, old(path)@.reverse())) ==> final(path)@ == old(path)@,
        probe && old(path)@.len() >= 4 && has_probe_within(obstacles@, old(path)@, 100_000) ==> path_length(
            final(path)@,
        ) < path_length(old(path)@),
        probe && !(old(path)@.len() >= 4 && has_probe_within(obstacles@, old(path)@, 100_000)) && !(old(path)@.len()
            >= 4 && has_probe_within(obstacles@, old(path)@.reverse(), 100_000)) ==> final(path)@ == old(path)@,
        final(path)@ == (if probe {
            probe_both_ways(obstacles@, old(path)@)
        } else {
            extension_both_ways(obstacles@, old(path)@)
        }),
{
    let ghost m = obstacles@;
    let ghost a = path@[0];
    let ghost b = path@.last();
    let ghost t0 = trace.events@;
    proof {
        assert(t0.subrange(0, t0.len() as int) =~= t0);
    }
    let ghost p0 = path@;
    let changed = if probe {
        improve_probe(obstacles, path)
    } else {
        improve_extension(obstacles, path)
    };
    if changed {
        record_improved(trace, path);
    }
    proof {
        assert(clean(path@));
    }
    let ghost t1 = trace.events@;
    let ghost p1 = path@;
    reverse_points(path);
    proof {
        lemma_reverse_path(m, p1);
        crate::refine::lemma_path_length_reverse(p1);
    }
    let ghost p2 = path@;
    let changed = if probe {
        improve_probe(obstacles, path)
    } else {
        improve_extension(obstacles, path)
    };
    let ghost p3 = path@;
    reverse_points(path);
    proof {
        lemma_reverse_path(m, p3);
        crate::refine::lemma_path_length_reverse(p3);
        assert(clean(p3));
        if !changed {
            assert(p3 == p2);
            assert(path@ =~= p1);
        }
        assert(path@.reverse() =~= p3);
        assert(p2 =~= p1.reverse());
    }
    if changed {
        record_improved(trace, path);
    }
    proof {
        assert(t1.subrange(0, t1.len() as int) =~= t1);
        lemma_extended_trans(t0, t1, trace.events@);
        let t2 = trace.events@;
        assert forall|i: int| t0.len() <= i < t2.len() implies #[trigger] t2[i] is Improved by {
            if i < t1.len() {
                assert(t2[i] == t1[i]);
            }
        }
    }
}

/// Reads the path off the two trees, cleans it up, records it and runs the
/// improvements that `config` asks for.
fn finish_path(
    obstacles: &ObstacleSet,
    net_a: &Network,
    net_b: &Network,
    la: usize,
    lb: usize,
    x: Point,
    config: &RouterConfig,
    trace: &mut Trace,
) -> (r: Vec<Point>)
    requires
        net_a.wf(obstacles@),
        net_b.wf(obstacles@),
        la < net_a.lines@.len(),
        lb < net_b.lines@.len(),
        net_a.lines@[la as int].segment.contains(x),
        net_b.lines@[lb as int].segment.contains(x),
    ensures
        route_ok(obstacles@, net_a.root(), net_b.root(), r@),
        extended_by_paths(old(trace).events@, final(trace).events@),
        ends_with_path(final(trace).events@, r@),
        ({
            let t0 = old(trace).events@;
            let t = final(trace).events@;
            &&& t.len() > t0.len()
            &&& event_raw(t[t0.len() as int]) matches Some(raw) && raw == crate::refine::cleanup_spec(
                read_off(*net_a, la as int, *net_b, lb as int, x),
            ) && route_ok(obstacles@, net_a.root(), net_b.root(), raw)
                && crate::refine::path_length(r@) <= crate::refine::path_length(raw)
                && (config.improve != Improvement::Full ==> r@.len() <= raw.len())
                && (config.improve == Improvement::CleanupOnly ==> r@ == raw)
                && (config.improve == Improvement::ExtensionOnly && r@.len() >= 4 ==> !has_extension(
                obstacles@,
                r@.reverse(),
            )) && (config.improve == Improvement::ExtensionOnly && raw.len() >= 4 && has_extension(obstacles@, raw)
                ==> r@.len() < raw.len()) && (config.improve == Improvement::Full && !(raw.len() >= 4
                && has_extension(obstacles@, raw)) && !(raw.len() >= 4 && has_extension(obstacles@, raw.reverse()))
                && raw.len() >= 4 && has_probe_within(obstacles@, raw, 100_000) ==> path_length(r@) < path_length(
                raw,
            )) && r@ == improved_path(obstacles@, raw, config.improve)
            &&& forall|i: int| t0.len() < i < t.len() ==> #[trigger] t[i] is Improved
        }),
{
    let ghost m = obstacles@;
    let mut path = reconstruct(net_a, la, net_b, lb, x);
    let ghost raw0 = path@;
    cleanup(&mut path);
    proof {
        crate::refine::lemma_corners_from_free(m, path@, raw0);
        crate::refine::lemma_covered_free(m, path@, raw0);
    }
    let ghost raw = path@;
    let corners = copy_points(&path);
    let ghost t0 = trace.events@;
    let e = TraceEvent::RawPath { corners };
    assert(event_path(e) == Some(path@));
    trace.push(e);
    proof {
        lemma_extended_push(t0, e);
        assert(event_raw(trace.events@[t0.len() as int]) == Some(raw));
    }
    let ghost t1 = trace.events@;
    if config.improve != Improvement::CleanupOnly {
        improve_both_ways(obstacles, &mut path, false, trace);
        proof {
            lemma_extended_trans(t0, t1, trace.events@);
        }
    }
    let ghost t2 = trace.events@;
    let ghost p2 = path@;
    if config.improve == Improvement::Full {
        improve_both_ways(obstacles, &mut path, true, trace);
        proof {
            lemma_extended_trans(t0, t2, trace.events@);
        }
    }
    proof {
        let t = trace.events@;
        assert(t.len() >= t2.len() && t2.len() >= t1.len());
        assert(t[t0.len() as int] == t1[t0.len() as int]) by {
            assert(t.subrange(0, t1.len() as int)[t0.len() as int] == t[t0.len() as int]);
            assert(t2.subrange(0, t1.len() as int)[t0.len() as int] == t2[t0.len() as int]);
        }
        assert forall|i: int| t0.len() < i < t.len() implies #[trigger] t[i] is Improved by {
            if i < t2.len() {
                assert(t.subrange(0, t2.len() as int)[i] == t[i]);
                if i >= t1.len() {
                    assert(t2[i] is Improved);
                }
            }
        }
    }
    path
}

/// After the search trace `t0`, the crossing event `e` of lines `la` of `na`
/// and `lb` of `nb`, and path events only, the crossing is the only one, both
/// its lines are among the lines the two networks entered, and who gave up is
/// unchanged.
proof fn lemma_crossing_facts(
    m: ObstacleModel,
    t0: Seq<TraceEvent>,
    e: TraceEvent,
    t: Seq<TraceEvent>,
    na: Network,
    nb: Network,
    la: int,
    lb: int,
    x: Point,
)
    requires
        search_trace(m, t0),
        gave_up_once(t0),
        na.id == NetId::A,
        nb.id == NetId::B,
        0 <= la < na.lines@.len(),
        0 <= lb < nb.lines@.len(),
        e == (TraceEvent::Intersection {
            point: x,
            line_a: na.lines@[la].segment,
            line_b: nb.lines@[lb].segment,
        }),
        extended_by_paths(t0.push(e), t),
        lines_recorded(t0, na),
        lines_recorded(t0, nb),
    ensures
        sole_crossing(t, t0.len() as int),
        t[t0.len() as int] == e,
        t.subrange(0, t0.len() as int) == t0,
        line_events(t, NetId::A).contains(na.lines@[la].segment),
        line_events(t, NetId::B).contains(nb.lines@[lb].segment),
        forall|id: NetId| #[trigger] line_events(t, id) == line_events(t0, id),
        forall|id: NetId| gave_up(t, id) == gave_up(t0, id),
        gave_up_once(t),
{
    let t1 = t0.push(e);
    assert(t.subrange(0, t0.len() as int) =~= t0) by {
        assert(t.subrange(0, t1.len() as int) == t1);
        assert forall|i: int| 0 <= i < t0.len() implies t.subrange(0, t0.len() as int)[i] == t0[i] by {
            assert(t.subrange(0, t1.len() as int)[i] == t[i]);
        }
    }
    assert(t[t0.len() as int] == e) by {
        assert(t.subrange(0, t1.len() as int)[t0.len() as int] == t[t0.len() as int]);
    }
    assert forall|i: int| 0 <= i < t.len() && i != t0.len() implies !(#[trigger] t[i] is Intersection) by {
        if i < t0.len() {
            assert(t.subrange(0, t0.len() as int)[i] == t[i]);
            assert(event_sound(m, t0[i]) && search_event(t0[i]));
        } else {
            assert(event_path(t[i]) is Some);
        }
    }
    assert forall|id: NetId| #[trigger] line_events(t, id) == line_events(t0, id) by {
        assert forall|i: int| t0.len() <= i < t.len() implies !is_line_of(#[trigger] t[i], id) by {
            if i > t0.len() {
                assert(event_path(t[i]) is Some);
            }
        }
        lemma_line_events_keep(t0, t, id);
    }
    assert(line_events(t, NetId::A)[la] == na.lines@[la].segment);
    assert(line_events(t, NetId::B)[lb] == nb.lines@[lb].segment);
    assert forall|id: NetId| gave_up(t, id) == gave_up(t0, id) by {
        if gave_up(t, id) {
            let i = choose|i: int| 0 <= i < t.len() && #[trigger] t[i] == TraceEvent::NoEscape { net: id };
            if i >= t0.len() {
                if i == t0.len() {
                    assert(t[i] == e);
                } else {
                    assert(event_path(t[i]) is Some);
                }
            } else {
                assert(t.subrange(0, t0.len() as int)[i] == t[i]);
            }
        }
        if gave_up(t0, id) {
            let i = choose|i: int| 0 <= i < t0.len() && #[trigger] t0[i] == TraceEvent::NoEscape { net: id };
            assert(t.subrange(0, t0.len() as int)[i] == t[i]);
        }
    }
    assert forall|i: int, j: int| 0 <= i < j < t.len() && #[trigger] t[i] is NoEscape implies #[trigger] t[j] != t[i] by {
        assert(i < t0.len()) by {
            if i == t0.len() {
                assert(t[i] == e);
            } else if i > t0.len() {
                assert(event_path(t[i]) is Some);
            }
        }
        assert(t.subrange(0, t0.len() as int)[i] == t[i]);
        if j < t0.len() {
            assert(t.subrange(0, t0.len() as int)[j] == t[j]);
        } else if j > t0.len() {
            assert(event_path(t[j]) is Some);
        }
    }
}

/// The lines of two recorded, well-formed networks named `A` and `B` are never reused.
proof fn lemma_never_reused_both(t: Seq<TraceEvent>, na: Network, nb: Network)
    requires
        lines_recorded(t, na),
        lines_recorded(t, nb),
        na.lines_disjoint(),
        nb.lines_disjoint(),
        na.id == NetId::A,
        nb.id == NetId::B,
    ensures
        forall|id: NetId| lines_never_reused(#[trigger] line_events(t, id)),
{
    lemma_recorded_disjoint(t, na);
    lemma_recorded_disjoint(t, nb);
    assert forall|id: NetId| lines_never_reused(#[trigger] line_events(t, id)) by {
        match id {
            NetId::A => {},
            NetId::B => {},
        }
    }
}

/// The measure that the main loop decreases: twice the remaining steps, plus
/// one while the current network has given up (the loop then only switches).
pub open spec fn loop_measure(max_steps: usize, steps: usize, stuck: bool) -> int {
    2 * (max_steps - steps) + if stuck {
        1int
    } else {
        0int
    }
}

/// The line search before a turn: the two networks, the trace so far, whose
/// turn it is (`0` for `A`, `1` for `B`) and the number of escape steps taken.
pub struct RunState {
    /// The network grown from `a`.
    pub na: Network,
    /// The network grown from `b`.
    pub nb: Network,
    /// The trace so far.
    pub events: Seq<TraceEvent>,
    /// Whose turn it is: `0` for `A`, `1` for `B`.
    pub current: int,
    /// Escape steps taken so far.
    pub steps: int,
}

impl RunState {
    /// The network whose turn it is.
    pub open spec fn mover(self) -> Network {
        if self.current == 0 {
            self.na
        } else {
            self.nb
        }
    }

    /// The other network.
    pub open spec fn waiter(self) -> Network {
        if self.current == 0 {
            self.nb
        } else {
            self.na
        }
    }
}

/// The run starts with fresh networks at `a` and `b`, no events, `A` to move.
pub open spec fn run_start(s: RunState, a: Point, b: Point) -> bool {
    &&& s.na.id == NetId::A
    &&& s.nb.id == NetId::B
    &&& is_fresh(s.na, a)
    &&& is_fresh(s.nb, b)
    &&& s.events.len() == 0
    &&& s.current == 0
    &&& s.steps == 0
}

/// One turn of the run that does not end it: a network that gave up passes
/// its turn; otherwise it takes one escape step, as `escape_step` states it,
/// that crosses nothing. Either way the other network moves next.
pub open spec fn run_next(m: ObstacleModel, config: RouterConfig, s: RunState, s2: RunState) -> bool {
    &&& 0 <= s.current < 2
    &&& !(s.na.no_escape && s.nb.no_escape)
    &&& s2.current == 1 - s.current
    &&& if s.mover().no_escape {
        s2.na == s.na && s2.nb == s.nb && s2.events == s.events && s2.steps == s.steps
    } else {
        &&& s.steps < config.max_steps
        &&& s2.steps == s.steps + 1
        &&& s2.mover() == s.waiter()
        &&& exists|r: StepResult|
            !(r is Intersection) && #[trigger] step_spec(m, config, s.mover(), s.waiter(), s.events, s2.waiter(), s2.events, r)
    }
}

/// `h` lists the states of a run from `a` to `b`, one turn apart.
pub open spec fn run_history(m: ObstacleModel, a: Point, b: Point, config: RouterConfig, h: Seq<RunState>) -> bool {
    &&& h.len() >= 1
    &&& run_start(h[0], a, b)
    &&& forall|k: int| 0 <= k < h.len() - 1 ==> #[trigger] run_next(m, config, h[k], h[k + 1])
}

/// After the escape step of `s.mover()` that became `n1` with events `t1`
/// and crossed the other network at `point`, the result records the crossing
/// and the raw path read off the two trees there, and returns that raw path
/// as the configured improvements leave it.
pub open spec fn found_after(
    m: ObstacleModel,
    config: RouterConfig,
    s: RunState,
    n1: Network,
    t1: Seq<TraceEvent>,
    point: Point,
    line_here: usize,
    line_other: usize,
    r: RouteResult,
) -> bool {
    let (na, la, nb, lb) = if s.current == 0 {
        (n1, line_here as int, s.waiter(), line_other as int)
    } else {
        (s.waiter(), line_other as int, n1, line_here as int)
    };
    let t = r.trace.events@;
    &&& t.len() > t1.len() + 1
    &&& t.take(t1.len() as int) == t1
    &&& t[t1.len() as int] == (TraceEvent::Intersection {
        point,
        line_a: na.lines@[la].segment,
        line_b: nb.lines@[lb].segment,
    })
    &&& event_raw(t[t1.len() as int + 1]) == Some(crate::refine::cleanup_spec(read_off(na, la, nb, lb, point)))
    &&& r.path matches Some(p) && p@ == improved_path(
        m,
        crate::refine::cleanup_spec(read_off(na, la, nb, lb, point)),
        config.improve,
    )
}

/// How the run ends from state `s`: with `NoEscape` when both networks gave
/// up, with `StepLimit` when the network to move may not step any more, and
/// with `Found` when its next escape step crosses the other network.
pub open spec fn run_ends(m: ObstacleModel, config: RouterConfig, s: RunState, r: RouteResult) -> bool {
    &&& 0 <= s.current < 2
    &&& (r.outcome == Outcome::NoEscape) == (s.na.no_escape && s.nb.no_escape)
    &&& r.outcome == Outcome::NoEscape || r.outcome == Outcome::StepLimit || r.outcome == Outcome::Found
    &&& r.outcome == Outcome::NoEscape ==> r.steps == s.steps && r.trace.events@ == s.events
    &&& r.outcome == Outcome::StepLimit ==> {
        &&& !s.mover().no_escape
        &&& s.steps == config.max_steps
        &&& r.steps == s.steps
        &&& r.trace.events@ == s.events
    }
    &&& r.outcome == Outcome::Found ==> {
        &&& !s.mover().no_escape
        &&& s.steps < config.max_steps
        &&& r.steps == s.steps + 1
        &&& exists|n1: Network, t1: Seq<TraceEvent>, point: Point, line_here: usize, line_other: usize|
            #[trigger] step_spec(
                m,
                config,
                s.mover(),
                s.waiter(),
                s.events,
                n1,
                t1,
                StepResult::Intersection { point, line_here, line_other },
            ) && found_after(m, config, s, n1, t1, point, line_here, line_other, r)
    }
}

/// Routes from `a` to `b` with the default configuration.
///
/// Returns the corner list (`a` first, `b` last) or `None` if no path was
/// found. Note that `None` does not prove that no path exists: the algorithm
/// is fast but not complete.
///
/// When the two ends of a cover are equally near, Process I tries the end
/// with the larger coordinate first, so a path around a box that sits
/// symmetrically on the straight line from `a` to `b` passes above (or right
/// of) the box.
pub fn route(obstacles: &ObstacleSet, a: Point, b: Point) -> (r: Option<Vec<Point>>)
    ensures
        obstacles@.free_point(a) && obstacles@.free_point(b) && a != b ==> exists|h: Seq<RunState>, rr: RouteResult|
            #![trigger run_history(obstacles@, a, b, default_config(), h), run_ends(obstacles@, default_config(), h.last(), rr)]
            run_history(obstacles@, a, b, default_config(), h) && run_ends(obstacles@, default_config(), h.last(), rr)
                && r == rr.path,
        !(obstacles@.free_point(a) && obstacles@.free_point(b)) ==> r is None,
        r matches Some(p) ==> valid_path(obstacles@, a, b, p@),
        obstacles@.free_point(a) && a == b ==> (r matches Some(p) && p@ == seq![a]),
        obstacles@.free_point(a) && obstacles@.free_point(b) && lines_meet(obstacles@, a, b) ==> r is Some,
{
    let config = RouterConfig::default();
    let rr = route_with(obstacles, a, b, &config);
    proof {
        assert(config == default_config());
        if obstacles@.free_point(a) && obstacles@.free_point(b) && a != b {
            let h = choose|h: Seq<RunState>|
                #[trigger] run_history(obstacles@, a, b, config, h) && run_ends(obstacles@, config, h.last(), rr);
            assert(run_history(obstacles@, a, b, default_config(), h) && run_ends(obstacles@, default_config(), h.last(), rr));
        }
    }
    rr.path
}

/// The configuration `RouterConfig::default` gives.
pub open spec fn default_config() -> RouterConfig {
    RouterConfig { max_steps: 10_000, improve: Improvement::Full, boundary_retreat: false, recursive_retreat: true }
}

/// Routes from `a` to `b` and returns the full [`RouteResult`] including the trace.
///
/// The two networks take turns, one escape step each; a network that gave up
/// is skipped. The run ends with a path as soon as a line of one network
/// crosses a line of the other, without one when both networks gave up, and
/// after `config.max_steps` escape steps at the latest. The contract states
/// the run turn by turn (`run_history`, `run_ends`).
#[verifier::rlimit(60)]
#[verifier::spinoff_prover]
pub fn route_with(obstacles: &ObstacleSet, a: Point, b: Point, config: &RouterConfig) -> (r: RouteResult)
    ensures
        r.outcome == Outcome::InvalidInput <==> !(obstacles@.free_point(a) && obstacles@.free_point(b)),
        r.outcome == Outcome::InvalidInput ==> r.steps == 0 && r.trace.events@.len() == 0,
        r.path is Some <==> r.outcome == Outcome::Found,
        r.path matches Some(p) ==> valid_path(obstacles@, a, b, p@),
        r.path matches Some(p) ==> r.trace.final_path_spec() == Some(p@),
        r.path is None ==> r.trace.final_path_spec() is None,
        obstacles@.free_point(a) && a == b ==> r.steps == 0 && (r.path matches Some(p) && p@ == seq![a]),
        r.steps <= config.max_steps,
        r.outcome == Outcome::StepLimit ==> r.steps == config.max_steps,
        sound_trace(obstacles@, r.trace.events@),
        r.path matches Some(p) ==> exists|raw: Seq<Point>|
            #![trigger sole_raw_path(r.trace.events@, raw)]
            sole_raw_path(r.trace.events@, raw) && valid_path(obstacles@, a, b, raw)
                && crate::refine::path_length(p@) <= crate::refine::path_length(raw) && (config.improve
                != Improvement::Full ==> p@.len() <= raw.len() && crate::refine::bends(p@) <= crate::refine::bends(raw))
                && p@ == improved_path(obstacles@, raw, config.improve),
        r.path matches Some(p) ==> (config.improve == Improvement::ExtensionOnly && p@.len() >= 4 ==> !has_extension(
            obstacles@,
            p@.reverse(),
        )),
        r.outcome == Outcome::Found && a != b ==> exists|i: int|
            #![trigger sole_crossing(r.trace.events@, i)]
            sole_crossing(r.trace.events@, i) && (r.trace.events@[i] matches TraceEvent::Intersection {
                line_a,
                line_b,
                ..
            } && line_events(r.trace.events@, NetId::A).contains(line_a) && line_events(
                r.trace.events@,
                NetId::B,
            ).contains(line_b)),
        r.outcome != Outcome::Found ==> forall|i: int|
            0 <= i < r.trace.events@.len() ==> !(#[trigger] r.trace.events@[i] is Intersection),
        r.outcome == Outcome::NoEscape ==> gave_up(r.trace.events@, NetId::A) && gave_up(
            r.trace.events@,
            NetId::B,
        ),
        r.outcome == Outcome::Found ==> !(gave_up(r.trace.events@, NetId::A) && gave_up(
            r.trace.events@,
            NetId::B,
        )),
        gave_up_once(r.trace.events@),
        forall|id: NetId| lines_never_reused(#[trigger] line_events(r.trace.events@, id)),
        give_ups_right(obstacles@, r.trace.events@, config.boundary_retreat, config.recursive_retreat),
        r.outcome == Outcome::Found && a != b ==> exists|na: Network, nb: Network, la: int, lb: int, i: int|
            #![trigger sole_crossing(r.trace.events@, i), read_off(na, la, nb, lb, r.trace.events@[i]->Intersection_point)]
            sole_crossing(r.trace.events@, i) && na.id == NetId::A && nb.id == NetId::B && na.wf(obstacles@) && nb.wf(
                obstacles@,
            ) && na.root() == a && nb.root() == b && 0 <= la < na.lines@.len() && 0 <= lb < nb.lines@.len()
                && lines_recorded(r.trace.events@.take(i), na) && lines_recorded(r.trace.events@.take(i), nb)
                && r.trace.events@[i] == (TraceEvent::Intersection {
                point: r.trace.events@[i]->Intersection_point,
                line_a: na.lines@[la].segment,
                line_b: nb.lines@[lb].segment,
            }) && i + 1 < r.trace.events@.len() && event_raw(r.trace.events@[i + 1]) == Some(
                crate::refine::cleanup_spec(read_off(na, la, nb, lb, r.trace.events@[i]->Intersection_point)),
            ),
        obstacles@.free_point(a) && obstacles@.free_point(b) && config.max_steps >= 2 && lines_meet(obstacles@, a, b)
            ==> r.outcome == Outcome::Found,
        obstacles@.free_point(a) && obstacles@.free_point(b) && a != b ==> exists|h: Seq<RunState>|
            #[trigger] run_history(obstacles@, a, b, *config, h) && run_ends(obstacles@, *config, h.last(), r),
{
    let ghost m = obstacles@;
    obstacles.lemma_wf();
    let mut trace = Trace::default();
    if !obstacles.is_free_point(a) || !obstacles.is_free_point(b) {
        return RouteResult { path: None, outcome: Outcome::InvalidInput, steps: 0, trace };
    }
    if a == b {
        let mut corners: Vec<Point> = Vec::new();
        corners.push(a);
        let mut path: Vec<Point> = Vec::new();
        path.push(a);
        let e = TraceEvent::RawPath { corners };
        trace.push(e);
        proof {
            assert(event_path(e) == Some(path@));
            lemma_final_path_last(trace);
            reveal(valid_path);
            assert(path@ =~= seq![a]);
            assert(event_raw(trace.events@[0]) == Some(path@));
            assert(sole_raw_path(trace.events@, path@));
            assert(!gave_up(trace.events@, NetId::A));
            assert forall|id: NetId| lines_never_reused(#[trigger] line_events(trace.events@, id)) by {
                lemma_line_events_push(Seq::empty(), e, id);
                assert(trace.events@ =~= Seq::<TraceEvent>::empty().push(e));
            }
        }
        return RouteResult { path: Some(path), outcome: Outcome::Found, steps: 0, trace };
    }
    let mut net_a = Network::new(NetId::A, a);
    let mut net_b = Network::new(NetId::B, b);
    proof {
        assert(net_a.point_shape(0));
        assert(net_a.point_ok(m, 0));
        assert(net_b.point_shape(0));
        assert(net_b.point_ok(m, 0));
    }
    let mut current: usize = 0;
    let mut steps: usize = 0;
    let ghost mut h: Seq<RunState> = seq![RunState { na: net_a, nb: net_b, events: trace.events@, current: 0, steps: 0 }];
    proof {
        assert(trace.events@.len() == 0);
        assert(!gave_up(trace.events@, NetId::A));
        assert(!gave_up(trace.events@, NetId::B));
        assert(net_a.lines@.map_values(|l: EscapeLine| l.segment) =~= Seq::<Segment>::empty());
        assert(net_b.lines@.map_values(|l: EscapeLine| l.segment) =~= Seq::<Segment>::empty());
    }
    loop
        invariant
            m == obstacles@,
            m.wf(),
            net_a.wf(m),
            net_b.wf(m),
            net_a.root() == a,
            net_b.root() == b,
            a != b,
            m.free_point(a),
            m.free_point(b),
            current < 2,
            steps <= config.max_steps,
            search_trace(m, trace.events@),
            net_a.id == NetId::A,
            net_b.id == NetId::B,
            gave_up(trace.events@, NetId::A) == net_a.no_escape,
            gave_up(trace.events@, NetId::B) == net_b.no_escape,
            gave_up_once(trace.events@),
            lines_recorded(trace.events@, net_a),
            lines_recorded(trace.events@, net_b),
            steps == 0 ==> current == 0 && is_fresh(net_a, a) && is_fresh(net_b, b),
            steps == 1 ==> current == 1 && is_fresh(net_b, b) && forall|o: Orientation, l: Segment|
                #[trigger] m.is_escape_line(a, o, l) ==> line_events(trace.events@, NetId::A).contains(l),
            steps >= 2 ==> !lines_meet(m, a, b),
            give_ups_right(m, trace.events@, config.boundary_retreat, config.recursive_retreat),
            run_history(m, a, b, *config, h),
            h.last() == (RunState {
                na: net_a,
                nb: net_b,
                events: trace.events@,
                current: current as int,
                steps: steps as int,
            }),
        decreases loop_measure(
            config.max_steps,
            steps,
            if current == 0 {
                net_a.no_escape
            } else {
                net_b.no_escape
            },
        ),
    {
        if net_a.no_escape && net_b.no_escape {
            proof {
                lemma_final_path_none(m, trace);
                lemma_never_reused_both(trace.events@, net_a, net_b);
            }
            let result = RouteResult { path: None, outcome: Outcome::NoEscape, steps, trace };
            proof {
                assert(run_history(m, a, b, *config, h) && run_ends(m, *config, h.last(), result));
            }
            return result;
        }
        let stuck = if current == 0 {
            net_a.no_escape
        } else {
            net_b.no_escape
        };
        if stuck {
            let ghost s0 = h.last();
            current = 1 - current;
            proof {
                let s2 = RunState { na: net_a, nb: net_b, events: trace.events@, current: current as int, steps: steps as int };
                assert(run_next(m, *config, s0, s2));
                lemma_history_push(m, a, b, *config, h, s2);
                h = h.push(s2);
            }
        } else {
            if steps >= config.max_steps {
                proof {
                    lemma_final_path_none(m, trace);
                    lemma_never_reused_both(trace.events@, net_a, net_b);
                }
                let result = RouteResult { path: None, outcome: Outcome::StepLimit, steps, trace };
                proof {
                    assert(run_history(m, a, b, *config, h) && run_ends(m, *config, h.last(), result));
                }
                return result;
            }
            let ghost s0 = h.last();
            steps = steps + 1;
            let ghost ts = trace.events@;
            let ghost na0 = net_a;
            let ghost nb0 = net_b;
            let step = if current == 0 {
                escape_step(obstacles, &mut net_a, &net_b, config, &mut trace)
            } else {
                escape_step(obstacles, &mut net_b, &net_a, config, &mut trace)
            };
            proof {
                let t = trace.events@;
                if step is NoEscape {
                    let id = if current == 0 { NetId::A } else { NetId::B };
                    lemma_gave_up_push(ts, t, id);
                } else {
                    lemma_gave_up_steps(ts, t);
                }
                if current == 0 {
                    assert(line_events(t, NetId::B) == line_events(ts, NetId::B));
                } else {
                    assert(line_events(t, NetId::A) == line_events(ts, NetId::A));
                }
            }
            proof {
                let t = trace.events@;
                let bb = config.boundary_retreat;
                let rr = config.recursive_retreat;
                if step is NoEscape {
                    let td = t.drop_last();
                    assert forall|i: int| ts.len() <= i < td.len() implies !(#[trigger] td[i] is NoEscape) by {
                        assert(step_event(td[i]));
                    }
                    lemma_give_ups_extend(m, ts, td, bb, rr);
                    assert(td.push(t.last()) =~= t);
                    let n = if current == 0 { net_a } else { net_b };
                    let o = if current == 0 { net_b } else { net_a };
                    lemma_line_events_push(td, t.last(), n.id);
                    lemma_line_events_push(td, t.last(), o.id);
                    assert(lines_recorded(td, n));
                    assert(lines_recorded(td, o));
                    assert(gave_up_rightly(m, td, n.id, bb, rr));
                    lemma_give_ups_push(m, td, t.last(), bb, rr);
                } else {
                    assert forall|i: int| ts.len() <= i < t.len() implies !(#[trigger] t[i] is NoEscape) by {
                        assert(step_event(t[i]));
                    }
                    lemma_give_ups_extend(m, ts, t, bb, rr);
                }
            }
            if let StepResult::Intersection { point, line_here, line_other } = step {
                let (la, lb) = if current == 0 {
                    (line_here, line_other)
                } else {
                    (line_other, line_here)
                };
                let ghost t0 = trace.events@;
                let e = TraceEvent::Intersection {
                    point,
                    line_a: net_a.lines[la].segment,
                    line_b: net_b.lines[lb].segment,
                };
                trace.push(e);
                let ghost t1 = trace.events@;
                proof {
                    assert forall|i: int| 0 <= i < t1.len() implies #[trigger] event_sound(m, t1[i]) && (
                    i < t0.len() ==> search_event(t1[i])) by {
                        if i < t0.len() {
                            assert(t1[i] == t0[i]);
                            assert(event_sound(m, t0[i]));
                        }
                    }
                }
                let path = finish_path(obstacles, &net_a, &net_b, la, lb, point, config, &mut trace);
                proof {
                    let tt = trace.events@;
                    assert forall|i: int| t0.len() <= i < tt.len() implies !(#[trigger] tt[i] is NoEscape) by {
                        if i == t0.len() {
                            assert(tt.subrange(0, t1.len() as int)[i] == tt[i]);
                        } else if i > t1.len() {
                            assert(tt[i] is Improved);
                        }
                    }
                    assert(tt.subrange(0, t1.len() as int) == t1);
                    assert(t1.subrange(0, t0.len() as int) =~= t0);
                    assert(tt.subrange(0, t0.len() as int) =~= tt.subrange(0, t1.len() as int).subrange(0, t0.len() as int));
                    lemma_give_ups_extend(m, t0, tt, config.boundary_retreat, config.recursive_retreat);
                    assert(tt.take(t0.len() as int) =~= t0);
                    assert(tt[t0.len() as int] == e) by {
                        assert(tt.subrange(0, t1.len() as int)[t0.len() as int] == tt[t0.len() as int]);
                    }
                    assert(read_off(net_a, la as int, net_b, lb as int, point) == read_off(net_a, la as int, net_b, lb as int, tt[t0.len() as int]->Intersection_point));
                }
                proof {
                    lemma_crossing_facts(m, t0, e, trace.events@, net_a, net_b, la as int, lb as int, point);
                    lemma_never_reused_both(t0, net_a, net_b);
                    let tt = trace.events@;
                    assert(tt[t0.len() as int] matches TraceEvent::Intersection { line_a, line_b, .. }
                        && line_events(tt, NetId::A).contains(line_a) && line_events(tt, NetId::B).contains(line_b));
                    assert(sole_crossing(tt, t0.len() as int));
                    lemma_extended_sound(m, t1, trace.events@);
                    lemma_final_path_last(trace);
                    lemma_chain_valid_path(m, a, b, path@);
                    let t = trace.events@;
                    let raw = event_raw(t[t1.len() as int])->0;
                    lemma_chain_valid_path(m, a, b, raw);
                    assert forall|j: int| 0 <= j < t.len() && j != t1.len() implies (#[trigger] event_raw(t[j])) is None by {
                        if j < t1.len() {
                            assert(t.subrange(0, t1.len() as int)[j] == t[j]);
                            assert(event_sound(m, t1[j]));
                            if j < t0.len() {
                                assert(search_event(t1[j]));
                            }
                        } else {
                            assert(t[j] is Improved);
                        }
                    }
                    assert(sole_raw_path(t, raw));
                    crate::refine::lemma_clean_bends(path@);
                    crate::refine::lemma_clean_bends(raw);
                }
                let result = RouteResult { path: Some(path), outcome: Outcome::Found, steps, trace };
                proof {
                    let n1 = if current == 0 { net_a } else { net_b };
                    let tt = result.trace.events@;
                    assert(tt.take(t0.len() as int) =~= t0);
                    assert(step_spec(m, *config, s0.mover(), s0.waiter(), s0.events, n1, t0, step));
                    assert(found_after(m, *config, s0, n1, t0, point, line_here, line_other, result));
                    assert(run_history(m, a, b, *config, h) && run_ends(m, *config, h.last(), result));
                }
                return result;
            }
            proof {
                if steps == 2 && lines_meet(m, a, b) {
                    let (oa, ob, la, lb) = choose|oa: Orientation, ob: Orientation, la: Segment, lb: Segment|
                        #[trigger] m.is_escape_line(a, oa, la) && #[trigger] m.is_escape_line(b, ob, lb) && lb.crossing(&la) is Some;
                    assert(line_events(ts, NetId::A).contains(la));
                    let i = choose|i: int| 0 <= i < line_events(ts, NetId::A).len() && line_events(ts, NetId::A)[i] == la;
                    assert(na0.lines@.map_values(|l: EscapeLine| l.segment)[i] == la);
                    assert(crosses_net(lb, net_a));
                    assert(!net_uses(nb0, lb));
                    assert(nb0.points@.last().point == b);
                    assert(flag_asks(nb0.flag, ob));
                }
            }
            current = 1 - current;
            proof {
                let s2 = RunState { na: net_a, nb: net_b, events: trace.events@, current: current as int, steps: steps as int };
                assert(step_spec(m, *config, s0.mover(), s0.waiter(), s0.events, s2.waiter(), s2.events, step));
                assert(run_next(m, *config, s0, s2));
                lemma_history_push(m, a, b, *config, h, s2);
                h = h.push(s2);
            }
        }
    }
}

/// A run history grows by one turn.
proof fn lemma_history_push(m: ObstacleModel, a: Point, b: Point, config: RouterConfig, h: Seq<RunState>, s2: RunState)
    requires
        run_history(m, a, b, config, h),
        run_next(m, config, h.last(), s2),
    ensures
        run_history(m, a, b, config, h.push(s2)),
        h.push(s2).last() == s2,
{
    let h2 = h.push(s2);
    assert forall|k: int| 0 <= k < h2.len() - 1 implies #[trigger] run_next(m, config, h2[k], h2[k + 1]) by {
        if k < h.len() - 1 {
            assert(h2[k] == h[k] && h2[k + 1] == h[k + 1]);
            assert(run_next(m, config, h[k], h[k + 1]));
        } else {
            assert(h2[k] == h.last());
        }
    }
}

/// Constructs the escape line of orientation `o` through the object point
/// `z` unless the network already has it, and tests it against the other
/// network. Returns the crossing point, the entered line and the crossed line.
fn try_escape_line(
    obstacles: &ObstacleSet,
    net: &mut Network,
    other: &Network,
    z_id: usize,
    z: Point,
    o: Orientation,
    trace: &mut Trace,
) -> (r: Option<(Point, usize, usize)>)
    requires
        old(net).wf(obstacles@),
        other.wf(obstacles@),
        z_id < old(net).points@.len(),
        z == old(net).points@[z_id as int].point,
        search_trace(obstacles@, old(trace).events@),
        lines_recorded(old(trace).events@, *old(net)),
    ensures
        final(net).wf(obstacles@),
        final(net).points@ == old(net).points@,
        final(net).id == old(net).id,
        final(net).flag == old(net).flag,
        final(net).no_escape == old(net).no_escape,
        search_trace(obstacles@, final(trace).events@),
        grows_by_steps(old(trace).events@, final(trace).events@),
        lines_recorded(final(trace).events@, *final(net)),
        lines_kept(old(trace).events@, final(trace).events@, old(net).id),
        r matches Some((point, line_here, line_other)) ==> {
            &&& line_here < final(net).lines@.len()
            &&& final(net).lines@[line_here as int].segment.contains(point)
            &&& line_other < other.lines@.len()
            &&& other.lines@[line_other as int].segment.contains(point)
        },
        forall|l: Segment| #[trigger] obstacles@.is_escape_line(z, o, l) ==> line_events(
            final(trace).events@,
            old(net).id,
        ).contains(l),
        forall|l: Segment|
            #[trigger] obstacles@.is_escape_line(z, o, l) && !net_uses(*old(net), l) && crosses_net(l, *other)
                ==> r is Some,
        forall|s: Segment| s.orientation != o ==> (#[trigger] net_uses(*final(net), s) <==> net_uses(*old(net), s)),
        r matches Some((point, line_here, line_other)) ==> {
            let seg = final(net).lines@[line_here as int].segment;
            &&& obstacles@.is_escape_line(z, o, seg)
            &&& !net_uses(*old(net), seg)
            &&& crosses_net(seg, *other)
            &&& first_crossing(seg, *other, line_other as int, point)
        },
{
    let ghost m = obstacles@;
    assert(net.point_ok(m, z_id as int));
    let line = obstacles.escape_line(z, o);
    if net.is_used(&line) {
        proof {
            lemma_grows_refl(trace.events@);
            let l = choose|l: int| 0 <= l < net.lines@.len() && (#[trigger] net.lines@[l]).segment.overlaps_collinear(&line);
            assert(net.line_ok(m, l));
            let pl = net.points@[net.lines@[l].through as int].point;
            crate::refine::lemma_escape_line_unique(m, pl, z, o, net.lines@[l].segment, line);
            assert(net.lines@.map_values(|x: EscapeLine| x.segment)[l] == line);
            assert forall|l2: Segment| #[trigger] m.is_escape_line(z, o, l2) implies line_events(
                trace.events@,
                net.id,
            ).contains(l2) by {
                crate::refine::lemma_escape_line_same(m, z, o, line, l2);
            }
            assert forall|l2: Segment|
                #[trigger] m.is_escape_line(z, o, l2) && !net_uses(*net, l2) && crosses_net(l2, *other)
                    implies false by {
                crate::refine::lemma_escape_line_same(m, z, o, line, l2);
            }
        }
        return None;
    }
    let ghost n0 = *net;
    let ghost t0 = trace.events@;
    let line_here = net.add_line(line, z_id, trace);
    proof {
        lemma_along_across(o, z);
        assert(line.contains(z));
        lemma_push_line(m, n0, *net, line, z_id);
        let e = TraceEvent::LineAdded { net: n0.id, line, through: z };
        lemma_search_push(m, t0, e);
        lemma_grows_refl(t0);
        lemma_grows_push(t0, t0, e);
        lemma_recorded_push_line(t0, n0, *net, e, line, z_id);
        assert forall|id: NetId| id != n0.id implies line_events(trace.events@, id) == line_events(t0, id) by {
            lemma_line_events_push(t0, e, id);
        }
        lemma_line_events_push(t0, e, n0.id);
        assert(line_events(trace.events@, n0.id).last() == line);
        assert forall|l2: Segment| #[trigger] m.is_escape_line(z, o, l2) implies line_events(
            trace.events@,
            n0.id,
        ).contains(l2) by {
            crate::refine::lemma_escape_line_same(m, z, o, line, l2);
            assert(line_events(trace.events@, n0.id)[line_events(trace.events@, n0.id).len() - 1] == l2);
        }
        assert forall|s: Segment| s.orientation != o implies (#[trigger] net_uses(*net, s) <==> net_uses(n0, s)) by {
            if net_uses(*net, s) {
                let l = choose|l: int| 0 <= l < net.lines@.len() && (#[trigger] net.lines@[l]).segment.overlaps_collinear(&s);
                if l < n0.lines@.len() {
                    assert(n0.lines@[l] == net.lines@[l]);
                }
            }
            if net_uses(n0, s) {
                let l = choose|l: int| 0 <= l < n0.lines@.len() && (#[trigger] n0.lines@[l]).segment.overlaps_collinear(&s);
                assert(n0.lines@[l] == net.lines@[l]);
            }
        }
    }
    match other.find_crossing(&line) {
        Some((point, line_other)) => {
            proof {
                crate::escape::lemma_crossing_on_both(line, other.lines@[line_other as int].segment);
            }
            Some((point, line_here, line_other))
        },
        None => {
            proof {
                assert forall|l2: Segment|
                    #[trigger] m.is_escape_line(z, o, l2) && !net_uses(n0, l2) && crosses_net(l2, *other)
                        implies false by {
                    crate::refine::lemma_escape_line_same(m, z, o, line, l2);
                    let k = choose|k: int| 0 <= k < other.lines@.len() && l2.crossing(&(#[trigger] other.lines@[k]).segment) is Some;
                }
            }
            None
        },
    }
}

/// What one escape step does, as `escape_step` states it: network `n0`
/// (against `other`) with trace `t0` becomes `n1` with trace `t1`, and the
/// step reports `r`.
pub open spec fn step_spec(
    m: ObstacleModel,
    config: RouterConfig,
    n0: Network,
    other: Network,
    t0: Seq<TraceEvent>,
    n1: Network,
    t1: Seq<TraceEvent>,
    r: StepResult,
) -> bool {
    &&& n1.wf(m)
    &&& n1.root() == n0.root()
    &&& n1.id == n0.id
    &&& search_trace(m, t1)
    &&& lines_recorded(t1, n1)
    &&& lines_kept(t0, t1, n0.id)
    &&& !(r is NoEscape) ==> n1.no_escape == n0.no_escape
    &&& !(r is NoEscape) ==> grows_by_steps(t0, t1)
    &&& r is NoEscape ==> {
        &&& n1.no_escape
        &&& t1.len() > 0
        &&& t1.last() == (TraceEvent::NoEscape { net: n0.id })
        &&& grows_by_steps(t0, t1.drop_last())
        &&& n1.points@ == n0.points@
    }
    &&& r matches StepResult::Intersection { point, line_here, line_other } ==> {
        &&& line_here < n1.lines@.len()
        &&& n1.lines@[line_here as int].segment.contains(point)
        &&& line_other < other.lines@.len()
        &&& other.lines@[line_other as int].segment.contains(point)
        &&& first_crossing(n1.lines@[line_here as int].segment, other, line_other as int, point)
    }
    &&& forall|o: Orientation, l: Segment|
        #[trigger] first_hit(m, n0, other, o, l) ==> (r matches StepResult::Intersection { point, line_here, line_other }
            && n1.lines@[line_here as int].segment == l && first_crossing(l, other, line_other as int, point))
    &&& !(r is Intersection) ==> forall|o: Orientation, l: Segment|
        flag_asks(n0.flag, o) && #[trigger] m.is_escape_line(n0.points@.last().point, o, l)
            ==> line_events(t1, n0.id).contains(l)
    &&& forall|o: Orientation, l: Segment|
        flag_asks(n0.flag, o) && #[trigger] m.is_escape_line(n0.points@.last().point, o, l)
            && !net_uses(n0, l) && crosses_net(l, other) ==> r is Intersection
    &&& r is NoEscape <==> !(r is Intersection) && !phase_possible(m, n1, n0.points@.last().point, Orientation::Vertical)
        && !phase_possible(m, n1, n0.points@.last().point, Orientation::Horizontal)
        && retreat_fails(m, n1, other, n0.points@.last().point, config.boundary_retreat, config.recursive_retreat)
    &&& r is Continue && (phase_possible(m, n1, n0.points@.last().point, Orientation::Vertical)
        || phase_possible(m, n1, n0.points@.last().point, Orientation::Horizontal)) ==> {
        &&& n1.points@ == n0.points@.push(
            EscapePoint { point: n1.points@.last().point, parent: Some((n0.points@.len() - 1) as usize) },
        )
        &&& n1.flag matches Flag::One(o) && process_i_result(
            m,
            n1,
            n0.points@.last().point,
            n1.points@.last().point,
            o,
        ) && process_i_choice(
            m,
            n1,
            n0.points@.last().point,
            n1.points@.last().point,
            o,
        )
    }
    &&& r is Continue && !phase_possible(m, n1, n0.points@.last().point, Orientation::Vertical)
        && !phase_possible(m, n1, n0.points@.last().point, Orientation::Horizontal) ==> {
        let n = n0.points@.len() as int;
        &&& n1.points@.len() >= n + 2
        &&& !config.recursive_retreat ==> n1.points@.len() == n + 2
        &&& n1.points@.subrange(0, n) == n0.points@
        &&& n1.points@[n].parent == Some((n - 1) as usize)
        &&& forall|k: int| n < k < n1.points@.len() ==> (#[trigger] n1.points@[k]).parent == Some(
            (k - 1) as usize,
        )
        &&& n1.flag matches Flag::One(o) && process_i_choice(
            m,
            n1,
            n1.points@[n1.points@.len() - 2].point,
            n1.points@.last().point,
            o,
        )
        &&& (exists|k: int, p: Point|
            0 <= k < 4 && #[trigger] on_between(
                n0.points@.last().point,
                retreat_origin(m, n0.points@.last().point, k, config.boundary_retreat),
                p,
            ) && p != n0.points@.last().point && !retreat_position_fails(m, n1, other, p, retreat_orientation(k)))
            ==> exists|i: int|
            #[trigger] first_on_walks(
                m,
                n1,
                other,
                n0.points@.last().point,
                retreat_starts(m, n0.points@.last().point, config.boundary_retreat),
                retreat_orients(),
                i,
                n1.points@[n].point,
            )
    }
}

/// One escape step of `net` against `other` (paper: "Escape Algorithm").
///
/// The escape lines through the object point that the flag asks for are
/// constructed and tested for a crossing with the other network; then the
/// next escape point is sought with Process I and, failing that, Process II.
/// When neither finds one the network gives up.
pub fn escape_step(
    obstacles: &ObstacleSet,
    net: &mut Network,
    other: &Network,
    config: &RouterConfig,
    trace: &mut Trace,
) -> (r: StepResult)
    requires
        old(net).wf(obstacles@),
        other.wf(obstacles@),
        search_trace(obstacles@, old(trace).events@),
        lines_recorded(old(trace).events@, *old(net)),
    ensures
        step_spec(obstacles@, *config, *old(net), *other, old(trace).events@, *final(net), final(trace).events@, r),
{
    let ghost m = obstacles@;
    let ghost tin = trace.events@;
    proof {
        lemma_grows_refl(tin);
    }
    let (z_id, z) = net.object_point();
    let (first, count): (Orientation, usize) = match net.flag {
        Flag::Both => (Orientation::Horizontal, 2),
        Flag::One(o) => (o, 1),
    };
    let mut k: usize = 0;
    while k < count
        invariant
            m == obstacles@,
            net.wf(m),
            other.wf(m),
            net.points@ == old(net).points@,
            net.id == old(net).id,
            net.no_escape == old(net).no_escape,
            z_id == net.points@.len() - 1,
            z == net.points@[z_id as int].point,
            search_trace(m, trace.events@),
            tin == old(trace).events@,
            grows_by_steps(tin, trace.events@),
            lines_recorded(trace.events@, *net),
            lines_kept(tin, trace.events@, net.id),
            count <= 2,
            old(net).flag == Flag::Both ==> first == Orientation::Horizontal && count == 2,
            old(net).flag matches Flag::One(p) ==> first == p && count == 1,
            z == old(net).points@.last().point,
            forall|o: Orientation, l: Segment|
                ((k >= 1 && o == first) || (k >= 2 && o == Orientation::Vertical)) && #[trigger] m.is_escape_line(z, o, l)
                    ==> line_events(trace.events@, net.id).contains(l),
            forall|o: Orientation, l: Segment|
                ((k >= 1 && o == first) || (k >= 2 && o == Orientation::Vertical)) && #[trigger] m.is_escape_line(z, o, l)
                    ==> !(!net_uses(*old(net), l) && crosses_net(l, *other)),
            forall|s: Segment|
                !((k >= 1 && s.orientation == first) || (k >= 2 && s.orientation == Orientation::Vertical))
                    ==> (#[trigger] net_uses(*net, s) <==> net_uses(*old(net), s)),
        decreases count - k,
    {
        let o = if k == 0 {
            first
        } else {
            Orientation::Vertical
        };
        let ghost t0 = trace.events@;
        let ghost nb = *net;
        let found = try_escape_line(obstacles, net, other, z_id, z, o, trace);
        proof {
            assert forall|o2: Orientation, l: Segment|
                ((k + 1 >= 1 && o2 == first) || (k + 1 >= 2 && o2 == Orientation::Vertical)) && #[trigger] m.is_escape_line(z, o2, l)
                    implies line_events(trace.events@, net.id).contains(l) by {
                if !(o2 == o) {
                    lemma_line_events_grow(t0, trace.events@, net.id, l);
                }
            }
            assert forall|s: Segment|
                !((k + 1 >= 1 && s.orientation == first) || (k + 1 >= 2 && s.orientation == Orientation::Vertical))
                    implies (#[trigger] net_uses(*net, s) <==> net_uses(*old(net), s)) by {
                assert(net_uses(*net, s) <==> net_uses(nb, s));
            }
            if found is None {
                assert forall|o2: Orientation, l: Segment|
                    ((k + 1 >= 1 && o2 == first) || (k + 1 >= 2 && o2 == Orientation::Vertical)) && #[trigger] m.is_escape_line(z, o2, l)
                        implies !(!net_uses(*old(net), l) && crosses_net(l, *other)) by {
                    if o2 == o {
                        assert(net_uses(nb, l) <==> net_uses(*old(net), l));
                    }
                }
            }
            lemma_grows_trans(tin, t0, trace.events@);
            assert forall|id: NetId| id != net.id implies line_events(trace.events@, id) == line_events(tin, id) by {
                assert(line_events(trace.events@, id) == line_events(t0, id));
            }
        }
        if let Some((point, line_here, line_other)) = found {
            proof {
                let seg = net.lines@[line_here as int].segment;
                assert(net_uses(nb, seg) <==> net_uses(*old(net), seg));
                assert forall|o2: Orientation, l: Segment|
                    #[trigger] first_hit(m, *old(net), *other, o2, l) implies net.lines@[line_here as int].segment == l
                        && first_crossing(l, *other, line_other as int, point) by {
                    if o2 == o {
                        crate::refine::lemma_escape_line_same(m, z, o, seg, l);
                    } else if k >= 1 && o2 == first {
                        assert(!(!net_uses(*old(net), l) && crosses_net(l, *other)));
                    } else {
                        assert(m.is_escape_line(z, Orientation::Horizontal, seg));
                    }
                }
            }
            return StepResult::Intersection { point, line_here, line_other };
        }
        k = k + 1;
    }
    proof {
        assert forall|o2: Orientation, l: Segment| #[trigger] first_hit(m, *old(net), *other, o2, l) implies false by {
            assert(m.is_escape_line(z, o2, l));
        }
    }
    assert(net.point_ok(m, z_id as int));
    let ghost nmid = *net;
    if let Some((e, o)) = process_i(obstacles, net, z) {
        let ghost n0 = *net;
        net.push_point(e, Some(z_id));
        proof {
            lemma_push_point(m, n0, *net, e, z_id);
        }
        let ghost n1 = *net;
        net.flag = Flag::One(o);
        proof {
            lemma_wf_views(m, n1, *net);
        }
        let ghost t0 = trace.events@;
        trace.push(TraceEvent::EscapePoint { net: net.id, point: e, process: Process::I });
        proof {
            let ev = TraceEvent::EscapePoint { net: n0.id, point: e, process: Process::I };
            lemma_search_push(m, t0, ev);
            lemma_grows_push(tin, t0, ev);
            assert(trace.events@.subrange(0, t0.len() as int) =~= t0);
            lemma_recorded_push_other(t0, *net, *net, ev);
            lemma_same_lines(m, nmid, *net, z);
        }
        return StepResult::Continue;
    }
    let ghost t1 = trace.events@;
    let outcome = process_ii(obstacles, net, other, z_id, z, config, trace);
    proof {
        lemma_grows_trans(tin, t1, trace.events@);
        assert forall|id: NetId| id != net.id implies line_events(trace.events@, id) == line_events(tin, id) by {
            assert(line_events(trace.events@, id) == line_events(t1, id));
        }
    }
    proof {
        if !(outcome is Intersection) {
            lemma_same_lines(m, nmid, *net, z);
            lemma_same_lines_retreat(m, nmid, *net, *other, z, config.boundary_retreat, config.recursive_retreat);
        }
        if outcome is Escaped {
            let b = config.boundary_retreat;
            if exists|k: int, p: Point|
                0 <= k < 4 && #[trigger] on_between(z, retreat_origin(m, z, k, b), p) && p != z
                    && !retreat_position_fails(m, *net, *other, p, retreat_orientation(k)) {
                let (k, p) = choose|k: int, p: Point|
                    0 <= k < 4 && #[trigger] on_between(z, retreat_origin(m, z, k, b), p) && p != z
                        && !retreat_position_fails(m, *net, *other, p, retreat_orientation(k));
                lemma_fails_same_lines(m, nmid, *net, *other, p, retreat_orientation(k));
                let q = net.points@[nmid.points@.len() as int].point;
                let i = choose|i: int| #[trigger] first_on_walks(m, nmid, *other, z, retreat_starts(m, z, b), retreat_orients(), i, q);
                lemma_first_same_lines(m, nmid, *net, *other, z, retreat_starts(m, z, b), retreat_orients(), i, q);
            }
        }
    }
    match outcome {
        ProcessOutcome::Escaped => StepResult::Continue,
        ProcessOutcome::Intersection { point, line_here, line_other } => StepResult::Intersection {
            point,
            line_here,
            line_other,
        },
        ProcessOutcome::Failed => {
            let ghost n0 = *net;
            net.no_escape = true;
            proof {
                lemma_wf_views(m, n0, *net);
            }
            let ghost t0 = trace.events@;
            trace.push(TraceEvent::NoEscape { net: net.id });
            proof {
                lemma_search_push(m, t0, TraceEvent::NoEscape { net: n0.id });
                assert(trace.events@.subrange(0, t0.len() as int) =~= t0);
                assert(trace.events@.drop_last() =~= t0);
                lemma_recorded_push_other(t0, *net, *net, TraceEvent::NoEscape { net: n0.id });
                lemma_same_lines(m, n0, *net, z);
                lemma_same_lines_retreat(m, n0, *net, *other, z, config.boundary_retreat, config.recursive_retreat);
            }
            StepResult::NoEscape
        },
    }
}

} // verus!
