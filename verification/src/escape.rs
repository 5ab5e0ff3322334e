//! Escape Process I ("slip around the end of a cover") and Escape Process II
//! ("retreat along the escape line").

use vstd::prelude::*;

use crate::geometry::{
    Orientation, Point, Segment, dist2_spec, lemma_along_across, lemma_from_along_across,
    manhattan_spec,
};
use crate::obstacles::{ObstacleModel, ObstacleSet, span_segment};
use crate::refine::{free_between, lemma_free_segment_between, lemma_free_segment_contains, on_between};
use crate::router::{
    EscapePoint, Flag, Network, RouterConfig, crosses_net, first_crossing, grows_by_steps, lemma_grows_push, lemma_grows_refl,
    lemma_grows_trans,
    lemma_line_events_push,
    lemma_push_line, lemma_push_point, lemma_recorded_push_line, lemma_recorded_push_other,
    lemma_search_push, lemma_wf_views, line_events, lines_kept, lines_recorded,
    search_trace,
};
use crate::trace::{NetId, Process, Trace, TraceEvent};

verus! {

/// One unit from `a` toward `b`, or zero if they are equal.
pub open spec fn unit_toward(a: int, b: int) -> int {
    if a < b {
        1
    } else if a > b {
        -1
    } else {
        0
    }
}

/// Moves `p` one unit toward `z` along the axis in which they differ.
/// (They differ in at most one axis because `p` lies on an escape line of `z`.)
pub fn toward(p: Point, z: Point) -> (r: Point)
    ensures
        p.x != z.x ==> r == (Point { x: (p.x + unit_toward(p.x as int, z.x as int)) as i64, y: p.y }),
        p.x == z.x ==> r == (Point { x: p.x, y: (p.y + unit_toward(p.y as int, z.y as int)) as i64 }),
{
    if p.x != z.x {
        let x = if p.x < z.x {
            p.x + 1
        } else {
            p.x - 1
        };
        Point::new(x, p.y)
    } else {
        let y = if p.y < z.y {
            p.y + 1
        } else if p.y > z.y {
            p.y - 1
        } else {
            p.y
        };
        Point::new(p.x, y)
    }
}

/// The two ends of a cover together with the coordinate one unit beyond each
/// end, on the side away from the cover: `from - 1` for the start, `to + 1`
/// for the end. Because a cover of `z` spans `z`'s coordinate this is also
/// "away from `z`", including the tie case where an end sits exactly at `z`'s
/// coordinate (where a plain "away from z" rule would step *into* the cover).
pub fn beyond_ends(cover: &Segment) -> (r: [(Point, i64); 2])
    requires
        cover.from > i64::MIN,
        cover.to < i64::MAX,
    ensures
        r@ == seq![(cover.start(), (cover.from - 1) as i64), (cover.end(), (cover.to + 1) as i64)],
{
    let r = [(cover.start(), cover.from - 1), (cover.end(), cover.to + 1)];
    assert(r@ =~= seq![(cover.start(), (cover.from - 1) as i64), (cover.end(), (cover.to + 1) as i64)]);
    r
}

/// Squared Euclidean distance, clamped to the largest `i128`.
fn clamped_dist2(p: Point, q: Point) -> (r: i128)
    ensures
        dist2_spec(p, q) <= i128::MAX ==> r == dist2_spec(p, q),
        dist2_spec(p, q) > i128::MAX ==> r == i128::MAX,
{
    let dx: i128 = p.x as i128 - q.x as i128;
    let dy: i128 = p.y as i128 - q.y as i128;
    assert(dx * dx >= 0 && dy * dy >= 0) by (nonlinear_arith);
    match dx.checked_mul(dx) {
        Some(a) => match dy.checked_mul(dy) {
            Some(b) => match a.checked_add(b) {
                Some(c) => c,
                None => i128::MAX,
            },
            None => i128::MAX,
        },
        None => i128::MAX,
    }
}

/// A candidate escape point of Process I: its distance key, the cover end it
/// was derived from, the running coordinate one unit beyond that end, and the cover.
type Candidate = (i128, Point, i64, Segment);

/// `r` is `s` rearranged by `perm` (`r[k]` is `s[perm[k]]`), and entries with
/// equal keys keep their order.
pub open spec fn stable_rearrangement(perm: Seq<int>, s: Seq<Candidate>, r: Seq<Candidate>) -> bool {
    &&& perm.len() == r.len() == s.len()
    &&& forall|k: int| 0 <= k < r.len() ==> 0 <= #[trigger] perm[k] < s.len() && r[k] == s[perm[k]]
    &&& forall|k1: int, k2: int| 0 <= k1 < k2 < r.len() ==> #[trigger] perm[k1] != #[trigger] perm[k2]
    &&& forall|k1: int, k2: int| 0 <= k1 < k2 < r.len() && #[trigger] r[k1].0 == #[trigger] r[k2].0 ==> perm[k1] < perm[k2]
}

/// Sorts the candidates by key, keeping the order of equal keys.
fn sort_candidates(v: &mut Vec<Candidate>)
    ensures
        final(v)@.len() == old(v)@.len(),
        forall|i: int, j: int| 0 <= i < j < final(v)@.len() ==> final(v)@[i].0 <= final(v)@[j].0,
        forall|k: int| 0 <= k < final(v)@.len() ==> old(v)@.contains(#[trigger] final(v)@[k]),
        forall|x: Candidate| old(v)@.contains(x) ==> #[trigger] final(v)@.contains(x),
        exists|perm: Seq<int>| #[trigger] stable_rearrangement(perm, old(v)@, final(v)@),
{
    let ghost orig = v@;
    let n = v.len();
    let ghost mut perm: Seq<int> = Seq::new(n as nat, |k: int| k);
    let mut i: usize = 1;
    while i < n
        invariant
            n == v@.len(),
            orig.len() == n,
            forall|a: int, b: int| 0 <= a < b < i && b < n ==> v@[a].0 <= v@[b].0,
            forall|k: int| 0 <= k < n ==> orig.contains(#[trigger] v@[k]),
            forall|x: Candidate| orig.contains(x) ==> #[trigger] v@.contains(x),
            perm.len() == n,
            forall|k: int| 0 <= k < n ==> 0 <= #[trigger] perm[k] < n && v@[k] == orig[perm[k]],
            forall|k: int| i <= k < n ==> #[trigger] perm[k] == k,
            forall|k: int| 0 <= k < i && k < n ==> #[trigger] perm[k] < i,
            forall|k1: int, k2: int| 0 <= k1 < k2 < n ==> #[trigger] perm[k1] != #[trigger] perm[k2],
            forall|k1: int, k2: int| 0 <= k1 < k2 < i && k2 < n && #[trigger] v@[k1].0 == #[trigger] v@[k2].0 ==> perm[k1] < perm[k2],
        decreases n - i,
    {
        let mut j: usize = i;
        while j > 0 && v[j - 1].0 > v[j].0
            invariant
                n == v@.len(),
                orig.len() == n,
                j <= i < n,
                forall|a: int, b: int| 0 <= a < b <= i && a != j && b != j ==> v@[a].0 <= v@[b].0,
                forall|a: int| j < a <= i ==> v@[j as int].0 < v@[a].0,
                forall|k: int| 0 <= k < n ==> orig.contains(#[trigger] v@[k]),
                forall|x: Candidate| orig.contains(x) ==> #[trigger] v@.contains(x),
                perm.len() == n,
                forall|k: int| 0 <= k < n ==> 0 <= #[trigger] perm[k] < n && v@[k] == orig[perm[k]],
                forall|k: int| i < k < n ==> #[trigger] perm[k] == k,
                perm[j as int] == i,
                forall|k: int| 0 <= k <= i && k != j ==> #[trigger] perm[k] < i,
                forall|k1: int, k2: int| 0 <= k1 < k2 < n ==> #[trigger] perm[k1] != #[trigger] perm[k2],
                forall|k1: int, k2: int|
                    0 <= k1 < k2 <= i && k1 != j && k2 != j && #[trigger] v@[k1].0 == #[trigger] v@[k2].0 ==> perm[k1] < perm[k2],
            decreases j,
        {
            let a = v[j - 1];
            let b = v[j];
            let ghost v0 = v@;
            let ghost p0 = perm;
            v.set(j - 1, b);
            v.set(j, a);
            proof {
                perm = p0.update(j - 1, p0[j as int]).update(j as int, p0[j - 1]);
                assert forall|k1: int, k2: int| 0 <= k1 < k2 < n implies #[trigger] perm[k1] != #[trigger] perm[k2] by {
                    let o1 = if k1 == j - 1 { j as int } else if k1 == j { j - 1 } else { k1 };
                    let o2 = if k2 == j - 1 { j as int } else if k2 == j { j - 1 } else { k2 };
                    assert(perm[k1] == p0[o1] && perm[k2] == p0[o2]);
                    if o1 < o2 {
                        assert(p0[o1] != p0[o2]);
                    } else {
                        assert(p0[o2] != p0[o1]);
                    }
                }
                assert forall|k1: int, k2: int|
                    0 <= k1 < k2 <= i && k1 != j - 1 && k2 != j - 1 && #[trigger] v@[k1].0 == #[trigger] v@[k2].0
                        implies perm[k1] < perm[k2] by {
                    let o1 = if k1 == j { j - 1 } else { k1 };
                    let o2 = if k2 == j { j - 1 } else { k2 };
                    assert(v@[k1] == v0[o1] && v@[k2] == v0[o2]);
                    if k1 == j {
                        assert(v0[j - 1].0 <= v0[k2].0);
                    }
                }
                assert forall|x: Candidate| orig.contains(x) implies #[trigger] v@.contains(x) by {
                    assert(v0.contains(x));
                    let t = choose|t: int| 0 <= t < v0.len() && v0[t] == x;
                    if t == j - 1 {
                        assert(v@[j as int] == x);
                    } else if t == j {
                        assert(v@[j - 1] == x);
                    } else {
                        assert(v@[t] == x);
                    }
                }
            }
            j = j - 1;
        }
        proof {
            assert forall|k1: int, k2: int| 0 <= k1 < k2 < i + 1 && k2 < n && #[trigger] v@[k1].0 == #[trigger] v@[k2].0
                implies perm[k1] < perm[k2] by {
                if k2 == j {
                    assert(perm[k1] < i);
                } else if k1 == j {
                    assert(v@[j as int].0 < v@[k2].0);
                }
            }
        }
        i = i + 1;
    }
    proof {
        assert(stable_rearrangement(perm, orig, v@));
    }
}

/// Some line of the network overlaps `s` collinearly.
pub open spec fn net_uses(net: Network, s: Segment) -> bool {
    exists|l: int| 0 <= l < net.lines@.len() && (#[trigger] net.lines@[l]).segment.overlaps_collinear(&s)
}

/// `e` is a Process I escape point of `z` for a new line of orientation `o`:
/// it lies on `z`'s escape line and the new line through it has not been used.
pub open spec fn process_i_result(m: ObstacleModel, net: Network, z: Point, e: Point, o: Orientation) -> bool {
    &&& m.free_point(e)
    &&& free_between(m, z, e)
    &&& exists|line: Segment| #[trigger] m.is_escape_line(e, o, line) && !net_uses(net, line)
}

/// `cover` bounds the escape line of orientation `new` through `z`: it is the
/// nearest obstacle of the perpendicular orientation on one side of `z`.
pub open spec fn bounding_cover(m: ObstacleModel, z: Point, new: Orientation, cover: Segment) -> bool {
    m.cover_below_result(new.perpendicular(), z, Some(cover)) || m.cover_above_result(
        new.perpendicular(),
        z,
        Some(cover),
    )
}

/// The line reaches past `cover`, on the side of `cover` away from `z`.
pub open spec fn reaches_past(cover: Segment, z: Point, new: Orientation, line: Segment) -> bool {
    if cover.fixed > z.along(new) {
        line.to > cover.fixed
    } else {
        line.from < cover.fixed
    }
}

/// `e_along` is the running coordinate one unit beyond an end of `cover`.
pub open spec fn end_coord(cover: Segment, e_along: int) -> bool {
    (e_along == cover.from - 1 && cover.from > i64::MIN) || (e_along == cover.to + 1 && cover.to < i64::MAX)
}

/// The candidate list holds an entry for `e_along` at `cover`.
pub open spec fn listed(ends: Seq<Candidate>, cover: Segment, e_along: int) -> bool {
    exists|t: int| 0 <= t < ends.len() && (#[trigger] ends[t]).3 == cover && ends[t].2 == e_along
}

/// The Process I escape point of phase `new` one unit beyond an end of `cover`
/// (whose running coordinate is `e_along`) on `z`'s perpendicular escape line.
pub open spec fn phase_point(z: Point, new: Orientation, e_along: int) -> Point {
    Point::from_along_across(new.perpendicular(), e_along as i64, z.across(new.perpendicular()))
}

/// A Process I candidate of phase `new` succeeds: `e_along` lies one unit
/// beyond an end of `cover`, the point there lies on `z`'s escape line of the
/// perpendicular orientation, and the escape line of orientation `new` through
/// it reaches past `cover` and is not yet used by the network.
pub open spec fn phase_escape(m: ObstacleModel, net: Network, z: Point, new: Orientation, cover: Segment, e_along: int) -> bool {
    let run = new.perpendicular();
    let e = phase_point(z, new, e_along);
    &&& end_coord(cover, e_along)
    &&& exists|rl: Segment| #[trigger] m.is_escape_line(z, run, rl) && rl.covers(e)
    &&& exists|line: Segment|
        #[trigger] m.is_escape_line(e, new, line) && reaches_past(cover, z, new, line) && !net_uses(net, line)
}

/// The key by which Process I tries the candidate `e_along` at `cover`: the
/// squared distance from `z` to the end of the cover it steps beyond, clamped
/// to the largest `i128`. Nearer ends are tried first.
pub open spec fn candidate_key(z: Point, cover: Segment, e_along: int) -> int {
    let f = if e_along == cover.from - 1 {
        cover.start()
    } else {
        cover.end()
    };
    if dist2_spec(f, z) <= i128::MAX {
        dist2_spec(f, z)
    } else {
        i128::MAX as int
    }
}

/// Where Process I lists the candidate `e_along` at `cover` among those of
/// equal key: the cover on the negative side of `z` first, and of each cover
/// the end with the larger coordinate first.
pub open spec fn candidate_rank(m: ObstacleModel, z: Point, new: Orientation, cover: Segment, e_along: int) -> int {
    (if m.cover_below_result(new.perpendicular(), z, Some(cover)) { 0int } else { 2int }) + (if e_along == cover.to + 1 {
        0int
    } else {
        1int
    })
}

/// Some candidate of phase `new` at a cover bounding `z` succeeds.
pub open spec fn phase_possible(m: ObstacleModel, net: Network, z: Point, new: Orientation) -> bool {
    exists|cover: Segment, e_along: int|
        bounding_cover(m, z, new, cover) && #[trigger] phase_escape(m, net, z, new, cover, e_along)
}

/// Candidate `e_along` at `cover` comes before candidate `e_along2` at
/// `cover2` in Process I's order: nearer first, then by `candidate_rank`.
pub open spec fn tried_before(
    m: ObstacleModel,
    z: Point,
    new: Orientation,
    cover: Segment,
    e_along: int,
    cover2: Segment,
    e_along2: int,
) -> bool {
    candidate_key(z, cover, e_along) < candidate_key(z, cover2, e_along2) || (candidate_key(z, cover, e_along)
        == candidate_key(z, cover2, e_along2) && candidate_rank(m, z, new, cover, e_along) <= candidate_rank(
        m,
        z,
        new,
        cover2,
        e_along2,
    ))
}

/// `e` is the first successful candidate of phase `new` in Process I's order.
pub open spec fn best_candidate(m: ObstacleModel, net: Network, z: Point, new: Orientation, e: Point) -> bool {
    exists|cover: Segment, e_along: int|
        bounding_cover(m, z, new, cover) && #[trigger] phase_escape(m, net, z, new, cover, e_along) && e == phase_point(
            z,
            new,
            e_along,
        ) && forall|cover2: Segment, e_along2: int|
            bounding_cover(m, z, new, cover2) && #[trigger] phase_escape(m, net, z, new, cover2, e_along2)
                ==> tried_before(m, z, new, cover, e_along, cover2, e_along2)
}

/// `(e, o)` is what Process I returns at `z`: the vertical phase wins where
/// it can succeed, and within the phase the first successful candidate.
pub open spec fn process_i_choice(m: ObstacleModel, net: Network, z: Point, e: Point, o: Orientation) -> bool {
    &&& (if phase_possible(m, net, z, Orientation::Vertical) {
        o == Orientation::Vertical
    } else {
        o == Orientation::Horizontal
    })
    &&& best_candidate(m, net, z, o, e)
}

/// Escape Process I at object point `z`.
///
/// Returns the escape point and the orientation of the new escape line to be
/// constructed through it. Phase 1 tries to get past the horizontal covers of
/// `z` by moving sideways on its horizontal escape line and then vertically;
/// phase 2 is the symmetric case. Within a phase the candidate nearest to `z`
/// wins; among equally near ones, the order of `candidate_rank`.
pub fn process_i(obstacles: &ObstacleSet, net: &Network, z: Point) -> (r: Option<(Point, Orientation)>)
    requires
        obstacles@.free_point(z),
    ensures
        r matches Some((e, o)) ==> process_i_result(obstacles@, *net, z, e, o),
        r is None <==> !phase_possible(obstacles@, *net, z, Orientation::Vertical) && !phase_possible(
            obstacles@,
            *net,
            z,
            Orientation::Horizontal,
        ),
        phase_possible(obstacles@, *net, z, Orientation::Vertical) ==> (r matches Some((_, o)) && o
            == Orientation::Vertical),
        !phase_possible(obstacles@, *net, z, Orientation::Vertical) ==> (r matches Some((_, o)) ==> o
            == Orientation::Horizontal),
        r matches Some((e, o)) ==> process_i_choice(obstacles@, *net, z, e, o),
{
    match process_i_phase(obstacles, net, z, Orientation::Vertical) {
        Some(found) => Some(found),
        None => process_i_phase(obstacles, net, z, Orientation::Horizontal),
    }
}

/// One phase of Process I: look for an escape point whose *new* escape line
/// has orientation `new`. Candidates lie on `z`'s escape line of the
/// perpendicular orientation, one unit beyond an end of a cover that bounds
/// `z`'s `new`-oriented escape line, tried by increasing distance from `z`.
fn process_i_phase(obstacles: &ObstacleSet, net: &Network, z: Point, new: Orientation) -> (r: Option<
    (Point, Orientation),
>)
    requires
        obstacles@.free_point(z),
    ensures
        r matches Some((e, o)) ==> o == new && process_i_result(obstacles@, *net, z, e, o),
        r is None <==> !phase_possible(obstacles@, *net, z, new),
        r matches Some((e, o)) ==> best_candidate(obstacles@, *net, z, new, e),
{
    let ghost m = obstacles@;
    let run = new.perpendicular();
    let run_line = obstacles.escape_line(z, run);
    let (neg, pos) = obstacles.bounding_covers(z, new);
    let mut ends: Vec<Candidate> = Vec::new();
    let covers = [neg, pos];
    let mut c: usize = 0;
    while c < 2
        invariant
            c <= 2,
            covers@ == seq![neg, pos],
            m.cover_below_result(run, z, neg),
            m.cover_above_result(run, z, pos),
            run == new.perpendicular(),
            forall|t: int|
                0 <= t < ends@.len() ==> bounding_cover(m, z, new, (#[trigger] ends@[t]).3) && end_coord(ends@[t].3, ends@[t].2 as int),
            forall|t: int|
                0 <= t < ends@.len() ==> (#[trigger] ends@[t]).0 == candidate_key(z, ends@[t].3, ends@[t].2 as int),
            forall|k: int, cv: Segment, ea: int|
                #![trigger covers@[k], end_coord(cv, ea)]
                0 <= k < c && covers@[k] == Some(cv) && end_coord(cv, ea) ==> listed(ends@, cv, ea),
            forall|t: int|
                0 <= t < ends@.len() ==> candidate_rank(m, z, new, (#[trigger] ends@[t]).3, ends@[t].2 as int) < 2 * c,
            forall|t1: int, t2: int|
                0 <= t1 < t2 < ends@.len() ==> candidate_rank(m, z, new, (#[trigger] ends@[t1]).3, ends@[t1].2 as int)
                    < candidate_rank(m, z, new, (#[trigger] ends@[t2]).3, ends@[t2].2 as int),
        decreases 2 - c,
    {
        let ghost e0 = ends@;
        if let Some(cover) = covers[c] {
            if cover.to < i64::MAX {
                let f = cover.end();
                ends.push((clamped_dist2(f, z), f, cover.to + 1, cover));
            }
            let ghost e1 = ends@;
            if cover.from > i64::MIN {
                let f = cover.start();
                ends.push((clamped_dist2(f, z), f, cover.from - 1, cover));
            }
            proof {
                assert forall|t: int|
                    0 <= t < ends@.len() implies (#[trigger] ends@[t]).0 == candidate_key(z, ends@[t].3, ends@[t].2 as int) by {
                    if t < e0.len() {
                        assert(ends@[t] == e0[t]);
                    } else if t < e1.len() {
                        assert(ends@[t] == e1[t]);
                        assert(cover.to + 1 != cover.from - 1);
                    }
                }
                assert forall|k: int, cv: Segment, ea: int|
                    #![trigger covers@[k], end_coord(cv, ea)]
                    0 <= k < c + 1 && covers@[k] == Some(cv) && end_coord(cv, ea) implies listed(ends@, cv, ea) by {
                    if k < c {
                        assert(listed(e0, cv, ea));
                        let t = choose|t: int| 0 <= t < e0.len() && (#[trigger] e0[t]).3 == cv && e0[t].2 == ea;
                        assert(ends@[t] == e0[t]);
                    } else if ea == cv.to + 1 && cv.to < i64::MAX {
                        assert(ends@[e0.len() as int] == e1[e0.len() as int]);
                    } else {
                        assert(ends@[e1.len() as int].3 == cv);
                    }
                }
                assert forall|t: int|
                    0 <= t < ends@.len() implies bounding_cover(m, z, new, (#[trigger] ends@[t]).3) && end_coord(
                        ends@[t].3,
                        ends@[t].2 as int,
                    ) by {
                    if t < e0.len() {
                        assert(ends@[t] == e0[t]);
                    } else if t < e1.len() {
                        assert(ends@[t] == e1[t]);
                    }
                }
                if c == 1 {
                    if m.cover_below_result(run, z, Some(cover)) {
                        let i = choose|i: int| m.is_cover_below(run, i, z) && Some(cover) == Some(span_segment(run, #[trigger] m.spans(run)[i]));
                        let i2 = choose|i: int| m.is_cover_above(run, i, z) && Some(cover) == Some(span_segment(run, #[trigger] m.spans(run)[i]));
                        assert(false);
                    }
                }
                assert forall|t: int|
                    0 <= t < ends@.len() implies candidate_rank(m, z, new, (#[trigger] ends@[t]).3, ends@[t].2 as int) < 2 * (c + 1) && (t >= e0.len() ==> candidate_rank(m, z, new, ends@[t].3, ends@[t].2 as int) >= 2 * c) && (e0.len() <= t < e1.len() ==> candidate_rank(m, z, new, ends@[t].3, ends@[t].2 as int) == 2 * c) && (t >= e1.len() ==> candidate_rank(m, z, new, ends@[t].3, ends@[t].2 as int) == 2 * c + 1) by {
                    if t < e0.len() {
                        assert(ends@[t] == e0[t]);
                    } else if t < e1.len() {
                        assert(ends@[t] == e1[t]);
                        assert(cover.to + 1 != cover.from - 1);
                    }
                }
                assert forall|t1: int, t2: int|
                    0 <= t1 < t2 < ends@.len() implies candidate_rank(m, z, new, (#[trigger] ends@[t1]).3, ends@[t1].2 as int)
                        < candidate_rank(m, z, new, (#[trigger] ends@[t2]).3, ends@[t2].2 as int) by {
                    if t2 < e0.len() {
                        assert(ends@[t1] == e0[t1] && ends@[t2] == e0[t2]);
                    } else if t1 < e0.len() {
                        assert(ends@[t1] == e0[t1]);
                    }
                }
            }
        } else {
            proof {
                assert forall|t: int|
                    0 <= t < ends@.len() implies candidate_rank(m, z, new, (#[trigger] ends@[t]).3, ends@[t].2 as int) < 2 * (c + 1) by {}
            }
        }
        c = c + 1;
    }
    let ghost unsorted = ends@;
    proof {
        assert forall|cv: Segment, ea: int|
            bounding_cover(m, z, new, cv) && #[trigger] end_coord(cv, ea) implies listed(unsorted, cv, ea) by {
            if m.cover_below_result(run, z, Some(cv)) {
                crate::obstacles::lemma_cover_result_unique(m, run, z, Some(cv), neg);
                assert(covers@[0] == Some(cv));
            } else {
                crate::obstacles::lemma_cover_result_unique(m, run, z, Some(cv), pos);
                assert(covers@[1] == Some(cv));
            }
        }
    }
    sort_candidates(&mut ends);
    let ghost perm = choose|perm: Seq<int>| #[trigger] stable_rearrangement(perm, unsorted, ends@);
    let mut k: usize = 0;
    while k < ends.len()
        invariant
            m == obstacles@,
            m.free_point(z),
            m.is_escape_line(z, run, run_line),
            run == new.perpendicular(),
            k <= ends@.len(),
            forall|t: int| 0 <= t < ends@.len() ==> unsorted.contains(#[trigger] ends@[t]),
            forall|x: Candidate| unsorted.contains(x) ==> #[trigger] ends@.contains(x),
            forall|t: int|
                0 <= t < unsorted.len() ==> bounding_cover(m, z, new, (#[trigger] unsorted[t]).3) && end_coord(
                    unsorted[t].3,
                    unsorted[t].2 as int,
                ),
            forall|cv: Segment, ea: int|
                bounding_cover(m, z, new, cv) && #[trigger] end_coord(cv, ea) ==> listed(unsorted, cv, ea),
            forall|t: int|
                0 <= t < k ==> !phase_escape(m, *net, z, new, (#[trigger] ends@[t]).3, ends@[t].2 as int),
            forall|t: int|
                0 <= t < unsorted.len() ==> (#[trigger] unsorted[t]).0 == candidate_key(z, unsorted[t].3, unsorted[t].2 as int),
            forall|i: int, j: int| 0 <= i < j < ends@.len() ==> ends@[i].0 <= ends@[j].0,
            stable_rearrangement(perm, unsorted, ends@),
            forall|t1: int, t2: int|
                0 <= t1 < t2 < unsorted.len() ==> candidate_rank(m, z, new, (#[trigger] unsorted[t1]).3, unsorted[t1].2 as int)
                    < candidate_rank(m, z, new, (#[trigger] unsorted[t2]).3, unsorted[t2].2 as int),
        decreases ends@.len() - k,
    {
        let (_, _, e_along, cover) = ends[k];
        let ghost kk = k as int;
        proof {
            let x = ends@[kk];
            assert(unsorted.contains(x));
            let u = choose|u: int| 0 <= u < unsorted.len() && unsorted[u] == x;
            assert(bounding_cover(m, z, new, unsorted[u].3));
        }
        k = k + 1;
        let e = Point::from_along_across(run, e_along, z.across(run));
        if !run_line.covers(e) {
            proof {
                assert(e == phase_point(z, new, e_along as int));
                if phase_escape(m, *net, z, new, cover, e_along as int) {
                    let rl = choose|rl: Segment| #[trigger] m.is_escape_line(z, run, rl) && rl.covers(e);
                    crate::refine::lemma_escape_line_same(m, z, run, rl, run_line);
                }
            }
            continue;
        }
        proof {
            lemma_from_along_across(run, e_along, z.across(run));
            lemma_along_across(run, z);
            assert(run_line.contains(e));
            assert(run_line.contains(z));
            lemma_free_segment_contains(m, run_line, e);
            lemma_free_segment_between(m, run_line, z, e);
        }
        let new_line = obstacles.escape_line(e, new);
        // The new line must reach past the cover that was blocking Z.
        let past = if cover.fixed > z.along(new) {
            new_line.to > cover.fixed
        } else {
            new_line.from < cover.fixed
        };
        if !past || net.is_used(&new_line) {
            proof {
                assert(e == phase_point(z, new, e_along as int));
                if phase_escape(m, *net, z, new, cover, e_along as int) {
                    let line = choose|line: Segment|
                        #[trigger] m.is_escape_line(e, new, line) && reaches_past(cover, z, new, line) && !net_uses(*net, line);
                    crate::refine::lemma_escape_line_same(m, e, new, line, new_line);
                }
            }
            continue;
        }
        proof {
            assert(m.is_escape_line(e, new, new_line) && !net_uses(*net, new_line));
            assert(e == phase_point(z, new, e_along as int));
            assert(phase_escape(m, *net, z, new, cover, e_along as int));
            let x = ends@[kk];
            let u = choose|u: int| 0 <= u < unsorted.len() && unsorted[u] == x;
            assert(x.0 == candidate_key(z, cover, e_along as int));
            assert forall|cv2: Segment, ea2: int|
                bounding_cover(m, z, new, cv2) && #[trigger] phase_escape(m, *net, z, new, cv2, ea2)
                    implies tried_before(m, z, new, cover, e_along as int, cv2, ea2) by {
                assert(end_coord(cv2, ea2));
                assert(listed(unsorted, cv2, ea2));
                let t = choose|t: int| 0 <= t < unsorted.len() && (#[trigger] unsorted[t]).3 == cv2 && unsorted[t].2 == ea2;
                assert(unsorted.contains(unsorted[t]));
                assert(ends@.contains(unsorted[t]));
                let t2 = choose|t2: int| 0 <= t2 < ends@.len() && ends@[t2] == unsorted[t];
                if t2 < kk {
                    assert(!phase_escape(m, *net, z, new, ends@[t2].3, ends@[t2].2 as int));
                } else if t2 > kk {
                    assert(ends@[kk].0 <= ends@[t2].0);
                    assert(ends@[t2].0 == candidate_key(z, cv2, ea2));
                    if ends@[kk].0 == ends@[t2].0 {
                        assert(perm[kk] < perm[t2]);
                        assert(ends@[kk] == unsorted[perm[kk]]);
                        assert(ends@[t2] == unsorted[perm[t2]]);
                    }
                }
            }
        }
        return Some((e, new));
    }
    proof {
        if phase_possible(m, *net, z, new) {
            let (cv, ea) = choose|cv: Segment, ea: int|
                bounding_cover(m, z, new, cv) && #[trigger] phase_escape(m, *net, z, new, cv, ea);
            assert(end_coord(cv, ea));
            assert(listed(unsorted, cv, ea));
            let t = choose|t: int| 0 <= t < unsorted.len() && (#[trigger] unsorted[t]).3 == cv && unsorted[t].2 == ea;
            assert(unsorted.contains(unsorted[t]));
            assert(ends@.contains(unsorted[t]));
            let t2 = choose|t2: int| 0 <= t2 < ends@.len() && ends@[t2] == unsorted[t];
            assert(!phase_escape(m, *net, z, new, ends@[t2].3, ends@[t2].2 as int));
        }
    }
    None
}

/// What Process II achieved.
pub enum ProcessOutcome {
    /// A new object point was pushed and the orientation flag updated.
    Escaped,
    /// One of the probe lines crossed a line of the other network.
    Intersection {
        /// The crossing point.
        point: Point,
        /// The crossing line of the searching network.
        line_here: usize,
        /// The crossed line of the other network.
        line_other: usize,
    },
    /// No escape point exists for this object point.
    Failed,
}

/// The escape line of orientation `o` through the free point `z` (there is exactly one).
pub open spec fn escape_line_of(m: ObstacleModel, z: Point, o: Orientation) -> Segment {
    choose|l: Segment| m.is_escape_line(z, o, l)
}

/// Where the `k`-th retreat of Process II at `z` starts (up, right, down,
/// left): the end of `z`'s escape line, or `z` itself when that end lies on
/// the bounding box and boundary retreat is off.
pub open spec fn retreat_origin(m: ObstacleModel, z: Point, k: int, boundary_retreat: bool) -> Point {
    let v = escape_line_of(m, z, Orientation::Vertical);
    let h = escape_line_of(m, z, Orientation::Horizontal);
    let end = if k == 0 {
        Point { x: z.x, y: v.to }
    } else if k == 1 {
        Point { x: h.to, y: z.y }
    } else if k == 2 {
        Point { x: z.x, y: v.from }
    } else {
        Point { x: h.from, y: z.y }
    };
    let on_boundary = if k == 0 {
        v.to == m.bounds.max.y
    } else if k == 1 {
        h.to == m.bounds.max.x
    } else if k == 2 {
        v.from == m.bounds.min.y
    } else {
        h.from == m.bounds.min.x
    };
    if on_boundary && !boundary_retreat {
        z
    } else {
        end
    }
}

/// The orientation of the trial lines of the `k`-th retreat: perpendicular to
/// the escape line of `z` that it walks along.
pub open spec fn retreat_orientation(k: int) -> Orientation {
    if k % 2 == 0 {
        Orientation::Horizontal
    } else {
        Orientation::Vertical
    }
}

/// Retreat position `p` leads nowhere: its trial line of orientation `o`
/// crosses no line of `other`, and Process I finds no escape point at `p`.
pub open spec fn retreat_position_fails(m: ObstacleModel, net: Network, other: Network, p: Point, o: Orientation) -> bool {
    &&& forall|l: Segment| #[trigger] m.is_escape_line(p, o, l) ==> !crosses_net(l, other)
    &&& !phase_possible(m, net, p, Orientation::Vertical)
    &&& !phase_possible(m, net, p, Orientation::Horizontal)
}

/// A retreat position with the orientation of its trial line.
pub type Trial = (Point, Orientation);

/// Position `p` of walk `k` comes before position `q` of walk `i` when the
/// walks from `starts` advance in turn, one unit per walk and round: it is
/// nearer to its walk's start, or as near and its walk comes first.
pub open spec fn walk_before(starts: Seq<Point>, k: int, p: Point, i: int, q: Point) -> bool {
    manhattan_spec(starts[k], p) < manhattan_spec(starts[i], q) || (manhattan_spec(starts[k], p) == manhattan_spec(
        starts[i],
        q,
    ) && k < i)
}

/// `q`, on walk `i` from `starts[i]` toward `center`, is the first position
/// in that order at which the trial line of orientation `orients[i]` does
/// not fail; every position before it fails.
pub open spec fn first_on_walks(
    m: ObstacleModel,
    net: Network,
    other: Network,
    center: Point,
    starts: Seq<Point>,
    orients: Seq<Orientation>,
    i: int,
    q: Point,
) -> bool {
    &&& 0 <= i < starts.len()
    &&& on_between(center, starts[i], q)
    &&& q != center
    &&& !retreat_position_fails(m, net, other, q, orients[i])
    &&& forall|k: int, p: Point|
        0 <= k < starts.len() && #[trigger] on_between(center, starts[k], p) && p != center && walk_before(
            starts,
            k,
            p,
            i,
            q,
        ) ==> retreat_position_fails(m, net, other, p, orients[k])
}

/// Whether a retreat position fails depends on the network's lines alone.
pub(crate) proof fn lemma_fails_same_lines(m: ObstacleModel, n1: Network, n2: Network, other: Network, p: Point, o: Orientation)
    requires
        n1.lines@ == n2.lines@,
    ensures
        retreat_position_fails(m, n1, other, p, o) == retreat_position_fails(m, n2, other, p, o),
{
    lemma_same_lines(m, n1, n2, p);
}

/// The first position that does not fail is the same for networks with the same lines.
pub(crate) proof fn lemma_first_same_lines(
    m: ObstacleModel,
    n1: Network,
    n2: Network,
    other: Network,
    center: Point,
    starts: Seq<Point>,
    orients: Seq<Orientation>,
    i: int,
    q: Point,
)
    requires
        n1.lines@ == n2.lines@,
        first_on_walks(m, n1, other, center, starts, orients, i, q),
    ensures
        first_on_walks(m, n2, other, center, starts, orients, i, q),
{
    lemma_fails_same_lines(m, n1, n2, other, q, orients[i]);
    assert forall|k: int, p: Point|
        0 <= k < starts.len() && #[trigger] on_between(center, starts[k], p) && p != center && walk_before(
            starts,
            k,
            p,
            i,
            q,
        ) implies retreat_position_fails(m, n2, other, p, orients[k]) by {
        lemma_fails_same_lines(m, n1, n2, other, p, orients[k]);
    }
}

/// Where Process II's four retreats at `z` start (up, right, down, left).
pub open spec fn retreat_starts(m: ObstacleModel, z: Point, boundary_retreat: bool) -> Seq<Point> {
    seq![
        retreat_origin(m, z, 0, boundary_retreat),
        retreat_origin(m, z, 1, boundary_retreat),
        retreat_origin(m, z, 2, boundary_retreat),
        retreat_origin(m, z, 3, boundary_retreat),
    ]
}

/// The orientations of the trial lines of Process II's four retreats.
pub open spec fn retreat_orients() -> Seq<Orientation> {
    seq![Orientation::Horizontal, Orientation::Vertical, Orientation::Horizontal, Orientation::Vertical]
}

/// On a walk from `s` toward `z`, a position between `z` and `r` is at least
/// as far from `s` as `r`.
proof fn lemma_walk_distance(z: Point, s: Point, r: Point, p: Point)
    requires
        on_between(z, s, r),
        on_between(z, r, p),
    ensures
        manhattan_spec(s, p) >= manhattan_spec(s, r),
{
}

/// Where the walks stand at `r` in round `t` (those before `i` one unit
/// further), every position they passed was tried, every tried position
/// fails and walk `i`'s position does not, that position is the first one
/// in round-robin order that does not fail.
proof fn lemma_first_here(
    m: ObstacleModel,
    base: Network,
    other: Network,
    center: Point,
    starts: Seq<Point>,
    orients: Seq<Orientation>,
    r: Seq<Point>,
    tried: Seq<Trial>,
    i: int,
    t: int,
)
    requires
        0 <= i < starts.len(),
        r.len() == starts.len(),
        orients.len() == starts.len(),
        forall|k: int| 0 <= k < starts.len() ==> on_between(center, starts[k], #[trigger] r[k]),
        forall|k: int| 0 <= k < i ==> r[k] == center || manhattan_spec(starts[k], #[trigger] r[k]) == t + 1,
        forall|k: int| i <= k < starts.len() ==> r[k] == center || manhattan_spec(starts[k], #[trigger] r[k]) == t,
        r[i] != center,
        forall|k: int, p: Point|
            0 <= k < starts.len() && #[trigger] on_between(center, starts[k], p) && !on_between(center, r[k], p)
                ==> tried.contains((p, orients[k])),
        forall|idx: int|
            0 <= idx < tried.len() ==> retreat_position_fails(m, base, other, (#[trigger] tried[idx]).0, tried[idx].1),
        !retreat_position_fails(m, base, other, r[i], orients[i]),
    ensures
        first_on_walks(m, base, other, center, starts, orients, i, r[i]),
{
    assert(on_between(center, starts[i], r[i]));
    assert(manhattan_spec(starts[i], r[i]) == t);
    assert forall|k: int, p: Point|
        0 <= k < starts.len() && #[trigger] on_between(center, starts[k], p) && p != center && walk_before(
            starts,
            k,
            p,
            i,
            r[i],
        ) implies retreat_position_fails(m, base, other, p, orients[k]) by {
        assert(on_between(center, starts[k], r[k]));
        if on_between(center, r[k], p) {
            if r[k] != center {
                lemma_walk_distance(center, starts[k], r[k], p);
            }
        }
        assert(tried.contains((p, orients[k])));
        let idx = choose|idx: int| 0 <= idx < tried.len() && tried[idx] == (p, orients[k]);
        assert(retreat_position_fails(m, base, other, tried[idx].0, tried[idx].1));
    }
}

/// Where a retreat along `line` toward `center` starts: the end of `line`
/// (its `to` end or its `from` end), or `center` itself when that end lies on
/// the bounding box and boundary retreat is off.
pub open spec fn walk_origin(m: ObstacleModel, line: Segment, center: Point, to_end: bool, boundary_retreat: bool) -> Point {
    let o = line.orientation;
    let on_boundary = if to_end {
        line.to == m.bounds.hi(o)
    } else {
        line.from == m.bounds.lo(o)
    };
    if on_boundary && !boundary_retreat {
        center
    } else {
        Point::from_along_across(o, if to_end { line.to } else { line.from }, line.fixed)
    }
}

/// `(p, o)` is a position of one of the four retreats along the escape lines
/// of `z`, with the orientation of its trial line.
pub open spec fn base_trial(m: ObstacleModel, z: Point, b: bool, p: Point, o: Orientation) -> bool {
    exists|k: int|
        0 <= k < 4 && #[trigger] on_between(z, retreat_origin(m, z, k, b), p) && p != z && o == retreat_orientation(k)
}

/// `(p, o)` is a position of a retreat along the trial line of orientation
/// `oq` through `q`: the recursive retreat from a position that led nowhere.
/// Its own trial line is perpendicular to that of `q`.
pub open spec fn child_trial(m: ObstacleModel, b: bool, q: Point, oq: Orientation, p: Point, o: Orientation) -> bool {
    let t = escape_line_of(m, q, oq);
    &&& o == oq.perpendicular()
    &&& p != q
    &&& on_between(q, walk_origin(m, t, q, true, b), p) || on_between(q, walk_origin(m, t, q, false, b), p)
}

/// `s` holds every retreat position of Process II at `z` (with recursion:
/// also every position of the retreats along the trial lines of positions in
/// `s`), and every one of them leads nowhere.
pub open spec fn retreat_closed(
    m: ObstacleModel,
    net: Network,
    other: Network,
    z: Point,
    b: bool,
    rec: bool,
    s: Set<Trial>,
) -> bool {
    &&& forall|p: Point, o: Orientation| #[trigger] base_trial(m, z, b, p, o) ==> s.contains((p, o))
    &&& forall|t: Trial| #[trigger] s.contains(t) ==> retreat_position_fails(m, net, other, t.0, t.1)
    &&& rec ==> forall|q: Point, oq: Orientation, p: Point, o: Orientation|
        #![trigger s.contains((q, oq)), child_trial(m, b, q, oq, p, o)]
        s.contains((q, oq)) && child_trial(m, b, q, oq, p, o) ==> s.contains((p, o))
}

/// Process II fails at `z`: every position it reaches leads nowhere. Without
/// recursion these are the positions on the four retreats from the ends of
/// `z`'s escape lines; with recursion also the positions of the retreats
/// along every trial line built on the way.
pub open spec fn retreat_fails(m: ObstacleModel, net: Network, other: Network, z: Point, boundary_retreat: bool, rec: bool) -> bool {
    exists|s: Set<Trial>| #[trigger] retreat_closed(m, net, other, z, boundary_retreat, rec, s)
}

/// All trials at points of the bounding box.
pub open spec fn box_trials(m: ObstacleModel) -> Set<Trial> {
    Set::new(|t: Trial| m.bounds.contains(t.0))
}

/// The trials at points with `lx <= x <= hx` and `ly <= y <= hy`.
pub open spec fn box_part(lx: int, hx: int, ly: int, hy: int) -> Set<Trial> {
    Set::new(|t: Trial| lx <= t.0.x <= hx && ly <= t.0.y <= hy)
}

/// There are finitely many trials in a box.
proof fn lemma_box_part_finite(lx: int, hx: int, ly: int, hy: int)
    requires
        i64::MIN <= lx,
        hx <= i64::MAX,
        i64::MIN <= ly <= hy + 1,
        hy <= i64::MAX,
    ensures
        box_part(lx, hx, ly, hy).finite(),
    decreases hx - lx + 1,
{
    if hx < lx {
        assert(box_part(lx, hx, ly, hy) =~= Set::empty());
    } else {
        lemma_box_part_finite(lx, hx - 1, ly, hy);
        let ys = vstd::set_lib::set_int_range(ly, hy + 1);
        vstd::set_lib::lemma_int_range(ly, hy + 1);
        let fh = |y: int| (Point { x: hx as i64, y: y as i64 }, Orientation::Horizontal);
        let fv = |y: int| (Point { x: hx as i64, y: y as i64 }, Orientation::Vertical);
        ys.lemma_map_finite(fh);
        ys.lemma_map_finite(fv);
        let u = box_part(lx, hx - 1, ly, hy) + ys.map(fh) + ys.map(fv);
        assert forall|t: Trial| #[trigger] box_part(lx, hx, ly, hy).contains(t) implies u.contains(t) by {
            if t.0.x == hx {
                let y = t.0.y as int;
                assert(ys.contains(y));
                if t.1 == Orientation::Horizontal {
                    assert(fh(y) == t);
                    assert(ys.map(fh).contains(t));
                } else {
                    assert(fv(y) == t);
                    assert(ys.map(fv).contains(t));
                }
            }
        }
        vstd::set_lib::lemma_len_subset(box_part(lx, hx, ly, hy), u);
    }
}

/// A list of distinct trials in the bounding box is no longer than the box's trials.
proof fn lemma_trials_bounded(m: ObstacleModel, tried: Seq<Trial>)
    requires
        tried.no_duplicates(),
        forall|i: int| 0 <= i < tried.len() ==> m.bounds.contains(#[trigger] tried[i].0),
    ensures
        box_trials(m).finite(),
        tried.len() <= box_trials(m).len(),
{
    let bd = m.bounds;
    if bd.min.x <= bd.max.x && bd.min.y <= bd.max.y {
        lemma_box_part_finite(bd.min.x as int, bd.max.x as int, bd.min.y as int, bd.max.y as int);
        assert(box_trials(m) =~= box_part(bd.min.x as int, bd.max.x as int, bd.min.y as int, bd.max.y as int));
    } else {
        assert(box_trials(m) =~= Set::empty());
    }
    tried.unique_seq_to_set();
    assert(tried.to_set().subset_of(box_trials(m)));
    vstd::set_lib::lemma_len_subset(tried.to_set(), box_trials(m));
}

/// One unit from `p` toward `z` stays between `z` and the origin, and of the
/// positions between `z` and `p` only `p` itself is left behind.
proof fn lemma_toward_between(z: Point, origin: Point, p: Point, q: Point)
    requires
        on_between(z, origin, p),
        p != z,
        q == (if p.x != z.x {
            Point { x: (p.x + unit_toward(p.x as int, z.x as int)) as i64, y: p.y }
        } else {
            Point { x: p.x, y: (p.y + unit_toward(p.y as int, z.y as int)) as i64 }
        }),
    ensures
        on_between(z, origin, q),
        forall|w: Point| #[trigger] on_between(z, p, w) && !on_between(z, q, w) ==> w == p,
        manhattan_spec(origin, q) == manhattan_spec(origin, p) + 1,
{
}

/// What Process I looks at in a network is its lines.
pub(crate) proof fn lemma_same_lines(m: ObstacleModel, n1: Network, n2: Network, z: Point)
    requires
        n1.lines@ == n2.lines@,
    ensures
        forall|s: Segment| #[trigger] net_uses(n1, s) == net_uses(n2, s),
        phase_possible(m, n1, z, Orientation::Vertical) == phase_possible(m, n2, z, Orientation::Vertical),
        phase_possible(m, n1, z, Orientation::Horizontal) == phase_possible(m, n2, z, Orientation::Horizontal),
        forall|e: Point, o: Orientation| #[trigger] process_i_result(m, n1, z, e, o) == process_i_result(m, n2, z, e, o),
        forall|e: Point, o: Orientation| #[trigger] process_i_choice(m, n1, z, e, o) == process_i_choice(m, n2, z, e, o),
{
    assert forall|s: Segment| #[trigger] net_uses(n1, s) == net_uses(n2, s) by {
        if net_uses(n1, s) {
            let l = choose|l: int| 0 <= l < n1.lines@.len() && (#[trigger] n1.lines@[l]).segment.overlaps_collinear(&s);
            assert(n2.lines@[l] == n1.lines@[l]);
        }
        if net_uses(n2, s) {
            let l = choose|l: int| 0 <= l < n2.lines@.len() && (#[trigger] n2.lines@[l]).segment.overlaps_collinear(&s);
            assert(n2.lines@[l] == n1.lines@[l]);
        }
    }
    assert forall|o: Orientation, cover: Segment, e_along: int|
        #[trigger] phase_escape(m, n1, z, o, cover, e_along) == phase_escape(m, n2, z, o, cover, e_along) by {
    }
    assert forall|o: Orientation| phase_possible(m, n1, z, o) == #[trigger] phase_possible(m, n2, z, o) by {
        if phase_possible(m, n1, z, o) {
            let (c, e) = choose|c: Segment, e: int| bounding_cover(m, z, o, c) && #[trigger] phase_escape(m, n1, z, o, c, e);
            assert(phase_escape(m, n2, z, o, c, e));
        }
        if phase_possible(m, n2, z, o) {
            let (c, e) = choose|c: Segment, e: int| bounding_cover(m, z, o, c) && #[trigger] phase_escape(m, n2, z, o, c, e);
            assert(phase_escape(m, n1, z, o, c, e));
        }
    }
    assert(phase_possible(m, n1, z, Orientation::Vertical) == phase_possible(m, n2, z, Orientation::Vertical));
    assert(phase_possible(m, n1, z, Orientation::Horizontal) == phase_possible(m, n2, z, Orientation::Horizontal));
    assert forall|e: Point, o: Orientation| best_candidate(m, n1, z, o, e) == #[trigger] best_candidate(m, n2, z, o, e) by {
        if best_candidate(m, n1, z, o, e) {
            let (c, ea) = choose|c: Segment, ea: int|
                bounding_cover(m, z, o, c) && #[trigger] phase_escape(m, n1, z, o, c, ea) && e == phase_point(z, o, ea)
                    && forall|c2: Segment, ea2: int|
                    bounding_cover(m, z, o, c2) && #[trigger] phase_escape(m, n1, z, o, c2, ea2)
                        ==> tried_before(m, z, o, c, ea, c2, ea2);
            assert(phase_escape(m, n2, z, o, c, ea));
            assert forall|c2: Segment, ea2: int|
                bounding_cover(m, z, o, c2) && #[trigger] phase_escape(m, n2, z, o, c2, ea2) implies tried_before(m, z, o, c, ea, c2, ea2) by {
                assert(phase_escape(m, n1, z, o, c2, ea2));
            }
        }
        if best_candidate(m, n2, z, o, e) {
            let (c, ea) = choose|c: Segment, ea: int|
                bounding_cover(m, z, o, c) && #[trigger] phase_escape(m, n2, z, o, c, ea) && e == phase_point(z, o, ea)
                    && forall|c2: Segment, ea2: int|
                    bounding_cover(m, z, o, c2) && #[trigger] phase_escape(m, n2, z, o, c2, ea2)
                        ==> tried_before(m, z, o, c, ea, c2, ea2);
            assert(phase_escape(m, n1, z, o, c, ea));
            assert forall|c2: Segment, ea2: int|
                bounding_cover(m, z, o, c2) && #[trigger] phase_escape(m, n1, z, o, c2, ea2) implies tried_before(m, z, o, c, ea, c2, ea2) by {
                assert(phase_escape(m, n2, z, o, c2, ea2));
            }
        }
    }
    assert forall|e: Point, o: Orientation| #[trigger] process_i_choice(m, n1, z, e, o) == process_i_choice(m, n2, z, e, o) by {
        assert(best_candidate(m, n1, z, o, e) == best_candidate(m, n2, z, o, e));
    }
}

/// Boundary retreat only adds retreat positions: where Process II fails with
/// it, it fails without it too.
pub proof fn lemma_boundary_retreat_tries_more(m: ObstacleModel, net: Network, other: Network, z: Point, rec: bool)
    requires
        retreat_fails(m, net, other, z, true, rec),
    ensures
        retreat_fails(m, net, other, z, false, rec),
{
    let s = choose|s: Set<Trial>| #[trigger] retreat_closed(m, net, other, z, true, rec, s);
    assert forall|p: Point, o: Orientation| #[trigger] base_trial(m, z, false, p, o) implies s.contains((p, o)) by {
        let k = choose|k: int|
            0 <= k < 4 && #[trigger] on_between(z, retreat_origin(m, z, k, false), p) && p != z && o == retreat_orientation(k);
        if retreat_origin(m, z, k, false) != retreat_origin(m, z, k, true) {
            assert(retreat_origin(m, z, k, false) == z);
        }
        assert(on_between(z, retreat_origin(m, z, k, true), p));
        assert(base_trial(m, z, true, p, o));
    }
    if rec {
        assert forall|q: Point, oq: Orientation, p: Point, o: Orientation|
            s.contains((q, oq)) && #[trigger] child_trial(m, false, q, oq, p, o) implies s.contains((p, o)) by {
            let t = escape_line_of(m, q, oq);
            if on_between(q, walk_origin(m, t, q, true, false), p) {
                if walk_origin(m, t, q, true, false) != walk_origin(m, t, q, true, true) {
                    assert(walk_origin(m, t, q, true, false) == q);
                }
            } else {
                if walk_origin(m, t, q, false, false) != walk_origin(m, t, q, false, true) {
                    assert(walk_origin(m, t, q, false, false) == q);
                }
            }
            assert(child_trial(m, true, q, oq, p, o));
        }
    }
    assert(retreat_closed(m, net, other, z, false, rec, s));
}

/// Recursion only adds retreat positions: where the recursive Process II
/// fails, the flat one fails too.
pub proof fn lemma_recursion_tries_more(m: ObstacleModel, net: Network, other: Network, z: Point, b: bool)
    requires
        retreat_fails(m, net, other, z, b, true),
    ensures
        retreat_fails(m, net, other, z, b, false),
{
    let s = choose|s: Set<Trial>| #[trigger] retreat_closed(m, net, other, z, b, true, s);
    assert(retreat_closed(m, net, other, z, b, false, s));
}

/// What Process II looks at in a network is its lines.
pub(crate) proof fn lemma_same_lines_retreat(
    m: ObstacleModel,
    n1: Network,
    n2: Network,
    other: Network,
    z: Point,
    b: bool,
    rec: bool,
)
    requires
        n1.lines@ == n2.lines@,
    ensures
        retreat_fails(m, n1, other, z, b, rec) == retreat_fails(m, n2, other, z, b, rec),
{
    assert forall|p: Point, o: Orientation|
        #[trigger] retreat_position_fails(m, n1, other, p, o) == retreat_position_fails(m, n2, other, p, o) by {
        lemma_same_lines(m, n1, n2, p);
    }
    if retreat_fails(m, n1, other, z, b, rec) {
        let s = choose|s: Set<Trial>| #[trigger] retreat_closed(m, n1, other, z, b, rec, s);
        assert(retreat_closed(m, n2, other, z, b, rec, s));
    }
    if retreat_fails(m, n2, other, z, b, rec) {
        let s = choose|s: Set<Trial>| #[trigger] retreat_closed(m, n2, other, z, b, rec, s);
        assert(retreat_closed(m, n1, other, z, b, rec, s));
    }
}

/// A retreat position: the end of an escape line of `z`, or `z` itself when the
/// end lies on the bounding box and boundary retreat is off.
fn retreat_start(end: Point, on_boundary: bool, boundary_retreat: bool, z: Point) -> (r: Point)
    ensures
        r == (if on_boundary && !boundary_retreat {
            z
        } else {
            end
        }),
{
    if on_boundary && !boundary_retreat {
        z
    } else {
        end
    }
}

/// One unit toward `z` keeps a position between itself and `z`.
proof fn lemma_toward_step(m: ObstacleModel, z: Point, p: Point, q: Point)
    requires
        free_between(m, z, p),
        p != z,
        q == (if p.x != z.x {
            Point { x: (p.x + unit_toward(p.x as int, z.x as int)) as i64, y: p.y }
        } else {
            Point { x: p.x, y: (p.y + unit_toward(p.y as int, z.y as int)) as i64 }
        }),
    ensures
        free_between(m, z, q),
        manhattan_spec(q, z) < manhattan_spec(p, z),
        m.free_point(q),
{
    assert(on_between(z, p, q));
    assert(on_between(z, p, z));
    crate::refine::lemma_free_between_sub(m, z, p, z, q);
    assert(on_between(z, q, q));
}

/// Trial `t` waits in `work`, at or after position `from`, for the retreat
/// along its trial line.
pub open spec fn is_pending(work: Seq<(Trial, Vec<Point>)>, from: int, t: Trial) -> bool {
    exists|i: int| from <= i < work.len() && #[trigger] work[i].0 == t
}

/// Every waiting trial was tried, and comes with the chain of retreat
/// positions that leads to it from `z`.
pub open spec fn work_ok(m: ObstacleModel, z: Point, tried: Seq<Trial>, work: Seq<(Trial, Vec<Point>)>) -> bool {
    forall|i: int| 0 <= i < work.len() ==> {
        &&& tried.contains((#[trigger] work[i]).0)
        &&& work[i].1@.len() >= 1
        &&& work[i].1@.last() == work[i].0.0
        &&& chain_links(m, z, work[i].1@)
    }
}

/// The sum of the Manhattan distances of the retreat cursors to `c`.
pub open spec fn walk_measure(r: Seq<Point>, c: Point) -> int
    decreases r.len(),
{
    if r.len() == 0 {
        0
    } else {
        walk_measure(r.drop_last(), c) + manhattan_spec(r.last(), c)
    }
}

/// Cursors that moved no farther from `c`, one of them closer, have a smaller sum.
proof fn lemma_walk_measure_le(a: Seq<Point>, b: Seq<Point>, c: Point)
    requires
        a.len() == b.len(),
        forall|k: int| 0 <= k < a.len() ==> manhattan_spec(#[trigger] a[k], c) <= manhattan_spec(b[k], c),
    ensures
        walk_measure(a, c) <= walk_measure(b, c),
        walk_measure(a, c) >= 0,
        (exists|k: int| 0 <= k < a.len() && manhattan_spec(#[trigger] a[k], c) < manhattan_spec(b[k], c))
            ==> walk_measure(a, c) < walk_measure(b, c),
    decreases a.len(),
{
    if a.len() > 0 {
        let a1 = a.drop_last();
        let b1 = b.drop_last();
        assert forall|k: int| 0 <= k < a1.len() implies manhattan_spec(#[trigger] a1[k], c) <= manhattan_spec(b1[k], c) by {
            assert(a1[k] == a[k] && b1[k] == b[k]);
        }
        lemma_walk_measure_le(a1, b1, c);
        if exists|k: int| 0 <= k < a.len() && manhattan_spec(#[trigger] a[k], c) < manhattan_spec(b[k], c) {
            let k = choose|k: int| 0 <= k < a.len() && manhattan_spec(#[trigger] a[k], c) < manhattan_spec(b[k], c);
            if k < a1.len() {
                assert(a1[k] == a[k] && b1[k] == b[k]);
            }
        }
    }
}

/// The points in `chain` follow each other from `z` along free stretches.
pub open spec fn chain_links(m: ObstacleModel, z: Point, chain: Seq<Point>) -> bool {
    &&& chain.len() > 0 ==> free_between(m, z, chain[0])
    &&& forall|i: int| 0 <= i < chain.len() - 1 ==> free_between(m, #[trigger] chain[i], chain[i + 1])
    &&& forall|i: int| 0 <= i < chain.len() ==> m.free_point(#[trigger] chain[i])
}

/// Where the retreat along `line` toward `center` starts; see [`walk_origin`].
fn walk_start(obstacles: &ObstacleSet, line: Segment, center: Point, to_end: bool, b: bool) -> (r: Point)
    ensures
        r == walk_origin(obstacles@, line, center, to_end, b),
{
    let bounds = obstacles.bounds();
    let o = line.orientation;
    let on_boundary = if to_end {
        line.to == bounds.hi(o)
    } else {
        line.from == bounds.lo(o)
    };
    if on_boundary && !b {
        center
    } else {
        Point::from_along_across(o, if to_end { line.to } else { line.from }, line.fixed)
    }
}

/// Is the trial in the list?
fn contains_trial(tried: &Vec<Trial>, t: Trial) -> (r: bool)
    ensures
        r == tried@.contains(t),
{
    let mut k: usize = 0;
    while k < tried.len()
        invariant
            k <= tried@.len(),
            forall|j: int| 0 <= j < k ==> tried@[j] != t,
        decreases tried@.len() - k,
    {
        let u = tried[k];
        if u.0 == t.0 && u.1 == t.1 {
            return true;
        }
        k = k + 1;
    }
    false
}

/// Enters the retreat positions of `chain` as escape points, each found from
/// the one before (the first from escape point `z_id`), and records them.
/// Returns the index of the last one (`z_id` for an empty chain).
fn push_chain(obstacles: &ObstacleSet, net: &mut Network, z_id: usize, chain: &Vec<Point>, trace: &mut Trace) -> (last: usize)
    requires
        old(net).wf(obstacles@),
        z_id < old(net).points@.len(),
        chain_links(obstacles@, old(net).points@[z_id as int].point, chain@),
        search_trace(obstacles@, old(trace).events@),
        lines_recorded(old(trace).events@, *old(net)),
    ensures
        final(net).wf(obstacles@),
        final(net).lines@ == old(net).lines@,
        final(net).flag == old(net).flag,
        final(net).id == old(net).id,
        final(net).no_escape == old(net).no_escape,
        final(net).points@.len() == old(net).points@.len() + chain@.len(),
        final(net).points@.subrange(0, old(net).points@.len() as int) == old(net).points@,
        forall|k: int|
            0 <= k < chain@.len() ==> #[trigger] final(net).points@[old(net).points@.len() + k] == (EscapePoint {
                point: chain@[k],
                parent: Some(if k == 0 { z_id } else { (old(net).points@.len() + k - 1) as usize }),
            }),
        last == (if chain@.len() == 0 { z_id as int } else { old(net).points@.len() + chain@.len() - 1 }),
        last < final(net).points@.len(),
        final(net).points@[last as int].point == (if chain@.len() == 0 {
            old(net).points@[z_id as int].point
        } else {
            chain@.last()
        }),
        search_trace(obstacles@, final(trace).events@),
        grows_by_steps(old(trace).events@, final(trace).events@),
        lines_recorded(final(trace).events@, *final(net)),
        lines_kept(old(trace).events@, final(trace).events@, old(net).id),
{
    let ghost m = obstacles@;
    let ghost tin = trace.events@;
    let ghost n0 = *net;
    let ghost len0 = net.points@.len();
    proof {
        lemma_grows_refl(tin);
    }
    let mut last = z_id;
    let mut k: usize = 0;
    while k < chain.len()
        invariant
            m == obstacles@,
            net.wf(m),
            net.lines@ == n0.lines@,
            net.flag == n0.flag,
            net.id == n0.id,
            net.no_escape == n0.no_escape,
            len0 == n0.points@.len(),
            z_id < len0,
            chain_links(m, n0.points@[z_id as int].point, chain@),
            k <= chain@.len(),
            net.points@.len() == len0 + k,
            net.points@.subrange(0, len0 as int) == n0.points@,
            forall|j: int|
                0 <= j < k ==> #[trigger] net.points@[len0 + j] == (EscapePoint {
                    point: chain@[j],
                    parent: Some(if j == 0 { z_id } else { (len0 + j - 1) as usize }),
                }),
            last == (if k == 0 { z_id as int } else { len0 + k - 1 }),
            last < net.points@.len(),
            net.points@[last as int].point == (if k == 0 { n0.points@[z_id as int].point } else { chain@[k - 1] }),
            search_trace(m, trace.events@),
            tin == old(trace).events@,
            grows_by_steps(tin, trace.events@),
            lines_recorded(trace.events@, *net),
            lines_kept(tin, trace.events@, net.id),
        decreases chain@.len() - k,
    {
        let p = chain[k];
        let ghost na = *net;
        proof {
            if k == 0 {
                assert(net.points@[z_id as int] == na.points@.subrange(0, len0 as int)[z_id as int]);
            } else {
                assert(free_between(m, chain@[k - 1], chain@[k as int]));
            }
            assert(m.free_point(chain@[k as int]));
        }
        let id = net.push_point(p, Some(last));
        proof {
            lemma_push_point(m, na, *net, p, last);
        }
        let ghost t0 = trace.events@;
        let e = TraceEvent::EscapePoint { net: net.id, point: p, process: Process::II };
        trace.push(e);
        proof {
            lemma_search_push(m, t0, e);
            lemma_grows_push(tin, t0, e);
            assert(trace.events@.subrange(0, t0.len() as int) =~= t0);
            lemma_recorded_push_other(t0, *net, *net, e);
            assert(net.points@.subrange(0, len0 as int) =~= na.points@.subrange(0, len0 as int));
            assert forall|j: int|
                0 <= j < k + 1 implies #[trigger] net.points@[len0 + j] == (EscapePoint {
                    point: chain@[j],
                    parent: Some(if j == 0 { z_id } else { (len0 + j - 1) as usize }),
                }) by {
                if j < k {
                    assert(net.points@[len0 + j] == na.points@[len0 + j]);
                }
            }
        }
        last = id;
        k = k + 1;
    }
    proof {
        if chain@.len() > 0 {
            assert(chain@[k - 1] == chain@.last());
        }
    }
    last
}

/// The walks of Process II toward `center`: walk `k` starts at `starts[k]`
/// and its trial lines have orientation `orients[k]`. The walks advance one
/// unit at a time, round-robin. `chain` holds the retreat positions that led
/// here from the object point (`center` is its last one, or the object point).
/// With recursive retreat, a position that leads nowhere starts the walks
/// along its own trial line, toward it. A position tried before (in `tried`)
/// is skipped.
#[verifier::rlimit(100)]
#[verifier::spinoff_prover]
fn retreat_walks(
    obstacles: &ObstacleSet,
    net: &mut Network,
    other: &Network,
    z_id: usize,
    chain: &Vec<Point>,
    center: Point,
    starts: &Vec<Point>,
    orients: &Vec<Orientation>,
    config: &RouterConfig,
    trace: &mut Trace,
    tried: &mut Vec<Trial>,
    work: &mut Vec<(Trial, Vec<Point>)>,
    Ghost(wfrom): Ghost<int>,
    Ghost(base): Ghost<Network>,
) -> (r: ProcessOutcome)
    requires
        0 <= wfrom <= old(work)@.len(),
        work_ok(obstacles@, old(net).points@[z_id as int].point, old(tried)@, old(work)@),
        old(net).lines@ == base.lines@,
        old(net).points@ == base.points@,
        old(net).wf(obstacles@),
        other.wf(obstacles@),
        z_id < old(net).points@.len(),
        search_trace(obstacles@, old(trace).events@),
        lines_recorded(old(trace).events@, *old(net)),
        chain_links(obstacles@, old(net).points@[z_id as int].point, chain@),
        center == (if chain@.len() == 0 { old(net).points@[z_id as int].point } else { chain@.last() }),
        obstacles@.free_point(center),
        starts@.len() == orients@.len(),
        forall|k: int| 0 <= k < starts@.len() ==> free_between(obstacles@, center, #[trigger] starts@[k]),
        old(tried)@.no_duplicates(),
        forall|i: int| 0 <= i < old(tried)@.len() ==> obstacles@.bounds.contains(#[trigger] old(tried)@[i].0),
        forall|i: int|
            0 <= i < old(tried)@.len() ==> retreat_position_fails(
                obstacles@,
                base,
                *other,
                (#[trigger] old(tried)@[i]).0,
                old(tried)@[i].1,
            ),
        config.recursive_retreat ==> forall|t: Trial, p: Point, o: Orientation|
            #![trigger old(tried)@.contains(t), child_trial(obstacles@, config.boundary_retreat, t.0, t.1, p, o)]
            old(tried)@.contains(t) && !is_pending(old(work)@, wfrom, t) && child_trial(obstacles@, config.boundary_retreat, t.0, t.1, p, o)
                ==> old(tried)@.contains((p, o)),
        forall|s: Set<Trial>|
            #[trigger] retreat_closed(
                obstacles@,
                base,
                *other,
                old(net).points@[z_id as int].point,
                config.boundary_retreat,
                config.recursive_retreat,
                s,
            ) ==> (forall|t: Trial| #[trigger] old(tried)@.contains(t) ==> s.contains(t)) && (forall|k: int, p: Point|
                0 <= k < starts@.len() && #[trigger] on_between(center, starts@[k], p) && p != center ==> s.contains(
                    (p, orients@[k]),
                )),
    ensures
        final(net).wf(obstacles@),
        final(net).points@.len() >= old(net).points@.len(),
        final(net).points@.subrange(0, old(net).points@.len() as int) == old(net).points@,
        final(net).id == old(net).id,
        final(net).no_escape == old(net).no_escape,
        search_trace(obstacles@, final(trace).events@),
        grows_by_steps(old(trace).events@, final(trace).events@),
        lines_recorded(final(trace).events@, *final(net)),
        lines_kept(old(trace).events@, final(trace).events@, old(net).id),
        !(r is Failed) ==> exists|i: int|
            #[trigger] first_on_walks(
                obstacles@,
                base,
                *other,
                center,
                starts@,
                orients@,
                i,
                final(net).points@[old(net).points@.len() + chain@.len() as int].point,
            ),
        r matches ProcessOutcome::Intersection { point, line_here, line_other } ==> {
            &&& line_here < final(net).lines@.len()
            &&& final(net).lines@[line_here as int].segment.contains(point)
            &&& line_other < other.lines@.len()
            &&& other.lines@[line_other as int].segment.contains(point)
            &&& first_crossing(final(net).lines@[line_here as int].segment, *other, line_other as int, point)
        },
        !(r is Failed) ==> forall|s: Set<Trial>|
            !#[trigger] retreat_closed(
                obstacles@,
                base,
                *other,
                old(net).points@[z_id as int].point,
                config.boundary_retreat,
                config.recursive_retreat,
                s,
            ),
        r is Failed ==> {
            &&& final(net).points@ == old(net).points@
            &&& final(net).lines@ == old(net).lines@
            &&& final(net).flag == old(net).flag
            &&& forall|i: int|
                old(trace).events@.len() <= i < final(trace).events@.len() ==> #[trigger] final(trace).events@[i] is ProbeLine
            &&& final(tried)@.len() >= old(tried)@.len()
            &&& final(tried)@.subrange(0, old(tried)@.len() as int) == old(tried)@
            &&& final(tried)@.no_duplicates()
            &&& final(work)@.len() >= old(work)@.len()
            &&& final(work)@.subrange(0, old(work)@.len() as int) == old(work)@
            &&& final(work)@.len() - old(work)@.len() <= final(tried)@.len() - old(tried)@.len()
            &&& work_ok(obstacles@, old(net).points@[z_id as int].point, final(tried)@, final(work)@)
            &&& !config.recursive_retreat ==> final(work)@ == old(work)@
            &&& forall|i: int| 0 <= i < final(tried)@.len() ==> obstacles@.bounds.contains(#[trigger] final(tried)@[i].0)
            &&& forall|i: int|
                0 <= i < final(tried)@.len() ==> retreat_position_fails(
                    obstacles@,
                    base,
                    *other,
                    (#[trigger] final(tried)@[i]).0,
                    final(tried)@[i].1,
                )
            &&& config.recursive_retreat ==> forall|t: Trial, p: Point, o: Orientation|
                #![trigger final(tried)@.contains(t), child_trial(obstacles@, config.boundary_retreat, t.0, t.1, p, o)]
                final(tried)@.contains(t) && !is_pending(final(work)@, wfrom, t) && child_trial(
                    obstacles@,
                    config.boundary_retreat,
                    t.0,
                    t.1,
                    p,
                    o,
                ) ==> final(tried)@.contains((p, o))
            &&& forall|s: Set<Trial>|
                #[trigger] retreat_closed(
                    obstacles@,
                    base,
                    *other,
                    old(net).points@[z_id as int].point,
                    config.boundary_retreat,
                    config.recursive_retreat,
                    s,
                ) ==> forall|t: Trial| #[trigger] final(tried)@.contains(t) ==> s.contains(t)
            &&& forall|k: int, p: Point|
                0 <= k < starts@.len() && #[trigger] on_between(center, starts@[k], p) && p != center
                    ==> final(tried)@.contains((p, orients@[k]))
        },
        r is Escaped ==> {
            let n = old(net).points@.len() as int;
            &&& final(net).lines@ == old(net).lines@
            &&& final(net).points@.len() == n + chain@.len() + 2
            &&& final(net).points@[n].parent == Some(z_id)
            &&& forall|k: int| n < k < final(net).points@.len() ==> (#[trigger] final(net).points@[k]).parent == Some(
                (k - 1) as usize,
            )
            &&& final(net).flag matches Flag::One(o) && process_i_result(
                obstacles@,
                *final(net),
                final(net).points@[final(net).points@.len() - 2].point,
                final(net).points@.last().point,
                o,
            ) && process_i_choice(
                obstacles@,
                *final(net),
                final(net).points@[final(net).points@.len() - 2].point,
                final(net).points@.last().point,
                o,
            )
        },
{
    let ghost m = obstacles@;
    let ghost tin = trace.events@;
    let ghost n_in = *net;
    let ghost z0 = net.points@[z_id as int].point;
    let ghost tried0 = tried@;
    let ghost work0 = work@;
    let ghost b = config.boundary_retreat;
    let ghost rec = config.recursive_retreat;
    proof {
        lemma_grows_refl(tin);
        lemma_trials_bounded(m, tried0);
        assert(tried@.subrange(0, tried0.len() as int) =~= tried0);
        assert(work@.subrange(0, work0.len() as int) =~= work0);
    }
    let nw = starts.len();
    let mut r: Vec<Point> = Vec::new();
    let mut j: usize = 0;
    while j < nw
        invariant
            j <= nw,
            nw == starts@.len(),
            r@ == starts@.take(j as int),
        decreases nw - j,
    {
        r.push(starts[j]);
        j = j + 1;
        assert(r@ =~= starts@.take(j as int));
    }
    assert(r@ =~= starts@);
    proof {
        assert forall|k: int| 0 <= k < nw implies on_between(center, starts@[k], #[trigger] r@[k]) by {
            assert(r@[k] == starts@[k]);
            let w = starts@[k];
            assert(free_between(m, center, w));
        }
    }
    let ghost mut t: int = 0;
    loop
        invariant
            t >= 0,
            forall|k: int| 0 <= k < nw ==> r@[k] == center || manhattan_spec(starts@[k], #[trigger] r@[k]) == t,
            m == obstacles@,
            net.wf(m),
            other.wf(m),
            n_in == *old(net),
            net.points@ == n_in.points@,
            net.lines@ == n_in.lines@,
            net.flag == n_in.flag,
            net.id == n_in.id,
            net.no_escape == n_in.no_escape,
            z_id < net.points@.len(),
            z0 == n_in.points@[z_id as int].point,
            b == config.boundary_retreat,
            rec == config.recursive_retreat,
            chain_links(m, z0, chain@),
            center == (if chain@.len() == 0 { z0 } else { chain@.last() }),
            m.free_point(center),
            search_trace(m, trace.events@),
            tin == old(trace).events@,
            grows_by_steps(tin, trace.events@),
            lines_recorded(trace.events@, *net),
            lines_kept(tin, trace.events@, net.id),
            forall|i: int| tin.len() <= i < trace.events@.len() ==> #[trigger] trace.events@[i] is ProbeLine,
            nw == starts@.len(),
            nw == orients@.len(),
            r@.len() == nw,
            forall|k: int| 0 <= k < nw ==> free_between(m, center, #[trigger] starts@[k]),
            forall|k: int| 0 <= k < nw ==> free_between(m, center, #[trigger] r@[k]),
            forall|k: int| 0 <= k < nw ==> on_between(center, starts@[k], #[trigger] r@[k]),
            tried0 == old(tried)@,
            tried@.len() >= tried0.len(),
            tried@.subrange(0, tried0.len() as int) == tried0,
            tried@.no_duplicates(),
            forall|i: int| 0 <= i < tried@.len() ==> m.bounds.contains(#[trigger] tried@[i].0),
            forall|i: int|
                0 <= i < tried@.len() ==> retreat_position_fails(m, base, *other, (#[trigger] tried@[i]).0, tried@[i].1),
            work0 == old(work)@,
            wfrom <= work0.len(),
            0 <= wfrom,
            work@.len() >= work0.len(),
            work@.subrange(0, work0.len() as int) == work0,
            work@.len() - work0.len() <= tried@.len() - tried0.len(),
            work_ok(m, z0, tried@, work@),
            !rec ==> work@ == work0,
            rec ==> forall|t: Trial, p: Point, o: Orientation|
                #![trigger tried@.contains(t), child_trial(m, b, t.0, t.1, p, o)]
                tried@.contains(t) && !is_pending(work@, wfrom, t) && child_trial(m, b, t.0, t.1, p, o) ==> tried@.contains((p, o)),
            forall|k: int, p: Point|
                0 <= k < nw && #[trigger] on_between(center, starts@[k], p) && !on_between(center, r@[k], p)
                    ==> tried@.contains((p, orients@[k])),
            forall|s: Set<Trial>|
                #[trigger] retreat_closed(m, base, *other, z0, b, rec, s) ==> (forall|t: Trial|
                    #[trigger] tried@.contains(t) ==> s.contains(t)) && (forall|k: int, p: Point|
                    0 <= k < nw && #[trigger] on_between(center, starts@[k], p) && p != center ==> s.contains(
                        (p, orients@[k]),
                    )),
            box_trials(m).len() >= tried0.len(),
            base.lines@ == n_in.lines@,
            base.points@ == n_in.points@,
        decreases walk_measure(r@, center),
    {
        let mut all_home = true;
        let mut q: usize = 0;
        while q < nw
            invariant
                q <= nw,
                r@.len() == nw,
                all_home <==> forall|k: int| 0 <= k < q ==> r@[k] == center,
            decreases nw - q,
        {
            if r[q] != center {
                all_home = false;
            }
            q = q + 1;
        }
        if all_home {
            proof {
                assert forall|k: int, p: Point|
                    0 <= k < nw && #[trigger] on_between(center, starts@[k], p) && p != center
                        implies tried@.contains((p, orients@[k])) by {
                    assert(r@[k] == center);
                    assert(!on_between(center, r@[k], p));
                }
                assert forall|i: int| tin.len() <= i < trace.events@.len() implies #[trigger] trace.events@[i] is ProbeLine by {}
            }
            return ProcessOutcome::Failed;
        }
        let ghost r0 = r@;
        let mut i: usize = 0;
        while i < nw
            invariant
                m == obstacles@,
                net.wf(m),
                other.wf(m),
                n_in == *old(net),
                net.points@ == n_in.points@,
                net.lines@ == n_in.lines@,
                net.flag == n_in.flag,
                net.id == n_in.id,
                net.no_escape == n_in.no_escape,
                z_id < net.points@.len(),
                z0 == n_in.points@[z_id as int].point,
                b == config.boundary_retreat,
                rec == config.recursive_retreat,
                chain_links(m, z0, chain@),
                center == (if chain@.len() == 0 { z0 } else { chain@.last() }),
                m.free_point(center),
                search_trace(m, trace.events@),
                tin == old(trace).events@,
                grows_by_steps(tin, trace.events@),
                lines_recorded(trace.events@, *net),
                lines_kept(tin, trace.events@, net.id),
                forall|i2: int| tin.len() <= i2 < trace.events@.len() ==> #[trigger] trace.events@[i2] is ProbeLine,
                nw == starts@.len(),
                nw == orients@.len(),
                r@.len() == nw,
                r0.len() == nw,
                i <= nw,
                forall|k: int| 0 <= k < nw ==> free_between(m, center, #[trigger] starts@[k]),
                forall|k: int| 0 <= k < nw ==> free_between(m, center, #[trigger] r@[k]),
                forall|k: int| 0 <= k < nw ==> on_between(center, starts@[k], #[trigger] r@[k]),
                tried0 == old(tried)@,
                tried@.len() >= tried0.len(),
                tried@.subrange(0, tried0.len() as int) == tried0,
                tried@.no_duplicates(),
                forall|i2: int| 0 <= i2 < tried@.len() ==> m.bounds.contains(#[trigger] tried@[i2].0),
                forall|i2: int|
                    0 <= i2 < tried@.len() ==> retreat_position_fails(m, base, *other, (#[trigger] tried@[i2]).0, tried@[i2].1),
                work0 == old(work)@,
                wfrom <= work0.len(),
                0 <= wfrom,
                work@.len() >= work0.len(),
                work@.subrange(0, work0.len() as int) == work0,
                work@.len() - work0.len() <= tried@.len() - tried0.len(),
                work_ok(m, z0, tried@, work@),
                !rec ==> work@ == work0,
                rec ==> forall|t: Trial, p: Point, o: Orientation|
                    #![trigger tried@.contains(t), child_trial(m, b, t.0, t.1, p, o)]
                    tried@.contains(t) && !is_pending(work@, wfrom, t) && child_trial(m, b, t.0, t.1, p, o) ==> tried@.contains((p, o)),
                forall|k: int, p: Point|
                    0 <= k < nw && #[trigger] on_between(center, starts@[k], p) && !on_between(center, r@[k], p)
                        ==> tried@.contains((p, orients@[k])),
                forall|s: Set<Trial>|
                    #[trigger] retreat_closed(m, base, *other, z0, b, rec, s) ==> (forall|t: Trial|
                        #[trigger] tried@.contains(t) ==> s.contains(t)) && (forall|k: int, p: Point|
                        0 <= k < nw && #[trigger] on_between(center, starts@[k], p) && p != center ==> s.contains(
                            (p, orients@[k]),
                        )),
                box_trials(m).len() >= tried0.len(),
                base.lines@ == n_in.lines@,
                base.points@ == n_in.points@,
                forall|k: int| i <= k < nw ==> #[trigger] r@[k] == r0[k],
                forall|k: int|
                    0 <= k < i ==> (r0[k] == center ==> #[trigger] r@[k] == center) && (r0[k] != center
                        ==> manhattan_spec(r@[k], center) < manhattan_spec(r0[k], center)),
                forall|k: int| 0 <= k < i ==> r@[k] == center || manhattan_spec(starts@[k], #[trigger] r@[k]) == t + 1,
                forall|k: int| i <= k < nw ==> r@[k] == center || manhattan_spec(starts@[k], #[trigger] r@[k]) == t,
            decreases nw - i,
        {
            let ri = r[i];
            if ri != center {
                let o = orients[i];
                proof {
                    assert(free_between(m, center, r@[i as int]));
                    assert(on_between(center, ri, ri));
                    assert(m.free_point(ri));
                    assert(on_between(center, starts@[i as int], ri));
                }
                if !contains_trial(tried, (ri, o)) {
                    let probe = obstacles.escape_line(ri, o);
                    let ghost t0 = trace.events@;
                    trace.push(TraceEvent::ProbeLine { net: net.id, line: probe, through: ri });
                    proof {
                        let ev = TraceEvent::ProbeLine { net: net.id, line: probe, through: ri };
                        lemma_search_push(m, t0, ev);
                        lemma_grows_push(tin, t0, ev);
                        assert(trace.events@.subrange(0, t0.len() as int) =~= t0);
                        lemma_recorded_push_other(t0, *net, *net, ev);
                        assert forall|i2: int| tin.len() <= i2 < trace.events@.len() implies #[trigger] trace.events@[i2] is ProbeLine by {
                            if i2 < t0.len() {
                                assert(trace.events@[i2] == t0[i2]);
                            }
                        }
                    }
                    if let Some((point, line_other)) = other.find_crossing(&probe) {
                        proof {
                            assert(crosses_net(probe, *other));
                            assert(!retreat_position_fails(m, base, *other, ri, o));
                            assert forall|s: Set<Trial>| !#[trigger] retreat_closed(m, base, *other, z0, b, rec, s) by {
                                if retreat_closed(m, base, *other, z0, b, rec, s) {
                                    assert(s.contains((ri, o)));
                                }
                            }
                        }
                        let ghost tpc = trace.events@;
                        let cid = push_chain(obstacles, net, z_id, chain, trace);
                        let ghost n0 = *net;
                        proof {
                            lemma_grows_trans(tin, tpc, trace.events@);
                            assert forall|id: NetId| id != n_in.id implies line_events(trace.events@, id) == line_events(tin, id) by {
                                assert(line_events(trace.events@, id) == line_events(tpc, id));
                            }
                        }
                        proof {
                            if chain@.len() > 0 {
                                assert(n0.points@[cid as int].point == chain@.last());
                            } else {
                                assert(n0.points@[cid as int].point == n_in.points@[z_id as int].point) by {
                                    assert(n0.points@.subrange(0, n_in.points@.len() as int)[z_id as int] == n0.points@[z_id as int]);
                                }
                            }
                            assert(free_between(m, n0.points@[cid as int].point, ri));
                        }
                        let r_id = net.push_point(ri, Some(cid));
                        proof {
                            lemma_push_point(m, n0, *net, ri, cid);
                        }
                        let ghost n1 = *net;
                        let ghost t1 = trace.events@;
                        let line_here = net.line_id_or_add(probe, r_id, trace);
                        proof {
                            lemma_crossing_on_both(probe, other.lines@[line_other as int].segment);
                            if net.lines@ != n1.lines@ {
                                assert forall|l: int| 0 <= l < n1.lines@.len() implies !(#[trigger] n1.lines@[l]).segment.overlaps_collinear(&probe) by {
                                    if n1.lines@[l].segment.overlaps_collinear(&probe) {
                                        assert(n1.line_ok(m, l));
                                        let pl = n1.points@[n1.lines@[l].through as int].point;
                                        crate::refine::lemma_escape_line_unique(m, pl, ri, o, n1.lines@[l].segment, probe);
                                    }
                                }
                                lemma_push_line(m, n1, *net, probe, r_id);
                            } else {
                                lemma_wf_views(m, n1, *net);
                            }
                            assert(n1.points@[r_id as int].point == ri);
                            assert(probe.contains(ri));
                            if net.lines@ != n1.lines@ {
                                let e = TraceEvent::LineAdded { net: n1.id, line: probe, through: ri };
                                lemma_search_push(m, t1, e);
                                lemma_grows_push(tin, t1, e);
                                lemma_recorded_push_line(t1, n1, *net, e, probe, r_id);
                                assert forall|id: NetId| id != n1.id implies line_events(trace.events@, id) == line_events(tin, id) by {
                                    lemma_line_events_push(t1, e, id);
                                }
                            }
                        }
                        let ghost t2 = trace.events@;
                        let ev = TraceEvent::EscapePoint { net: net.id, point: ri, process: Process::II };
                        trace.push(ev);
                        proof {
                            lemma_search_push(m, t2, ev);
                            lemma_grows_push(tin, t2, ev);
                            assert(trace.events@.subrange(0, t2.len() as int) =~= t2);
                            lemma_recorded_push_other(t2, *net, *net, ev);
                            assert(net.points@.subrange(0, n_in.points@.len() as int) =~= n_in.points@) by {
                                assert(net.points@.subrange(0, n_in.points@.len() as int) =~= n0.points@.subrange(0, n_in.points@.len() as int));
                            }
                        }
                        proof {
                            assert(r_id == n_in.points@.len() + chain@.len());
                            assert(net.points@[r_id as int].point == ri);
                            lemma_first_here(m, base, *other, center, starts@, orients@, r@, tried@, i as int, t);
                        }
                        return ProcessOutcome::Intersection { point, line_here, line_other };
                    }
                    if let Some((e, eo)) = process_i(obstacles, net, ri) {
                        proof {
                            lemma_same_lines(m, *net, base, ri);
                            assert(!retreat_position_fails(m, base, *other, ri, o));
                            assert forall|s: Set<Trial>| !#[trigger] retreat_closed(m, base, *other, z0, b, rec, s) by {
                                if retreat_closed(m, base, *other, z0, b, rec, s) {
                                    assert(s.contains((ri, o)));
                                }
                            }
                        }
                        let ghost np = *net;
                        let ghost tpc = trace.events@;
                        let cid = push_chain(obstacles, net, z_id, chain, trace);
                        let ghost n0 = *net;
                        proof {
                            lemma_grows_trans(tin, tpc, trace.events@);
                            assert forall|id: NetId| id != n_in.id implies line_events(trace.events@, id) == line_events(tin, id) by {
                                assert(line_events(trace.events@, id) == line_events(tpc, id));
                            }
                        }
                        proof {
                            if chain@.len() > 0 {
                                assert(n0.points@[cid as int].point == chain@.last());
                            } else {
                                assert(n0.points@[cid as int].point == n_in.points@[z_id as int].point) by {
                                    assert(n0.points@.subrange(0, n_in.points@.len() as int)[z_id as int] == n0.points@[z_id as int]);
                                }
                            }
                            assert(free_between(m, n0.points@[cid as int].point, ri));
                        }
                        let r_id = net.push_point(ri, Some(cid));
                        proof {
                            lemma_push_point(m, n0, *net, ri, cid);
                        }
                        let ghost n1 = *net;
                        let ghost t1 = trace.events@;
                        let ev1 = TraceEvent::EscapePoint { net: net.id, point: ri, process: Process::II };
                        trace.push(ev1);
                        proof {
                            lemma_search_push(m, t1, ev1);
                            lemma_grows_push(tin, t1, ev1);
                            assert(trace.events@.subrange(0, t1.len() as int) =~= t1);
                            lemma_recorded_push_other(t1, *net, *net, ev1);
                        }
                        net.push_point(e, Some(r_id));
                        proof {
                            lemma_push_point(m, n1, *net, e, r_id);
                        }
                        let ghost n2 = *net;
                        net.flag = Flag::One(eo);
                        proof {
                            lemma_wf_views(m, n2, *net);
                        }
                        let ghost t2 = trace.events@;
                        let ev2 = TraceEvent::EscapePoint { net: net.id, point: e, process: Process::I };
                        trace.push(ev2);
                        proof {
                            lemma_search_push(m, t2, ev2);
                            lemma_grows_push(tin, t2, ev2);
                            assert(trace.events@.subrange(0, t2.len() as int) =~= t2);
                            lemma_recorded_push_other(t2, *net, *net, ev2);
                            lemma_same_lines(m, np, *net, ri);
                            let n = n_in.points@.len() as int;
                            assert(net.points@.subrange(0, n) =~= n_in.points@) by {
                                assert(net.points@.subrange(0, n) =~= n0.points@.subrange(0, n));
                            }
                            assert forall|k: int| n < k < net.points@.len() implies (#[trigger] net.points@[k]).parent == Some(
                                (k - 1) as usize,
                            ) by {
                                if k < n0.points@.len() {
                                    assert(net.points@[k] == n0.points@[k]);
                                    assert(n0.points@[n + (k - n)] == n0.points@[k]);
                                }
                            }
                            if chain@.len() > 0 {
                                assert(net.points@[n] == n0.points@[n + 0]);
                            }
                        }
                        proof {
                            assert(r_id == n_in.points@.len() + chain@.len());
                            assert(net.points@[r_id as int] == n1.points@[r_id as int]);
                            assert(net.points@[r_id as int].point == ri);
                            lemma_first_here(m, base, *other, center, starts@, orients@, r@, tried@, i as int, t);
                        }
                        return ProcessOutcome::Escaped;
                    }
                    proof {
                        lemma_same_lines(m, *net, base, ri);
                        assert forall|l: Segment| #[trigger] m.is_escape_line(ri, o, l) implies !crosses_net(l, *other) by {
                            crate::refine::lemma_escape_line_same(m, ri, o, probe, l);
                        }
                        assert(retreat_position_fails(m, base, *other, ri, o));
                    }
                    let ghost tr0 = tried@;
                    tried.push((ri, o));
                    proof {
                        assert(!tr0.contains((ri, o)));
                        assert(tried@.subrange(0, tried0.len() as int) =~= tr0.subrange(0, tried0.len() as int));
                        assert forall|t: Trial| tr0.contains(t) implies #[trigger] tried@.contains(t) by {
                            let w = choose|w: int| 0 <= w < tr0.len() && tr0[w] == t;
                            assert(tried@[w] == t);
                        }
                        assert(tried@[tr0.len() as int] == (ri, o));
                        assert forall|t: Trial| #[trigger] tried@.contains(t) implies tr0.contains(t) || t == (ri, o) by {
                            let w = choose|w: int| 0 <= w < tried@.len() && tried@[w] == t;
                            if w < tr0.len() {
                                assert(tr0[w] == t);
                            }
                        }
                        assert forall|i2: int, j2: int| 0 <= i2 < tried@.len() && 0 <= j2 < tried@.len() && i2 != j2 implies tried@[i2] != tried@[j2] by {
                            if i2 < tr0.len() && j2 < tr0.len() {
                            } else if i2 < tr0.len() {
                                assert(tr0.contains(tr0[i2]));
                            } else {
                                assert(tr0.contains(tr0[j2]));
                            }
                        }
                        assert forall|i2: int|
                            0 <= i2 < tried@.len() implies retreat_position_fails(m, base, *other, (#[trigger] tried@[i2]).0, tried@[i2].1) by {
                            if i2 < tr0.len() {
                                assert(tried@[i2] == tr0[i2]);
                            }
                        }
                        assert forall|i2: int| 0 <= i2 < tried@.len() implies m.bounds.contains(#[trigger] tried@[i2].0) by {
                            if i2 < tr0.len() {
                                assert(tried@[i2] == tr0[i2]);
                            }
                        }
                        lemma_trials_bounded(m, tried@);
                    }
                    let ghost wk0 = work@;
                    if config.recursive_retreat {
                        let mut sub_chain: Vec<Point> = copy_chain(chain);
                        sub_chain.push(ri);
                        proof {
                            assert(sub_chain@ =~= chain@.push(ri));
                            assert(chain_links(m, z0, sub_chain@)) by {
                                if chain@.len() > 0 {
                                    assert(sub_chain@[chain@.len() - 1] == chain@.last());
                                }
                                assert forall|i2: int| 0 <= i2 < sub_chain@.len() - 1 implies free_between(m, #[trigger] sub_chain@[i2], sub_chain@[i2 + 1]) by {
                                    if i2 < chain@.len() - 1 {
                                        assert(sub_chain@[i2] == chain@[i2] && sub_chain@[i2 + 1] == chain@[i2 + 1]);
                                    }
                                }
                                assert forall|i2: int| 0 <= i2 < sub_chain@.len() implies m.free_point(#[trigger] sub_chain@[i2]) by {
                                    if i2 < chain@.len() {
                                        assert(sub_chain@[i2] == chain@[i2]);
                                    }
                                }
                            }
                        }
                        let ghost sc = sub_chain;
                        work.push(((ri, o), sub_chain));
                        proof {
                            assert(work@ =~= wk0.push(((ri, o), sc)));
                            assert(work@.subrange(0, work0.len() as int) =~= wk0.subrange(0, work0.len() as int));
                            assert(is_pending(work@, wfrom, (ri, o))) by {
                                assert(work@[wk0.len() as int].0 == (ri, o));
                            }
                            assert forall|t: Trial| is_pending(wk0, wfrom, t) implies #[trigger] is_pending(work@, wfrom, t) by {
                                let w = choose|w: int| wfrom <= w < wk0.len() && #[trigger] wk0[w].0 == t;
                                assert(work@[w] == wk0[w]);
                            }
                        }
                    }
                    proof {
                        assert forall|w: int| 0 <= w < work@.len() implies {
                            &&& tried@.contains((#[trigger] work@[w]).0)
                            &&& work@[w].1@.len() >= 1
                            &&& work@[w].1@.last() == work@[w].0.0
                            &&& chain_links(m, z0, work@[w].1@)
                        } by {
                            if w < wk0.len() {
                                assert(work@[w] == wk0[w]);
                                assert(wk0[w] == (#[trigger] wk0[w]));
                            }
                        }
                        assert(work_ok(m, z0, tried@, work@));
                        if rec {
                            assert forall|t: Trial, p: Point, o2: Orientation|
                                tried@.contains(t) && !is_pending(work@, wfrom, t) && #[trigger] child_trial(m, b, t.0, t.1, p, o2)
                                    implies tried@.contains((p, o2)) by {
                                if t != (ri, o) {
                                    assert(tr0.contains(t));
                                    if is_pending(wk0, wfrom, t) {
                                    }
                                    assert(tr0.contains((p, o2)));
                                }
                            }
                        }
                    }
                }
                let next = toward(ri, center);
                proof {
                    lemma_toward_step(m, center, ri, next);
                    lemma_toward_between(center, starts@[i as int], ri, next);
                    assert(tried@.contains((ri, o)));
                }
                let ghost rb = r@;
                r.set(i, next);
                proof {
                    assert forall|k: int, p: Point|
                        0 <= k < nw && #[trigger] on_between(center, starts@[k], p) && !on_between(center, r@[k], p)
                            implies tried@.contains((p, orients@[k])) by {
                        if k != i {
                            assert(r@[k] == rb[k]);
                        } else if on_between(center, ri, p) {
                            assert(p == ri);
                        }
                    }
                    assert forall|k: int| 0 <= k < nw implies on_between(center, starts@[k], #[trigger] r@[k]) by {
                        if k != i {
                            assert(r@[k] == rb[k]);
                        }
                    }
                    assert forall|k: int| 0 <= k < nw implies free_between(m, center, #[trigger] r@[k]) by {
                        if k != i {
                            assert(r@[k] == rb[k]);
                        }
                    }
                }
            }
            i = i + 1;
        }
        proof {
            let k0 = choose|k: int| 0 <= k < nw && r0[k] != center;
            assert forall|k: int| 0 <= k < nw implies manhattan_spec(#[trigger] r@[k], center) <= manhattan_spec(r0[k], center) by {}
            assert(manhattan_spec(r@[k0], center) < manhattan_spec(r0[k0], center));
            lemma_walk_measure_le(r@, r0, center);
            t = t + 1;
        }
    }
}

/// A copy of a list of points.
fn copy_chain(v: &Vec<Point>) -> (r: Vec<Point>)
    ensures
        r@ == v@,
{
    let mut r: Vec<Point> = Vec::new();
    let mut i: usize = 0;
    while i < v.len()
        invariant
            i <= v@.len(),
            r@ == v@.take(i as int),
        decreases v@.len() - i,
    {
        r.push(v[i]);
        i = i + 1;
        assert(r@ =~= v@.take(i as int));
    }
    assert(v@.take(i as int) =~= v@);
    r
}

/// Escape Process II at object point `z` (tree node `z_id`), after Figure 6
/// of the paper.
///
/// The four retreat positions start where `z`'s escape lines meet their
/// covers and walk back toward `z` one unit at a time, round-robin. At every
/// position `r_i` the perpendicular escape line through `r_i` is constructed
/// as a *trial* line: it is tested against the other network, and Process I
/// is tried at `r_i`. Only when `r_i` becomes an escape point does anything
/// stay behind; a trial line that led nowhere is forgotten and does not
/// count as "previously used".
///
/// With [`RouterConfig::recursive_retreat`], a position that leads nowhere
/// starts a retreat along its own trial line (from that line's
/// cover-stopped ends toward the position), and so on; a position is tried
/// at most once per call. When a nested position escapes, the positions that
/// led to it become escape points too, each found from the one before.
///
/// Ends on the bounding box have no cover and therefore no retreat position,
/// unless [`RouterConfig::boundary_retreat`] is set.
pub fn process_ii(
    obstacles: &ObstacleSet,
    net: &mut Network,
    other: &Network,
    z_id: usize,
    z: Point,
    config: &RouterConfig,
    trace: &mut Trace,
) -> (r: ProcessOutcome)
    requires
        old(net).wf(obstacles@),
        other.wf(obstacles@),
        z_id < old(net).points@.len(),
        z == old(net).points@[z_id as int].point,
        search_trace(obstacles@, old(trace).events@),
        lines_recorded(old(trace).events@, *old(net)),
    ensures
        final(net).wf(obstacles@),
        final(net).points@.len() >= old(net).points@.len(),
        final(net).points@[0] == old(net).points@[0],
        final(net).id == old(net).id,
        final(net).no_escape == old(net).no_escape,
        search_trace(obstacles@, final(trace).events@),
        grows_by_steps(old(trace).events@, final(trace).events@),
        lines_recorded(final(trace).events@, *final(net)),
        lines_kept(old(trace).events@, final(trace).events@, old(net).id),
        !(r is Failed) && (exists|k: int, p: Point|
            0 <= k < 4 && #[trigger] on_between(z, retreat_origin(obstacles@, z, k, config.boundary_retreat), p) && p != z
                && !retreat_position_fails(obstacles@, *old(net), *other, p, retreat_orientation(k))) ==> exists|i: int|
            #[trigger] first_on_walks(
                obstacles@,
                *old(net),
                *other,
                z,
                retreat_starts(obstacles@, z, config.boundary_retreat),
                retreat_orients(),
                i,
                final(net).points@[old(net).points@.len() as int].point,
            ),
        r matches ProcessOutcome::Intersection { point, line_here, line_other } ==> {
            &&& line_here < final(net).lines@.len()
            &&& final(net).lines@[line_here as int].segment.contains(point)
            &&& line_other < other.lines@.len()
            &&& other.lines@[line_other as int].segment.contains(point)
            &&& first_crossing(final(net).lines@[line_here as int].segment, *other, line_other as int, point)
        },
        r is Failed <==> retreat_fails(
            obstacles@,
            *old(net),
            *other,
            z,
            config.boundary_retreat,
            config.recursive_retreat,
        ),
        r is Failed ==> {
            &&& final(net).points@ == old(net).points@
            &&& final(net).lines@ == old(net).lines@
            &&& final(net).flag == old(net).flag
            &&& forall|i: int|
                old(trace).events@.len() <= i < final(trace).events@.len() ==> #[trigger] final(trace).events@[i] is ProbeLine
        },
        r is Escaped ==> {
            let n = old(net).points@.len() as int;
            &&& final(net).lines@ == old(net).lines@
            &&& final(net).points@.len() >= n + 2
            &&& !config.recursive_retreat ==> final(net).points@.len() == n + 2
            &&& final(net).points@.subrange(0, n) == old(net).points@
            &&& final(net).points@[n].parent == Some(z_id)
            &&& forall|k: int| n < k < final(net).points@.len() ==> (#[trigger] final(net).points@[k]).parent == Some(
                (k - 1) as usize,
            )
            &&& final(net).flag matches Flag::One(o) && process_i_result(
                obstacles@,
                *final(net),
                final(net).points@[final(net).points@.len() - 2].point,
                final(net).points@.last().point,
                o,
            ) && process_i_choice(
                obstacles@,
                *final(net),
                final(net).points@[final(net).points@.len() - 2].point,
                final(net).points@.last().point,
                o,
            )
        },
{
    let ghost m = obstacles@;
    assert(net.point_ok(m, z_id as int));
    let v = obstacles.escape_line(z, Orientation::Vertical);
    let h = obstacles.escape_line(z, Orientation::Horizontal);
    let bounds = obstacles.bounds();
    let retreat = config.boundary_retreat;
    let mut starts: Vec<Point> = Vec::new();
    starts.push(retreat_start(Point::new(z.x, v.to), v.to == bounds.max.y, retreat, z));
    starts.push(retreat_start(Point::new(h.to, z.y), h.to == bounds.max.x, retreat, z));
    starts.push(retreat_start(Point::new(z.x, v.from), v.from == bounds.min.y, retreat, z));
    starts.push(retreat_start(Point::new(h.from, z.y), h.from == bounds.min.x, retreat, z));
    let mut orients: Vec<Orientation> = Vec::new();
    orients.push(Orientation::Horizontal);
    orients.push(Orientation::Vertical);
    orients.push(Orientation::Horizontal);
    orients.push(Orientation::Vertical);
    let chain: Vec<Point> = Vec::new();
    let mut tried: Vec<Trial> = Vec::new();
    proof {
        assert(m.is_escape_line(z, Orientation::Vertical, escape_line_of(m, z, Orientation::Vertical)));
        assert(m.is_escape_line(z, Orientation::Horizontal, escape_line_of(m, z, Orientation::Horizontal)));
        crate::refine::lemma_escape_line_same(m, z, Orientation::Vertical, v, escape_line_of(m, z, Orientation::Vertical));
        crate::refine::lemma_escape_line_same(m, z, Orientation::Horizontal, h, escape_line_of(m, z, Orientation::Horizontal));
        assert forall|k: int| 0 <= k < 4 implies #[trigger] starts@[k] == retreat_origin(m, z, k, retreat) && orients@[k]
            == retreat_orientation(k) by {}
        assert forall|k: int| 0 <= k < 4 implies free_between(m, z, #[trigger] starts@[k]) by {
            if starts@[k] == z {
                assert forall|w: Point| #[trigger] on_between(z, z, w) implies m.free_point(w) by {}
            } else if k == 0 || k == 2 {
                assert(v.contains(starts@[k]));
                assert(v.contains(z));
                lemma_free_segment_between(m, v, z, starts@[k]);
            } else {
                assert(h.contains(starts@[k]));
                assert(h.contains(z));
                lemma_free_segment_between(m, h, z, starts@[k]);
            }
        }
        assert forall|s: Set<Trial>|
            #[trigger] retreat_closed(m, *net, *other, z, retreat, config.recursive_retreat, s) implies (forall|k: int, p: Point|
                0 <= k < 4 && #[trigger] on_between(z, starts@[k], p) && p != z ==> s.contains((p, orients@[k]))) by {
            assert forall|k: int, p: Point| 0 <= k < 4 && #[trigger] on_between(z, starts@[k], p) && p != z implies s.contains(
                (p, orients@[k]),
            ) by {
                assert(starts@[k] == retreat_origin(m, z, k, retreat));
                assert(base_trial(m, z, retreat, p, orients@[k]));
            }
        }
        assert(tried@.no_duplicates());
    }
    let mut work: Vec<(Trial, Vec<Point>)> = Vec::new();
    let ghost n_in = *net;
    let ghost t_in = trace.events@;
    let ghost b = config.boundary_retreat;
    let ghost rec = config.recursive_retreat;
    proof {
        assert(work_ok(m, z, tried@, work@));
    }
    let result = retreat_walks(
        obstacles,
        net,
        other,
        z_id,
        &chain,
        z,
        &starts,
        &orients,
        config,
        trace,
        &mut tried,
        &mut work,
        Ghost(0int),
        Ghost(n_in),
    );
    if !matches!(result, ProcessOutcome::Failed) {
        proof {
            assert(net.points@[0] == net.points@.subrange(0, n_in.points@.len() as int)[0]);
            assert(starts@ =~= retreat_starts(m, z, b));
            assert(orients@ =~= retreat_orients());
            assert(chain@.len() == 0);
        }
        return result;
    }
    proof {
        assert forall|p: Point, o: Orientation| #[trigger] base_trial(m, z, b, p, o) implies tried@.contains((p, o)) by {
            let k = choose|k: int|
                0 <= k < 4 && #[trigger] on_between(z, retreat_origin(m, z, k, b), p) && p != z && o == retreat_orientation(k);
            assert(starts@[k] == retreat_origin(m, z, k, b));
            assert(on_between(z, starts@[k], p));
        }
        assert forall|k: int, p: Point|
            0 <= k < 4 && #[trigger] on_between(z, retreat_origin(m, z, k, b), p) && p != z implies retreat_position_fails(
                m,
                n_in,
                *other,
                p,
                retreat_orientation(k),
            ) by {
            assert(base_trial(m, z, b, p, retreat_orientation(k)));
            assert(tried@.contains((p, retreat_orientation(k))));
            let idx = choose|idx: int| 0 <= idx < tried@.len() && tried@[idx] == (p, retreat_orientation(k));
            assert(retreat_position_fails(m, n_in, *other, tried@[idx].0, tried@[idx].1));
        }
    }
    let mut w: usize = 0;
    while w < work.len()
        invariant
            m == obstacles@,
            net.wf(m),
            other.wf(m),
            n_in == *old(net),
            net.points@ == n_in.points@,
            net.lines@ == n_in.lines@,
            net.flag == n_in.flag,
            net.id == n_in.id,
            net.no_escape == n_in.no_escape,
            z_id < net.points@.len(),
            z == n_in.points@[z_id as int].point,
            b == config.boundary_retreat,
            rec == config.recursive_retreat,
            search_trace(m, trace.events@),
            t_in == old(trace).events@,
            grows_by_steps(t_in, trace.events@),
            lines_recorded(trace.events@, *net),
            lines_kept(t_in, trace.events@, net.id),
            forall|i: int| t_in.len() <= i < trace.events@.len() ==> #[trigger] trace.events@[i] is ProbeLine,
            tried@.no_duplicates(),
            forall|i: int| 0 <= i < tried@.len() ==> m.bounds.contains(#[trigger] tried@[i].0),
            forall|i: int|
                0 <= i < tried@.len() ==> retreat_position_fails(m, n_in, *other, (#[trigger] tried@[i]).0, tried@[i].1),
            w <= work@.len(),
            work@.len() <= tried@.len(),
            work_ok(m, z, tried@, work@),
            !rec ==> work@.len() == 0,
            rec ==> forall|t: Trial, p: Point, o: Orientation|
                #![trigger tried@.contains(t), child_trial(m, b, t.0, t.1, p, o)]
                tried@.contains(t) && !is_pending(work@, w as int, t) && child_trial(m, b, t.0, t.1, p, o) ==> tried@.contains((p, o)),
            forall|p: Point, o: Orientation| #[trigger] base_trial(m, z, b, p, o) ==> tried@.contains((p, o)),
            forall|s: Set<Trial>|
                #[trigger] retreat_closed(m, n_in, *other, z, b, rec, s) ==> forall|t: Trial| #[trigger] tried@.contains(t) ==> s.contains(t),
            forall|k: int, p: Point|
                0 <= k < 4 && #[trigger] on_between(z, retreat_origin(m, z, k, b), p) && p != z ==> retreat_position_fails(
                    m,
                    n_in,
                    *other,
                    p,
                    retreat_orientation(k),
                ),
        decreases 2 * (box_trials(m).len() - tried@.len()) + (work@.len() - w),
    {
        proof {
            lemma_trials_bounded(m, tried@);
            assert(work_ok(m, z, tried@, work@));
            assert(tried@.contains((#[trigger] work@[w as int]).0));
        }
        let item = work[w].0;
        let item_chain = copy_chain(&work[w].1);
        let q = item.0;
        let oq = item.1;
        proof {
            assert(chain_links(m, z, item_chain@));
            assert(m.free_point(item_chain@[item_chain@.len() - 1]));
            assert(rec);
        }
        let line = obstacles.escape_line(q, oq);
        let s0 = walk_start(obstacles, line, q, true, config.boundary_retreat);
        let s1 = walk_start(obstacles, line, q, false, config.boundary_retreat);
        let mut sub_starts: Vec<Point> = Vec::new();
        sub_starts.push(s0);
        sub_starts.push(s1);
        let mut sub_orients: Vec<Orientation> = Vec::new();
        sub_orients.push(oq.perpendicular());
        sub_orients.push(oq.perpendicular());
        proof {
            crate::geometry::lemma_along_across(oq, q);
            assert(m.is_escape_line(q, oq, escape_line_of(m, q, oq)));
            crate::refine::lemma_escape_line_same(m, q, oq, line, escape_line_of(m, q, oq));
            assert(sub_starts@ =~= seq![s0, s1]);
            assert forall|k: int| 0 <= k < 2 implies free_between(m, q, #[trigger] sub_starts@[k]) by {
                let x = sub_starts@[k];
                if x == q {
                    assert forall|y: Point| #[trigger] on_between(q, q, y) implies m.free_point(y) by {}
                } else {
                    lemma_from_along_across(oq, if k == 0 { line.to } else { line.from }, line.fixed);
                    assert(line.contains(x));
                    lemma_free_segment_between(m, line, q, x);
                }
            }
            assert forall|s: Set<Trial>|
                #[trigger] retreat_closed(m, n_in, *other, z, b, rec, s) implies (forall|t: Trial|
                    #[trigger] tried@.contains(t) ==> s.contains(t)) && (forall|k: int, p: Point|
                    0 <= k < 2 && #[trigger] on_between(q, sub_starts@[k], p) && p != q ==> s.contains(
                        (p, sub_orients@[k]),
                    )) by {
                assert(s.contains((q, oq)));
                assert forall|k: int, p: Point|
                    0 <= k < 2 && #[trigger] on_between(q, sub_starts@[k], p) && p != q implies s.contains(
                    (p, sub_orients@[k])) by {
                    assert(child_trial(m, b, q, oq, p, oq.perpendicular()));
                }
            }
            if item_chain@.len() > 0 {
            }
            assert(item_chain@.last() == q);
        }
        let ghost tcall = trace.events@;
        let ghost trc = tried@;
        let ghost wkc = work@;
        let res = retreat_walks(
            obstacles,
            net,
            other,
            z_id,
            &item_chain,
            q,
            &sub_starts,
            &sub_orients,
            config,
            trace,
            &mut tried,
            &mut work,
            Ghost(w as int),
            Ghost(n_in),
        );
        proof {
            lemma_grows_trans(t_in, tcall, trace.events@);
            assert forall|id: NetId| id != n_in.id implies line_events(trace.events@, id) == line_events(t_in, id) by {
                assert(line_events(trace.events@, id) == line_events(tcall, id));
            }
        }
        if !matches!(res, ProcessOutcome::Failed) {
            proof {
                assert(net.points@[0] == net.points@.subrange(0, n_in.points@.len() as int)[0]);
            }
            return res;
        }
        proof {
            assert forall|i: int| t_in.len() <= i < trace.events@.len() implies #[trigger] trace.events@[i] is ProbeLine by {
                if i < tcall.len() {
                    assert(trace.events@.subrange(0, tcall.len() as int)[i] == trace.events@[i]);
                }
            }
            assert forall|t: Trial| trc.contains(t) implies #[trigger] tried@.contains(t) by {
                let x = choose|x: int| 0 <= x < trc.len() && trc[x] == t;
                assert(tried@.subrange(0, trc.len() as int)[x] == t);
            }
            assert forall|t: Trial, p: Point, o: Orientation|
                tried@.contains(t) && !is_pending(work@, w + 1, t) && #[trigger] child_trial(m, b, t.0, t.1, p, o)
                    implies tried@.contains((p, o)) by {
                if t == (q, oq) {
                    let tl = escape_line_of(m, q, oq);
                    if on_between(q, walk_origin(m, tl, q, true, b), p) {
                        assert(on_between(q, sub_starts@[0], p));
                    } else {
                        assert(on_between(q, sub_starts@[1], p));
                    }
                } else if is_pending(work@, w as int, t) {
                    let x = choose|x: int| w <= x < work@.len() && #[trigger] work@[x].0 == t;
                    assert(x == w) by {
                        if x > w {
                            assert(is_pending(work@, w + 1, t));
                        }
                    }
                    assert(work@[w as int] == wkc[w as int]);
                }
            }
            lemma_trials_bounded(m, tried@);
            assert(work@.len() - wkc.len() <= tried@.len() - trc.len());
        }
        w = w + 1;
    }
    proof {
        let s = tried@.to_set();
        assert forall|t: Trial| #[trigger] s.contains(t) implies retreat_position_fails(m, n_in, *other, t.0, t.1) by {
            let x = choose|x: int| 0 <= x < tried@.len() && tried@[x] == t;
        }
        assert forall|p: Point, o: Orientation| #[trigger] base_trial(m, z, b, p, o) implies s.contains((p, o)) by {}
        if rec {
            assert forall|q: Point, oq: Orientation, p: Point, o: Orientation|
                s.contains((q, oq)) && #[trigger] child_trial(m, b, q, oq, p, o) implies s.contains((p, o)) by {
                assert(!is_pending(work@, w as int, (q, oq)));
                assert(tried@.contains((q, oq)));
            }
        }
        assert(retreat_closed(m, n_in, *other, z, b, rec, s));
    }
    ProcessOutcome::Failed
}

/// A crossing point lies on both segments.
pub(crate) proof fn lemma_crossing_on_both(s: Segment, t: Segment)
    requires
        s.crossing(&t) is Some,
    ensures
        s.contains(s.crossing(&t)->0),
        t.contains(s.crossing(&t)->0),
{
    lemma_from_along_across(s.orientation, t.fixed, s.fixed);
    if s.orientation == Orientation::Horizontal {
        assert(t.orientation == Orientation::Vertical);
    } else {
        assert(t.orientation == Orientation::Horizontal);
    }
}

} // verus!
