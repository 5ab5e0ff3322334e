//! Moving a whole scene: the bounds, every obstacle and both ends of a route.

use vstd::prelude::*;

use crate::geometry::{Coord, Orientation, Point, manhattan_spec};
use crate::obstacles::{ObstacleModel, Span, span_segment};
use crate::refine::{
    clean, corners_free, distinct_at, free_at, free_between, lemma_chain_valid_path, lemma_valid_path_chain,
    on_between, path_length, rectilinear, turn_at, valid_path, aligned_at, chain_free,
};

verus! {

/// `v` is a value of `Coord`.
pub open spec fn in_coord(v: int) -> bool {
    i64::MIN <= v <= i64::MAX
}

/// `p` moved by `d`.
pub open spec fn shift_point(p: Point, d: Point) -> Point {
    Point { x: (p.x + d.x) as Coord, y: (p.y + d.y) as Coord }
}

/// `p` can be moved by `d` without leaving `Coord`.
pub open spec fn shift_fits(p: Point, d: Point) -> bool {
    in_coord(p.x + d.x) && in_coord(p.y + d.y)
}

/// The opposite move.
pub open spec fn neg_point(d: Point) -> Point {
    Point { x: (-d.x) as Coord, y: (-d.y) as Coord }
}

/// Every corner of `s` moved by `d`.
pub open spec fn shift_path(s: Seq<Point>, d: Point) -> Seq<Point> {
    s.map_values(|p: Point| shift_point(p, d))
}

/// A stored span of orientation `o` moved by `d`.
pub open spec fn shift_span(o: Orientation, sp: Span, d: Point) -> Span {
    match o {
        Orientation::Horizontal => ((sp.0 + d.y) as Coord, (sp.1 + d.x) as Coord, (sp.2 + d.x) as Coord),
        Orientation::Vertical => ((sp.0 + d.x) as Coord, (sp.1 + d.y) as Coord, (sp.2 + d.y) as Coord),
    }
}

/// A stored span of orientation `o` can be moved by `d` without leaving `Coord`.
pub open spec fn span_fits(o: Orientation, sp: Span, d: Point) -> bool {
    match o {
        Orientation::Horizontal => in_coord(sp.0 + d.y) && in_coord(sp.1 + d.x) && in_coord(sp.2 + d.x),
        Orientation::Vertical => in_coord(sp.0 + d.x) && in_coord(sp.1 + d.y) && in_coord(sp.2 + d.y),
    }
}

/// Every stored span of `m2` is a stored span of `m` moved by `d`.
pub open spec fn spans_from(m: ObstacleModel, m2: ObstacleModel, d: Point) -> bool {
    forall|o: Orientation, j: int|
        0 <= j < m2.spans(o).len() ==> exists|i: int|
            0 <= i < m.spans(o).len() && span_fits(o, m.spans(o)[i], d) && #[trigger] m2.spans(o)[j] == shift_span(
                o,
                m.spans(o)[i],
                d,
            )
}

/// `m2` is `m` moved by `d`: its bounds are moved, and its obstacles are
/// those of `m` moved (duplicates may differ: only which spans occur counts).
pub open spec fn moved_by(m: ObstacleModel, m2: ObstacleModel, d: Point) -> bool {
    &&& in_coord(-d.x) && in_coord(-d.y)
    &&& shift_fits(m.bounds.min, d) && shift_fits(m.bounds.max, d)
    &&& m2.bounds.min == shift_point(m.bounds.min, d)
    &&& m2.bounds.max == shift_point(m.bounds.max, d)
    &&& spans_from(m, m2, d)
    &&& spans_from(m2, m, neg_point(d))
}

/// Moving back undoes a move.
proof fn lemma_moved_back(m: ObstacleModel, m2: ObstacleModel, d: Point)
    requires
        moved_by(m, m2, d),
    ensures
        moved_by(m2, m, neg_point(d)),
{
    let nd = neg_point(d);
    assert(neg_point(nd) == d);
}

/// A moved span holds a moved point only where the span held the point.
proof fn lemma_contains_moves(o: Orientation, sp: Span, d: Point, p: Point)
    requires
        span_fits(o, sp, d),
        shift_fits(p, d),
        span_segment(o, shift_span(o, sp, d)).contains(shift_point(p, d)),
    ensures
        span_segment(o, sp).contains(p),
{
    match o {
        Orientation::Horizontal => {
            assert(shift_point(p, d).y == p.y + d.y);
            assert(shift_point(p, d).x == p.x + d.x);
        },
        Orientation::Vertical => {
            assert(shift_point(p, d).y == p.y + d.y);
            assert(shift_point(p, d).x == p.x + d.x);
        },
    }
}

/// No span of orientation `o` of `m2` holds `p` moved, where none of `m` holds `p`.
proof fn lemma_blocks_moves(m: ObstacleModel, m2: ObstacleModel, d: Point, p: Point, o: Orientation)
    requires
        spans_from(m, m2, d),
        shift_fits(p, d),
        !m.blocks_on(o, p),
    ensures
        !m2.blocks_on(o, shift_point(p, d)),
{
    let q = shift_point(p, d);
    if m2.blocks_on(o, q) {
        let j = choose|j: int| 0 <= j < m2.spans(o).len() && #[trigger] span_segment(o, m2.spans(o)[j]).contains(q);
        let i = choose|i: int|
            0 <= i < m.spans(o).len() && span_fits(o, m.spans(o)[i], d) && #[trigger] m2.spans(o)[j] == shift_span(
                o,
                m.spans(o)[i],
                d,
            );
        lemma_contains_moves(o, m.spans(o)[i], d, p);
        assert(m.blocks_on(o, p));
    }
}

/// A point of `m`'s bounds that is free stays free when moved into `m2`.
proof fn lemma_free_point_moves(m: ObstacleModel, m2: ObstacleModel, d: Point, p: Point)
    requires
        moved_by(m, m2, d),
        m.free_point(p),
    ensures
        shift_fits(p, d),
        m2.free_point(shift_point(p, d)),
{
    assert(shift_fits(p, d));
    lemma_blocks_moves(m, m2, d, p, Orientation::Horizontal);
    lemma_blocks_moves(m, m2, d, p, Orientation::Vertical);
}

/// Moving keeps the length of a path whose corners can all be moved.
proof fn lemma_shift_length(s: Seq<Point>, d: Point)
    requires
        forall|i: int| 0 <= i < s.len() ==> shift_fits(#[trigger] s[i], d),
    ensures
        path_length(shift_path(s, d)) == path_length(s),
    decreases s.len(),
{
    let t = shift_path(s, d);
    if s.len() >= 2 {
        let s1 = s.drop_last();
        assert(shift_path(s1, d) =~= t.drop_last());
        lemma_shift_length(s1, d);
        assert(manhattan_spec(t[t.len() - 2], t[t.len() - 1]) == manhattan_spec(s[s.len() - 2], s[s.len() - 1]));
    }
}

/// A valid path of `m` moved by `d` is a valid path of `m2` between the
/// moved ends, of the same length.
proof fn lemma_valid_path_moves(m: ObstacleModel, m2: ObstacleModel, d: Point, a: Point, b: Point, s: Seq<Point>)
    requires
        m.wf(),
        m2.wf(),
        moved_by(m, m2, d),
        valid_path(m, a, b, s),
    ensures
        valid_path(m2, shift_point(a, d), shift_point(b, d), shift_path(s, d)),
        path_length(shift_path(s, d)) == path_length(s),
{
    lemma_valid_path_chain(m, a, b, s);
    let t = shift_path(s, d);
    assert forall|i: int| 0 <= i < s.len() implies shift_fits(#[trigger] s[i], d) && m2.free_point(t[i]) by {
        assert(m.free_point(s[i]));
        lemma_free_point_moves(m, m2, d, s[i]);
    }
    lemma_shift_length(s, d);
    assert(clean(t)) by {
        assert forall|i: int| 0 <= i < t.len() - 1 implies #[trigger] distinct_at(t, i) by {
            assert(distinct_at(s, i));
            assert(shift_fits(s[i], d) && shift_fits(s[i + 1], d));
        }
        assert forall|i: int| 1 <= i < t.len() - 1 implies #[trigger] turn_at(t, i) by {
            assert(turn_at(s, i));
            assert(shift_fits(s[i - 1], d) && shift_fits(s[i], d) && shift_fits(s[i + 1], d));
        }
    }
    assert(rectilinear(t)) by {
        assert forall|i: int| 0 <= i < t.len() - 1 implies #[trigger] aligned_at(t, i) by {
            assert(aligned_at(s, i));
            assert(shift_fits(s[i], d) && shift_fits(s[i + 1], d));
        }
    }
    assert(corners_free(m2, t));
    assert(chain_free(m2, t)) by {
        assert forall|i: int| 0 <= i < t.len() - 1 implies #[trigger] free_at(m2, t, i) by {
            assert(free_at(m, s, i));
            let p = s[i];
            let q = s[i + 1];
            assert(shift_fits(p, d) && shift_fits(q, d));
            assert forall|z2: Point| #[trigger] on_between(t[i], t[i + 1], z2) implies m2.free_point(z2) by {
                let z = Point { x: (z2.x - d.x) as Coord, y: (z2.y - d.y) as Coord };
                assert(on_between(p, q, z));
                assert(m.free_point(z));
                lemma_free_point_moves(m, m2, d, z);
                assert(shift_point(z, d) == z2);
            }
        }
    }
    lemma_chain_valid_path(m2, shift_point(a, d), shift_point(b, d), t);
}

/// Moving a whole scene by `d` (its bounds, every obstacle and both ends)
/// moves its valid paths with it and keeps their lengths, both ways. So the
/// shortest valid path that `route_grid` returns has the same length on both
/// scenes, and `None` comes on both or on neither. Duplicated obstacles are
/// the move by zero.
pub proof fn lemma_translation(m: ObstacleModel, m2: ObstacleModel, d: Point, a: Point, b: Point)
    requires
        m.wf(),
        m2.wf(),
        moved_by(m, m2, d),
        shift_fits(a, d),
        shift_fits(b, d),
    ensures
        forall|s: Seq<Point>|
            #[trigger] valid_path(m, a, b, s) ==> valid_path(m2, shift_point(a, d), shift_point(b, d), shift_path(s, d))
                && path_length(shift_path(s, d)) == path_length(s),
        forall|s2: Seq<Point>|
            #[trigger] valid_path(m2, shift_point(a, d), shift_point(b, d), s2) ==> valid_path(
                m,
                a,
                b,
                shift_path(s2, neg_point(d)),
            ) && path_length(shift_path(s2, neg_point(d))) == path_length(s2),
        m.free_point(a) <==> m2.free_point(shift_point(a, d)),
        m.free_point(b) <==> m2.free_point(shift_point(b, d)),
{
    lemma_moved_back(m, m2, d);
    let nd = neg_point(d);
    assert(shift_point(shift_point(a, d), nd) == a);
    assert(shift_point(shift_point(b, d), nd) == b);
    assert forall|s: Seq<Point>|
        #[trigger] valid_path(m, a, b, s) implies valid_path(m2, shift_point(a, d), shift_point(b, d), shift_path(s, d))
            && path_length(shift_path(s, d)) == path_length(s) by {
        lemma_valid_path_moves(m, m2, d, a, b, s);
    }
    assert forall|s2: Seq<Point>|
        #[trigger] valid_path(m2, shift_point(a, d), shift_point(b, d), s2) implies valid_path(m, a, b, shift_path(s2, nd))
            && path_length(shift_path(s2, nd)) == path_length(s2) by {
        lemma_valid_path_moves(m2, m, nd, shift_point(a, d), shift_point(b, d), s2);
    }
    if m.free_point(a) {
        lemma_free_point_moves(m, m2, d, a);
    }
    if m2.free_point(shift_point(a, d)) {
        lemma_free_point_moves(m2, m, nd, shift_point(a, d));
    }
    if m.free_point(b) {
        lemma_free_point_moves(m, m2, d, b);
    }
    if m2.free_point(shift_point(b, d)) {
        lemma_free_point_moves(m2, m, nd, shift_point(b, d));
    }
}

} // verus!
