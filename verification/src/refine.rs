//! Collinear cleanup, the paper's "second improvement" and a validity checker.

use vstd::prelude::*;

use crate::geometry::{
    Coord, Orientation, Point, Segment, axis_aligned, lemma_from_along_across, manhattan_spec,
    max_int, min_int, seg_of,
};
use crate::obstacles::{ObstacleModel, ObstacleSet, span_segment};

verus! {

/// `z` lies on the axis-parallel stretch between `p` and `q` (inclusive).
pub open spec fn on_between(p: Point, q: Point, z: Point) -> bool {
    ||| (p.x == q.x && z.x == p.x && min_int(p.y as int, q.y as int) <= z.y <= max_int(
        p.y as int,
        q.y as int,
    ))
    ||| (p.y == q.y && z.y == p.y && min_int(p.x as int, q.x as int) <= z.x <= max_int(
        p.x as int,
        q.x as int,
    ))
}

/// `p` and `q` are axis-aligned and every point between them is free.
pub open spec fn free_between(m: ObstacleModel, p: Point, q: Point) -> bool {
    &&& axis_aligned(p, q)
    &&& forall|z: Point| #[trigger] on_between(p, q, z) ==> m.free_point(z)
}

/// Three points lie on one horizontal or one vertical line.
pub open spec fn collinear3(p: Point, q: Point, r: Point) -> bool {
    (p.x == q.x && q.x == r.x) || (p.y == q.y && q.y == r.y)
}

/// Corners `i` and `i + 1` share a row or a column.
pub open spec fn aligned_at(s: Seq<Point>, i: int) -> bool {
    axis_aligned(s[i], s[i + 1])
}

/// Corners `i` and `i + 1` differ.
pub open spec fn distinct_at(s: Seq<Point>, i: int) -> bool {
    s[i] != s[i + 1]
}

/// Corner `i` is a real bend: its neighbours are not collinear with it.
pub open spec fn turn_at(s: Seq<Point>, i: int) -> bool {
    !collinear3(s[i - 1], s[i], s[i + 1])
}

/// The stretch from corner `i` to corner `i + 1` is free.
pub open spec fn free_at(m: ObstacleModel, s: Seq<Point>, i: int) -> bool {
    free_between(m, s[i], s[i + 1])
}

/// Consecutive corners share a row or a column.
pub open spec fn rectilinear(path: Seq<Point>) -> bool {
    forall|i: int| 0 <= i < path.len() - 1 ==> #[trigger] aligned_at(path, i)
}

/// Every corner of the path is a free point.
pub open spec fn corners_free(m: ObstacleModel, path: Seq<Point>) -> bool {
    forall|i: int| 0 <= i < path.len() ==> m.free_point(#[trigger] path[i])
}

/// Every stretch between consecutive corners is free.
pub open spec fn chain_free(m: ObstacleModel, path: Seq<Point>) -> bool {
    forall|i: int| 0 <= i < path.len() - 1 ==> #[trigger] free_at(m, path, i)
}

/// `z` lies on one of the stretches of the path.
pub open spec fn on_path(path: Seq<Point>, z: Point) -> bool {
    exists|t: int| 0 <= t < path.len() - 1 && #[trigger] on_between(path[t], path[t + 1], z)
}

/// Every point on a stretch of `r` lies on a stretch of `s`.
#[verifier::opaque]
pub open spec fn covered_by(r: Seq<Point>, s: Seq<Point>) -> bool {
    forall|k: int, z: Point|
        0 <= k < r.len() - 1 && #[trigger] on_between(r[k], r[k + 1], z) ==> on_path(s, z)
}

/// Every corner of `r` is a corner of `s`.
#[verifier::opaque]
pub open spec fn corners_from(r: Seq<Point>, s: Seq<Point>) -> bool {
    forall|k: int| 0 <= k < r.len() ==> s.contains(#[trigger] r[k])
}

/// `s` without repeated consecutive corners: a corner equal to the one kept
/// before it is dropped.
pub open spec fn dedup_spec(s: Seq<Point>) -> Seq<Point>
    decreases s.len(),
{
    if s.len() <= 1 {
        s
    } else {
        let r = dedup_spec(s.drop_last());
        if r.last() == s.last() {
            r
        } else {
            r.push(s.last())
        }
    }
}

/// One left-to-right pass from corner `i` on: a corner collinear with both
/// neighbours is removed (and its successor tested next), otherwise kept.
pub open spec fn drop_pass(c: Seq<Point>, i: int) -> Seq<Point>
    decreases c.len() - i,
{
    if i < 1 || i + 1 >= c.len() {
        c
    } else if collinear3(c[i - 1], c[i], c[i + 1]) {
        drop_pass(c.remove(i), i)
    } else {
        drop_pass(c, i + 1)
    }
}

/// What [`cleanup`] returns: dedup and collinear passes, repeated until a
/// round removes nothing.
pub open spec fn cleanup_spec(s: Seq<Point>) -> Seq<Point>
    decreases s.len(),
{
    let c = drop_pass(dedup_spec(s), 1);
    if c.len() < s.len() {
        cleanup_spec(c)
    } else {
        c
    }
}

/// `idx` picks the corners of `r` out of `s`, in order.
pub open spec fn picks(idx: Seq<int>, r: Seq<Point>, s: Seq<Point>) -> bool {
    &&& idx.len() == r.len()
    &&& forall|k: int| 0 <= k < idx.len() ==> 0 <= #[trigger] idx[k] < s.len() && s[idx[k]] == r[k]
    &&& forall|k1: int, k2: int| 0 <= k1 < k2 < idx.len() ==> #[trigger] idx[k1] < #[trigger] idx[k2]
}

/// `r` is `s` with some corners left out: the order of the rest is kept.
pub open spec fn subsequence_of(r: Seq<Point>, s: Seq<Point>) -> bool {
    exists|idx: Seq<int>| #[trigger] picks(idx, r, s)
}

/// Every sequence is a subsequence of itself.
proof fn lemma_subsequence_refl(s: Seq<Point>)
    ensures
        subsequence_of(s, s),
{
    let idx = Seq::new(s.len(), |k: int| k);
    assert(picks(idx, s, s));
}

/// A subsequence of a subsequence is a subsequence.
proof fn lemma_subsequence_trans(r: Seq<Point>, c: Seq<Point>, s: Seq<Point>)
    requires
        subsequence_of(r, c),
        subsequence_of(c, s),
    ensures
        subsequence_of(r, s),
{
    let i1 = choose|idx: Seq<int>| #[trigger] picks(idx, r, c);
    let i2 = choose|idx: Seq<int>| #[trigger] picks(idx, c, s);
    let idx = Seq::new(i1.len(), |k: int| i2[i1[k]]);
    assert forall|k1: int, k2: int| 0 <= k1 < k2 < idx.len() implies #[trigger] idx[k1] < #[trigger] idx[k2] by {
        assert(i1[k1] < i1[k2]);
    }
    assert(picks(idx, r, s));
}

/// Leaving out one corner keeps a subsequence.
proof fn lemma_subsequence_remove(c: Seq<Point>, i: int)
    requires
        0 <= i < c.len(),
    ensures
        subsequence_of(c.remove(i), c),
{
    let idx = Seq::new((c.len() - 1) as nat, |k: int| if k < i { k } else { k + 1 });
    assert(picks(idx, c.remove(i), c));
}

/// No two consecutive corners coincide and no three consecutive corners are collinear.
pub open spec fn clean(s: Seq<Point>) -> bool {
    &&& forall|i: int| 0 <= i < s.len() - 1 ==> #[trigger] distinct_at(s, i)
    &&& forall|i: int| 1 <= i < s.len() - 1 ==> #[trigger] turn_at(s, i)
}

/// The stretch from corner `i` to corner `i + 1` is non-empty, axis-aligned and free.
pub open spec fn stretch_valid(m: ObstacleModel, path: Seq<Point>, i: int) -> bool {
    path[i] != path[i + 1] && axis_aligned(path[i], path[i + 1]) && m.free_segment(
        seg_of(path[i], path[i + 1]),
    )
}

/// The stretches meeting at corner `i` have different orientations.
pub open spec fn alternates_at(path: Seq<Point>, i: int) -> bool {
    seg_of(path[i - 1], path[i]).orientation != seg_of(path[i], path[i + 1]).orientation
}

/// `r` has the same first and last corner as `s` (both empty or both non-empty).
pub open spec fn same_ends(r: Seq<Point>, s: Seq<Point>) -> bool {
    &&& (r.len() == 0 <==> s.len() == 0)
    &&& s.len() > 0 ==> r[0] == s[0] && r.last() == s.last()
}

/// Rectilinear length of a polyline: the sum of the Manhattan lengths of its stretches.
pub open spec fn path_length(s: Seq<Point>) -> int
    decreases s.len(),
{
    if s.len() < 2 {
        0
    } else {
        path_length(s.drop_last()) + manhattan_spec(s[s.len() - 2], s[s.len() - 1])
    }
}

/// The path is a valid route from `a` to `b`: endpoints match, every corner
/// is inside the bounds, consecutive corners differ in exactly one coordinate,
/// consecutive stretches alternate orientation and no stretch touches an obstacle.
#[verifier::opaque]
pub open spec fn valid_path(m: ObstacleModel, a: Point, b: Point, path: Seq<Point>) -> bool {
    &&& path.len() >= 1
    &&& path[0] == a
    &&& path.last() == b
    &&& forall|i: int| 0 <= i < path.len() ==> m.bounds.contains(#[trigger] path[i])
    &&& path.len() == 1 ==> m.free_point(a)
    &&& forall|i: int| 0 <= i < path.len() - 1 ==> #[trigger] stretch_valid(m, path, i)
    &&& forall|i: int| 1 <= i < path.len() - 1 ==> #[trigger] alternates_at(path, i)
}

/// Three collinear points: the stretch between the outer two lies on the two inner stretches.
pub proof fn lemma_collinear_union(p: Point, q: Point, r: Point, z: Point)
    requires
        collinear3(p, q, r),
        on_between(p, r, z),
    ensures
        on_between(p, q, z) || on_between(q, r, z),
{
}

/// A segment between two axis-aligned points is free exactly when every point on it is free.
pub proof fn lemma_free_segment_iff(m: ObstacleModel, p: Point, q: Point)
    requires
        m.wf(),
        axis_aligned(p, q),
    ensures
        m.free_segment(seg_of(p, q)) <==> free_between(m, p, q),
{
    reveal(ObstacleModel::free_segment);
    let s = seg_of(p, q);
    let o = s.orientation;
    let perp = o.perpendicular();
    lemma_from_along_across(o, s.from, s.fixed);
    lemma_from_along_across(o, s.to, s.fixed);
    if m.free_segment(s) {
        assert forall|z: Point| #[trigger] on_between(p, q, z) implies m.free_point(z) by {
            crate::geometry::lemma_along_across(o, z);
            assert(z.across(o) == s.fixed && s.from <= z.along(o) <= s.to);
            if m.on_obstacle(z) {
                if m.blocks_on(o, z) {
                    let i = choose|i: int|
                        0 <= i < m.spans(o).len() && #[trigger] span_segment(
                            o,
                            m.spans(o)[i],
                        ).contains(z);
                    assert(span_segment(o, m.spans(o)[i]).overlaps_collinear(&s));
                    assert(m.collinear_hit(s));
                } else {
                    assert(m.blocks_on(perp, z)) by {
                        if o == Orientation::Horizontal {
                        } else {
                        }
                    }
                    let i = choose|i: int|
                        0 <= i < m.spans(perp).len() && #[trigger] span_segment(
                            perp,
                            m.spans(perp)[i],
                        ).contains(z);
                    assert(span_segment(perp, m.spans(perp)[i]).crossing(&s) is Some);
                    assert(m.cross_hit(s));
                }
            }
        }
    }
    if free_between(m, p, q) {
        assert(on_between(p, q, s.start()));
        assert(on_between(p, q, s.end()));
        if m.collinear_hit(s) {
            let i = choose|i: int|
                0 <= i < m.spans(o).len() && #[trigger] span_segment(
                    o,
                    m.spans(o)[i],
                ).overlaps_collinear(&s);
            let sp = m.spans(o)[i];
            let t = if sp.1 >= s.from {
                sp.1
            } else {
                s.from
            };
            let z = Point::from_along_across(o, t, s.fixed);
            lemma_from_along_across(o, t, s.fixed);
            assert(on_between(p, q, z));
            assert(span_segment(o, sp).contains(z));
            assert(m.blocks_on(o, z));
            assert(m.on_obstacle(z));
        }
        if m.cross_hit(s) {
            let i = choose|i: int|
                0 <= i < m.spans(perp).len() && (#[trigger] span_segment(
                    perp,
                    m.spans(perp)[i],
                )).crossing(&s) is Some;
            let sp = m.spans(perp)[i];
            let z = Point::from_along_across(o, sp.0, s.fixed);
            lemma_from_along_across(o, sp.0, s.fixed);
            assert(on_between(p, q, z));
            assert(span_segment(perp, sp).contains(z));
            assert(m.blocks_on(perp, z));
            assert(m.on_obstacle(z));
        }
    }
}

/// A free path: the points on its stretches are free.
pub proof fn lemma_on_free_path(m: ObstacleModel, s: Seq<Point>, z: Point)
    requires
        chain_free(m, s),
        on_path(s, z),
    ensures
        m.free_point(z),
{
    let t = choose|t: int| 0 <= t < s.len() - 1 && #[trigger] on_between(s[t], s[t + 1], z);
    assert(free_at(m, s, t));
}

/// A rectilinear path covered by a free path is free.
pub proof fn lemma_covered_free(m: ObstacleModel, r: Seq<Point>, s: Seq<Point>)
    requires
        chain_free(m, s),
        covered_by(r, s),
        rectilinear(r),
    ensures
        chain_free(m, r),
{
    reveal(covered_by);
    assert forall|k: int| 0 <= k < r.len() - 1 implies #[trigger] free_at(m, r, k) by {
        assert(aligned_at(r, k));
        assert forall|z: Point| #[trigger] on_between(r[k], r[k + 1], z) implies m.free_point(z) by {
            lemma_on_free_path(m, s, z);
        }
    }
}

/// Removes consecutive duplicate corners, keeping the first of each run.
fn dedup_points(path: &mut Vec<Point>)
    ensures
        forall|i: int| 0 <= i < final(path)@.len() - 1 ==> #[trigger] distinct_at(final(path)@, i),
        final(path)@.len() <= old(path)@.len(),
        same_ends(final(path)@, old(path)@),
        corners_from(final(path)@, old(path)@),
        covered_by(final(path)@, old(path)@),
        rectilinear(old(path)@) ==> rectilinear(final(path)@),
        (forall|i: int| 0 <= i < old(path)@.len() - 1 ==> #[trigger] distinct_at(old(path)@, i))
            ==> final(path)@ == old(path)@,
        path_length(final(path)@) == path_length(old(path)@),
        dirs(final(path)@) == dirs(old(path)@),
        subsequence_of(final(path)@, old(path)@),
        final(path)@ == dedup_spec(old(path)@),
{
    proof {
        reveal(covered_by);
        reveal(corners_from);
    }
    let ghost s = path@;
    if path.len() == 0 {
        proof {
            lemma_subsequence_refl(s);
        }
        return;
    }
    let mut r: Vec<Point> = Vec::new();
    r.push(path[0]);
    let ghost mut idx: Seq<int> = seq![0int];
    proof {
        assert(r@ =~= s.take(1));
    }
    let mut i: usize = 1;
    while i < path.len()
        invariant
            s == path@,
            1 <= i <= s.len(),
            1 <= r@.len() <= i,
            r@[0] == s[0],
            r@.last() == s[i - 1],
            forall|k: int| 0 <= k < r@.len() - 1 ==> #[trigger] distinct_at(r@, k),
            corners_from(r@, s),
            covered_by(r@, s),
            rectilinear(s) ==> rectilinear(r@),
            (forall|k: int| 0 <= k < s.len() - 1 ==> #[trigger] distinct_at(s, k)) ==> r@ == s.take(
                i as int,
            ),
            path_length(r@) == path_length(s.take(i as int)),
            dirs(r@) == dirs(s.take(i as int)),
            picks(idx, r@, s),
            forall|k: int| 0 <= k < idx.len() ==> #[trigger] idx[k] < i,
            r@ == dedup_spec(s.take(i as int)),
        decreases s.len() - i,
    {
        let p = path[i];
        let last = r[r.len() - 1];
        proof {
            assert(s.take(i + 1).drop_last() =~= s.take(i as int));
            assert(s.take(i + 1).last() == p);
            assert(s.take(i + 1) =~= s.take(i as int).push(s[i as int]));
            lemma_path_length_push(s.take(i as int), s[i as int]);
            lemma_path_length_push(r@, p);
            lemma_dirs_push(s.take(i as int), s[i as int]);
            lemma_dirs_push(r@, p);
        }
        if last != p {
            let ghost r0 = r@;
            let ghost idx0 = idx;
            r.push(p);
            proof {
                idx = idx.push(i as int);
                assert forall|k: int| 0 <= k < idx.len() implies 0 <= #[trigger] idx[k] < s.len() && s[idx[k]] == r@[k] by {
                    if k < idx0.len() {
                        assert(idx[k] == idx0[k]);
                    }
                }
                assert forall|k1: int, k2: int| 0 <= k1 < k2 < idx.len() implies #[trigger] idx[k1] < #[trigger] idx[k2] by {
                    if k2 < idx0.len() {
                        assert(idx[k1] == idx0[k1] && idx[k2] == idx0[k2]);
                    } else {
                        assert(idx[k1] == idx0[k1]);
                    }
                }
                assert(picks(idx, r@, s));
                reveal(covered_by);
                reveal(corners_from);
                assert(s.contains(p)) by {
                    assert(s[i as int] == p);
                }
                assert forall|k: int, z: Point|
                    0 <= k < r@.len() - 1 && #[trigger] on_between(r@[k], r@[k + 1], z) implies on_path(
                    s,
                    z,
                ) by {
                    if k == r@.len() - 2 {
                        assert(on_between(s[i - 1], s[i - 1 + 1], z));
                    } else {
                        assert(on_between(r0[k], r0[k + 1], z));
                    }
                }
                if rectilinear(s) {
                    assert(aligned_at(s, i - 1));
                    assert forall|k: int| 0 <= k < r@.len() - 1 implies #[trigger] aligned_at(r@, k) by {
                        if k < r@.len() - 2 {
                            assert(aligned_at(r0, k));
                        }
                    }
                }
                assert forall|k: int| 0 <= k < r@.len() - 1 implies #[trigger] distinct_at(r@, k) by {
                    if k < r@.len() - 2 {
                        assert(distinct_at(r0, k));
                    }
                }
                assert(s.take(i + 1) =~= s.take(i as int).push(p));
            }
        } else {
            proof {
                assert(!distinct_at(s, i - 1));
            }
        }
        i = i + 1;
    }
    proof {
        assert(s.take(s.len() as int) =~= s);
        assert(s.take(1) =~= seq![s[0]]);
        assert(picks(idx, r@, s));
    }
    *path = r;
}

/// One pass that removes every corner whose neighbours are collinear with it,
/// scanning from the front (a removal does not recheck the corner before it).
fn drop_collinear(path: &mut Vec<Point>)
    ensures
        final(path)@.len() <= old(path)@.len(),
        same_ends(final(path)@, old(path)@),
        corners_from(final(path)@, old(path)@),
        covered_by(final(path)@, old(path)@),
        rectilinear(old(path)@) ==> rectilinear(final(path)@),
        final(path)@.len() == old(path)@.len() ==> final(path)@ == old(path)@ && forall|i: int|
            1 <= i < old(path)@.len() - 1 ==> #[trigger] turn_at(old(path)@, i),
        (forall|i: int| 1 <= i < old(path)@.len() - 1 ==> #[trigger] turn_at(old(path)@, i))
            ==> final(path)@ == old(path)@,
        path_length(final(path)@) <= path_length(old(path)@),
        bends(final(path)@) <= bends(old(path)@),
        subsequence_of(final(path)@, old(path)@),
        final(path)@ == drop_pass(old(path)@, 1),
{
    proof {
        reveal(covered_by);
        reveal(corners_from);
    }
    let ghost s = path@;
    proof {
        lemma_subsequence_refl(s);
    }
    if path.len() < 3 {
        return;
    }
    let mut i: usize = 1;
    while i < path.len() - 1
        invariant
            1 <= i,
            2 <= path@.len(),
            i <= path@.len() - 1,
            path@.len() <= s.len(),
            same_ends(path@, s),
            corners_from(path@, s),
            covered_by(path@, s),
            rectilinear(s) ==> rectilinear(path@),
            path@.len() == s.len() ==> path@ == s && forall|k: int|
                1 <= k < i && k < s.len() - 1 ==> #[trigger] turn_at(s, k),
            (forall|k: int| 1 <= k < s.len() - 1 ==> #[trigger] turn_at(s, k)) ==> path@ == s,
            path_length(path@) <= path_length(s),
            bends(path@) <= bends(s),
            subsequence_of(path@, s),
            drop_pass(path@, i as int) == drop_pass(s, 1),
        decreases path@.len() - i,
    {
        let p = path[i - 1];
        let q = path[i];
        let r = path[i + 1];
        if (p.x == q.x && q.x == r.x) || (p.y == q.y && q.y == r.y) {
            let ghost c = path@;
            proof {
                if forall|k: int| 1 <= k < s.len() - 1 ==> #[trigger] turn_at(s, k) {
                    assert(c == s);
                    assert(turn_at(s, i as int));
                    assert(false);
                }
            }
            path.remove(i);
            proof {
                lemma_path_length_remove(c, i as int);
                lemma_remove_collinear(c, s, i as int);
                lemma_remove_turns(c, i as int);
                assert(path@ =~= c.remove(i as int));
                lemma_subsequence_remove(c, i as int);
                lemma_subsequence_trans(path@, c, s);
            }
        } else {
            assert(turn_at(path@, i as int));
            i = i + 1;
        }
    }
}

/// Removes consecutive duplicates and every point whose neighbours are
/// collinear with it (this also removes overshoots), until nothing changes.
/// Afterwards consecutive segments alternate orientation.
pub fn cleanup(path: &mut Vec<Point>)
    ensures
        clean(final(path)@),
        final(path)@.len() <= old(path)@.len(),
        same_ends(final(path)@, old(path)@),
        corners_from(final(path)@, old(path)@),
        covered_by(final(path)@, old(path)@),
        rectilinear(old(path)@) ==> rectilinear(final(path)@),
        clean(old(path)@) ==> final(path)@ == old(path)@,
        path_length(final(path)@) <= path_length(old(path)@),
        bends(final(path)@) <= bends(old(path)@),
        subsequence_of(final(path)@, old(path)@),
        final(path)@ == cleanup_spec(old(path)@),
{
    let ghost s = path@;
    proof {
        lemma_covered_refl(s);
        lemma_subsequence_refl(s);
    }
    loop
        invariant
            s == old(path)@,
            path@.len() <= s.len(),
            same_ends(path@, s),
            corners_from(path@, s),
            covered_by(path@, s),
            rectilinear(s) ==> rectilinear(path@),
            clean(s) ==> path@ == s,
            path_length(path@) <= path_length(s),
            bends(path@) <= bends(s),
            subsequence_of(path@, s),
            cleanup_spec(path@) == cleanup_spec(s),
        decreases path@.len(),
    {
        let ghost c0 = path@;
        let before = path.len();
        dedup_points(path);
        let ghost c1 = path@;
        drop_collinear(path);
        proof {
            lemma_covered_trans(path@, c1, c0);
            lemma_covered_trans(path@, c0, s);
            lemma_corners_trans(path@, c1, c0);
            lemma_corners_trans(path@, c0, s);
            lemma_subsequence_trans(path@, c1, c0);
            lemma_subsequence_trans(path@, c0, s);
        }
        if path.len() == before {
            proof {
                assert(c1.len() == c0.len());
                assert(path@ == c1);
                assert(clean(path@));
            }
            return;
        }
    }
}

/// The direction of the stretch between `p` and `q`: horizontal if they share a row.
pub open spec fn stretch_dir(p: Point, q: Point) -> Orientation {
    if p.y == q.y {
        Orientation::Horizontal
    } else {
        Orientation::Vertical
    }
}

/// The directions of the stretches of a polyline that have a length, in order.
pub open spec fn dirs(s: Seq<Point>) -> Seq<Orientation>
    decreases s.len(),
{
    if s.len() < 2 {
        Seq::empty()
    } else {
        let d = dirs(s.drop_last());
        if s[s.len() - 2] == s[s.len() - 1] {
            d
        } else {
            d.push(stretch_dir(s[s.len() - 2], s[s.len() - 1]))
        }
    }
}

/// The number of changes of direction along a sequence of directions.
pub open spec fn turns(v: Seq<Orientation>) -> nat
    decreases v.len(),
{
    if v.len() < 2 {
        0
    } else {
        turns(v.drop_last()) + if v[v.len() - 2] != v[v.len() - 1] {
            1nat
        } else {
            0nat
        }
    }
}

/// The number of bends of a polyline: its changes of direction.
pub open spec fn bends(s: Seq<Point>) -> nat {
    turns(dirs(s))
}

/// Appending a corner appends the direction of the new stretch, if it has a length.
pub proof fn lemma_dirs_push(s: Seq<Point>, p: Point)
    requires
        s.len() >= 1,
    ensures
        dirs(s.push(p)) == if s.last() == p {
            dirs(s)
        } else {
            dirs(s).push(stretch_dir(s.last(), p))
        },
{
    assert(s.push(p).drop_last() =~= s);
}

/// Appending a direction adds a turn if it differs from the last one.
pub proof fn lemma_turns_push(v: Seq<Orientation>, o: Orientation)
    ensures
        turns(v.push(o)) == turns(v) + if v.len() >= 1 && v.last() != o {
            1nat
        } else {
            0nat
        },
{
    assert(v.push(o).drop_last() =~= v);
}

/// The directions of a polyline split at a corner.
pub proof fn lemma_dirs_split(s: Seq<Point>, k: int)
    requires
        0 <= k < s.len(),
    ensures
        dirs(s) == dirs(s.take(k + 1)) + dirs(s.skip(k)),
    decreases s.len(),
{
    if k == s.len() - 1 {
        assert(s.take(k + 1) =~= s);
        assert(dirs(s.skip(k)) =~= Seq::<Orientation>::empty());
        assert(dirs(s) + Seq::<Orientation>::empty() =~= dirs(s));
    } else {
        let t = s.drop_last();
        lemma_dirs_split(t, k);
        assert(t.take(k + 1) =~= s.take(k + 1));
        assert(s.skip(k) =~= t.skip(k).push(s.last()));
        lemma_dirs_push(t.skip(k), s.last());
        assert(t.skip(k).last() == s[s.len() - 2]);
        let a = dirs(s.take(k + 1));
        let b = dirs(t.skip(k));
        assert((a + b).push(stretch_dir(s[s.len() - 2], s.last())) =~= a + b.push(stretch_dir(s[s.len() - 2], s.last())));
    }
}

/// The turns of two joined direction sequences: those of each, plus one if
/// the direction changes at the joint.
pub proof fn lemma_turns_concat(x: Seq<Orientation>, y: Seq<Orientation>)
    ensures
        turns(x + y) == turns(x) + turns(y) + if x.len() > 0 && y.len() > 0 && x.last() != y[0] {
            1nat
        } else {
            0nat
        },
    decreases y.len(),
{
    if y.len() == 0 {
        assert(x + y =~= x);
    } else {
        let y1 = y.drop_last();
        lemma_turns_concat(x, y1);
        assert(x + y =~= (x + y1).push(y.last()));
        lemma_turns_push(x + y1, y.last());
        lemma_turns_push(y1, y.last());
        assert(y1.push(y.last()) =~= y);
        if y1.len() > 0 {
            assert((x + y1).last() == y1.last());
            assert(y1[0] == y[0]);
        } else {
            assert(x + y1 =~= x);
        }
    }
}

/// Removing the middle one of three collinear corners does not add a turn.
pub proof fn lemma_remove_turns(c: Seq<Point>, i: int)
    requires
        1 <= i < c.len() - 1,
        collinear3(c[i - 1], c[i], c[i + 1]),
    ensures
        bends(c.remove(i)) <= bends(c),
{
    let n = c.remove(i);
    let (p, q, r) = (c[i - 1], c[i], c[i + 1]);
    lemma_dirs_split(c, i - 1);
    lemma_dirs_split(c.skip(i - 1), 2);
    lemma_dirs_split(n, i - 1);
    lemma_dirs_split(n.skip(i - 1), 1);
    assert(n.take(i) =~= c.take(i));
    assert(c.skip(i - 1).take(3) =~= seq![p, q, r]);
    assert(c.skip(i - 1).skip(2) =~= c.skip(i + 1));
    assert(n.skip(i - 1).take(2) =~= seq![p, r]);
    assert(n.skip(i - 1).skip(1) =~= c.skip(i + 1));
    let x = dirs(c.take(i));
    let y = dirs(c.skip(i + 1));
    let mo = dirs(seq![p, q, r]);
    let mn = dirs(seq![p, r]);
    let o = if p.y == q.y && q.y == r.y {
        Orientation::Horizontal
    } else {
        Orientation::Vertical
    };
    assert(p != q ==> stretch_dir(p, q) == o);
    assert(q != r ==> stretch_dir(q, r) == o);
    assert(p != r ==> stretch_dir(p, r) == o);
    assert(dirs(seq![p]) =~= Seq::<Orientation>::empty());
    lemma_dirs_push(seq![p], q);
    lemma_dirs_push(seq![p], r);
    lemma_dirs_push(seq![p, q], r);
    assert(seq![p].push(q) =~= seq![p, q]);
    assert(seq![p].push(r) =~= seq![p, r]);
    assert(seq![p, q].push(r) =~= seq![p, q, r]);
    let m2 = dirs(seq![p, q]);
    assert(m2 =~= (if p == q { Seq::<Orientation>::empty() } else { seq![o] }));
    assert(mo =~= (if q == r { m2 } else { m2.push(o) }));
    assert(mn =~= (if p == r { Seq::<Orientation>::empty() } else { seq![o] }));
    assert(forall|t: int| 0 <= t < mo.len() ==> mo[t] == o);
    lemma_turns_concat(x, mo + y);
    lemma_turns_concat(mo, y);
    lemma_turns_concat(x, mn + y);
    lemma_turns_concat(mn, y);
    assert(turns(mo) == 0) by {
        if mo.len() == 2 {
            lemma_turns_push(seq![o], o);
            assert(seq![o].push(o) =~= mo);
        }
    }
    assert(dirs(c) == x + (mo + y));
    assert(dirs(n) == x + (mn + y));
    if mo.len() > 0 {
        assert((mo + y)[0] == o);
        assert(mo.last() == o);
    } else {
        assert(mo + y =~= y);
    }
    if mn.len() > 0 {
        assert((mn + y)[0] == o);
        assert(mn.last() == o);
    } else {
        assert(mn + y =~= y);
    }
}

/// A reversed polyline has the reversed directions.
pub proof fn lemma_dirs_reverse(s: Seq<Point>)
    ensures
        dirs(s.reverse()) == dirs(s).reverse(),
    decreases s.len(),
{
    if s.len() >= 2 {
        let t = s.drop_first();
        lemma_dirs_reverse(t);
        let r = s.reverse();
        assert(r.drop_last() =~= t.reverse());
        assert(r[r.len() - 2] == s[1] && r[r.len() - 1] == s[0]);
        lemma_dirs_split(s, 1);
        assert(s.skip(1) =~= t);
        let h = s.take(2);
        assert(h =~= seq![s[0], s[1]]);
        assert(h.drop_last() =~= seq![s[0]]);
        assert(dirs(seq![s[0]]) =~= Seq::<Orientation>::empty());
        let a = dirs(h);
        let b = dirs(t);
        assert((a + b).reverse() =~= b.reverse() + a.reverse());
        if s[0] != s[1] {
            assert(a =~= seq![stretch_dir(s[0], s[1])]);
            assert(b.reverse() + a.reverse() =~= b.reverse().push(stretch_dir(s[1], s[0])));
        } else {
            assert(a =~= Seq::<Orientation>::empty());
            assert(b.reverse() + a.reverse() =~= b.reverse());
        }
    } else {
        assert(dirs(s) =~= Seq::<Orientation>::empty());
        assert(dirs(s.reverse()) =~= Seq::<Orientation>::empty());
        assert(dirs(s).reverse() =~= Seq::<Orientation>::empty());
    }
}

/// Reversing a direction sequence keeps its number of turns.
pub proof fn lemma_turns_reverse(v: Seq<Orientation>)
    ensures
        turns(v.reverse()) == turns(v),
    decreases v.len(),
{
    if v.len() >= 2 {
        let w = v.drop_last();
        lemma_turns_reverse(w);
        assert(v.reverse() =~= seq![v.last()] + w.reverse());
        lemma_turns_concat(seq![v.last()], w.reverse());
        assert(w.reverse()[0] == v[v.len() - 2]);
        assert(seq![v.last()].len() == 1);
    } else {
        assert(v.reverse().len() == v.len());
    }
}

/// A clean rectilinear polyline turns at every inner corner.
pub proof fn lemma_clean_bends(s: Seq<Point>)
    requires
        clean(s),
        rectilinear(s),
        s.len() >= 1,
    ensures
        dirs(s).len() == s.len() - 1,
        s.len() >= 2 ==> dirs(s).last() == stretch_dir(s[s.len() - 2], s.last()),
        bends(s) == if s.len() >= 2 {
            (s.len() - 2) as nat
        } else {
            0nat
        },
    decreases s.len(),
{
    if s.len() >= 2 {
        let t = s.drop_last();
        assert(clean(t)) by {
            assert forall|i: int| 0 <= i < t.len() - 1 implies #[trigger] distinct_at(t, i) by {
                assert(distinct_at(s, i));
            }
            assert forall|i: int| 1 <= i < t.len() - 1 implies #[trigger] turn_at(t, i) by {
                assert(turn_at(s, i));
            }
        }
        assert(rectilinear(t)) by {
            assert forall|i: int| 0 <= i < t.len() - 1 implies #[trigger] aligned_at(t, i) by {
                assert(aligned_at(s, i));
            }
        }
        lemma_clean_bends(t);
        assert(distinct_at(s, s.len() - 2));
        lemma_turns_push(dirs(t), stretch_dir(s[s.len() - 2], s.last()));
        if s.len() >= 3 {
            assert(turn_at(s, s.len() - 2));
            assert(aligned_at(s, s.len() - 2));
            assert(aligned_at(s, s.len() - 3));
            assert(dirs(t).last() == stretch_dir(s[s.len() - 3], s[s.len() - 2]));
        }
    }
}

/// Appending a corner adds the length of the new stretch.
pub proof fn lemma_path_length_push(s: Seq<Point>, p: Point)
    requires
        s.len() >= 1,
    ensures
        path_length(s.push(p)) == path_length(s) + manhattan_spec(s.last(), p),
{
    assert(s.push(p).drop_last() =~= s);
}

/// The length of two joined polylines is the sum of their lengths plus the
/// stretch that joins them.
pub proof fn lemma_path_length_concat(a: Seq<Point>, b: Seq<Point>)
    requires
        a.len() >= 1,
        b.len() >= 1,
    ensures
        path_length(a + b) == path_length(a) + manhattan_spec(a.last(), b[0]) + path_length(b),
    decreases b.len(),
{
    if b.len() == 1 {
        assert(a + b =~= a.push(b[0]));
        lemma_path_length_push(a, b[0]);
    } else {
        let c = b.drop_last();
        assert((a + b).drop_last() =~= a + c);
        lemma_path_length_concat(a, c);
        assert((a + b)[(a + b).len() - 2] == c.last());
        assert(b.drop_last() =~= c);
    }
}

/// A polyline's length splits at any corner.
pub proof fn lemma_path_length_split(s: Seq<Point>, k: int)
    requires
        0 <= k < s.len(),
    ensures
        path_length(s) == path_length(s.take(k + 1)) + path_length(s.skip(k)),
{
    if k + 1 == s.len() {
        assert(s.take(k + 1) =~= s);
        assert(s.skip(k).len() == 1);
    } else {
        assert(s =~= s.take(k + 1) + s.skip(k + 1));
        lemma_path_length_concat(s.take(k + 1), s.skip(k + 1));
        assert(s.skip(k) =~= seq![s[k]] + s.skip(k + 1));
        lemma_path_length_concat(seq![s[k]], s.skip(k + 1));
    }
}

/// A polyline is at least as long as the Manhattan distance between its ends.
pub proof fn lemma_path_length_ends(s: Seq<Point>)
    requires
        s.len() >= 1,
    ensures
        manhattan_spec(s[0], s.last()) <= path_length(s),
    decreases s.len(),
{
    if s.len() > 1 {
        lemma_path_length_ends(s.drop_last());
        assert(s.drop_last()[0] == s[0]);
    }
}

/// A point on a stretch splits its length.
pub proof fn lemma_on_between_length(p: Point, q: Point, z: Point)
    requires
        on_between(p, q, z),
    ensures
        manhattan_spec(p, z) + manhattan_spec(z, q) == manhattan_spec(p, q),
{
}

/// Removing an inner corner never makes a polyline longer.
pub proof fn lemma_path_length_remove(s: Seq<Point>, i: int)
    requires
        1 <= i < s.len() - 1,
    ensures
        path_length(s.remove(i)) <= path_length(s),
{
    assert(s.remove(i) =~= s.take(i) + s.skip(i + 1));
    lemma_path_length_concat(s.take(i), s.skip(i + 1));
    assert(s =~= s.take(i) + s.skip(i));
    lemma_path_length_concat(s.take(i), s.skip(i));
    assert(s.skip(i) =~= seq![s[i]] + s.skip(i + 1));
    lemma_path_length_concat(seq![s[i]], s.skip(i + 1));
}

/// Reversal keeps the length.
pub proof fn lemma_path_length_reverse(s: Seq<Point>)
    ensures
        path_length(s.reverse()) == path_length(s),
    decreases s.len(),
{
    if s.len() >= 2 {
        let t = s.drop_last();
        lemma_path_length_reverse(t);
        assert(s.reverse() =~= seq![s.last()] + t.reverse());
        lemma_path_length_concat(seq![s.last()], t.reverse());
        assert(t.reverse()[0] == t.last());
    } else if s.len() == 1 {
        assert(s.reverse().len() == 1);
    }
}

/// Replacing the corners `i + 1 ..= j` by a detour swaps the length of the piece
/// from corner `i` to corner `j + 1` for that of the detour, so a detour that is
/// no longer than the piece never makes the path longer.
pub proof fn lemma_path_length_splice(c: Seq<Point>, i: int, j: int, mid: Seq<Point>)
    requires
        0 <= i < j,
        j + 1 < c.len(),
        mid.len() >= 1,
    ensures
        manhattan_spec(c[i], mid[0]) + path_length(mid) + manhattan_spec(mid.last(), c[j + 1])
            <= path_length(c.subrange(i, j + 2)) ==> path_length(spliced(c, i, j, mid)) <= path_length(c),
        path_length(spliced(c, i, j, mid)) == path_length(c) - path_length(c.subrange(i, j + 2)) + manhattan_spec(
            c[i],
            mid[0],
        ) + path_length(mid) + manhattan_spec(mid.last(), c[j + 1]),
{
    let head = c.subrange(0, i + 1);
    let tail = c.subrange(j + 1, c.len() as int);
    assert(spliced(c, i, j, mid) == head + mid + tail);
    lemma_path_length_concat(head, mid);
    lemma_path_length_concat(head + mid, tail);
    assert((head + mid).last() == mid.last());
    lemma_path_length_split(c, i);
    assert(c.take(i + 1) =~= head);
    let rest = c.skip(i);
    lemma_path_length_split(rest, j + 1 - i);
    assert(rest.take(j + 2 - i) =~= c.subrange(i, j + 2));
    assert(rest.skip(j + 1 - i) =~= tail);
}

/// Removing the middle one of three collinear corners keeps the path covered.
proof fn lemma_remove_collinear(c: Seq<Point>, s: Seq<Point>, i: int)
    requires
        1 <= i < c.len() - 1,
        collinear3(c[i - 1], c[i], c[i + 1]),
        covered_by(c, s),
        corners_from(c, s),
    ensures
        covered_by(c.remove(i), s),
        corners_from(c.remove(i), s),
        rectilinear(c) ==> rectilinear(c.remove(i)),
        same_ends(c.remove(i), c),
        c.remove(i).len() == c.len() - 1,
{
    reveal(covered_by);
    reveal(corners_from);
    let n = c.remove(i);
    assert forall|k: int| 0 <= k < n.len() implies s.contains(#[trigger] n[k]) by {
        if k < i {
            assert(n[k] == c[k]);
            assert(c.contains(c[k]));
        } else {
            assert(n[k] == c[k + 1]);
            assert(s.contains(c[k + 1]));
        }
    }
    assert forall|k: int, z: Point|
        0 <= k < n.len() - 1 && #[trigger] on_between(n[k], n[k + 1], z) implies on_path(s, z) by {
        if k < i - 1 {
            assert(on_between(c[k], c[k + 1], z));
        } else if k == i - 1 {
            lemma_collinear_union(c[i - 1], c[i], c[i + 1], z);
            if on_between(c[i - 1], c[i], z) {
                assert(on_between(c[k], c[k + 1], z));
            } else {
                assert(on_between(c[k + 1], c[k + 1 + 1], z));
            }
        } else {
            assert(on_between(c[k + 1], c[k + 1 + 1], z));
        }
    }
    if rectilinear(c) {
        assert forall|k: int| 0 <= k < n.len() - 1 implies #[trigger] aligned_at(n, k) by {
            if k < i - 1 {
                assert(aligned_at(c, k));
            } else if k > i - 1 {
                assert(aligned_at(c, k + 1));
            }
        }
    }
}

/// A path covers itself and takes its corners from itself.
proof fn lemma_covered_refl(s: Seq<Point>)
    ensures
        covered_by(s, s),
        corners_from(s, s),
{
    reveal(covered_by);
    reveal(corners_from);
    assert forall|k: int| 0 <= k < s.len() implies s.contains(#[trigger] s[k]) by {}
    assert forall|k: int, z: Point|
        0 <= k < s.len() - 1 && #[trigger] on_between(s[k], s[k + 1], z) implies on_path(s, z) by {}
}

/// Coverage is transitive.
proof fn lemma_covered_trans(r: Seq<Point>, s: Seq<Point>, t: Seq<Point>)
    requires
        covered_by(r, s),
        covered_by(s, t),
    ensures
        covered_by(r, t),
{
    reveal(covered_by);
    assert forall|k: int, z: Point|
        0 <= k < r.len() - 1 && #[trigger] on_between(r[k], r[k + 1], z) implies on_path(t, z) by {
        assert(on_path(s, z));
        let j = choose|j: int| 0 <= j < s.len() - 1 && #[trigger] on_between(s[j], s[j + 1], z);
        assert(on_between(s[j], s[j + 1], z));
    }
}

/// Taking corners from corners is transitive.
proof fn lemma_corners_trans(r: Seq<Point>, s: Seq<Point>, t: Seq<Point>)
    requires
        corners_from(r, s),
        corners_from(s, t),
    ensures
        corners_from(r, t),
{
    reveal(corners_from);
    assert forall|k: int| 0 <= k < r.len() implies t.contains(#[trigger] r[k]) by {
        assert(s.contains(r[k]));
        let j = choose|j: int| 0 <= j < s.len() && s[j] == r[k];
        assert(t.contains(s[j]));
    }
}

/// Why [`validate_path`] rejected a path.
#[derive(Clone, Copy, PartialEq, Eq, Structural, Debug)]
pub enum PathError {
    /// The path is empty or does not start at `a`.
    WrongStart,
    /// The path does not end at `b`.
    WrongEnd,
    /// A corner lies outside the bounds.
    OutsideBounds {
        /// Position of the corner in the path.
        index: usize,
        /// The corner.
        corner: Point,
    },
    /// A single-corner path sits on an obstacle.
    OnObstacle {
        /// The corner.
        corner: Point,
    },
    /// Two consecutive corners coincide.
    ZeroLength {
        /// Position of the first of the two corners.
        index: usize,
        /// The corner.
        corner: Point,
    },
    /// Two consecutive corners differ in both coordinates.
    Diagonal {
        /// Start of the stretch.
        from: Point,
        /// End of the stretch.
        to: Point,
    },
    /// Two consecutive stretches have the same orientation.
    Collinear {
        /// Position of the corner between them.
        index: usize,
    },
    /// A stretch touches an obstacle or leaves the bounds.
    Blocked {
        /// Start of the stretch.
        from: Point,
        /// End of the stretch.
        to: Point,
    },
}

/// The message that goes with each kind of rejection.
pub open spec fn path_error_text(e: PathError) -> Seq<char> {
    match e {
        PathError::WrongStart => "path does not start at the start point"@,
        PathError::WrongEnd => "path does not end at the target point"@,
        PathError::OutsideBounds { .. } => "a corner is outside the bounds"@,
        PathError::OnObstacle { .. } => "the single corner is on an obstacle"@,
        PathError::ZeroLength { .. } => "zero-length segment"@,
        PathError::Diagonal { .. } => "diagonal segment"@,
        PathError::Collinear { .. } => "collinear consecutive segments"@,
        PathError::Blocked { .. } => "segment touches an obstacle or leaves the bounds"@,
    }
}

impl PathError {
    /// A short description of the rejection, for messages.
    pub fn describe(&self) -> (r: &'static str)
        ensures
            r@ == path_error_text(*self),
    {
        match self {
            PathError::WrongStart => "path does not start at the start point",
            PathError::WrongEnd => "path does not end at the target point",
            PathError::OutsideBounds { .. } => "a corner is outside the bounds",
            PathError::OnObstacle { .. } => "the single corner is on an obstacle",
            PathError::ZeroLength { .. } => "zero-length segment",
            PathError::Diagonal { .. } => "diagonal segment",
            PathError::Collinear { .. } => "collinear consecutive segments",
            PathError::Blocked { .. } => "segment touches an obstacle or leaves the bounds",
        }
    }
}

/// The stretches before `n` are non-empty, axis-aligned, alternate orientation and are free.
pub open spec fn valid_prefix(m: ObstacleModel, path: Seq<Point>, n: int) -> bool {
    &&& forall|i: int| 0 <= i < n ==> #[trigger] stretch_valid(m, path, i)
    &&& forall|i: int| 1 <= i < n ==> #[trigger] alternates_at(path, i)
}

/// The path is non-empty, starts at `a` and ends at `b`.
pub open spec fn ends_match(a: Point, b: Point, path: Seq<Point>) -> bool {
    path.len() >= 1 && path[0] == a && path.last() == b
}

/// The path passes the checks on its ends and corners: it starts at `a`,
/// ends at `b` and every corner lies inside the bounds.
pub open spec fn corners_checked(m: ObstacleModel, a: Point, b: Point, path: Seq<Point>) -> bool {
    &&& ends_match(a, b, path)
    &&& forall|j: int| 0 <= j < path.len() ==> m.bounds.contains(#[trigger] path[j])
}

/// Checks that `path` is a valid rectilinear route from `a` to `b`:
/// endpoints match, consecutive corners differ in exactly one coordinate, all
/// corners lie inside the bounds and no segment touches an obstacle.
pub fn validate_path(obstacles: &ObstacleSet, a: Point, b: Point, path: &[Point]) -> (r: Result<
    (),
    PathError,
>)
    ensures
        r is Ok <==> valid_path(obstacles@, a, b, path@),
        r == Err::<(), PathError>(PathError::WrongStart) <==> (path@.len() == 0 || path@[0] != a),
        r == Err::<(), PathError>(PathError::WrongEnd) <==> (path@.len() > 0 && path@[0] == a
            && path@.last() != b),
        r matches Err(PathError::OutsideBounds { index, corner }) ==> ends_match(a, b, path@)
            && index < path@.len() && path@[index as int] == corner && !obstacles@.bounds.contains(corner)
            && forall|j: int| 0 <= j < index ==> obstacles@.bounds.contains(#[trigger] path@[j]),
        r matches Err(PathError::OnObstacle { corner }) ==> corners_checked(obstacles@, a, b, path@)
            && path@.len() == 1 && corner == a && !obstacles@.free_point(a),
        r matches Err(PathError::ZeroLength { index, corner }) ==> corners_checked(obstacles@, a, b, path@)
            && index + 1 < path@.len() && valid_prefix(obstacles@, path@, index as int)
            && path@[index as int] == corner && path@[index + 1] == corner,
        r matches Err(PathError::Diagonal { from, to }) ==> corners_checked(obstacles@, a, b, path@)
            && exists|k: int| #![trigger path@[k]] 0 <= k < path@.len() - 1 && valid_prefix(obstacles@, path@, k)
                && path@[k] == from && path@[k + 1] == to && from != to && !axis_aligned(from, to),
        r matches Err(PathError::Collinear { index }) ==> corners_checked(obstacles@, a, b, path@)
            && 1 <= index < path@.len() - 1 && valid_prefix(obstacles@, path@, index as int)
            && path@[index as int] != path@[index + 1] && axis_aligned(path@[index as int], path@[index + 1])
            && !alternates_at(path@, index as int),
        r matches Err(PathError::Blocked { from, to }) ==> corners_checked(obstacles@, a, b, path@)
            && exists|k: int| #![trigger path@[k]] 0 <= k < path@.len() - 1 && valid_prefix(obstacles@, path@, k)
                && path@[k] == from && path@[k + 1] == to && from != to && axis_aligned(from, to)
                && (k > 0 ==> alternates_at(path@, k)) && !obstacles@.free_segment(seg_of(from, to)),
{
    let ghost m = obstacles@;
    let ghost s = path@;
    if path.len() == 0 || path[0] != a {
        assert(!valid_path(m, a, b, s)) by {
            reveal(valid_path);
        }
        return Err(PathError::WrongStart);
    }
    if path[path.len() - 1] != b {
        assert(!valid_path(m, a, b, s)) by {
            reveal(valid_path);
        }
        return Err(PathError::WrongEnd);
    }
    let bounds = obstacles.bounds();
    let mut i: usize = 0;
    let mut outside: Option<usize> = None;
    while i < path.len()
        invariant
            s == path@,
            m == obstacles@,
            bounds == m.bounds,
            i <= s.len(),
            forall|j: int| 0 <= j < i ==> bounds.contains(#[trigger] s[j]),
            outside is Some ==> outside->0 == i && i < s.len() && !bounds.contains(s[i as int]),
        ensures
            outside is None ==> i == s.len(),
        decreases s.len() - i,
    {
        if !bounds.contains(path[i]) {
            outside = Some(i);
            break;
        }
        i = i + 1;
    }
    if let Some(j) = outside {
        assert(!valid_path(m, a, b, s)) by {
            reveal(valid_path);
        }
        return Err(PathError::OutsideBounds { index: j, corner: path[j] });
    }
    if path.len() == 1 {
        return if obstacles.is_free_point(a) {
            assert(valid_path(m, a, b, s)) by {
                reveal(valid_path);
            }
            Ok(())
        } else {
            assert(!valid_path(m, a, b, s)) by {
                reveal(valid_path);
            }
            Err(PathError::OnObstacle { corner: a })
        };
    }
    let mut prev: Option<Orientation> = None;
    let mut k: usize = 0;
    let mut failure: Option<PathError> = None;
    while k < path.len() - 1
        invariant_except_break
            failure is None,
            k == 0 <==> prev is None,
            k > 0 ==> prev == Some(seg_of(s[k - 1], s[k as int]).orientation),
        invariant
            s == path@,
            m == obstacles@,
            s.len() >= 2,
            k + 1 <= s.len(),
            valid_prefix(m, s, k as int),
            s[0] == a,
            s.last() == b,
            forall|j: int| 0 <= j < s.len() ==> m.bounds.contains(#[trigger] s[j]),
        ensures
            failure is None ==> k + 1 == s.len(),
            failure is Some ==> !valid_path(m, a, b, s) && k + 1 < s.len(),
            failure matches Some(PathError::ZeroLength { index, corner }) ==> index == k
                && s[k as int] == corner && s[k + 1] == corner,
            failure matches Some(PathError::Diagonal { from, to }) ==> from == s[k as int] && to == s[k + 1]
                && from != to && !axis_aligned(from, to),
            failure matches Some(PathError::Collinear { index }) ==> index == k && k >= 1
                && s[k as int] != s[k + 1] && axis_aligned(s[k as int], s[k + 1]) && !alternates_at(s, k as int),
            failure matches Some(PathError::Blocked { from, to }) ==> from == s[k as int] && to == s[k + 1]
                && from != to && axis_aligned(from, to) && (k > 0 ==> alternates_at(s, k as int))
                && !m.free_segment(seg_of(from, to)),
            failure is Some ==> failure->0 is ZeroLength || failure->0 is Diagonal || failure->0 is Collinear || failure->0 is Blocked,
        decreases s.len() - k,
    {
        let p = path[k];
        let q = path[k + 1];
        if p == q {
            failure = Some(PathError::ZeroLength { index: k, corner: p });
            assert(!valid_path(m, a, b, s)) by {
                reveal(valid_path);
                assert(!stretch_valid(m, s, k as int));
            }
            break;
        }
        let seg = match Segment::between(p, q) {
            Some(seg) => seg,
            None => {
                failure = Some(PathError::Diagonal { from: p, to: q });
                assert(!valid_path(m, a, b, s)) by {
                    reveal(valid_path);
                    assert(!stretch_valid(m, s, k as int));
                }
                break;
            },
        };
        if let Some(o) = prev {
            if o == seg.orientation {
                failure = Some(PathError::Collinear { index: k });
                assert(!valid_path(m, a, b, s)) by {
                    reveal(valid_path);
                    assert(!alternates_at(s, k as int));
                }
                break;
            }
        }
        prev = Some(seg.orientation);
        if !obstacles.is_free_segment(&seg) {
            failure = Some(PathError::Blocked { from: p, to: q });
            assert(!valid_path(m, a, b, s)) by {
                reveal(valid_path);
                assert(!stretch_valid(m, s, k as int));
            }
            break;
        }
        assert(stretch_valid(m, s, k as int));
        assert(k > 0 ==> alternates_at(s, k as int));
        k = k + 1;
    }
    match failure {
        Some(e) => Err(e),
        None => {
            assert(valid_path(m, a, b, s)) by {
                reveal(valid_path);
                assert(s[0] == a);
                assert(s.last() == b);
            }
            Ok(())
        },
    }
}

/// A valid path is a clean, rectilinear, free chain from `a` to `b` whose corners are free.
pub proof fn lemma_valid_path_chain(m: ObstacleModel, a: Point, b: Point, path: Seq<Point>)
    requires
        m.wf(),
        valid_path(m, a, b, path),
    ensures
        path.len() >= 1,
        path[0] == a,
        path.last() == b,
        clean(path),
        rectilinear(path),
        chain_free(m, path),
        corners_free(m, path),
{
    reveal(valid_path);
    assert forall|i: int| 0 <= i < path.len() - 1 implies #[trigger] free_at(m, path, i) by {
        assert(stretch_valid(m, path, i));
        lemma_free_segment_iff(m, path[i], path[i + 1]);
    }
    assert forall|i: int| 0 <= i < path.len() implies m.free_point(#[trigger] path[i]) by {
        if path.len() > 1 {
            if i < path.len() - 1 {
                assert(free_at(m, path, i));
                assert(on_between(path[i], path[i + 1], path[i]));
            } else {
                assert(free_at(m, path, i - 1));
                assert(on_between(path[i - 1], path[i], path[i]));
            }
        }
    }
    assert forall|i: int| 1 <= i < path.len() - 1 implies #[trigger] turn_at(path, i) by {
        assert(alternates_at(path, i));
        assert(stretch_valid(m, path, i - 1));
        assert(stretch_valid(m, path, i));
    }
    assert forall|i: int| 0 <= i < path.len() - 1 implies #[trigger] distinct_at(path, i) by {
        assert(stretch_valid(m, path, i));
    }
    assert forall|i: int| 0 <= i < path.len() - 1 implies #[trigger] aligned_at(path, i) by {
        assert(stretch_valid(m, path, i));
    }
}

/// A clean, rectilinear, free chain from `a` to `b` with free corners is a valid path.
pub proof fn lemma_chain_valid_path(m: ObstacleModel, a: Point, b: Point, path: Seq<Point>)
    requires
        m.wf(),
        path.len() >= 1,
        path[0] == a,
        path.last() == b,
        clean(path),
        rectilinear(path),
        chain_free(m, path),
        corners_free(m, path),
    ensures
        valid_path(m, a, b, path),
{
    reveal(valid_path);
    assert forall|i: int| 0 <= i < path.len() - 1 implies #[trigger] stretch_valid(m, path, i) by {
        assert(free_at(m, path, i));
        assert(distinct_at(path, i));
        lemma_free_segment_iff(m, path[i], path[i + 1]);
    }
    assert forall|i: int| 1 <= i < path.len() - 1 implies #[trigger] alternates_at(path, i) by {
        assert(turn_at(path, i));
        assert(distinct_at(path, i - 1));
        assert(distinct_at(path, i));
        assert(aligned_at(path, i - 1));
        assert(aligned_at(path, i));
    }
    assert forall|i: int| 0 <= i < path.len() implies m.bounds.contains(#[trigger] path[i]) by {
        assert(m.free_point(path[i]));
    }
    assert(path.len() == 1 ==> m.free_point(path[0]));
}

/// Escape lines are maximal: two escape lines of one orientation on one row
/// or column that overlap are the same line.
pub proof fn lemma_escape_line_unique(m: ObstacleModel, p: Point, q: Point, o: Orientation, l1: Segment, l2: Segment)
    requires
        m.is_escape_line(p, o, l1),
        m.is_escape_line(q, o, l2),
        l1.overlaps_collinear(&l2),
    ensures
        l1 == l2,
{
    reveal(ObstacleModel::free_segment);
    if l1.to < l2.to {
        let z = Point::from_along_across(o, (l1.to + 1) as Coord, l1.fixed);
        lemma_from_along_across(o, (l1.to + 1) as Coord, l1.fixed);
        assert(l1.to < m.bounds.hi(o)) by {
            assert(m.bounds.contains(l2.end()));
            crate::geometry::lemma_along_across(o, l2.end());
        }
        assert(l2.contains(z));
        lemma_free_segment_contains(m, l2, z);
    } else if l2.to < l1.to {
        let z = Point::from_along_across(o, (l2.to + 1) as Coord, l2.fixed);
        lemma_from_along_across(o, (l2.to + 1) as Coord, l2.fixed);
        assert(l2.to < m.bounds.hi(o)) by {
            assert(m.bounds.contains(l1.end()));
            crate::geometry::lemma_along_across(o, l1.end());
        }
        assert(l1.contains(z));
        lemma_free_segment_contains(m, l1, z);
    }
    if l1.from < l2.from {
        let z = Point::from_along_across(o, (l2.from - 1) as Coord, l2.fixed);
        lemma_from_along_across(o, (l2.from - 1) as Coord, l2.fixed);
        assert(l2.from > m.bounds.lo(o)) by {
            assert(m.bounds.contains(l1.start()));
            crate::geometry::lemma_along_across(o, l1.start());
        }
        assert(l1.contains(z));
        lemma_free_segment_contains(m, l1, z);
    } else if l2.from < l1.from {
        let z = Point::from_along_across(o, (l1.from - 1) as Coord, l1.fixed);
        lemma_from_along_across(o, (l1.from - 1) as Coord, l1.fixed);
        assert(l1.from > m.bounds.lo(o)) by {
            assert(m.bounds.contains(l2.start()));
            crate::geometry::lemma_along_across(o, l2.start());
        }
        assert(l2.contains(z));
        lemma_free_segment_contains(m, l2, z);
    }
}

/// A point contained in a free segment is free.
pub proof fn lemma_free_segment_contains(m: ObstacleModel, s: Segment, z: Point)
    requires
        m.free_segment(s),
        s.contains(z),
    ensures
        m.free_point(z),
{
    reveal(ObstacleModel::free_segment);
    let o = s.orientation;
    let perp = o.perpendicular();
    crate::geometry::lemma_along_across(o, z);
    lemma_from_along_across(o, s.from, s.fixed);
    lemma_from_along_across(o, s.to, s.fixed);
    if m.on_obstacle(z) {
        if m.blocks_on(o, z) {
            let i = choose|i: int|
                0 <= i < m.spans(o).len() && #[trigger] span_segment(o, m.spans(o)[i]).contains(z);
            assert(span_segment(o, m.spans(o)[i]).overlaps_collinear(&s));
            assert(m.collinear_hit(s));
        } else {
            assert(m.blocks_on(perp, z)) by {
                if o == Orientation::Horizontal {
                } else {
                }
            }
            let i = choose|i: int|
                0 <= i < m.spans(perp).len() && #[trigger] span_segment(
                    perp,
                    m.spans(perp)[i],
                ).contains(z);
            assert(span_segment(perp, m.spans(perp)[i]).crossing(&s) is Some);
            assert(m.cross_hit(s));
        }
    }
}

/// Two points of a free segment have only free points between them.
pub proof fn lemma_free_segment_between(m: ObstacleModel, s: Segment, p: Point, q: Point)
    requires
        m.free_segment(s),
        s.contains(p),
        s.contains(q),
    ensures
        free_between(m, p, q),
{
    crate::geometry::lemma_along_across(s.orientation, p);
    crate::geometry::lemma_along_across(s.orientation, q);
    assert forall|z: Point| #[trigger] on_between(p, q, z) implies m.free_point(z) by {
        crate::geometry::lemma_along_across(s.orientation, z);
        assert(s.contains(z));
        lemma_free_segment_contains(m, s, z);
    }
}

/// A free stretch is free in either direction.
pub proof fn lemma_free_between_sym(m: ObstacleModel, p: Point, q: Point)
    requires
        free_between(m, p, q),
    ensures
        free_between(m, q, p),
{
    assert forall|z: Point| #[trigger] on_between(q, p, z) implies m.free_point(z) by {
        assert(on_between(p, q, z));
    }
}

/// Points between two points of a free stretch are free.
pub proof fn lemma_free_between_sub(m: ObstacleModel, p: Point, q: Point, u: Point, v: Point)
    requires
        free_between(m, p, q),
        on_between(p, q, u),
        on_between(p, q, v),
    ensures
        free_between(m, u, v),
{
    assert forall|z: Point| #[trigger] on_between(u, v, z) implies m.free_point(z) by {
        assert(on_between(p, q, z));
    }
}

/// The segment between corners `i` and `i + 1` of a rectilinear path.
fn segment_at(path: &Vec<Point>, i: usize) -> (r: Segment)
    requires
        i + 1 < path@.len(),
        aligned_at(path@, i as int),
    ensures
        r == seg_of(path@[i as int], path@[i + 1]),
        r.from <= r.to,
        r.contains(path@[i as int]),
        r.contains(path@[i + 1]),
        forall|z: Point| r.contains(z) <==> on_between(path@[i as int], path@[i + 1], z),
{
    let n = path.len();
    assert(i + 1 < n);
    let r = Segment::between(path[i], path[i + 1]);
    match r {
        Some(s) => {
            proof {
                assert forall|z: Point| s.contains(z) <==> on_between(path@[i as int], path@[i + 1], z) by {
                    crate::geometry::lemma_along_across(s.orientation, z);
                }
            }
            s
        },
        None => {
            proof {
                assert(false);
            }
            Segment::horizontal(0, 0, 0)
        },
    }
}

/// `old` with the corners `i + 1 ..= j` replaced by `mid`.
pub open spec fn spliced(old: Seq<Point>, i: int, j: int, mid: Seq<Point>) -> Seq<Point> {
    old.subrange(0, i + 1) + mid + old.subrange(j + 1, old.len() as int)
}

/// Replaces the corners `i + 1 ..= j` of the path by `mid`.
fn splice_points(path: &mut Vec<Point>, i: usize, j: usize, mid: Vec<Point>)
    requires
        i < j < old(path)@.len(),
    ensures
        final(path)@ == spliced(old(path)@, i as int, j as int, mid@),
{
    let n = path.len();
    assert(j < n);
    let mut r: Vec<Point> = Vec::new();
    let mut k: usize = 0;
    while k <= i
        invariant
            k <= i + 1,
            i < j < path@.len(),
            r@ == path@.subrange(0, k as int),
        decreases i + 1 - k,
    {
        r.push(path[k]);
        k = k + 1;
        assert(r@ =~= path@.subrange(0, k as int));
    }
    let mut t: usize = 0;
    while t < mid.len()
        invariant
            t <= mid@.len(),
            i < j < path@.len(),
            r@ == path@.subrange(0, i + 1) + mid@.subrange(0, t as int),
        decreases mid@.len() - t,
    {
        r.push(mid[t]);
        t = t + 1;
        assert(r@ =~= path@.subrange(0, i + 1) + mid@.subrange(0, t as int));
    }
    assert(mid@.subrange(0, mid@.len() as int) =~= mid@);
    let mut k: usize = j + 1;
    while k < path.len()
        invariant
            j + 1 <= k <= path@.len(),
            i < j < path@.len(),
            r@ == path@.subrange(0, i + 1) + mid@ + path@.subrange(j + 1, k as int),
        decreases path@.len() - k,
    {
        r.push(path[k]);
        k = k + 1;
        assert(r@ =~= path@.subrange(0, i + 1) + mid@ + path@.subrange(j + 1, k as int));
    }
    *path = r;
}

/// Splicing a free, rectilinear detour of free corners into a path keeps the
/// path rectilinear, its corners free and (if it was) its stretches free.
proof fn lemma_splice(m: ObstacleModel, old: Seq<Point>, i: int, j: int, mid: Seq<Point>)
    requires
        0 <= i < j < old.len(),
        mid.len() >= 1,
        rectilinear(old),
        corners_free(m, old),
        corners_free(m, mid),
        rectilinear(mid),
        axis_aligned(old[i], mid[0]),
        axis_aligned(mid.last(), old[j + 1]) || j + 1 == old.len(),
        j + 1 < old.len(),
        chain_free(m, old) ==> free_between(m, old[i], mid[0]) && chain_free(m, mid)
            && free_between(m, mid.last(), old[j + 1]),
    ensures
        rectilinear(spliced(old, i, j, mid)),
        corners_free(m, spliced(old, i, j, mid)),
        chain_free(m, old) ==> chain_free(m, spliced(old, i, j, mid)),
        same_ends(spliced(old, i, j, mid), old),
        spliced(old, i, j, mid).len() == old.len() - (j - i) + mid.len(),
{
    let n = spliced(old, i, j, mid);
    let a = i + 1;
    let b = i + 1 + mid.len();
    assert(n.len() == old.len() - (j - i) + mid.len());
    assert forall|k: int| 0 <= k < n.len() implies n[k] == (if k < a {
        old[k]
    } else if k < b {
        mid[k - a]
    } else {
        old[k - b + j + 1]
    }) by {}
    assert forall|k: int| 0 <= k < n.len() - 1 implies #[trigger] aligned_at(n, k) by {
        if k < i {
            assert(aligned_at(old, k));
        } else if k == i {
        } else if k < b - 1 {
            assert(aligned_at(mid, k - a));
        } else if k == b - 1 {
        } else {
            assert(aligned_at(old, k - b + j + 1));
        }
    }
    assert forall|k: int| 0 <= k < n.len() implies m.free_point(#[trigger] n[k]) by {
        if k < a {
            assert(m.free_point(old[k]));
        } else if k < b {
            assert(m.free_point(mid[k - a]));
        } else {
            assert(m.free_point(old[k - b + j + 1]));
        }
    }
    if chain_free(m, old) {
        assert forall|k: int| 0 <= k < n.len() - 1 implies #[trigger] free_at(m, n, k) by {
            if k < i {
                assert(free_at(m, old, k));
            } else if k == i {
            } else if k < b - 1 {
                assert(free_at(m, mid, k - a));
            } else if k == b - 1 {
            } else {
                assert(free_at(m, old, k - b + j + 1));
            }
        }
    }
}

/// Free corners stay free when corners are only taken from them.
pub(crate) proof fn lemma_corners_from_free(m: ObstacleModel, r: Seq<Point>, s: Seq<Point>)
    requires
        corners_from(r, s),
        corners_free(m, s),
    ensures
        corners_free(m, r),
{
    reveal(corners_from);
    assert forall|k: int| 0 <= k < r.len() implies m.free_point(#[trigger] r[k]) by {
        assert(s.contains(r[k]));
        let t = choose|t: int| 0 <= t < s.len() && s[t] == r[k];
        assert(m.free_point(s[t]));
    }
}

/// Same ends is transitive.
pub(crate) proof fn lemma_same_ends_trans(r: Seq<Point>, s: Seq<Point>, t: Seq<Point>)
    requires
        same_ends(r, s),
        same_ends(s, t),
    ensures
        same_ends(r, t),
{
}

/// A point on a stretch is aligned with both of its ends.
proof fn lemma_on_between_aligned(p: Point, q: Point, z: Point)
    requires
        on_between(p, q, z),
    ensures
        axis_aligned(p, z),
        axis_aligned(z, q),
        on_between(p, q, p),
        on_between(p, q, q),
{
}

/// Where a crossing of two segments lies.
proof fn lemma_crossing_point(s: Segment, t: Segment)
    requires
        s.crossing(&t) is Some,
    ensures
        s.contains(s.crossing(&t)->0),
        t.contains(s.crossing(&t)->0),
{
    lemma_from_along_across(s.orientation, t.fixed, s.fixed);
    if s.orientation == Orientation::Horizontal {
        assert(t.orientation == Orientation::Vertical);
    } else {
        assert(t.orientation == Orientation::Horizontal);
    }
}

/// Two escape lines of one orientation through one point are the same line.
pub proof fn lemma_escape_line_same(m: ObstacleModel, p: Point, o: Orientation, l1: Segment, l2: Segment)
    requires
        m.is_escape_line(p, o, l1),
        m.is_escape_line(p, o, l2),
    ensures
        l1 == l2,
{
    lemma_escape_line_unique(m, p, p, o, l1, l2);
}

/// An extension shortcut at `(i, j)`: the escape line through corner `i`
/// along stretch `i` crosses stretch `j`, one of the later stretches
/// `i + 3, i + 5, ...` that the improvement tests.
pub open spec fn extension_hit(m: ObstacleModel, s: Seq<Point>, i: int, j: int) -> bool {
    &&& 0 <= i
    &&& i + 3 <= j
    &&& j + 1 < s.len()
    &&& (j - i) % 2 == 1
    &&& exists|e: Segment|
        #[trigger] m.is_escape_line(s[i], seg_of(s[i], s[i + 1]).orientation, e) && e.crossing(
            &seg_of(s[j], s[j + 1]),
        ) is Some
}

/// The path has an extension shortcut.
pub open spec fn has_extension(m: ObstacleModel, s: Seq<Point>) -> bool {
    exists|i: int, j: int| #[trigger] extension_hit(m, s, i, j)
}

/// The extension shortcut at `(i, j)` is the first one the search meets:
/// no earlier stretch `i` has one, nor an earlier `j` for this `i`.
pub open spec fn first_extension_hit(m: ObstacleModel, s: Seq<Point>, i: int, j: int) -> bool {
    &&& extension_hit(m, s, i, j)
    &&& forall|i2: int, j2: int| #[trigger] extension_hit(m, s, i2, j2) ==> i < i2 || (i == i2 && j <= j2)
}

/// Where the escape line through corner `i`, along stretch `i`, crosses stretch `j`.
pub open spec fn extension_point(m: ObstacleModel, s: Seq<Point>, i: int, j: int) -> Point {
    crate::escape::escape_line_of(m, s[i], seg_of(s[i], s[i + 1]).orientation).crossing(&seg_of(s[j], s[j + 1]))->0
}

/// One round of the extension improvement on `s`, which has a shortcut:
/// the corners after `i` up to `j` give way to the crossing point of the first
/// shortcut, and the result is cleaned up.
pub open spec fn extension_round(m: ObstacleModel, s: Seq<Point>) -> Seq<Point> {
    let (i, j) = choose|i: int, j: int| first_extension_hit(m, s, i, j);
    cleanup_spec(spliced(s, i, j, seq![extension_point(m, s, i, j)]))
}

/// What [`improve_extension`] returns: rounds as long as the path has four
/// corners or more and a shortcut, and each round shortens the corner list.
pub open spec fn extension_result(m: ObstacleModel, s: Seq<Point>) -> Seq<Point>
    decreases s.len(),
{
    if s.len() >= 4 && has_extension(m, s) {
        let c = extension_round(m, s);
        if c.len() < s.len() {
            extension_result(m, c)
        } else {
            c
        }
    } else {
        s
    }
}

/// Looks for the first extension shortcut: a stretch `i` whose escape line
/// crosses a later perpendicular stretch `j`.
fn find_extension(obstacles: &ObstacleSet, path: &Vec<Point>) -> (r: Option<(usize, usize, Point)>)
    requires
        rectilinear(path@),
        corners_free(obstacles@, path@),
        path@.len() >= 2,
    ensures
        r is None <==> !has_extension(obstacles@, path@),
        r matches Some((i, j, x)) ==> {
            &&& i + 3 <= j
            &&& j + 1 < path@.len()
            &&& obstacles@.free_point(x)
            &&& free_between(obstacles@, path@[i as int], x)
            &&& on_between(path@[j as int], path@[j + 1], x)
            &&& extension_hit(obstacles@, path@, i as int, j as int)
            &&& forall|i2: int, j2: int|
                #[trigger] extension_hit(obstacles@, path@, i2, j2) ==> i < i2 || (i == i2 && j <= j2)
            &&& x == extension_point(obstacles@, path@, i as int, j as int)
        },
{
    let n = path.len();
    let ghost m = obstacles@;
    let mut i: usize = 0;
    while i < n - 1
        invariant
            n == path@.len(),
            n >= 2,
            m == obstacles@,
            rectilinear(path@),
            corners_free(m, path@),
            forall|i2: int, j2: int| 0 <= i2 < i ==> !#[trigger] extension_hit(m, path@, i2, j2),
        decreases n - i,
    {
        assert(aligned_at(path@, i as int));
        let seg = segment_at(path, i);
        assert(m.free_point(path@[i as int]));
        let ext = obstacles.escape_line(path[i], seg.orientation);
        let mut j: usize = if n - i > 3 {
            i + 3
        } else {
            n
        };
        while j < n - 1
            invariant
                n == path@.len(),
                n >= 2,
                i < n - 1,
                m == obstacles@,
                rectilinear(path@),
                m.is_escape_line(path@[i as int], seg.orientation, ext),
                i + 3 <= j || j == n,
                j < n ==> (j - i) % 2 == 1,
                seg == seg_of(path@[i as int], path@[i + 1]),
                forall|i2: int, j2: int| 0 <= i2 < i ==> !#[trigger] extension_hit(m, path@, i2, j2),
                forall|j2: int| j2 < j ==> !#[trigger] extension_hit(m, path@, i as int, j2),
            decreases n - j,
        {
            assert(aligned_at(path@, j as int));
            let later = segment_at(path, j);
            if let Some(x) = ext.crossing(&later) {
                proof {
                    lemma_crossing_point(ext, later);
                    lemma_free_segment_contains(m, ext, x);
                    crate::geometry::lemma_along_across(ext.orientation, path@[i as int]);
                    lemma_free_segment_between(m, ext, path@[i as int], x);
                    assert(extension_hit(m, path@, i as int, j as int));
                    let o = seg_of(path@[i as int], path@[i + 1]).orientation;
                    assert(m.is_escape_line(path@[i as int], o, crate::escape::escape_line_of(m, path@[i as int], o)));
                    lemma_escape_line_same(m, path@[i as int], o, ext, crate::escape::escape_line_of(m, path@[i as int], o));
                }
                return Some((i, j, x));
            }
            proof {
                assert forall|j2: int| j2 < j + 2 implies !#[trigger] extension_hit(m, path@, i as int, j2) by {
                    if j2 == j && extension_hit(m, path@, i as int, j2) {
                        let e = choose|e: Segment|
                            #[trigger] m.is_escape_line(path@[i as int], seg_of(path@[i as int], path@[i + 1]).orientation, e)
                                && e.crossing(&seg_of(path@[j as int], path@[j + 1])) is Some;
                        lemma_escape_line_same(m, path@[i as int], seg.orientation, e, ext);
                    }
                }
            }
            j = j + 2;
        }
        proof {
            assert forall|i2: int, j2: int| 0 <= i2 < i + 1 implies !#[trigger] extension_hit(m, path@, i2, j2) by {
                if i2 == i {
                    assert(!extension_hit(m, path@, i as int, j2));
                }
            }
        }
        i = i + 1;
    }
    proof {
        assert(!has_extension(m, path@)) by {
            if has_extension(m, path@) {
                let (i2, j2) = choose|i2: int, j2: int| #[trigger] extension_hit(m, path@, i2, j2);
                assert(!extension_hit(m, path@, i2, j2));
            }
        }
    }
    None
}

/// The extension shortcut from corner `i` straight to `x` on stretch `j` is no
/// longer than the detour it replaces.
proof fn lemma_extension_shorter(c: Seq<Point>, i: int, j: int, x: Point)
    requires
        0 <= i < j,
        j + 1 < c.len(),
        on_between(c[j], c[j + 1], x),
    ensures
        path_length(spliced(c, i, j, seq![x])) <= path_length(c),
{
    let inner = c.subrange(i, j + 1);
    assert(c.subrange(i, j + 2) =~= inner.push(c[j + 1]));
    lemma_path_length_push(inner, c[j + 1]);
    lemma_path_length_push(inner, x);
    lemma_path_length_ends(inner.push(x));
    lemma_on_between_length(c[j], c[j + 1], x);
    assert(inner[0] == c[i]);
    assert(inner.last() == c[j]);
    assert(path_length(seq![x]) == 0);
    lemma_path_length_splice(c, i, j, seq![x]);
}

/// The probe shortcut from `q` on stretch `i` to `x` on stretch `j` is no
/// longer than the detour it replaces.
proof fn lemma_probe_shorter(c: Seq<Point>, i: int, j: int, q: Point, x: Point)
    requires
        0 <= i,
        i + 2 <= j,
        j + 1 < c.len(),
        on_between(c[i], c[i + 1], q),
        on_between(c[j], c[j + 1], x),
    ensures
        path_length(spliced(c, i, j, seq![q, x])) <= path_length(c),
{
    let inner = c.subrange(i + 1, j + 1);
    assert(c.subrange(i, j + 2) =~= seq![c[i]] + inner + seq![c[j + 1]]);
    lemma_path_length_concat(seq![c[i]], inner);
    lemma_path_length_concat(seq![c[i]] + inner, seq![c[j + 1]]);
    assert((seq![c[i]] + inner).last() == c[j]);
    assert(inner[0] == c[i + 1]);
    lemma_path_length_concat(seq![q], inner);
    lemma_path_length_concat(seq![q] + inner, seq![x]);
    assert((seq![q] + inner).last() == c[j]);
    lemma_path_length_ends(seq![q] + inner + seq![x]);
    assert((seq![q] + inner + seq![x])[0] == q);
    assert((seq![q] + inner + seq![x]).last() == x);
    lemma_on_between_length(c[i], c[i + 1], q);
    lemma_on_between_length(c[j], c[j + 1], x);
    assert(seq![q, x] =~= seq![q].push(x));
    lemma_path_length_push(seq![q], x);
    lemma_path_length_splice(c, i, j, seq![q, x]);
}

/// A probe splice strictly shortens the path: the replaced stretch first runs
/// from the probe point to the far end of stretch `i` and must come back.
proof fn lemma_probe_strictly_shorter(c: Seq<Point>, i: int, j: int, q: Point, x: Point)
    requires
        0 <= i,
        i + 2 <= j,
        j + 1 < c.len(),
        on_between(c[i], c[i + 1], q),
        on_between(c[j], c[j + 1], x),
        q != c[i + 1],
        (c[i].y == c[i + 1].y && x.x == q.x) || (c[i].x == c[i + 1].x && x.y == q.y),
    ensures
        path_length(spliced(c, i, j, seq![q, x])) < path_length(c),
{
    lemma_probe_shorter(c, i, j, q, x);
    lemma_path_length_splice(c, i, j, seq![q, x]);
    let inner = c.subrange(i + 1, j + 1);
    assert(c.subrange(i, j + 2) =~= seq![c[i]] + inner + seq![c[j + 1]]);
    lemma_path_length_concat(seq![c[i]], inner);
    lemma_path_length_concat(seq![c[i]] + inner, seq![c[j + 1]]);
    assert((seq![c[i]] + inner).last() == c[j]);
    assert(inner[0] == c[i + 1]);
    assert(inner.last() == c[j]);
    lemma_path_length_ends(inner);
    lemma_on_between_length(c[i], c[i + 1], q);
    lemma_on_between_length(c[j], c[j + 1], x);
    assert(seq![q, x] =~= seq![q].push(x));
    lemma_path_length_push(seq![q], x);
}

/// Improvement A (paper Fig. 10 → 11): extend every path segment as far as the
/// obstacles allow; if the extension crosses a later perpendicular segment,
/// cut out everything in between. Returns whether the path changed.
pub fn improve_extension(obstacles: &ObstacleSet, path: &mut Vec<Point>) -> (changed: bool)
    requires
        rectilinear(old(path)@),
        corners_free(obstacles@, old(path)@),
    ensures
        rectilinear(final(path)@),
        corners_free(obstacles@, final(path)@),
        same_ends(final(path)@, old(path)@),
        chain_free(obstacles@, old(path)@) ==> chain_free(obstacles@, final(path)@),
        !changed ==> final(path)@ == old(path)@,
        changed ==> final(path)@.len() < old(path)@.len() && clean(final(path)@),
        path_length(final(path)@) <= path_length(old(path)@),
        changed <==> old(path)@.len() >= 4 && has_extension(obstacles@, old(path)@),
        final(path)@.len() >= 4 ==> !has_extension(obstacles@, final(path)@),
        final(path)@ == extension_result(obstacles@, old(path)@),
{
    let ghost m = obstacles@;
    let ghost s = path@;
    let mut changed = false;
    loop
        invariant
            m == obstacles@,
            s == old(path)@,
            rectilinear(path@),
            corners_free(m, path@),
            same_ends(path@, s),
            chain_free(m, s) ==> chain_free(m, path@),
            !changed ==> path@ == s,
            changed ==> path@.len() < s.len() && clean(path@),
            path_length(path@) <= path_length(s),
            changed ==> s.len() >= 4 && has_extension(m, s),
            extension_result(m, path@) == extension_result(m, s),
        decreases path@.len(),
    {
        if path.len() < 4 {
            return changed;
        }
        match find_extension(obstacles, path) {
            None => {
                return changed;
            },
            Some((i, j, x)) => {
                let ghost c = path@;
                let mut mid: Vec<Point> = Vec::new();
                mid.push(x);
                proof {
                    lemma_on_between_aligned(c[j as int], c[j + 1], x);
                    assert(axis_aligned(c[i as int], x));
                    if chain_free(m, c) {
                        assert(free_at(m, c, j as int));
                        lemma_free_between_sub(m, c[j as int], c[j + 1], x, c[j + 1]);
                    }
                    assert(mid@.last() == x);
                    lemma_splice(m, c, i as int, j as int, mid@);
                    assert(mid@ =~= seq![x]);
                    lemma_extension_shorter(c, i as int, j as int, x);
                }
                splice_points(path, i, j, mid);
                let ghost c2 = path@;
                cleanup(path);
                proof {
                    lemma_corners_from_free(m, path@, c2);
                    if chain_free(m, s) {
                        lemma_covered_free(m, path@, c2);
                    }
                    lemma_same_ends_trans(path@, c2, c);
                    let (i1, j1) = choose|i1: int, j1: int| first_extension_hit(m, c, i1, j1);
                    assert(first_extension_hit(m, c, i as int, j as int));
                    assert(i1 == i && j1 == j);
                    assert(mid@ =~= seq![extension_point(m, c, i as int, j as int)]);
                    assert(path@ == extension_round(m, c));
                }
                changed = true;
            },
        }
    }
}

/// Direction of stretch `i`.
pub open spec fn probe_dir(s: Seq<Point>, i: int) -> Orientation {
    seg_of(s[i], s[i + 1]).orientation
}

/// Running coordinate of the start of stretch `i`.
pub open spec fn probe_start(s: Seq<Point>, i: int) -> int {
    s[i].along(probe_dir(s, i)) as int
}

/// Running coordinate of the far end of stretch `i`.
pub open spec fn probe_end(s: Seq<Point>, i: int) -> int {
    s[i + 1].along(probe_dir(s, i)) as int
}

/// `qa` is a probe position of stretch `i`: from one unit before its far end
/// back to its start.
pub open spec fn probe_position(s: Seq<Point>, i: int, qa: int) -> bool {
    &&& 0 <= i < s.len() - 1
    &&& probe_start(s, i) != probe_end(s, i)
    &&& probe_start(s, i) < probe_end(s, i) ==> probe_start(s, i) <= qa < probe_end(s, i)
    &&& probe_start(s, i) > probe_end(s, i) ==> probe_end(s, i) < qa <= probe_start(s, i)
}

/// The probe point at position `qa` of stretch `i`.
pub open spec fn probe_point(s: Seq<Point>, i: int, qa: int) -> Point {
    Point::from_along_across(probe_dir(s, i), qa as Coord, s[i].across(probe_dir(s, i)))
}

/// A probe shortcut: the perpendicular escape line through the probe point at
/// `qa` on stretch `i` crosses stretch `j`, one of the later parallel
/// stretches `i + 2, i + 4, ...` that the improvement tests.
pub open spec fn probe_hit(m: ObstacleModel, s: Seq<Point>, i: int, qa: int, j: int) -> bool {
    &&& probe_position(s, i, qa)
    &&& i + 2 <= j
    &&& j + 1 < s.len()
    &&& (j - i) % 2 == 0
    &&& exists|e: Segment|
        #[trigger] m.is_escape_line(probe_point(s, i, qa), probe_dir(s, i).perpendicular(), e) && e.crossing(
            &seg_of(s[j], s[j + 1]),
        ) is Some
}

/// How many probe points the search tries before the one at `qa` on stretch `i`.
pub open spec fn probe_rank(s: Seq<Point>, i: int, qa: int) -> int {
    path_length(s.take(i + 1)) + crate::geometry::abs_int(qa - probe_end(s, i)) - 1
}

/// The path has a probe shortcut that a search with this budget reaches.
pub open spec fn has_probe_within(m: ObstacleModel, s: Seq<Point>, budget: int) -> bool {
    exists|i: int, qa: int, j: int| #[trigger] probe_hit(m, s, i, qa, j) && probe_rank(s, i, qa) + 2 <= budget
}

/// The probe shortcut at `(i, qa, j)` through `q` is the first one the search
/// meets, within a budget that goes from `b0` to `b1` on the way.
pub open spec fn first_probe(m: ObstacleModel, s: Seq<Point>, i: int, qa: int, j: int, q: Point, b0: int, b1: int) -> bool {
    &&& probe_hit(m, s, i, qa, j)
    &&& q == probe_point(s, i, qa)
    &&& probe_rank(s, i, qa) + 2 <= b0
    &&& b1 == b0 - probe_rank(s, i, qa) - 1
    &&& forall|i2: int, qa2: int, j2: int|
        #[trigger] probe_hit(m, s, i2, qa2, j2) ==> probe_rank(s, i, qa) < probe_rank(s, i2, qa2) || (i2 == i
            && qa2 == qa && j <= j2)
}

/// Where the perpendicular escape line through the probe point at `qa` on
/// stretch `i` crosses stretch `j`.
pub open spec fn probe_crossing(m: ObstacleModel, s: Seq<Point>, i: int, qa: int, j: int) -> Point {
    crate::escape::escape_line_of(m, probe_point(s, i, qa), probe_dir(s, i).perpendicular()).crossing(
        &seg_of(s[j], s[j + 1]),
    )->0
}

/// The first probe shortcut of `s` that a search with budget `b` reaches:
/// lowest rank, then lowest later stretch.
pub open spec fn first_probe_hit(m: ObstacleModel, s: Seq<Point>, i: int, qa: int, j: int, b: int) -> bool {
    &&& probe_hit(m, s, i, qa, j)
    &&& probe_rank(s, i, qa) + 2 <= b
    &&& forall|i2: int, qa2: int, j2: int|
        #[trigger] probe_hit(m, s, i2, qa2, j2) ==> probe_rank(s, i, qa) < probe_rank(s, i2, qa2) || (i2 == i
            && qa2 == qa && j <= j2)
}

/// What [`improve_probe`] returns for `s` with `b` probe positions left to
/// try: while the path has four corners or more and a shortcut within the
/// budget, the first one is spliced in (probe point and crossing point), the
/// path is cleaned up and the positions tried are paid for.
pub open spec fn probe_result(m: ObstacleModel, s: Seq<Point>, b: int) -> Seq<Point>
    decreases b,
{
    if s.len() >= 4 && has_probe_within(m, s, b) {
        let (i, qa, j) = choose|i: int, qa: int, j: int| first_probe_hit(m, s, i, qa, j, b);
        let next = cleanup_spec(spliced(s, i, j, seq![probe_point(s, i, qa), probe_crossing(m, s, i, qa, j)]));
        let rest = b - probe_rank(s, i, qa) - 1;
        if 0 <= rest < b {
            probe_result(m, next, rest)
        } else {
            next
        }
    } else {
        s
    }
}

/// A probe position is ranked at zero or later.
proof fn lemma_rank_nonneg(s: Seq<Point>, i: int, qa: int)
    requires
        probe_position(s, i, qa),
    ensures
        probe_rank(s, i, qa) >= 0,
{
    lemma_path_length_nonneg(s.take(i + 1));
}

/// Path lengths are never negative.
proof fn lemma_path_length_nonneg(s: Seq<Point>)
    ensures
        path_length(s) >= 0,
    decreases s.len(),
{
    if s.len() >= 2 {
        lemma_path_length_nonneg(s.drop_last());
    }
}

/// Longer prefixes are no shorter.
proof fn lemma_prefix_length_mono(s: Seq<Point>, k1: int, k2: int)
    requires
        1 <= k1 <= k2 <= s.len(),
    ensures
        path_length(s.take(k1)) <= path_length(s.take(k2)),
{
    let t = s.take(k2);
    lemma_path_length_split(t, k1 - 1);
    assert(t.take(k1) =~= s.take(k1));
    lemma_path_length_nonneg(t.skip(k1 - 1));
}

/// Outcome of one search for a probe shortcut.
enum ProbeSearch {
    Found(usize, usize, Point, Point),
    NotFound,
    Exhausted,
}

/// A probe position on a later stretch is reached later.
proof fn lemma_rank_later(s: Seq<Point>, i: int, qa: int, i2: int, qa2: int)
    requires
        rectilinear(s),
        probe_position(s, i, qa),
        probe_position(s, i2, qa2),
        i < i2,
    ensures
        probe_rank(s, i, qa) < probe_rank(s, i2, qa2),
{
    assert(aligned_at(s, i));
    assert(s.take(i + 2) =~= s.take(i + 1).push(s[i + 1]));
    lemma_path_length_push(s.take(i + 1), s[i + 1]);
    lemma_prefix_length_mono(s, i + 2, i2 + 1);
}

/// Looks for the first probe shortcut: a point `q` on stretch `i` (walking
/// from its far end back to its start) whose perpendicular escape line crosses
/// a later parallel stretch `j`. Every probe point costs one unit of `budget`;
/// the search gives up when the budget runs out.
fn find_probe(obstacles: &ObstacleSet, path: &Vec<Point>, budget: &mut usize) -> (r: ProbeSearch)
    requires
        rectilinear(path@),
        chain_free(obstacles@, path@),
        path@.len() >= 2,
    ensures
        *final(budget) <= *old(budget),
        r is Exhausted ==> *final(budget) == 0,
        r matches ProbeSearch::Found(i, j, q, x) ==> {
            &&& *final(budget) < *old(budget)
            &&& i + 2 <= j
            &&& j + 1 < path@.len()
            &&& obstacles@.free_point(q)
            &&& obstacles@.free_point(x)
            &&& on_between(path@[i as int], path@[i + 1], q)
            &&& free_between(obstacles@, q, x)
            &&& on_between(path@[j as int], path@[j + 1], x)
            &&& q != path@[i + 1]
            &&& (path@[i as int].y == path@[i + 1].y && x.x == q.x) || (path@[i as int].x == path@[i + 1].x && x.y == q.y)
            &&& forall|qa: int| #[trigger] probe_point(path@, i as int, qa) == q ==> x == probe_crossing(obstacles@, path@, i as int, qa, j as int)
        },
        r matches ProbeSearch::Found(i, j, q, x) ==> exists|qa: int|
            #[trigger] first_probe(obstacles@, path@, i as int, qa, j as int, q, *old(budget) as int, *final(budget) as int),
        r is NotFound ==> *final(budget) == *old(budget) - path_length(path@) && forall|i2: int, qa2: int, j2: int|
            !#[trigger] probe_hit(obstacles@, path@, i2, qa2, j2),
        r is Exhausted ==> forall|i2: int, qa2: int, j2: int|
            #[trigger] probe_hit(obstacles@, path@, i2, qa2, j2) ==> probe_rank(path@, i2, qa2) + 2 > *old(budget),
{
    let n = path.len();
    let ghost m = obstacles@;
    let ghost b0 = *budget as int;
    let ghost s = path@;
    let mut i: usize = 0;
    while i < n - 1
        invariant
            n == path@.len(),
            n >= 2,
            s == path@,
            m == obstacles@,
            rectilinear(path@),
            chain_free(m, path@),
            b0 == *old(budget),
            i <= n - 1,
            *budget == b0 - path_length(s.take(i + 1)),
            forall|i2: int, qa2: int, j2: int| 0 <= i2 < i ==> !#[trigger] probe_hit(m, s, i2, qa2, j2),
        decreases n - i,
    {
        assert(aligned_at(path@, i as int));
        assert(free_at(m, path@, i as int));
        let seg = segment_at(path, i);
        let o = seg.orientation;
        let start = path[i].along(o);
        let end = path[i + 1].along(o);
        let ghost pl = path_length(s.take(i + 1));
        proof {
            crate::geometry::lemma_along_across(o, path@[i as int]);
            crate::geometry::lemma_along_across(o, path@[i + 1]);
            assert(seg.from == min_int(start as int, end as int) && seg.to == max_int(
                start as int,
                end as int,
            )) by {
                if path@[i as int].y == path@[i + 1].y {
                } else {
                }
            }
            assert(s.take(i + 2) =~= s.take(i + 1).push(s[i + 1]));
            lemma_path_length_push(s.take(i + 1), s[i + 1]);
            assert(manhattan_spec(s[i as int], s[i + 1]) == crate::geometry::abs_int(start - end));
            assert(probe_dir(s, i as int) == o);
            assert(probe_start(s, i as int) == start && probe_end(s, i as int) == end);
            lemma_path_length_nonneg(s.take(i + 1));
        }
        if start != end {
            let step: i64 = if start > end {
                1
            } else {
                -1
            };
            let mut q_along: i64 = end + step;
            loop
                invariant_except_break
                    *budget == b0 - probe_rank(s, i as int, q_along as int),
                invariant
                    n == path@.len(),
                    n >= 2,
                    s == path@,
                    i < n - 1,
                    m == obstacles@,
                    rectilinear(path@),
                    chain_free(m, path@),
                    b0 == *old(budget),
                    seg == seg_of(path@[i as int], path@[i + 1]),
                    forall|z: Point| seg.contains(z) <==> on_between(path@[i as int], path@[i + 1], z),
                    o == seg.orientation,
                    o == probe_dir(s, i as int),
                    start == path@[i as int].along(o),
                    end == path@[i + 1].along(o),
                    start == probe_start(s, i as int),
                    end == probe_end(s, i as int),
                    seg.fixed == path@[i as int].across(o),
                    seg.from == min_int(start as int, end as int),
                    seg.to == max_int(start as int, end as int),
                    step == 1 ==> end < q_along <= start,
                    step == -1 ==> start <= q_along < end,
                    step == 1 || step == -1,
                    pl == path_length(s.take(i + 1)),
                    pl >= 0,
                    path_length(s.take(i + 2)) == pl + crate::geometry::abs_int(start - end),
                    forall|i2: int, qa2: int, j2: int| 0 <= i2 < i ==> !#[trigger] probe_hit(m, s, i2, qa2, j2),
                    forall|qa2: int, j2: int|
                        crate::geometry::abs_int(qa2 - end) < crate::geometry::abs_int(q_along - end) ==> !#[trigger] probe_hit(
                            m,
                            s,
                            i as int,
                            qa2,
                            j2,
                        ),
                ensures
                    *budget == b0 - path_length(s.take(i + 2)),
                    forall|qa2: int, j2: int| !#[trigger] probe_hit(m, s, i as int, qa2, j2),
                decreases if step == 1 { start - q_along } else { q_along - start },
            {
                if *budget > 0 {
                    *budget = *budget - 1;
                }
                if *budget == 0 {
                    proof {
                        assert forall|i2: int, qa2: int, j2: int|
                            #[trigger] probe_hit(m, s, i2, qa2, j2) implies probe_rank(s, i2, qa2) + 2 > b0 by {
                            if i2 > i {
                                lemma_rank_later(s, i as int, q_along as int, i2, qa2);
                            }
                        }
                    }
                    return ProbeSearch::Exhausted;
                }
                let q = Point::from_along_across(o, q_along, seg.fixed);
                proof {
                    lemma_from_along_across(o, q_along, seg.fixed);
                    assert(seg.contains(q));
                    assert(on_between(path@[i as int], path@[i + 1], q));
                    assert(free_at(m, path@, i as int));
                    assert(q == probe_point(s, i as int, q_along as int));
                    assert(probe_position(s, i as int, q_along as int));
                }
                let probe = obstacles.escape_line(q, o.perpendicular());
                let mut j: usize = i + 2;
                while j < n - 1
                    invariant
                        n == path@.len(),
                        n >= 2,
                        s == path@,
                        i < n - 1,
                        m == obstacles@,
                        rectilinear(path@),
                        m.free_point(q),
                        on_between(path@[i as int], path@[i + 1], q),
                        m.is_escape_line(q, o.perpendicular(), probe),
                        q == probe_point(s, i as int, q_along as int),
                        o == probe_dir(s, i as int),
                        probe_position(s, i as int, q_along as int),
                        i + 2 <= j,
                        j < n - 1 ==> (j - i) % 2 == 0,
                        *budget < b0,
                        *budget > 0,
                        *budget == b0 - probe_rank(s, i as int, q_along as int) - 1,
                        b0 == *old(budget),
                        end == probe_end(s, i as int),
                        forall|i2: int, qa2: int, j2: int| 0 <= i2 < i ==> !#[trigger] probe_hit(m, s, i2, qa2, j2),
                        forall|qa2: int, j2: int|
                            crate::geometry::abs_int(qa2 - end) < crate::geometry::abs_int(q_along - end) ==> !#[trigger] probe_hit(
                                m,
                                s,
                                i as int,
                                qa2,
                                j2,
                            ),
                        forall|j2: int| j2 < j ==> !#[trigger] probe_hit(m, s, i as int, q_along as int, j2),
                    decreases n - j,
                {
                    assert(aligned_at(path@, j as int));
                    let later = segment_at(path, j);
                    if let Some(x) = probe.crossing(&later) {
                        proof {
                            lemma_crossing_point(probe, later);
                            lemma_free_segment_contains(m, probe, x);
                            crate::geometry::lemma_along_across(probe.orientation, q);
                            lemma_free_segment_between(m, probe, q, x);
                            let qa = q_along as int;
                            assert(probe_hit(m, s, i as int, qa, j as int));
                            assert forall|i2: int, qa2: int, j2: int|
                                #[trigger] probe_hit(m, s, i2, qa2, j2) implies probe_rank(s, i as int, qa) < probe_rank(
                                    s,
                                    i2,
                                    qa2,
                                ) || (i2 == i && qa2 == qa && j <= j2) by {
                                if i2 > i {
                                    lemma_rank_later(s, i as int, qa, i2, qa2);
                                }
                            }
                            assert(probe_rank(s, i as int, qa) + 2 <= b0);
                            assert(*budget == b0 - probe_rank(s, i as int, qa) - 1);
                            assert(first_probe(m, s, i as int, qa, j as int, q, b0, *budget as int));
                            assert(first_probe(obstacles@, path@, i as int, qa, j as int, q, *old(budget) as int, *budget as int));
                            let op = o.perpendicular();
                            assert(m.is_escape_line(q, op, crate::escape::escape_line_of(m, q, op)));
                            lemma_escape_line_same(m, q, op, probe, crate::escape::escape_line_of(m, q, op));
                            assert forall|qa2: int| #[trigger] probe_point(path@, i as int, qa2) == q implies x == probe_crossing(
                                obstacles@,
                                path@,
                                i as int,
                                qa2,
                                j as int,
                            ) by {}
                            assert(q != path@[i + 1] && ((path@[i as int].y == path@[i + 1].y && x.x == q.x) || (
                            path@[i as int].x == path@[i + 1].x && x.y == q.y))) by {
                                crate::geometry::lemma_along_across(o, q);
                                crate::geometry::lemma_along_across(o, x);
                                assert(probe.contains(x));
                                assert(q.along(o) != path@[i + 1].along(o));
                                assert(x.along(o) == q.along(o));
                            }
                        }
                        return ProbeSearch::Found(i, j, q, x);
                    }
                    proof {
                        assert forall|j2: int| j2 < j + 2 implies !#[trigger] probe_hit(m, s, i as int, q_along as int, j2) by {
                            if j2 == j && probe_hit(m, s, i as int, q_along as int, j2) {
                                let e = choose|e: Segment|
                                    #[trigger] m.is_escape_line(probe_point(s, i as int, q_along as int), probe_dir(s, i as int).perpendicular(), e)
                                        && e.crossing(&seg_of(s[j as int], s[j + 1])) is Some;
                                lemma_escape_line_same(m, q, o.perpendicular(), e, probe);
                            }
                        }
                    }
                    j = j + 2;
                }
                if q_along == start {
                    break;
                }
                q_along = q_along + step;
            }
        } else {
            proof {
                assert forall|qa2: int, j2: int| !#[trigger] probe_hit(m, s, i as int, qa2, j2) by {}
            }
        }
        proof {
            assert forall|i2: int, qa2: int, j2: int| 0 <= i2 < i + 1 implies !#[trigger] probe_hit(m, s, i2, qa2, j2) by {
                if i2 == i {
                    assert(!probe_hit(m, s, i as int, qa2, j2));
                }
            }
        }
        i = i + 1;
    }
    proof {
        assert(s.take(n as int) =~= s);
        lemma_path_length_nonneg(s);
        assert forall|i2: int, qa2: int, j2: int| !#[trigger] probe_hit(m, s, i2, qa2, j2) by {
            if 0 <= i2 < n - 1 {
            }
        }
    }
    ProbeSearch::NotFound
}

/// Improvement B (paper Fig. 8 → 9): slide a probe point along every segment
/// (from its far end back to its start) and shoot a perpendicular escape line
/// from it; if that line crosses a later parallel segment, splice the shortcut
/// in. Removes staircases. Returns whether the path changed. A budget of
/// probe points guards against pathological inputs.
pub fn improve_probe(obstacles: &ObstacleSet, path: &mut Vec<Point>) -> (changed: bool)
    requires
        rectilinear(old(path)@),
        chain_free(obstacles@, old(path)@),
        corners_free(obstacles@, old(path)@),
    ensures
        rectilinear(final(path)@),
        chain_free(obstacles@, final(path)@),
        corners_free(obstacles@, final(path)@),
        same_ends(final(path)@, old(path)@),
        !changed ==> final(path)@ == old(path)@,
        changed ==> clean(final(path)@),
        path_length(final(path)@) <= path_length(old(path)@),
        changed ==> path_length(final(path)@) < path_length(old(path)@),
        changed <==> old(path)@.len() >= 4 && has_probe_within(obstacles@, old(path)@, 100_000),
        final(path)@ == probe_result(obstacles@, old(path)@, 100_000),
{
    let ghost m = obstacles@;
    let ghost s = path@;
    let mut changed = false;
    let mut budget: usize = 100_000;
    loop
        invariant
            m == obstacles@,
            s == old(path)@,
            rectilinear(path@),
            chain_free(m, path@),
            corners_free(m, path@),
            same_ends(path@, s),
            !changed ==> path@ == s,
            changed ==> clean(path@),
            path_length(path@) <= path_length(s),
            changed ==> path_length(path@) < path_length(s),
            !changed ==> budget == 100_000,
            changed ==> s.len() >= 4 && has_probe_within(m, s, 100_000),
            probe_result(m, path@, budget as int) == probe_result(m, s, 100_000),
        decreases budget,
    {
        if path.len() < 4 {
            return changed;
        }
        let ghost b0 = budget;
        match find_probe(obstacles, path, &mut budget) {
            ProbeSearch::Found(i, j, q, x) => {
                let ghost c = path@;
                proof {
                    if !changed {
                        let qa = choose|qa: int| #[trigger] first_probe(m, c, i as int, qa, j as int, q, 100_000, budget as int);
                        assert(probe_hit(m, s, i as int, qa, j as int) && probe_rank(s, i as int, qa) + 2 <= 100_000);
                    }
                }
                let mut mid: Vec<Point> = Vec::new();
                mid.push(q);
                mid.push(x);
                proof {
                    lemma_on_between_aligned(c[i as int], c[i + 1], q);
                    lemma_on_between_aligned(c[j as int], c[j + 1], x);
                    assert(free_at(m, c, i as int));
                    assert(free_at(m, c, j as int));
                    lemma_free_between_sub(m, c[i as int], c[i + 1], c[i as int], q);
                    lemma_free_between_sub(m, c[j as int], c[j + 1], x, c[j + 1]);
                    assert(mid@.last() == x);
                    assert(free_at(m, mid@, 0));
                    assert(aligned_at(mid@, 0));
                    lemma_splice(m, c, i as int, j as int, mid@);
                    assert(mid@ =~= seq![q, x]);
                    lemma_probe_strictly_shorter(c, i as int, j as int, q, x);
                }
                splice_points(path, i, j, mid);
                let ghost c2 = path@;
                cleanup(path);
                proof {
                    lemma_corners_from_free(m, path@, c2);
                    lemma_covered_free(m, path@, c2);
                    lemma_same_ends_trans(path@, c2, c);
                    let qa = choose|qa: int| #[trigger] first_probe(m, c, i as int, qa, j as int, q, b0 as int, budget as int);
                    assert(first_probe_hit(m, c, i as int, qa, j as int, b0 as int));
                    let (i1, qa1, j1) = choose|i1: int, qa1: int, j1: int| first_probe_hit(m, c, i1, qa1, j1, b0 as int);
                    assert(probe_rank(c, i1, qa1) <= probe_rank(c, i as int, qa));
                    assert(i1 == i && qa1 == qa && j1 == j);
                    assert(probe_point(c, i as int, qa) == q);
                    assert(mid@ =~= seq![probe_point(c, i as int, qa), probe_crossing(m, c, i as int, qa, j as int)]);
                    assert(path@ == cleanup_spec(spliced(c, i as int, j as int, mid@)));
                    assert(has_probe_within(m, c, b0 as int));
                    lemma_rank_nonneg(c, i as int, qa);
                }
                changed = true;
            },
            ProbeSearch::NotFound => {
                proof {
                    assert(!has_probe_within(m, path@, b0 as int));
                }
                return changed;
            },
            ProbeSearch::Exhausted => {
                proof {
                    assert(!has_probe_within(m, path@, b0 as int));
                }
                return changed;
            },
        }
    }
}

} // verus!
