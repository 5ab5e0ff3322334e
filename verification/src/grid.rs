//! A naive Lee-style grid router (breadth-first flood fill on the unit
//! lattice). It is complete and finds shortest paths, and it exists here only
//! as a reference for tests, benchmarks and figures: it does the work
//! Hightower's algorithm avoids.

use std::collections::VecDeque;

use vstd::prelude::*;

use crate::geometry::{Bounds, Coord, Point, manhattan_spec};
use crate::obstacles::{ObstacleModel, ObstacleSet};
use crate::refine::{
    aligned_at, chain_free, cleanup, corners_free, free_at, free_between, lemma_chain_valid_path,
    lemma_valid_path_chain, on_between, rectilinear, valid_path,
};
use crate::router::{lemma_reverse_path, reverse_points};
use crate::translation::{lemma_translation, moved_by, neg_point, shift_fits, shift_path, shift_point};

verus! {

/// Result of a flood fill: the shortest path (if any) and the BFS distance of
/// every visited lattice point, for visualization.
#[derive(Clone, Debug)]
pub struct FloodResult {
    /// Corner list from `a` to `b`, or `None` if `b` is unreachable.
    pub path: Option<Vec<Point>>,
    /// Every visited lattice point with its BFS distance from `a`.
    pub visited: Vec<(Point, u32)>,
}

/// Number of lattice columns inside the bounds.
pub open spec fn lattice_w(bd: Bounds) -> int {
    bd.max.x - bd.min.x + 1
}

/// Number of lattice rows inside the bounds.
pub open spec fn lattice_h(bd: Bounds) -> int {
    bd.max.y - bd.min.y + 1
}

/// Number of lattice points inside the bounds.
pub open spec fn lattice_size(bd: Bounds) -> int {
    lattice_w(bd) * lattice_h(bd)
}

/// The bounds are normalized and their lattice points can be numbered with
/// `u32` distances to spare.
pub open spec fn lattice_ok(bd: Bounds) -> bool {
    bd.wf() && lattice_size(bd) <= u32::MAX
}

/// Row-major number of a lattice point.
pub open spec fn cell(bd: Bounds, p: Point) -> int {
    (p.y - bd.min.y) * lattice_w(bd) + (p.x - bd.min.x)
}

/// The lattice point with number `i`.
pub open spec fn cell_point(bd: Bounds, i: int) -> Point {
    Point { x: (bd.min.x + i % lattice_w(bd)) as i64, y: (bd.min.y + i / lattice_w(bd)) as i64 }
}

/// `p` and `q` are neighbouring lattice points.
pub open spec fn unit_step(p: Point, q: Point) -> bool {
    manhattan_spec(p, q) == 1
}

/// The four lattice directions in the order the flood tries them.
pub open spec fn offset(k: int) -> (int, int) {
    if k == 0 {
        (1, 0)
    } else if k == 1 {
        (-1, 0)
    } else if k == 2 {
        (0, 1)
    } else {
        (0, -1)
    }
}

/// `q` is the neighbour of `p` in direction `k`.
pub open spec fn is_step(p: Point, k: int, q: Point) -> bool {
    q.x == p.x + offset(k).0 && q.y == p.y + offset(k).1
}

/// A chain of neighbouring lattice points.
pub open spec fn unit_chain(s: Seq<Point>) -> bool {
    forall|i: int| 0 <= i < s.len() - 1 ==> #[trigger] unit_step(s[i], s[i + 1])
}

/// Numbering and un-numbering of lattice points agree, and numbers stay
/// below the lattice size.
pub proof fn lemma_cell(bd: Bounds, p: Point)
    requires
        lattice_ok(bd),
        bd.contains(p),
    ensures
        0 <= cell(bd, p) < lattice_size(bd),
        cell_point(bd, cell(bd, p)) == p,
{
    let w = lattice_w(bd);
    let h = lattice_h(bd);
    let dx = p.x - bd.min.x;
    let dy = p.y - bd.min.y;
    assert(0 <= dy * w) by (nonlinear_arith)
        requires
            0 <= dy,
            0 < w,
    ;
    assert(dy * w + dx < w * h) by (nonlinear_arith)
        requires
            0 <= dx < w,
            0 <= dy < h,
    ;
    vstd::arithmetic::div_mod::lemma_fundamental_div_mod_converse(dy * w + dx, w, dy, dx);
}

/// Every number below the lattice size names a lattice point inside the bounds.
pub proof fn lemma_cell_point(bd: Bounds, i: int)
    requires
        lattice_ok(bd),
        0 <= i < lattice_size(bd),
    ensures
        0 <= i % lattice_w(bd) < lattice_w(bd),
        0 <= i / lattice_w(bd) < lattice_h(bd),
        bd.contains(cell_point(bd, i)),
        cell(bd, cell_point(bd, i)) == i,
{
    let w = lattice_w(bd);
    let h = lattice_h(bd);
    vstd::arithmetic::div_mod::lemma_fundamental_div_mod(i, w);
    vstd::arithmetic::div_mod::lemma_mod_bound(i, w);
    assert(0 <= i / w < h) by (nonlinear_arith)
        requires
            0 <= i < w * h,
            0 < w,
            i == w * (i / w) + i % w,
            0 <= i % w < w,
    ;
    assert(w * (i / w) == (i / w) * w) by (nonlinear_arith);
}

/// The lattice number of a point inside the bounds.
fn cell_index(bd: &Bounds, w: usize, p: Point) -> (r: usize)
    requires
        lattice_ok(*bd),
        w == lattice_w(*bd),
        bd.contains(p),
    ensures
        r == cell(*bd, p),
        r < lattice_size(*bd),
{
    proof {
        lemma_cell(*bd, p);
    }
    let dy = (p.y - bd.min.y) as usize;
    let dx = (p.x - bd.min.x) as usize;
    assert(dy * w + dx < lattice_size(*bd));
    dy * w + dx
}

/// The lattice point with number `i`.
fn index_point(bd: &Bounds, w: usize, i: usize) -> (r: Point)
    requires
        lattice_ok(*bd),
        w == lattice_w(*bd),
        i < lattice_size(*bd),
    ensures
        r == cell_point(*bd, i as int),
        bd.contains(r),
        cell(*bd, r) == i,
{
    proof {
        lemma_cell_point(*bd, i as int);
        assert(i / w <= i);
        assert(i % w < w);
    }
    let x = bd.min.x + (i % w) as Coord;
    let y = bd.min.y + (i / w) as Coord;
    Point::new(x, y)
}

/// The neighbour of `p` in direction `k`, if it lies inside the bounds.
fn neighbour(bd: &Bounds, p: Point, k: usize) -> (r: Option<Point>)
    requires
        bd.contains(p),
        k < 4,
    ensures
        r matches Some(q) ==> is_step(p, k as int, q) && bd.contains(q) && unit_step(p, q),
        r is None ==> forall|q: Point| #[trigger] is_step(p, k as int, q) ==> !bd.contains(q),
{
    if k == 0 {
        if p.x < bd.max.x {
            Some(Point::new(p.x + 1, p.y))
        } else {
            None
        }
    } else if k == 1 {
        if p.x > bd.min.x {
            Some(Point::new(p.x - 1, p.y))
        } else {
            None
        }
    } else if k == 2 {
        if p.y < bd.max.y {
            Some(Point::new(p.x, p.y + 1))
        } else {
            None
        }
    } else {
        if p.y > bd.min.y {
            Some(Point::new(p.x, p.y - 1))
        } else {
            None
        }
    }
}

/// Every neighbour of a lattice point lies in one of the four directions.
proof fn lemma_unit_step_dir(p: Point, q: Point)
    requires
        unit_step(p, q),
    ensures
        exists|k: int| 0 <= k < 4 && #[trigger] is_step(p, k, q),
{
    if q.x == p.x + 1 {
        assert(is_step(p, 0, q));
    } else if q.x == p.x - 1 {
        assert(is_step(p, 1, q));
    } else if q.y == p.y + 1 {
        assert(is_step(p, 2, q));
    } else {
        assert(is_step(p, 3, q));
    }
}

/// A chain of neighbouring free lattice points is a rectilinear free path.
proof fn lemma_unit_chain_free(m: ObstacleModel, s: Seq<Point>)
    requires
        unit_chain(s),
        corners_free(m, s),
    ensures
        rectilinear(s),
        chain_free(m, s),
{
    assert forall|i: int| 0 <= i < s.len() - 1 implies #[trigger] aligned_at(s, i) by {
        assert(unit_step(s[i], s[i + 1]));
    }
    assert forall|i: int| 0 <= i < s.len() - 1 implies #[trigger] free_at(m, s, i) by {
        assert(unit_step(s[i], s[i + 1]));
        assert(m.free_point(s[i]));
        assert(m.free_point(s[i + 1]));
        assert forall|z: Point| #[trigger] on_between(s[i], s[i + 1], z) implies m.free_point(z) by {
            assert(z == s[i] || z == s[i + 1]);
        }
    }
}

/// The point lies inside the bounds and the flood has reached it.
pub open spec fn reached(bd: Bounds, dist: Seq<u32>, p: Point) -> bool {
    bd.contains(p) && dist[cell(bd, p)] != u32::MAX
}

/// The numbers of the reached lattice points.
pub open spec fn reached_set(dist: Seq<u32>) -> Set<int> {
    Set::new(|i: int| 0 <= i < dist.len() && dist[i] != u32::MAX)
}

/// Every free neighbour of `p` has been reached, at most one unit farther from the start.
pub open spec fn expanded(m: ObstacleModel, dist: Seq<u32>, p: Point) -> bool {
    forall|q: Point|
        #[trigger] unit_step(p, q) && m.free_point(q) ==> reached(m.bounds, dist, q) && dist[cell(
            m.bounds,
            q,
        )] <= dist[cell(m.bounds, p)] + 1
}

/// The neighbours of `p` in the first `k` directions have been reached if
/// free, at most one unit farther from the start.
pub open spec fn expanded_upto(m: ObstacleModel, dist: Seq<u32>, p: Point, k: int) -> bool {
    forall|j: int, q: Point|
        0 <= j < k && #[trigger] is_step(p, j, q) && m.free_point(q) ==> reached(m.bounds, dist, q)
            && dist[cell(m.bounds, q)] <= dist[cell(m.bounds, p)] + 1
}

/// The predecessor recorded for a reached point is a reached neighbour one unit closer to the start.
pub open spec fn prev_ok(bd: Bounds, dist: Seq<u32>, prev: Seq<usize>, q: Point) -> bool {
    let i = prev[cell(bd, q)] as int;
    &&& 0 <= i < lattice_size(bd)
    &&& unit_step(cell_point(bd, i), q)
    &&& reached(bd, dist, cell_point(bd, i))
    &&& dist[i] + 1 == dist[cell(bd, q)]
}

/// What the flood keeps true at distance level `level` (the distance of the
/// point taken off the queue last): reached points are free and at most one
/// level deeper; the queue holds reached points of this level or the next,
/// in order; every reached point off the queue (other than `pending`, which
/// sits at this level) has been expanded and is no deeper than this level;
/// predecessors lead back to `a` with decreasing distance; and distances stay
/// below the number of reached points.
pub open spec fn flood_inv(
    m: ObstacleModel,
    a: Point,
    dist: Seq<u32>,
    prev: Seq<usize>,
    queue: Seq<Point>,
    pending: Option<Point>,
    level: int,
) -> bool {
    let bd = m.bounds;
    &&& dist.len() == lattice_size(bd)
    &&& prev.len() == lattice_size(bd)
    &&& reached(bd, dist, a)
    &&& dist[cell(bd, a)] == 0
    &&& forall|p: Point| #[trigger] reached(bd, dist, p) ==> m.free_point(p) && dist[cell(bd, p)] <= level + 1
    &&& forall|k: int|
        0 <= k < queue.len() ==> reached(bd, dist, #[trigger] queue[k]) && level <= dist[cell(bd, queue[k])]
            <= level + 1
    &&& forall|i: int, j: int|
        0 <= i < j < queue.len() ==> dist[cell(bd, #[trigger] queue[i])] <= dist[cell(bd, #[trigger] queue[j])]
    &&& forall|p: Point|
        #[trigger] reached(bd, dist, p) && !queue.contains(p) && pending != Some(p) ==> expanded(
            m,
            dist,
            p,
        ) && dist[cell(bd, p)] <= level
    &&& pending matches Some(p) ==> reached(bd, dist, p) && dist[cell(bd, p)] == level
    &&& forall|q: Point| #[trigger] reached(bd, dist, q) && q != a ==> prev_ok(bd, dist, prev, q)
    &&& forall|i: int| 0 <= i < dist.len() && dist[i] != u32::MAX ==> #[trigger] dist[i] < reached_set(dist).len()
}

/// The reached set is finite and no larger than the lattice.
proof fn lemma_reached_set_len(dist: Seq<u32>)
    ensures
        reached_set(dist).finite(),
        reached_set(dist).len() <= dist.len(),
{
    vstd::set_lib::lemma_int_range(0, dist.len() as int);
    vstd::set_lib::lemma_len_subset(reached_set(dist), vstd::set_lib::set_int_range(0, dist.len() as int));
}

/// Reaching one more lattice point adds its number to the reached set.
proof fn lemma_reached_set_insert(dist: Seq<u32>, c: int, v: u32)
    requires
        0 <= c < dist.len(),
        dist[c] == u32::MAX,
        v != u32::MAX,
    ensures
        reached_set(dist.update(c, v)) == reached_set(dist).insert(c),
        reached_set(dist.update(c, v)).len() == reached_set(dist).len() + 1,
{
    assert(reached_set(dist.update(c, v)) =~= reached_set(dist).insert(c));
    lemma_reached_set_len(dist);
}

/// An unreached lattice number leaves room in the reached set.
proof fn lemma_reached_set_room(dist: Seq<u32>, c: int)
    requires
        0 <= c < dist.len(),
        dist[c] == u32::MAX,
    ensures
        reached_set(dist).len() < dist.len(),
{
    vstd::set_lib::lemma_int_range(0, dist.len() as int);
    let r = vstd::set_lib::set_int_range(0, dist.len() as int);
    vstd::set_lib::lemma_len_subset(reached_set(dist), r.remove(c));
}

/// A vector of `n` copies of `x`.
pub(crate) fn filled<T: Copy>(x: T, n: usize) -> (r: Vec<T>)
    ensures
        r@ == Seq::new(n as nat, |i: int| x),
{
    let mut r: Vec<T> = Vec::new();
    let mut i: usize = 0;
    while i < n
        invariant
            i <= n,
            r@ == Seq::new(i as nat, |j: int| x),
        decreases n - i,
    {
        r.push(x);
        i = i + 1;
        assert(r@ =~= Seq::new(i as nat, |j: int| x));
    }
    r
}

/// Reaching a free, unreached neighbour `q` of the expanded point `p` keeps
/// the flood invariant and extends the expansion of `p` by one direction.
proof fn lemma_mark(
    m: ObstacleModel,
    a: Point,
    dist: Seq<u32>,
    prev: Seq<usize>,
    queue: Seq<Point>,
    p: Point,
    k: int,
    q: Point,
    level: int,
)
    requires
        lattice_ok(m.bounds),
        flood_inv(m, a, dist, prev, queue, Some(p), level),
        expanded_upto(m, dist, p, k),
        0 <= k < 4,
        is_step(p, k, q),
        m.free_point(q),
        !reached(m.bounds, dist, q),
    ensures
        dist[cell(m.bounds, p)] + 1 < u32::MAX,
        ({
            let bd = m.bounds;
            let dist2 = dist.update(cell(bd, q), (dist[cell(bd, p)] + 1) as u32);
            let prev2 = prev.update(cell(bd, q), cell(bd, p) as usize);
            &&& flood_inv(m, a, dist2, prev2, queue.push(q), Some(p), level)
            &&& expanded_upto(m, dist2, p, k + 1)
            &&& forall|x: Point| reached(bd, dist, x) ==> #[trigger] reached(bd, dist2, x)
        }),
{
    let bd = m.bounds;
    let cp = cell(bd, p);
    let cq = cell(bd, q);
    let d = dist[cp];
    lemma_cell(bd, p);
    lemma_cell(bd, q);
    lemma_cell(bd, a);
    lemma_reached_set_room(dist, cq);
    assert(reached_set(dist).contains(cp));
    assert(d < reached_set(dist).len());
    assert(d + 1 < u32::MAX);
    lemma_reached_set_insert(dist, cq, (d + 1) as u32);
    let dist2 = dist.update(cq, (d + 1) as u32);
    let prev2 = prev.update(cq, cp as usize);
    let queue2 = queue.push(q);
    assert forall|x: Point| #[trigger] reached(bd, dist2, x) implies reached(bd, dist, x) || x == q by {
        lemma_cell(bd, x);
    }
    assert forall|x: Point| reached(bd, dist, x) implies #[trigger] reached(bd, dist2, x) && dist2[cell(bd, x)]
        == dist[cell(bd, x)] by {
        lemma_cell(bd, x);
    }
    assert forall|x: Point| #[trigger] reached(bd, dist2, x) implies m.free_point(x) && dist2[cell(bd, x)] <= level
        + 1 by {
        if x != q {
            assert(reached(bd, dist, x));
        }
    }
    assert forall|i: int| 0 <= i < queue2.len() implies reached(bd, dist2, #[trigger] queue2[i]) && level
        <= dist2[cell(bd, queue2[i])] <= level + 1 by {
        if i < queue.len() {
            assert(queue2[i] == queue[i]);
            assert(reached(bd, dist, queue[i]));
        }
    }
    assert forall|i: int, j: int| 0 <= i < j < queue2.len() implies dist2[cell(bd, #[trigger] queue2[i])]
        <= dist2[cell(bd, #[trigger] queue2[j])] by {
        assert(queue2[i] == queue[i]);
        assert(reached(bd, dist, queue[i]));
        if j < queue.len() {
            assert(queue2[j] == queue[j]);
            assert(reached(bd, dist, queue[j]));
        }
    }
    assert forall|x: Point|
        #[trigger] reached(bd, dist2, x) && !queue2.contains(x) && Some(p) != Some(x) implies expanded(
        m,
        dist2,
        x,
    ) && dist2[cell(bd, x)] <= level by {
        assert(queue2[queue.len() as int] == q);
        assert(x != q);
        assert(reached(bd, dist, x));
        assert(!queue.contains(x)) by {
            if queue.contains(x) {
                let t = choose|t: int| 0 <= t < queue.len() && queue[t] == x;
                assert(queue2[t] == x);
            }
        }
        assert(expanded(m, dist, x));
        assert forall|y: Point| #[trigger] unit_step(x, y) && m.free_point(y) implies reached(bd, dist2, y)
            && dist2[cell(bd, y)] <= dist2[cell(bd, x)] + 1 by {
            assert(reached(bd, dist, y));
        }
    }
    assert(reached(bd, dist2, p) && dist2[cp] == level);
    assert forall|x: Point| #[trigger] reached(bd, dist2, x) && x != a implies prev_ok(bd, dist2, prev2, x) by {
        if x == q {
            assert(prev2[cq] == cp);
            assert(cell_point(bd, cp) == p);
            assert(dist2[cp] == d);
        } else {
            lemma_cell(bd, x);
            assert(reached(bd, dist, x));
            assert(prev_ok(bd, dist, prev, x));
            let i = prev[cell(bd, x)] as int;
            assert(prev2[cell(bd, x)] == prev[cell(bd, x)]);
            lemma_cell_point(bd, i);
            assert(reached(bd, dist, cell_point(bd, i)));
            assert(i != cq);
            assert(dist2[i] == dist[i]);
        }
    }
    assert forall|i: int| 0 <= i < dist2.len() && dist2[i] != u32::MAX implies #[trigger] dist2[i] < reached_set(
        dist2,
    ).len() by {
        if i != cq {
            assert(dist[i] < reached_set(dist).len());
        }
    }
    assert forall|j: int, y: Point|
        0 <= j < k + 1 && #[trigger] is_step(p, j, y) && m.free_point(y) implies reached(bd, dist2, y)
        && dist2[cell(bd, y)] <= dist2[cp] + 1 by {
        if j < k {
            assert(reached(bd, dist, y));
        } else {
            assert(y == q);
        }
    }
}

/// Taking the front point off the queue leaves it pending at its own level.
proof fn lemma_pop(m: ObstacleModel, a: Point, dist: Seq<u32>, prev: Seq<usize>, queue: Seq<Point>, level: int)
    requires
        flood_inv(m, a, dist, prev, queue, None, level),
        queue.len() > 0,
    ensures
        flood_inv(
            m,
            a,
            dist,
            prev,
            queue.subrange(1, queue.len() as int),
            Some(queue[0]),
            dist[cell(m.bounds, queue[0])] as int,
        ),
        reached(m.bounds, dist, queue[0]),
        level <= dist[cell(m.bounds, queue[0])] <= level + 1,
{
    let bd = m.bounds;
    let rest = queue.subrange(1, queue.len() as int);
    let p = queue[0];
    let l2 = dist[cell(bd, p)] as int;
    assert(reached(bd, dist, queue[0]));
    assert forall|k: int| 0 <= k < rest.len() implies reached(bd, dist, #[trigger] rest[k]) && l2 <= dist[cell(
        bd,
        rest[k],
    )] <= l2 + 1 by {
        assert(rest[k] == queue[k + 1]);
        assert(reached(bd, dist, queue[k + 1]));
    }
    assert forall|i: int, j: int| 0 <= i < j < rest.len() implies dist[cell(bd, #[trigger] rest[i])] <= dist[cell(
        bd,
        #[trigger] rest[j],
    )] by {
        assert(rest[i] == queue[i + 1] && rest[j] == queue[j + 1]);
    }
    assert forall|x: Point| #[trigger] reached(bd, dist, x) implies m.free_point(x) && dist[cell(bd, x)] <= l2 + 1 by {}
    assert forall|x: Point|
        #[trigger] reached(bd, dist, x) && !rest.contains(x) && Some(p) != Some(x) implies expanded(
        m,
        dist,
        x,
    ) && dist[cell(bd, x)] <= l2 by {
        assert(!queue.contains(x)) by {
            if queue.contains(x) {
                let t = choose|t: int| 0 <= t < queue.len() && queue[t] == x;
                assert(t != 0);
                assert(rest[t - 1] == x);
            }
        }
    }
}

/// Once all four directions are done, the pending point is expanded.
proof fn lemma_expanded(
    m: ObstacleModel,
    a: Point,
    dist: Seq<u32>,
    prev: Seq<usize>,
    queue: Seq<Point>,
    p: Point,
    level: int,
)
    requires
        flood_inv(m, a, dist, prev, queue, Some(p), level),
        expanded_upto(m, dist, p, 4),
    ensures
        flood_inv(m, a, dist, prev, queue, None, level),
{
    assert forall|x: Point|
        #[trigger] reached(m.bounds, dist, x) && !queue.contains(x) && None::<Point> != Some(x) implies expanded(
        m,
        dist,
        x,
    ) && dist[cell(m.bounds, x)] <= level by {
        if x == p {
            assert forall|y: Point| #[trigger] unit_step(x, y) && m.free_point(y) implies reached(
                m.bounds,
                dist,
                y,
            ) && dist[cell(m.bounds, y)] <= dist[cell(m.bounds, x)] + 1 by {
                lemma_unit_step_dir(x, y);
                let j = choose|j: int| 0 <= j < 4 && #[trigger] is_step(x, j, y);
                assert(is_step(p, j, y));
            }
        }
    }
}

/// A free stretch leaving a reached point of a closed flood ends at a reached point.
proof fn lemma_walk(m: ObstacleModel, dist: Seq<u32>, p: Point, q: Point)
    requires
        forall|x: Point| #[trigger] reached(m.bounds, dist, x) ==> expanded(m, dist, x),
        reached(m.bounds, dist, p),
        free_between(m, p, q),
    ensures
        reached(m.bounds, dist, q),
    decreases manhattan_spec(p, q),
{
    if p != q {
        let n = if p.x < q.x {
            Point { x: (p.x + 1) as i64, y: p.y }
        } else if p.x > q.x {
            Point { x: (p.x - 1) as i64, y: p.y }
        } else if p.y < q.y {
            Point { x: p.x, y: (p.y + 1) as i64 }
        } else {
            Point { x: p.x, y: (p.y - 1) as i64 }
        };
        assert(on_between(p, q, n));
        assert(m.free_point(n));
        assert(unit_step(p, n));
        assert(expanded(m, dist, p));
        assert(reached(m.bounds, dist, n));
        assert forall|z: Point| #[trigger] on_between(n, q, z) implies m.free_point(z) by {
            assert(on_between(p, q, z));
        }
        lemma_walk(m, dist, n, q);
    }
}

/// Every corner of a free rectilinear path that starts at a reached point of a
/// closed flood is reached.
proof fn lemma_path_reached(m: ObstacleModel, dist: Seq<u32>, s: Seq<Point>, i: int)
    requires
        forall|x: Point| #[trigger] reached(m.bounds, dist, x) ==> expanded(m, dist, x),
        s.len() >= 1,
        reached(m.bounds, dist, s[0]),
        chain_free(m, s),
        0 <= i < s.len(),
    ensures
        reached(m.bounds, dist, s[i]),
    decreases i,
{
    if i > 0 {
        lemma_path_reached(m, dist, s, i - 1);
        assert(free_at(m, s, i - 1));
        lemma_walk(m, dist, s[i - 1], s[i]);
    }
}

/// `s` is a free rectilinear polyline from `a` to `p`.
pub open spec fn free_polyline(m: ObstacleModel, a: Point, p: Point, s: Seq<Point>) -> bool {
    &&& s.len() >= 1
    &&& s[0] == a
    &&& s.last() == p
    &&& m.free_point(a)
    &&& chain_free(m, s)
}

/// `d` is the length of a shortest free rectilinear polyline from `a` to `p`.
pub open spec fn shortest_distance(m: ObstacleModel, a: Point, p: Point, d: int) -> bool {
    &&& exists|s: Seq<Point>| #[trigger] free_polyline(m, a, p, s) && crate::refine::path_length(s) == d
    &&& forall|s: Seq<Point>| #[trigger] free_polyline(m, a, p, s) ==> d <= crate::refine::path_length(s)
}

/// Following the recorded predecessors back from a reached point gives a
/// chain of free neighbouring lattice points from `a`, as long as its distance.
proof fn lemma_walk_back(
    m: ObstacleModel,
    a: Point,
    dist: Seq<u32>,
    prev: Seq<usize>,
    queue: Seq<Point>,
    pending: Option<Point>,
    level: int,
    p: Point,
) -> (s: Seq<Point>)
    requires
        lattice_ok(m.bounds),
        flood_inv(m, a, dist, prev, queue, pending, level),
        reached(m.bounds, dist, p),
    ensures
        s.len() >= 1,
        s[0] == a,
        s.last() == p,
        unit_chain(s),
        corners_free(m, s),
        crate::refine::path_length(s) == dist[cell(m.bounds, p)],
    decreases dist[cell(m.bounds, p)],
{
    let bd = m.bounds;
    if p == a {
        seq![a]
    } else {
        assert(prev_ok(bd, dist, prev, p));
        let i = prev[cell(bd, p)] as int;
        let q = cell_point(bd, i);
        lemma_cell_point(bd, i);
        let w = lemma_walk_back(m, a, dist, prev, queue, pending, level, q);
        let s = w.push(p);
        crate::refine::lemma_path_length_push(w, p);
        assert forall|j: int| 0 <= j < s.len() - 1 implies #[trigger] unit_step(s[j], s[j + 1]) by {
            if j < w.len() - 1 {
                assert(unit_step(w[j], w[j + 1]));
            }
        }
        assert forall|j: int| 0 <= j < s.len() implies m.free_point(#[trigger] s[j]) by {
            if j < w.len() {
                assert(s[j] == w[j]);
            }
        }
        s
    }
}

/// Every reached point nearer to the start than `bound` has been expanded.
pub open spec fn closed_below(m: ObstacleModel, dist: Seq<u32>, bound: int) -> bool {
    forall|x: Point|
        #[trigger] reached(m.bounds, dist, x) && dist[cell(m.bounds, x)] < bound ==> expanded(m, dist, x)
}

/// Walking a free stretch from a reached point at distance at most `k` either
/// reaches its end within `k` plus the stretch length, or passes `bound` first.
proof fn lemma_walk_dist(m: ObstacleModel, dist: Seq<u32>, bound: int, p: Point, q: Point, k: int)
    requires
        closed_below(m, dist, bound),
        reached(m.bounds, dist, p),
        dist[cell(m.bounds, p)] <= k,
        free_between(m, p, q),
    ensures
        (reached(m.bounds, dist, q) && dist[cell(m.bounds, q)] <= k + manhattan_spec(p, q)) || bound <= k
            + manhattan_spec(p, q),
    decreases manhattan_spec(p, q),
{
    if p != q {
        let n = if p.x < q.x {
            Point { x: (p.x + 1) as i64, y: p.y }
        } else if p.x > q.x {
            Point { x: (p.x - 1) as i64, y: p.y }
        } else if p.y < q.y {
            Point { x: p.x, y: (p.y + 1) as i64 }
        } else {
            Point { x: p.x, y: (p.y - 1) as i64 }
        };
        assert(on_between(p, q, n));
        assert(m.free_point(n));
        assert(unit_step(p, n));
        assert(manhattan_spec(n, q) == manhattan_spec(p, q) - 1);
        if dist[cell(m.bounds, p)] < bound {
            assert(expanded(m, dist, p));
            assert(reached(m.bounds, dist, n));
            assert forall|z: Point| #[trigger] on_between(n, q, z) implies m.free_point(z) by {
                assert(on_between(p, q, z));
            }
            lemma_walk_dist(m, dist, bound, n, q, k + 1);
        }
    }
}

/// Along a free path from a start at distance zero, every corner is either
/// reached within the length walked so far, or that length already passes `bound`.
proof fn lemma_path_dist(m: ObstacleModel, dist: Seq<u32>, bound: int, s: Seq<Point>, i: int)
    requires
        closed_below(m, dist, bound),
        s.len() >= 1,
        reached(m.bounds, dist, s[0]),
        dist[cell(m.bounds, s[0])] == 0,
        chain_free(m, s),
        0 <= i < s.len(),
    ensures
        (reached(m.bounds, dist, s[i]) && dist[cell(m.bounds, s[i])] <= crate::refine::path_length(s.take(i + 1)))
            || bound <= crate::refine::path_length(s.take(i + 1)),
    decreases i,
{
    if i > 0 {
        lemma_path_dist(m, dist, bound, s, i - 1);
        assert(s.take(i + 1) =~= s.take(i).push(s[i]));
        crate::refine::lemma_path_length_push(s.take(i), s[i]);
        assert(s.take(i).last() == s[i - 1]);
        assert(free_at(m, s, i - 1));
        if reached(m.bounds, dist, s[i - 1]) && dist[cell(m.bounds, s[i - 1])] <= crate::refine::path_length(
            s.take(i),
        ) {
            lemma_walk_dist(m, dist, bound, s[i - 1], s[i], crate::refine::path_length(s.take(i)));
        }
    } else {
        assert(s.take(1).len() == 1);
    }
}

/// The point just taken off the queue is at its shortest distance from `a`.
proof fn lemma_distance_at_pop(
    m: ObstacleModel,
    a: Point,
    dist: Seq<u32>,
    prev: Seq<usize>,
    queue: Seq<Point>,
    p: Point,
    level: int,
)
    requires
        lattice_ok(m.bounds),
        flood_inv(m, a, dist, prev, queue, Some(p), level),
    ensures
        shortest_distance(m, a, p, dist[cell(m.bounds, p)] as int),
{
    let bd = m.bounds;
    let w = lemma_walk_back(m, a, dist, prev, queue, Some(p), level, p);
    lemma_unit_chain_free(m, w);
    assert(free_polyline(m, a, p, w));
    assert(closed_below(m, dist, level)) by {
        assert forall|x: Point| #[trigger] reached(bd, dist, x) && dist[cell(bd, x)] < level implies expanded(m, dist, x) by {
            if queue.contains(x) {
                let t = choose|t: int| 0 <= t < queue.len() && queue[t] == x;
                assert(reached(bd, dist, queue[t]));
            }
        }
    }
    assert forall|s: Seq<Point>| #[trigger] free_polyline(m, a, p, s) implies dist[cell(bd, p)] <= crate::refine::path_length(s) by {
        lemma_path_dist(m, dist, level, s, s.len() - 1);
        assert(s.take(s.len() as int) =~= s);
    }
}

/// Reaches the free, unreached neighbours of the pending point `p` and queues them.
#[verifier::rlimit(30)]
fn expand_point(
    obstacles: &ObstacleSet,
    bd: &Bounds,
    w: usize,
    n: usize,
    p: Point,
    cp: usize,
    d: u32,
    dist: &mut Vec<u32>,
    prev: &mut Vec<usize>,
    queue: &mut VecDeque<Point>,
    Ghost(a): Ghost<Point>,
    Ghost(b): Ghost<Point>,
    Ghost(level): Ghost<int>,
)
    requires
        *bd == obstacles@.bounds,
        lattice_ok(*bd),
        w == lattice_w(*bd),
        n == lattice_size(*bd),
        flood_inv(obstacles@, a, old(dist)@, old(prev)@, old(queue)@, Some(p), level),
        cp == cell(*bd, p),
        d == old(dist)@[cp as int],
        p != b,
        reached(*bd, old(dist)@, b) ==> old(queue)@.contains(b),
    ensures
        flood_inv(obstacles@, a, final(dist)@, final(prev)@, final(queue)@, None, level),
        reached(*bd, final(dist)@, b) ==> final(queue)@.contains(b),
        reached_set(final(dist)@).finite(),
        reached_set(final(dist)@).len() <= n,
        2 * (n - reached_set(final(dist)@).len()) + final(queue)@.len() <= 2 * (n - reached_set(
            old(dist)@,
        ).len()) + old(queue)@.len(),
{
    let ghost m = obstacles@;
    proof {
        lemma_reached_set_len(dist@);
    }
    let ghost meas = 2 * (n - reached_set(dist@).len()) + queue@.len();
    let mut k: usize = 0;
    while k < 4
        invariant
            m == obstacles@,
            *bd == m.bounds,
            lattice_ok(*bd),
            w == lattice_w(*bd),
            n == lattice_size(*bd),
            flood_inv(m, a, dist@, prev@, queue@, Some(p), level),
            cp == cell(*bd, p),
            d == dist@[cp as int],
            expanded_upto(m, dist@, p, k as int),
            k <= 4,
            p != b,
            reached(*bd, dist@, b) ==> queue@.contains(b),
            reached_set(dist@).finite(),
            reached_set(dist@).len() <= n,
            2 * (n - reached_set(dist@).len()) + queue@.len() <= meas,
        decreases 4 - k,
    {
        let ghost d0 = dist@;
        let ghost q0 = queue@;
        match neighbour(bd, p, k) {
            Some(q) => {
                let cq = cell_index(bd, w, q);
                if dist[cq] == u32::MAX && !obstacles.is_on_obstacle(q) {
                    proof {
                        lemma_mark(m, a, dist@, prev@, queue@, p, k as int, q, level);
                        lemma_reached_set_insert(dist@, cq as int, (d + 1) as u32);
                    }
                    dist.set(cq, d + 1);
                    prev.set(cq, cp);
                    queue.push_back(q);
                    proof {
                        lemma_reached_set_len(dist@);
                        if reached(*bd, dist@, b) {
                            if b != q {
                                assert(reached(*bd, d0, b)) by {
                                    lemma_cell(*bd, b);
                                    lemma_cell(*bd, q);
                                }
                                let t = choose|t: int| 0 <= t < q0.len() && q0[t] == b;
                                assert(queue@[t] == b);
                            } else {
                                assert(queue@[q0.len() as int] == b);
                            }
                        }
                    }
                } else {
                    proof {
                        assert forall|j: int, y: Point|
                            0 <= j < k + 1 && #[trigger] is_step(p, j, y) && m.free_point(y) implies reached(
                            *bd,
                            dist@,
                            y,
                        ) && dist@[cell(*bd, y)] <= dist@[cell(*bd, p)] + 1 by {
                            if j == k {
                                assert(y == q);
                            }
                        }
                    }
                }
            },
            None => {
                proof {
                    assert forall|j: int, y: Point|
                        0 <= j < k + 1 && #[trigger] is_step(p, j, y) && m.free_point(y) implies reached(
                        *bd,
                        dist@,
                        y,
                    ) && dist@[cell(*bd, y)] <= dist@[cell(*bd, p)] + 1 by {
                        if j == k {
                            assert(!bd.contains(y));
                        }
                    }
                }
            },
        }
        k = k + 1;
    }
    proof {
        lemma_expanded(m, a, dist@, prev@, queue@, p, level);
        lemma_reached_set_len(dist@);
    }
}

/// Breadth-first search on the unit lattice inside the bounds. A lattice point
/// is passable if it is not on an obstacle; because obstacles have integer
/// coordinates this is exactly the validity criterion of the line router.
///
/// The search is complete: when both endpoints are free and no path comes
/// back, no valid path from `a` to `b` exists.
#[verifier::rlimit(80)]
#[verifier::spinoff_prover]
pub fn flood(obstacles: &ObstacleSet, a: Point, b: Point) -> (r: FloodResult)
    requires
        lattice_ok(obstacles@.bounds),
    ensures
        !(obstacles@.free_point(a) && obstacles@.free_point(b)) ==> r.path is None && r.visited@.len() == 0,
        r.path matches Some(p) ==> valid_path(obstacles@, a, b, p@),
        r.path matches Some(p) ==> forall|s: Seq<Point>|
            valid_path(obstacles@, a, b, s) ==> crate::refine::path_length(p@) <= crate::refine::path_length(s),
        obstacles@.free_point(a) && obstacles@.free_point(b) && r.path is None ==> forall|s: Seq<Point>|
            !valid_path(obstacles@, a, b, s),
        forall|i: int| 0 <= i < r.visited@.len() ==> obstacles@.free_point(#[trigger] r.visited@[i].0),
        forall|i: int| 0 <= i < r.visited@.len() ==> #[trigger] shortest_distance(
            obstacles@,
            a,
            r.visited@[i].0,
            r.visited@[i].1 as int,
        ),
        r.visited@.len() > 0 ==> r.visited@[0] == (a, 0u32),
        obstacles@.free_point(a) && obstacles@.free_point(b) ==> r.visited@.len() > 0,
        r.path matches Some(p) ==> r.visited@.len() > 0 && r.visited@.last().0 == b
            && r.visited@.last().1 as int == crate::refine::path_length(p@),
{
    let ghost m = obstacles@;
    obstacles.lemma_wf();
    let bd = obstacles.bounds();
    proof {
        let w = lattice_w(bd);
        let h = lattice_h(bd);
        assert(w <= w * h && h <= w * h) by (nonlinear_arith)
            requires
                w >= 1,
                h >= 1,
        ;
    }
    let w = (bd.max.x - bd.min.x + 1) as usize;
    let h = (bd.max.y - bd.min.y + 1) as usize;
    let n = w * h;
    let mut visited: Vec<(Point, u32)> = Vec::new();
    if !obstacles.is_free_point(a) || !obstacles.is_free_point(b) {
        return FloodResult { path: None, visited };
    }
    let mut dist: Vec<u32> = filled(u32::MAX, n);
    let mut prev: Vec<usize> = filled(usize::MAX, n);
    let mut queue: VecDeque<Point> = VecDeque::new();
    let ca = cell_index(&bd, w, a);
    dist.set(ca, 0);
    queue.push_back(a);
    proof {
        lemma_cell(bd, a);
        assert forall|x: Point| #[trigger] reached(bd, dist@, x) implies x == a by {
            lemma_cell(bd, x);
        }
        assert(reached_set(dist@) =~= set![ca as int]);
        assert(queue@ == seq![a]);
        assert(queue@[0] == a);
    }
    let mut found = false;
    let mut searching = true;
    let ghost mut level: int = 0;
    while searching
        invariant
            m == obstacles@,
            bd == m.bounds,
            lattice_ok(bd),
            w == lattice_w(bd),
            n == lattice_size(bd),
            ca == cell(bd, a),
            m.free_point(a),
            m.free_point(b),
            flood_inv(
                m,
                a,
                dist@,
                prev@,
                queue@,
                if found {
                    Some(b)
                } else {
                    None
                },
                level,
            ),
            !searching ==> found || queue@.len() == 0,
            found ==> !searching,
            found ==> reached(bd, dist@, b),
            !found ==> (reached(bd, dist@, b) ==> queue@.contains(b)),
            forall|i: int| 0 <= i < visited@.len() ==> m.free_point(#[trigger] visited@[i].0),
            forall|i: int| 0 <= i < visited@.len() ==> #[trigger] shortest_distance(
                m,
                a,
                visited@[i].0,
                visited@[i].1 as int,
            ),
            visited@.len() == 0 ==> queue@ == seq![a],
            visited@.len() > 0 ==> visited@[0] == (a, 0u32),
            !searching ==> visited@.len() > 0,
            found ==> visited@.len() > 0 && visited@.last().0 == b && visited@.last().1 as int == level,
        decreases 2 * (n - reached_set(dist@).len()) + queue@.len() + if searching {
            1int
        } else {
            0int
        },
    {
        proof {
            lemma_reached_set_len(dist@);
        }
        let ghost qb = queue@;
        match queue.pop_front() {
            None => {
                searching = false;
            },
            Some(p) => {
                proof {
                    assert(p == qb[0]);
                    lemma_pop(m, a, dist@, prev@, qb, level);
                    level = dist@[cell(bd, p)] as int;
                    assert(queue@ == qb.subrange(1, qb.len() as int));
                    if reached(bd, dist@, b) && p != b {
                        let t = choose|t: int| 0 <= t < qb.len() && qb[t] == b;
                        assert(t != 0);
                        assert(queue@[t - 1] == b);
                    }
                }
                let cp = cell_index(&bd, w, p);
                let d = dist[cp];
                let ghost vb = visited@;
                proof {
                    lemma_distance_at_pop(m, a, dist@, prev@, queue@, p, level);
                }
                visited.push((p, d));
                proof {
                    assert(m.free_point(p));
                    assert forall|i: int| 0 <= i < visited@.len() implies m.free_point(#[trigger] visited@[i].0) by {
                        if i < vb.len() {
                            assert(visited@[i] == vb[i]);
                        }
                    }
                    assert forall|i: int| 0 <= i < visited@.len() implies #[trigger] shortest_distance(
                        m,
                        a,
                        visited@[i].0,
                        visited@[i].1 as int,
                    ) by {
                        if i < vb.len() {
                            assert(visited@[i] == vb[i]);
                        }
                    }
                    if vb.len() == 0 {
                        assert(p == a);
                    }
                }
                if p == b {
                    found = true;
                    searching = false;
                } else {
                    expand_point(obstacles, &bd, w, n, p, cp, d, &mut dist, &mut prev, &mut queue, Ghost(a), Ghost(b), Ghost(level));
                }
            },
        }
    }
    if !found {
        proof {
            assert(queue@.len() == 0);
            assert(!reached(bd, dist@, b));
            assert forall|x: Point| #[trigger] reached(bd, dist@, x) implies expanded(m, dist@, x) by {
                assert(!queue@.contains(x));
            }
            assert forall|s: Seq<Point>| !valid_path(m, a, b, s) by {
                if valid_path(m, a, b, s) {
                    lemma_valid_path_chain(m, a, b, s);
                    lemma_path_reached(m, dist@, s, s.len() - 1);
                }
            }
        }
        return FloodResult { path: None, visited };
    }
    let mut corners: Vec<Point> = Vec::new();
    corners.push(b);
    let mut cur = cell_index(&bd, w, b);
    proof {
        lemma_cell(bd, b);
        assert(closed_below(m, dist@, level)) by {
            assert forall|x: Point| #[trigger] reached(bd, dist@, x) && dist@[cell(bd, x)] < level implies expanded(m, dist@, x) by {
                if queue@.contains(x) {
                    let t = choose|t: int| 0 <= t < queue@.len() && queue@[t] == x;
                    assert(reached(bd, dist@, queue@[t]));
                }
            }
        }
        assert forall|s: Seq<Point>| valid_path(m, a, b, s) implies level <= crate::refine::path_length(s) by {
            lemma_valid_path_chain(m, a, b, s);
            lemma_path_dist(m, dist@, level, s, s.len() - 1);
            assert(s.take(s.len() as int) =~= s);
        }
    }
    while cur != ca
        invariant
            m == obstacles@,
            bd == m.bounds,
            lattice_ok(bd),
            w == lattice_w(bd),
            n == lattice_size(bd),
            ca == cell(bd, a),
            flood_inv(m, a, dist@, prev@, queue@, Some(b), level),
            cur < n,
            crate::refine::path_length(corners@) + dist@[cur as int] == level,
            reached(bd, dist@, cell_point(bd, cur as int)),
            cell(bd, cell_point(bd, cur as int)) == cur,
            corners@.len() >= 1,
            corners@[0] == b,
            corners@.last() == cell_point(bd, cur as int),
            unit_chain(corners@),
            corners_free(m, corners@),
        decreases dist@[cur as int],
    {
        let ghost q = cell_point(bd, cur as int);
        let ghost c0 = corners@;
        proof {
            if q == a {
                assert(cur == ca);
            }
            assert(prev_ok(bd, dist@, prev@, q));
        }
        cur = prev[cur];
        let pt = index_point(&bd, w, cur);
        corners.push(pt);
        proof {
            crate::refine::lemma_path_length_push(c0, pt);
            assert(m.free_point(pt));
            assert forall|i: int| 0 <= i < corners@.len() - 1 implies #[trigger] unit_step(corners@[i], corners@[i + 1]) by {
                if i < c0.len() - 1 {
                    assert(unit_step(c0[i], c0[i + 1]));
                }
            }
            assert forall|i: int| 0 <= i < corners@.len() implies m.free_point(#[trigger] corners@[i]) by {
                if i < c0.len() {
                    assert(corners@[i] == c0[i]);
                }
            }
        }
    }
    proof {
        lemma_cell(bd, a);
        lemma_unit_chain_free(m, corners@);
        lemma_reverse_path(m, corners@);
        crate::refine::lemma_path_length_reverse(corners@);
    }
    reverse_points(&mut corners);
    let ghost raw = corners@;
    cleanup(&mut corners);
    proof {
        crate::refine::lemma_corners_from_free(m, corners@, raw);
        crate::refine::lemma_covered_free(m, corners@, raw);
        lemma_chain_valid_path(m, a, b, corners@);
        assert(level <= crate::refine::path_length(corners@));
    }
    FloodResult { path: Some(corners), visited }
}

/// Shortest rectilinear path on the unit lattice, or `None` if none exists.
pub fn route_grid(obstacles: &ObstacleSet, a: Point, b: Point) -> (r: Option<Vec<Point>>)
    requires
        lattice_ok(obstacles@.bounds),
    ensures
        grid_answer(obstacles@, a, b, corners_of(r)),
{
    flood(obstacles, a, b).path
}

/// The corner sequence of an optional path.
pub open spec fn corners_of(r: Option<Vec<Point>>) -> Option<Seq<Point>> {
    match r {
        Some(p) => Some(p@),
        None => None,
    }
}

/// What `route_grid` answers from `a` to `b`: `None` where an end is blocked
/// or no valid path exists, and otherwise a shortest valid path.
pub open spec fn grid_answer(m: ObstacleModel, a: Point, b: Point, r: Option<Seq<Point>>) -> bool {
    &&& !(m.free_point(a) && m.free_point(b)) ==> r is None
    &&& r matches Some(p) ==> valid_path(m, a, b, p)
    &&& r matches Some(p) ==> forall|s: Seq<Point>|
        valid_path(m, a, b, s) ==> crate::refine::path_length(p) <= crate::refine::path_length(s)
    &&& m.free_point(a) && m.free_point(b) && r is None ==> forall|s: Seq<Point>| !valid_path(m, a, b, s)
}

/// Moving a whole scene by `d` does not change what `route_grid` answers up
/// to the move: a path on both scenes or on neither, and of the same length.
pub proof fn lemma_grid_translation(
    m: ObstacleModel,
    m2: ObstacleModel,
    d: Point,
    a: Point,
    b: Point,
    r1: Option<Seq<Point>>,
    r2: Option<Seq<Point>>,
)
    requires
        m.wf(),
        m2.wf(),
        moved_by(m, m2, d),
        shift_fits(a, d),
        shift_fits(b, d),
        grid_answer(m, a, b, r1),
        grid_answer(m2, shift_point(a, d), shift_point(b, d), r2),
    ensures
        r1 is Some <==> r2 is Some,
        r1 matches Some(p1) ==> (r2 matches Some(p2) && crate::refine::path_length(p1) == crate::refine::path_length(p2)),
{
    lemma_translation(m, m2, d, a, b);
    let a2 = shift_point(a, d);
    let b2 = shift_point(b, d);
    if let Some(p1) = r1 {
        assert(valid_path(m2, a2, b2, shift_path(p1, d)));
        if let Some(p2) = r2 {
            assert(valid_path(m, a, b, shift_path(p2, neg_point(d))));
            assert(crate::refine::path_length(p2) <= crate::refine::path_length(shift_path(p1, d)));
            assert(crate::refine::path_length(p1) <= crate::refine::path_length(shift_path(p2, neg_point(d))));
        }
    } else if let Some(p2) = r2 {
        assert(valid_path(m, a, b, shift_path(p2, neg_point(d))));
    }
}

/// Whatever valid path another router found from `a` to `b`, `route_grid`
/// finds one too: both ends are free and a valid path exists, and its
/// contract leaves `None` only where one of these fails.
pub proof fn lemma_found_path_means_grid_path(m: ObstacleModel, a: Point, b: Point, p: Seq<Point>)
    requires
        m.wf(),
        valid_path(m, a, b, p),
    ensures
        m.free_point(a),
        m.free_point(b),
        exists|s: Seq<Point>| valid_path(m, a, b, s),
{
    lemma_valid_path_chain(m, a, b, p);
    assert(m.free_point(p[0]));
    assert(m.free_point(p[p.len() - 1]));
}

} // verus!
