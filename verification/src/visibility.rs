//! Orthogonal visibility graph plus A*: the modern successor of line search
//! (Wybrow, Marriott, Stuckey, *Orthogonal Connector Routing*, GD 2009; the
//! approach behind libavoid).
//!
//! The horizontal and vertical lines through every obstacle end (offset by
//! one unit of clearance), through both endpoints and along the bounds form a
//! sparse grid whose free intersections are the nodes and whose free stretches
//! between neighbouring nodes are the edges. Every rectilinear path can be
//! pushed onto this grid without getting longer, so a search over it is
//! complete and, for [`VisibilityConfig::bend_penalty`] `== 0`, finds a
//! shortest path. With a positive penalty it minimises
//! `length + bend_penalty * bends` over the graph, which is the objective a
//! diagram editor actually wants.
//!
//! Like Hightower's router this needs no area grid: the graph has
//! `O(n²)` nodes for `n` obstacle segments, independent of the board size. The
//! graph is never materialised; A* discovers nodes and edges on demand and asks
//! the [`ObstacleSet`] whether a stretch is free.

use vstd::prelude::*;

use crate::geometry::{Coord, Orientation, Point, Segment, manhattan_spec, segment_spec};
use crate::obstacles::{ObstacleModel, ObstacleSet, span_segment};
use crate::refine::{free_between, lemma_free_segment_between, on_between, valid_path};

verus! {

/// Cost model of the visibility-graph router.
#[derive(Clone, Debug)]
pub struct VisibilityConfig {
    /// Extra cost of every bend, in coordinate units. `0` gives a shortest
    /// path; a value comparable to the typical obstacle size gives calm paths
    /// with few bends.
    pub bend_penalty: Coord,
}

impl Default for VisibilityConfig {
    /// No bend penalty: shortest paths.
    fn default() -> (r: VisibilityConfig)
        ensures
            r.bend_penalty == 0,
    {
        VisibilityConfig { bend_penalty: 0 }
    }
}

/// Result of [`route_visibility_with`].
#[derive(Clone, Debug)]
pub struct VisibilityResult {
    /// Corner list from `a` to `b`, or `None` if `b` is unreachable.
    pub path: Option<Vec<Point>>,
    /// Total cost (`length + bend_penalty * bends`) of the path.
    pub cost: Option<Coord>,
    /// Number of graph nodes (candidate x-coordinates times candidate y-coordinates).
    pub graph_nodes: usize,
    /// Number of A* states expanded.
    pub expanded: usize,
}

/// The four sides of the rectangle with corners `min` and `max`.
pub open spec fn rect_sides(min: Point, max: Point) -> Seq<Segment> {
    seq![
        segment_spec(Orientation::Horizontal, min.y, min.x, max.x),
        segment_spec(Orientation::Horizontal, max.y, min.x, max.x),
        segment_spec(Orientation::Vertical, min.x, min.y, max.y),
        segment_spec(Orientation::Vertical, max.x, min.y, max.y),
    ]
}

/// The segment is a side of a rectangle that was added as a whole.
pub open spec fn is_rect_side(m: ObstacleModel, s: Segment) -> bool {
    exists|k: int| 0 <= k < m.rects.len() && #[trigger] rect_sides(m.rects[k].0, m.rects[k].1).contains(s)
}

/// The stored obstacle segments, horizontal ones first.
pub open spec fn stored_segments(m: ObstacleModel) -> Seq<Segment> {
    m.horizontal.map_values(|sp: (Coord, Coord, Coord)| span_segment(Orientation::Horizontal, sp))
        + m.vertical.map_values(|sp: (Coord, Coord, Coord)| span_segment(Orientation::Vertical, sp))
}

/// The coordinates (along `o`) that a loose obstacle segment contributes: its
/// two ends pushed one unit outward if it runs along `o`, else its fixed
/// coordinate one unit to either side.
pub open spec fn segment_candidate(s: Segment, o: Orientation, c: int) -> bool {
    if s.orientation == o {
        c == s.from - 1 || c == s.to + 1
    } else {
        c == s.fixed - 1 || c == s.fixed + 1
    }
}

/// The coordinates (along `o`) that a rectangle contributes: its sides pushed
/// one unit outward.
pub open spec fn rect_candidate(r: (Point, Point), o: Orientation, c: int) -> bool {
    c == r.0.along(o) - 1 || c == r.1.along(o) + 1
}

/// `c` is a candidate coordinate along `o`: a limit of the bounds, a
/// coordinate of a terminal, a side of a rectangle pushed outward, or a
/// coordinate contributed by a stored segment that is not a rectangle side.
pub open spec fn coord_candidate(m: ObstacleModel, terminals: Seq<Point>, o: Orientation, c: int) -> bool {
    ||| c == m.bounds.min.along(o)
    ||| c == m.bounds.max.along(o)
    ||| exists|t: int| 0 <= t < terminals.len() && (#[trigger] terminals[t]).along(o) == c
    ||| exists|k: int| 0 <= k < m.rects.len() && rect_candidate(#[trigger] m.rects[k], o, c)
    ||| exists|i: int|
        0 <= i < stored_segments(m).len() && !is_rect_side(m, stored_segments(m)[i])
            && segment_candidate(#[trigger] stored_segments(m)[i], o, c)
}

/// The sequence is strictly increasing.
pub open spec fn strictly_sorted(v: Seq<Coord>) -> bool {
    forall|i: int, j: int| 0 <= i < j < v.len() ==> v[i] < v[j]
}

/// The candidate coordinates along `o` that lie within the bounds, and nothing else.
pub open spec fn candidate_set(m: ObstacleModel, terminals: Seq<Point>, o: Orientation, v: Seq<Coord>) -> bool {
    &&& strictly_sorted(v)
    &&& forall|c: int|
        #![trigger coord_candidate(m, terminals, o, c)]
        v.contains(c as Coord) && m.bounds.min.along(o) <= c <= m.bounds.max.along(o) <==> (
        coord_candidate(m, terminals, o, c) && m.bounds.min.along(o) <= c <= m.bounds.max.along(o))
    &&& forall|i: int| 0 <= i < v.len() ==> m.bounds.min.along(o) <= #[trigger] v[i] <= m.bounds.max.along(o)
}

/// Adds `c` to a strictly increasing vector if it lies in `[lo, hi]` and is not there yet.
fn insert_coord(v: &mut Vec<Coord>, c: Coord, lo: Coord, hi: Coord)
    requires
        strictly_sorted(old(v)@),
    ensures
        strictly_sorted(final(v)@),
        forall|x: Coord| #[trigger] final(v)@.contains(x) <==> (old(v)@.contains(x) || (x == c && lo <= c <= hi)),
        final(v)@.len() <= old(v)@.len() + 1,
{
    if c < lo || c > hi {
        return;
    }
    let mut k: usize = 0;
    while k < v.len() && v[k] < c
        invariant
            k <= v@.len(),
            strictly_sorted(v@),
            forall|i: int| 0 <= i < k ==> v@[i] < c,
        decreases v@.len() - k,
    {
        k = k + 1;
    }
    if k < v.len() && v[k] == c {
        return;
    }
    let ghost v0 = v@;
    v.insert(k, c);
    proof {
        assert forall|x: Coord| #[trigger] v@.contains(x) <==> (v0.contains(x) || x == c) by {
            if v@.contains(x) {
                let t = choose|t: int| 0 <= t < v@.len() && v@[t] == x;
                if t < k {
                    assert(v0[t] == x);
                } else if t > k {
                    assert(v0[t - 1] == x);
                }
            }
            if v0.contains(x) {
                let t = choose|t: int| 0 <= t < v0.len() && v0[t] == x;
                if t < k {
                    assert(v@[t] == x);
                } else {
                    assert(v@[t + 1] == x);
                }
            }
            if x == c {
                assert(v@[k as int] == c);
            }
        }
    }
}

/// Adds `c + delta` (for `delta` of `-1`, `0` or `1`) if it exists as a
/// coordinate and lies in `[lo, hi]`.
fn insert_offset(v: &mut Vec<Coord>, c: Coord, delta: i8, lo: Coord, hi: Coord)
    requires
        strictly_sorted(old(v)@),
        -1 <= delta <= 1,
    ensures
        strictly_sorted(final(v)@),
        forall|x: Coord| #[trigger] final(v)@.contains(x) <==> (old(v)@.contains(x) || (x == c + delta && lo
            <= x <= hi)),
        final(v)@.len() <= old(v)@.len() + 1,
{
    if delta < 0 {
        if c > Coord::MIN {
            insert_coord(v, c - 1, lo, hi);
        }
    } else if delta > 0 {
        if c < Coord::MAX {
            insert_coord(v, c + 1, lo, hi);
        }
    } else {
        insert_coord(v, c, lo, hi);
    }
}

/// `c` is among the candidates contributed by the first `nt` terminals, the
/// first `nr` rectangles and the first `ns` stored segments (plus the bounds).
pub open spec fn candidate_prefix(
    m: ObstacleModel,
    terminals: Seq<Point>,
    o: Orientation,
    c: int,
    nt: int,
    nr: int,
    ns: int,
) -> bool {
    ||| c == m.bounds.min.along(o)
    ||| c == m.bounds.max.along(o)
    ||| exists|t: int| 0 <= t < nt && (#[trigger] terminals[t]).along(o) == c
    ||| exists|k: int| 0 <= k < nr && rect_candidate(#[trigger] m.rects[k], o, c)
    ||| exists|i: int|
        0 <= i < ns && !is_rect_side(m, stored_segments(m)[i]) && segment_candidate(
            #[trigger] stored_segments(m)[i],
            o,
            c,
        )
}

/// The vector holds exactly the in-bounds candidates of the given prefix.
pub open spec fn holds_prefix(
    m: ObstacleModel,
    terminals: Seq<Point>,
    o: Orientation,
    v: Seq<Coord>,
    nt: int,
    nr: int,
    ns: int,
) -> bool {
    &&& strictly_sorted(v)
    &&& forall|x: Coord|
        #[trigger] v.contains(x) <==> (m.bounds.min.along(o) <= x <= m.bounds.max.along(o)
            && candidate_prefix(m, terminals, o, x as int, nt, nr, ns))
}

/// Is `s` a side of one of the rectangles?
fn is_rect_side_exec(obstacles: &ObstacleSet, s: Segment) -> (r: bool)
    ensures
        r == is_rect_side(obstacles@, s),
{
    let rects = obstacles.rects();
    let ghost m = obstacles@;
    let mut k: usize = 0;
    while k < rects.len()
        invariant
            k <= rects@.len(),
            m == obstacles@,
            rects@ == obstacles@.rects,
            forall|j: int| 0 <= j < k ==> !(#[trigger] rect_sides(rects@[j].0, rects@[j].1)).contains(s),
        decreases rects@.len() - k,
    {
        let (min, max) = rects[k];
        let sides = crate::svg::rect_segments(min, max);
        assert(sides@ == rect_sides(min, max));
        if sides[0] == s || sides[1] == s || sides[2] == s || sides[3] == s {
            proof {
                let t: int = if sides[0] == s { 0 } else if sides[1] == s { 1 } else if sides[2] == s { 2 } else { 3 };
                assert(rect_sides(rects@[k as int].0, rects@[k as int].1)[t] == s);
                assert(rect_sides(rects@[k as int].0, rects@[k as int].1).contains(s));
                assert(rect_sides(m.rects[k as int].0, m.rects[k as int].1).contains(s));
            }
            return true;
        }
        proof {
            assert forall|j: int| 0 <= j < k + 1 implies !(#[trigger] rect_sides(rects@[j].0, rects@[j].1)).contains(s) by {
                if j == k {
                    if rect_sides(min, max).contains(s) {
                        let t = choose|t: int| 0 <= t < 4 && rect_sides(min, max)[t] == s;
                        assert(sides@[t] == s);
                    }
                }
            }
        }
        k = k + 1;
    }
    false
}

/// The candidate coordinates along `o`, clipped to the bounds, sorted and
/// without duplicates.
#[verifier::rlimit(30)]
fn candidates(obstacles: &ObstacleSet, terminals: &[Point], o: Orientation) -> (v: Vec<Coord>)
    ensures
        candidate_set(obstacles@, terminals@, o, v@),
        v@.len() <= 2 + terminals@.len() + 2 * obstacles@.rects.len() + 2 * stored_segments(obstacles@).len(),
{
    let ghost m = obstacles@;
    let ghost ts = terminals@;
    let bounds = obstacles.bounds();
    let lo = bounds.min.along(o);
    let hi = bounds.max.along(o);
    let mut v: Vec<Coord> = Vec::new();
    insert_coord(&mut v, lo, lo, hi);
    insert_coord(&mut v, hi, lo, hi);
    proof {
        assert forall|x: Coord| #[trigger] v@.contains(x) <==> (lo <= x <= hi && candidate_prefix(m, ts, o, x as int, 0, 0, 0)) by {}
    }
    let mut t: usize = 0;
    while t < terminals.len()
        invariant
            m == obstacles@,
            ts == terminals@,
            lo == m.bounds.min.along(o),
            hi == m.bounds.max.along(o),
            t <= ts.len(),
            holds_prefix(m, ts, o, v@, t as int, 0, 0),
            v@.len() <= 2 + t,
        decreases ts.len() - t,
    {
        let ghost v0 = v@;
        insert_offset(&mut v, terminals[t].along(o), 0, lo, hi);
        proof {
            assert forall|x: Coord| #[trigger] v@.contains(x) <==> (lo <= x <= hi && candidate_prefix(m, ts, o, x as int, t + 1, 0, 0)) by {
                if exists|u: int| 0 <= u < t + 1 && (#[trigger] ts[u]).along(o) == x {
                    let u = choose|u: int| 0 <= u < t + 1 && (#[trigger] ts[u]).along(o) == x;
                    if u < t {
                        assert(candidate_prefix(m, ts, o, x as int, t as int, 0, 0));
                    }
                }
                if candidate_prefix(m, ts, o, x as int, t as int, 0, 0) && !(x == lo || x == hi) {
                    let u = choose|u: int| 0 <= u < t && (#[trigger] ts[u]).along(o) == x;
                    assert(0 <= u < t + 1 && ts[u].along(o) == x);
                }
            }
        }
        t = t + 1;
    }
    let rects = obstacles.rects();
    let mut k: usize = 0;
    while k < rects.len()
        invariant
            m == obstacles@,
            ts == terminals@,
            rects@ == m.rects,
            lo == m.bounds.min.along(o),
            hi == m.bounds.max.along(o),
            k <= rects@.len(),
            holds_prefix(m, ts, o, v@, ts.len() as int, k as int, 0),
            v@.len() <= 2 + ts.len() + 2 * k,
        decreases rects@.len() - k,
    {
        let ghost v0 = v@;
        let (min, max) = rects[k];
        insert_offset(&mut v, min.along(o), -1, lo, hi);
        insert_offset(&mut v, max.along(o), 1, lo, hi);
        proof {
            let n = ts.len() as int;
            assert forall|x: Coord| #[trigger] v@.contains(x) <==> (lo <= x <= hi && candidate_prefix(m, ts, o, x as int, n, k + 1, 0)) by {
                if exists|u: int| 0 <= u < k + 1 && rect_candidate(#[trigger] m.rects[u], o, x as int) {
                    let u = choose|u: int| 0 <= u < k + 1 && rect_candidate(#[trigger] m.rects[u], o, x as int);
                    if u < k {
                        assert(candidate_prefix(m, ts, o, x as int, n, k as int, 0));
                    }
                }
                if candidate_prefix(m, ts, o, x as int, n, k as int, 0) {
                    if exists|u: int| 0 <= u < k && rect_candidate(#[trigger] m.rects[u], o, x as int) {
                        let u = choose|u: int| 0 <= u < k && rect_candidate(#[trigger] m.rects[u], o, x as int);
                        assert(0 <= u < k + 1 && rect_candidate(m.rects[u], o, x as int));
                    }
                }
            }
        }
        k = k + 1;
    }
    let segs = obstacles.segments();
    assert(segs@ == stored_segments(m)) by {
        assert(segs@ =~= stored_segments(m));
    }
    let mut i: usize = 0;
    while i < segs.len()
        invariant
            m == obstacles@,
            ts == terminals@,
            segs@ == stored_segments(m),
            lo == m.bounds.min.along(o),
            hi == m.bounds.max.along(o),
            i <= segs@.len(),
            holds_prefix(m, ts, o, v@, ts.len() as int, m.rects.len() as int, i as int),
            v@.len() <= 2 + ts.len() + 2 * m.rects.len() + 2 * i,
        decreases segs@.len() - i,
    {
        let s = segs[i];
        let side = is_rect_side_exec(obstacles, s);
        let ghost v0 = v@;
        if !side {
            if s.orientation == o {
                insert_offset(&mut v, s.from, -1, lo, hi);
                insert_offset(&mut v, s.to, 1, lo, hi);
            } else {
                insert_offset(&mut v, s.fixed, -1, lo, hi);
                insert_offset(&mut v, s.fixed, 1, lo, hi);
            }
        }
        proof {
            let n = ts.len() as int;
            let r = m.rects.len() as int;
            assert forall|x: Coord| #[trigger] v@.contains(x) <==> (lo <= x <= hi && candidate_prefix(m, ts, o, x as int, n, r, i + 1)) by {
                let sc = |u: int| !is_rect_side(m, stored_segments(m)[u]) && segment_candidate(stored_segments(m)[u], o, x as int);
                if exists|u: int| 0 <= u < i + 1 && !is_rect_side(m, stored_segments(m)[u]) && segment_candidate(#[trigger] stored_segments(m)[u], o, x as int) {
                    let u = choose|u: int| 0 <= u < i + 1 && !is_rect_side(m, stored_segments(m)[u]) && segment_candidate(#[trigger] stored_segments(m)[u], o, x as int);
                    if u < i {
                        assert(candidate_prefix(m, ts, o, x as int, n, r, i as int));
                    }
                }
                if candidate_prefix(m, ts, o, x as int, n, r, i as int) {
                    if exists|u: int| 0 <= u < i && !is_rect_side(m, stored_segments(m)[u]) && segment_candidate(#[trigger] stored_segments(m)[u], o, x as int) {
                        let u = choose|u: int| 0 <= u < i && !is_rect_side(m, stored_segments(m)[u]) && segment_candidate(#[trigger] stored_segments(m)[u], o, x as int);
                        assert(0 <= u < i + 1 && !is_rect_side(m, stored_segments(m)[u]) && segment_candidate(stored_segments(m)[u], o, x as int));
                    }
                }
            }
        }
        i = i + 1;
    }
    proof {
        let n = ts.len() as int;
        let r = m.rects.len() as int;
        let ns = stored_segments(m).len() as int;
        assert forall|c: int|
            #![trigger coord_candidate(m, ts, o, c)]
            v@.contains(c as Coord) && lo <= c <= hi <==> (coord_candidate(m, ts, o, c) && lo <= c <= hi) by {
            if lo <= c <= hi {
                assert(v@.contains(c as Coord) <==> candidate_prefix(m, ts, o, c, n, r, ns));
            }
        }
        assert forall|j: int| 0 <= j < v@.len() implies lo <= #[trigger] v@[j] <= hi by {
            assert(v@.contains(v@[j]));
        }
    }
    v
}

/// The sparse grid of candidate coordinates over an obstacle set.
#[derive(Debug)]
pub struct VisibilityGraph<'a> {
    obstacles: &'a ObstacleSet,
    xs: Vec<Coord>,
    ys: Vec<Coord>,
}

/// `s` joins two neighbouring nodes of the grid with candidate coordinates `xs` and `ys`.
pub open spec fn grid_edge(xs: Seq<Coord>, ys: Seq<Coord>, s: Segment) -> bool {
    ||| s.orientation == Orientation::Horizontal && ys.contains(s.fixed) && exists|i: int|
        0 <= i < xs.len() - 1 && s.from == xs[i] && s.to == #[trigger] xs[i + 1]
    ||| s.orientation == Orientation::Vertical && xs.contains(s.fixed) && exists|j: int|
        0 <= j < ys.len() - 1 && s.from == ys[j] && s.to == #[trigger] ys[j + 1]
}

impl<'a> VisibilityGraph<'a> {
    /// The candidate coordinates are strictly increasing and inside the bounds.
    #[verifier::type_invariant]
    spec fn inv(self) -> bool {
        &&& strictly_sorted(self.xs@)
        &&& strictly_sorted(self.ys@)
        &&& forall|i: int| 0 <= i < self.xs@.len() ==> self.obstacles@.bounds.min.x <= #[trigger] self.xs@[i] <= self.obstacles@.bounds.max.x
        &&& forall|j: int| 0 <= j < self.ys@.len() ==> self.obstacles@.bounds.min.y <= #[trigger] self.ys@[j] <= self.obstacles@.bounds.max.y
    }

    /// The obstacles the graph is built over.
    pub closed spec fn model(self) -> ObstacleModel {
        self.obstacles@
    }

    /// The candidate x-coordinates.
    pub closed spec fn xs_spec(self) -> Seq<Coord> {
        self.xs@
    }

    /// The candidate y-coordinates.
    pub closed spec fn ys_spec(self) -> Seq<Coord> {
        self.ys@
    }

    /// Builds the candidate coordinates: for every rectangle its four sides
    /// pushed one unit outward; for every loose segment its fixed coordinate
    /// ± 1 and its two ends ∓ 1 (so a path can hug it at unit clearance on
    /// either side); plus the coordinates of `terminals` and the bounds.
    pub fn new(obstacles: &'a ObstacleSet, terminals: &[Point]) -> (r: Self)
        ensures
            r.model() == obstacles@,
            candidate_set(obstacles@, terminals@, Orientation::Horizontal, r.xs_spec()),
            candidate_set(obstacles@, terminals@, Orientation::Vertical, r.ys_spec()),
            r.xs_spec().len() <= 2 + terminals@.len() + 2 * obstacles@.rects.len() + 2 * stored_segments(obstacles@).len(),
            r.ys_spec().len() <= 2 + terminals@.len() + 2 * obstacles@.rects.len() + 2 * stored_segments(obstacles@).len(),
    {
        let xs = candidates(obstacles, terminals, Orientation::Horizontal);
        let ys = candidates(obstacles, terminals, Orientation::Vertical);
        VisibilityGraph { obstacles, xs, ys }
    }

    /// Candidate x-coordinates (sorted).
    pub fn xs(&self) -> (r: &[Coord])
        ensures
            r@ == self.xs_spec(),
    {
        self.xs.as_slice()
    }

    /// Candidate y-coordinates (sorted).
    pub fn ys(&self) -> (r: &[Coord])
        ensures
            r@ == self.ys_spec(),
    {
        self.ys.as_slice()
    }

    /// Number of nodes of the (implicit) graph.
    pub fn node_count(&self) -> (r: usize)
        requires
            self.xs_spec().len() * self.ys_spec().len() <= usize::MAX,
        ensures
            r == self.xs_spec().len() * self.ys_spec().len(),
    {
        self.xs.len() * self.ys.len()
    }

    /// All free edges between neighbouring candidate points. Only needed for
    /// drawing the graph; routing never enumerates it.
    pub fn edges(&self) -> (r: Vec<Segment>)
        ensures
            forall|s: Segment| #[trigger] r@.contains(s) <==> grid_edge(self.xs_spec(), self.ys_spec(), s)
                && self.model().free_segment(s),
            r@.no_duplicates(),
            forall|i: int, j: int|
                0 <= i < j < r@.len() && (#[trigger] r@[i]).orientation == Orientation::Vertical ==> (
                #[trigger] r@[j]).orientation == Orientation::Vertical,
    {
        proof {
            use_type_invariant(self);
        }
        let ghost xs = self.xs@;
        let ghost ys = self.ys@;
        let ghost m = self.obstacles@;
        let mut edges: Vec<Segment> = Vec::new();
        let mut b: usize = 0;
        while b < self.ys.len()
            invariant
                xs == self.xs@,
                ys == self.ys@,
                m == self.obstacles@,
                strictly_sorted(xs),
                b <= ys.len(),
                forall|s: Segment| #[trigger] edges@.contains(s) <==> (s.orientation == Orientation::Horizontal
                    && ys.take(b as int).contains(s.fixed) && consecutive(xs, s) && m.free_segment(s)),
                strictly_sorted(ys),
                forall|k: int| 0 <= k < edges@.len() ==> (#[trigger] edges@[k]).orientation == Orientation::Horizontal,
                forall|k1: int, k2: int| 0 <= k1 < k2 < edges@.len() ==> #[trigger] edges@[k1] != #[trigger] edges@[k2],
            decreases ys.len() - b,
        {
            let ghost e0 = edges@;
            append_line_edges(self.obstacles, Orientation::Horizontal, self.ys[b], &self.xs, &mut edges);
            proof {
                assert forall|k: int| 0 <= k < edges@.len() implies (#[trigger] edges@[k]).orientation == Orientation::Horizontal by {
                    if k < e0.len() {
                        assert(edges@[k] == e0[k]);
                    }
                }
                assert forall|k1: int, k2: int| 0 <= k1 < k2 < edges@.len() implies #[trigger] edges@[k1] != #[trigger] edges@[k2] by {
                    if k2 < e0.len() {
                        assert(edges@[k1] == e0[k1] && edges@[k2] == e0[k2]);
                    } else if k1 < e0.len() {
                        assert(edges@[k1] == e0[k1]);
                        assert(e0.contains(e0[k1]));
                        let t = choose|t: int| 0 <= t < ys.take(b as int).len() && ys.take(b as int)[t] == e0[k1].fixed;
                        assert(ys[t] < ys[b as int]);
                    }
                }
                lemma_take_push_contains(ys, b as int);
            }
            b = b + 1;
        }
        let ghost hc = edges@.len();
        assert(ys.take(ys.len() as int) =~= ys);
        let mut a: usize = 0;
        while a < self.xs.len()
            invariant
                xs == self.xs@,
                ys == self.ys@,
                m == self.obstacles@,
                strictly_sorted(ys),
                a <= xs.len(),
                forall|s: Segment| #[trigger] edges@.contains(s) <==> (s.orientation == Orientation::Horizontal
                    && ys.contains(s.fixed) && consecutive(xs, s) && m.free_segment(s)) || (s.orientation
                    == Orientation::Vertical && xs.take(a as int).contains(s.fixed) && consecutive(ys, s)
                    && m.free_segment(s)),
                hc <= edges@.len(),
                strictly_sorted(xs),
                forall|k: int| 0 <= k < hc ==> (#[trigger] edges@[k]).orientation == Orientation::Horizontal,
                forall|k: int| hc <= k < edges@.len() ==> (#[trigger] edges@[k]).orientation == Orientation::Vertical,
                forall|k1: int, k2: int| 0 <= k1 < k2 < edges@.len() ==> #[trigger] edges@[k1] != #[trigger] edges@[k2],
            decreases xs.len() - a,
        {
            let ghost e0 = edges@;
            append_line_edges(self.obstacles, Orientation::Vertical, self.xs[a], &self.ys, &mut edges);
            proof {
                assert forall|k: int| 0 <= k < hc implies (#[trigger] edges@[k]).orientation == Orientation::Horizontal by {
                    assert(edges@[k] == e0[k]);
                }
                assert forall|k: int| hc <= k < edges@.len() implies (#[trigger] edges@[k]).orientation == Orientation::Vertical by {
                    if k < e0.len() {
                        assert(edges@[k] == e0[k]);
                    }
                }
                assert forall|k1: int, k2: int| 0 <= k1 < k2 < edges@.len() implies #[trigger] edges@[k1] != #[trigger] edges@[k2] by {
                    if k2 < e0.len() {
                        assert(edges@[k1] == e0[k1] && edges@[k2] == e0[k2]);
                    } else if k1 < e0.len() {
                        assert(edges@[k1] == e0[k1]);
                        if k1 >= hc {
                            assert(e0.contains(e0[k1]));
                            let t = choose|t: int| 0 <= t < xs.take(a as int).len() && xs.take(a as int)[t] == e0[k1].fixed;
                            assert(xs[t] < xs[a as int]);
                        }
                    }
                }
                lemma_take_push_contains(xs, a as int);
            }
            a = a + 1;
        }
        assert(xs.take(xs.len() as int) =~= xs);
        edges
    }
}

impl<'a> Clone for VisibilityGraph<'a> {
    /// A graph over the same obstacles with the same candidate coordinates.
    fn clone(&self) -> (r: Self)
        ensures
            r.model() == self.model(),
            r.xs_spec() == self.xs_spec(),
            r.ys_spec() == self.ys_spec(),
    {
        proof {
            use_type_invariant(self);
        }
        let xs = copy_coords(&self.xs);
        let ys = copy_coords(&self.ys);
        VisibilityGraph { obstacles: self.obstacles, xs, ys }
    }
}

/// A copy of a coordinate list.
fn copy_coords(v: &Vec<Coord>) -> (r: Vec<Coord>)
    ensures
        r@ == v@,
{
    let mut r: Vec<Coord> = Vec::new();
    let mut i: usize = 0;
    while i < v.len()
        invariant
            i <= v@.len(),
            r@ == v@.take(i as int),
        decreases v@.len() - i,
    {
        r.push(v[i]);
        i = i + 1;
        assert(r@ =~= v@.take(i as int));
    }
    assert(v@.take(v@.len() as int) =~= v@);
    r
}

/// One more element of a prefix.
proof fn lemma_take_push_contains(v: Seq<Coord>, b: int)
    requires
        0 <= b < v.len(),
    ensures
        forall|c: Coord| #[trigger] v.take(b + 1).contains(c) <==> v.take(b).contains(c) || c == v[b],
{
    assert forall|c: Coord| #[trigger] v.take(b + 1).contains(c) <==> v.take(b).contains(c) || c == v[b] by {
        if v.take(b + 1).contains(c) {
            let w = v.take(b + 1);
            let t = choose|t: int| 0 <= t < w.len() && w[t] == c;
            if t < b {
                assert(v.take(b)[t] == c);
            }
        }
        if v.take(b).contains(c) {
            let w = v.take(b);
            let t = choose|t: int| 0 <= t < w.len() && w[t] == c;
            assert(v.take(b + 1)[t] == c);
        }
        if c == v[b] {
            assert(v.take(b + 1)[b] == c);
        }
    }
}

/// `s` runs between two consecutive coordinates of `coords`.
pub open spec fn consecutive(coords: Seq<Coord>, s: Segment) -> bool {
    exists|t: int| 0 <= t < coords.len() - 1 && s.from == coords[t] && s.to == #[trigger] coords[t + 1]
}

/// Appends the free segments of orientation `o` at `fixed` between consecutive coordinates.
fn append_line_edges(
    obstacles: &ObstacleSet,
    o: Orientation,
    fixed: Coord,
    coords: &Vec<Coord>,
    edges: &mut Vec<Segment>,
)
    requires
        strictly_sorted(coords@),
    ensures
        forall|s: Segment| #[trigger] final(edges)@.contains(s) <==> old(edges)@.contains(s) || (s.orientation
            == o && s.fixed == fixed && consecutive(coords@, s) && obstacles@.free_segment(s)),
        final(edges)@.len() >= old(edges)@.len(),
        final(edges)@.subrange(0, old(edges)@.len() as int) == old(edges)@,
        forall|k: int|
            old(edges)@.len() <= k < final(edges)@.len() ==> (#[trigger] final(edges)@[k]).orientation == o
                && final(edges)@[k].fixed == fixed,
        forall|k1: int, k2: int|
            old(edges)@.len() <= k1 < k2 < final(edges)@.len() ==> (#[trigger] final(edges)@[k1]).from < (
            #[trigger] final(edges)@[k2]).from,
{
    let ghost e00 = edges@;
    if coords.len() < 2 {
        proof {
            assert forall|z: Segment| !consecutive(coords@, z) by {}
        }
        return;
    }
    let n = coords.len() - 1;
    let mut i: usize = 0;
    proof {
        assert forall|z: Segment| !consecutive(coords@.take(1), z) by {}
    }
    while i < n
        invariant
            strictly_sorted(coords@),
            n == coords@.len() - 1,
            n >= 1,
            i <= n,
            forall|s: Segment| #[trigger] edges@.contains(s) <==> e00.contains(s) || (s.orientation == o
                && s.fixed == fixed && consecutive(coords@.take(i + 1), s) && obstacles@.free_segment(s)),
            edges@.len() >= e00.len(),
            edges@.subrange(0, e00.len() as int) == e00,
            forall|k: int|
                e00.len() <= k < edges@.len() ==> (#[trigger] edges@[k]).orientation == o && edges@[k].fixed == fixed
                    && edges@[k].from < coords@[i as int],
            forall|k1: int, k2: int|
                e00.len() <= k1 < k2 < edges@.len() ==> (#[trigger] edges@[k1]).from < (#[trigger] edges@[k2]).from,
        decreases n - i,
    {
        let s = Segment::new(o, fixed, coords[i], coords[i + 1]);
        let ghost e0 = edges@;
        proof {
            assert(coords@[i as int] < coords@[i + 1]);
        }
        let free = obstacles.is_free_segment(&s);
        if free {
            edges.push(s);
        }
        proof {
            let c0 = coords@.take(i + 1);
            let c1 = coords@.take(i + 2);
            assert(s.from == coords@[i as int] && s.to == coords@[i + 1]);
            assert forall|z: Segment| consecutive(c1, z) <==> consecutive(c0, z) || (z.from == coords@[i as int]
                && z.to == coords@[i + 1]) by {
                if consecutive(c1, z) {
                    let t = choose|t: int| 0 <= t < c1.len() - 1 && z.from == c1[t] && z.to == #[trigger] c1[t + 1];
                    if t < i {
                        assert(c0[t] == c1[t] && c0[t + 1] == c1[t + 1]);
                    }
                }
                if consecutive(c0, z) {
                    let t = choose|t: int| 0 <= t < c0.len() - 1 && z.from == c0[t] && z.to == #[trigger] c0[t + 1];
                    assert(c1[t] == c0[t] && c1[t + 1] == c0[t + 1]);
                }
                if z.from == coords@[i as int] && z.to == coords@[i + 1] {
                    assert(c1[i as int] == z.from && c1[i + 1] == z.to);
                }
            }
            assert forall|z: Segment| #[trigger] edges@.contains(z) <==> e0.contains(z) || (free && z == s) by {
                if edges@.contains(z) && !e0.contains(z) {
                    let t = choose|t: int| 0 <= t < edges@.len() && edges@[t] == z;
                    if t < e0.len() {
                        assert(e0[t] == z);
                    }
                }
                if e0.contains(z) {
                    let t = choose|t: int| 0 <= t < e0.len() && e0[t] == z;
                    assert(edges@[t] == z);
                }
                if free && z == s {
                    assert(edges@[edges@.len() - 1] == s);
                }
            }
        }
        i = i + 1;
    }
    proof {
        assert(coords@.take(i + 1) =~= coords@);
    }
}

/// `a` leaves the A* queue before `b`: smaller estimate first, then the
/// larger cost so far (deeper first), then the smaller state number.
pub open spec fn pops_before(a: (Coord, Coord, usize), b: (Coord, Coord, usize)) -> bool {
    ||| a.0 < b.0
    ||| a.0 == b.0 && a.1 > b.1
    ||| a.0 == b.0 && a.1 == b.1 && a.2 < b.2
}

/// The queue is kept so that its last entry leaves first.
pub open spec fn queue_sorted(v: Seq<(Coord, Coord, usize)>) -> bool {
    forall|i: int, j: int| 0 <= i < j < v.len() ==> !pops_before(#[trigger] v[i], #[trigger] v[j])
}

/// Does `a` leave the queue before `b`?
fn pops_before_exec(a: (Coord, Coord, usize), b: (Coord, Coord, usize)) -> (r: bool)
    ensures
        r == pops_before(a, b),
{
    a.0 < b.0 || (a.0 == b.0 && a.1 > b.1) || (a.0 == b.0 && a.1 == b.1 && a.2 < b.2)
}

/// Puts an entry into the A* queue, behind every entry that leaves before it.
fn queue_push(open: &mut Vec<(Coord, Coord, usize)>, e: (Coord, Coord, usize))
    requires
        queue_sorted(old(open)@),
    ensures
        queue_sorted(final(open)@),
        final(open)@.len() == old(open)@.len() + 1,
        forall|x: (Coord, Coord, usize)| #[trigger] final(open)@.contains(x) <==> old(open)@.contains(x) || x == e,
{
    let mut lo: usize = 0;
    let mut hi: usize = open.len();
    while lo < hi
        invariant
            queue_sorted(open@),
            lo <= hi <= open@.len(),
            forall|i: int| 0 <= i < lo ==> !pops_before(#[trigger] open@[i], e),
            forall|i: int| hi <= i < open@.len() ==> pops_before(#[trigger] open@[i], e),
        decreases hi - lo,
    {
        let mid = lo + (hi - lo) / 2;
        if pops_before_exec(open[mid], e) {
            proof {
                assert forall|i: int| mid <= i < open@.len() implies pops_before(#[trigger] open@[i], e) by {
                    if i > mid {
                        assert(!pops_before(open@[mid as int], open@[i]));
                    }
                }
            }
            hi = mid;
        } else {
            proof {
                assert forall|i: int| 0 <= i < mid + 1 implies !pops_before(#[trigger] open@[i], e) by {
                    if i < mid {
                        assert(!pops_before(open@[i], open@[mid as int]));
                    }
                }
            }
            lo = mid + 1;
        }
    }
    let ghost v0 = open@;
    open.insert(lo, e);
    proof {
        assert forall|i: int, j: int| 0 <= i < j < open@.len() implies !pops_before(#[trigger] open@[i], #[trigger] open@[j]) by {
            if i < lo && j < lo {
                assert(open@[i] == v0[i] && open@[j] == v0[j]);
            } else if i < lo && j == lo {
            } else if i < lo {
                assert(open@[i] == v0[i] && open@[j] == v0[j - 1]);
            } else if i == lo {
                assert(open@[j] == v0[j - 1]);
                assert(pops_before(v0[j - 1], e));
            } else {
                assert(open@[i] == v0[i - 1] && open@[j] == v0[j - 1]);
            }
        }
        assert forall|x: (Coord, Coord, usize)| #[trigger] open@.contains(x) <==> v0.contains(x) || x == e by {
            if open@.contains(x) {
                let t = choose|t: int| 0 <= t < open@.len() && open@[t] == x;
                if t < lo {
                    assert(v0[t] == x);
                } else if t > lo {
                    assert(v0[t - 1] == x);
                }
            }
            if v0.contains(x) {
                let t = choose|t: int| 0 <= t < v0.len() && v0[t] == x;
                if t < lo {
                    assert(open@[t] == x);
                } else {
                    assert(open@[t + 1] == x);
                }
            }
            if x == e {
                assert(open@[lo as int] == e);
            }
        }
    }
}

/// Takes the entry that leaves first out of the A* queue.
fn queue_pop(open: &mut Vec<(Coord, Coord, usize)>) -> (r: Option<(Coord, Coord, usize)>)
    requires
        queue_sorted(old(open)@),
    ensures
        queue_sorted(final(open)@),
        r is None ==> old(open)@.len() == 0 && final(open)@ == old(open)@,
        r matches Some(e) ==> {
            &&& old(open)@ == final(open)@.push(e)
            &&& forall|x: (Coord, Coord, usize)| #[trigger] final(open)@.contains(x) ==> !pops_before(x, e)
        },
{
    let ghost v0 = open@;
    let r = open.pop();
    proof {
        if let Some(e) = r {
            assert(v0 =~= open@.push(e));
            assert forall|x: (Coord, Coord, usize)| #[trigger] open@.contains(x) implies !pops_before(x, e) by {
                let t = choose|t: int| 0 <= t < open@.len() && open@[t] == x;
                assert(v0[t] == x);
                assert(v0[v0.len() - 1] == e);
            }
            assert forall|i: int, j: int| 0 <= i < j < open@.len() implies !pops_before(#[trigger] open@[i], #[trigger] open@[j]) by {
                assert(open@[i] == v0[i] && open@[j] == v0[j]);
            }
        }
    }
    r
}

/// The dense number of the search state at node `(i, j)` reached along `axis`
/// (0 horizontal, 1 vertical, 2 at the start).
pub open spec fn state_key(ny: int, i: int, j: int, axis: int) -> int {
    (i * ny + j) * 3 + axis
}

/// Column of a state.
pub open spec fn state_i(ny: int, k: int) -> int {
    (k / 3) / ny
}

/// Row of a state.
pub open spec fn state_j(ny: int, k: int) -> int {
    (k / 3) % ny
}

/// The grid point of a state.
pub open spec fn state_point(xs: Seq<Coord>, ys: Seq<Coord>, k: int) -> Point {
    Point { x: xs[state_i(ys.len() as int, k)], y: ys[state_j(ys.len() as int, k)] }
}

/// Numbering and un-numbering of states agree.
proof fn lemma_state_key(nx: int, ny: int, i: int, j: int, axis: int)
    requires
        0 <= i < nx,
        0 <= j < ny,
        0 <= axis < 3,
    ensures
        0 <= state_key(ny, i, j, axis) < nx * ny * 3,
        state_i(ny, state_key(ny, i, j, axis)) == i,
        state_j(ny, state_key(ny, i, j, axis)) == j,
        state_key(ny, i, j, axis) % 3 == axis,
{
    let node = i * ny + j;
    assert(0 <= i * ny) by (nonlinear_arith)
        requires
            0 <= i,
            0 < ny,
    ;
    assert(node < nx * ny) by (nonlinear_arith)
        requires
            0 <= i < nx,
            0 <= j < ny,
            node == i * ny + j,
    ;
    assert(node * 3 + axis < nx * ny * 3) by (nonlinear_arith)
        requires
            node < nx * ny,
            0 <= axis < 3,
    ;
    vstd::arithmetic::div_mod::lemma_fundamental_div_mod_converse(node * 3 + axis, 3, node, axis);
    vstd::arithmetic::div_mod::lemma_fundamental_div_mod_converse(node, ny, i, j);
}

/// Every state number names a node of the grid.
proof fn lemma_state_range(nx: int, ny: int, k: int)
    requires
        0 < ny,
        0 <= k < nx * ny * 3,
    ensures
        0 <= state_i(ny, k) < nx,
        0 <= state_j(ny, k) < ny,
        0 <= k % 3 < 3,
        k == state_key(ny, state_i(ny, k), state_j(ny, k), k % 3),
{
    let node = k / 3;
    vstd::arithmetic::div_mod::lemma_fundamental_div_mod(k, 3);
    vstd::arithmetic::div_mod::lemma_fundamental_div_mod(node, ny);
    vstd::arithmetic::div_mod::lemma_mod_bound(node, ny);
    vstd::arithmetic::div_mod::lemma_mod_bound(k, 3);
    assert(0 <= node < nx * ny) by (nonlinear_arith)
        requires
            0 <= k < nx * ny * 3,
            k == 3 * node + k % 3,
            0 <= k % 3 < 3,
    ;
    assert(0 <= node / ny < nx) by (nonlinear_arith)
        requires
            0 <= node < nx * ny,
            0 < ny,
            node == ny * (node / ny) + node % ny,
            0 <= node % ny < ny,
    ;
    assert(ny * (node / ny) == (node / ny) * ny) by (nonlinear_arith);
}

/// Sum of a sequence of coordinates.
pub open spec fn total(s: Seq<Coord>) -> int
    decreases s.len(),
{
    if s.len() == 0 {
        0
    } else {
        total(s.drop_last()) + s.last()
    }
}

/// Changing one entry changes the sum by the difference.
proof fn lemma_total_update(s: Seq<Coord>, i: int, v: Coord)
    requires
        0 <= i < s.len(),
    ensures
        total(s.update(i, v)) == total(s) - s[i] + v,
    decreases s.len(),
{
    let t = s.update(i, v);
    if i == s.len() - 1 {
        assert(t.drop_last() =~= s.drop_last());
    } else {
        assert(t.drop_last() =~= s.drop_last().update(i, v));
        lemma_total_update(s.drop_last(), i, v);
    }
}

/// A sum of non-negative entries is non-negative.
proof fn lemma_total_nonneg(s: Seq<Coord>)
    requires
        forall|i: int| 0 <= i < s.len() ==> s[i] >= 0,
    ensures
        total(s) >= 0,
    decreases s.len(),
{
    if s.len() > 0 {
        lemma_total_nonneg(s.drop_last());
    }
}

/// The search may move from state `u` to state `v`: the node of `v` is the
/// next candidate node from the node of `u` along the axis of `v`
/// (0 horizontal, 1 vertical), and the stretch between the two nodes is free.
pub open spec fn graph_step(m: ObstacleModel, xs: Seq<Coord>, ys: Seq<Coord>, u: int, v: int) -> bool {
    let ny = ys.len() as int;
    let pu = state_point(xs, ys, u);
    let pv = state_point(xs, ys, v);
    &&& 0 <= u < xs.len() * ys.len() * 3
    &&& 0 <= v < xs.len() * ys.len() * 3
    &&& v % 3 != 2
    &&& v % 3 == 0 ==> {
        &&& state_j(ny, v) == state_j(ny, u)
        &&& (state_i(ny, v) == state_i(ny, u) + 1 || state_i(ny, v) + 1 == state_i(ny, u))
        &&& m.free_segment(segment_spec(Orientation::Horizontal, pu.y, pu.x, pv.x))
    }
    &&& v % 3 == 1 ==> {
        &&& state_i(ny, v) == state_i(ny, u)
        &&& (state_j(ny, v) == state_j(ny, u) + 1 || state_j(ny, v) + 1 == state_j(ny, u))
        &&& m.free_segment(segment_spec(Orientation::Vertical, pu.x, pu.y, pv.y))
    }
}

/// What a move from `u` to `v` costs: the distance between the nodes plus
/// the bend penalty when the direction changes (the start state has none).
pub open spec fn step_cost(xs: Seq<Coord>, ys: Seq<Coord>, u: int, v: int, penalty: int) -> int {
    manhattan_spec(state_point(xs, ys, u), state_point(xs, ys, v)) + if u % 3 != 2 && u % 3 != v % 3 {
        penalty
    } else {
        0
    }
}

/// The `t`-th move of the walk is a move of the search.
pub open spec fn walk_step(m: ObstacleModel, xs: Seq<Coord>, ys: Seq<Coord>, w: Seq<int>, t: int) -> bool {
    graph_step(m, xs, ys, w[t], w[t + 1])
}

/// A sequence of states joined by moves of the search.
pub open spec fn graph_walk(m: ObstacleModel, xs: Seq<Coord>, ys: Seq<Coord>, w: Seq<int>) -> bool {
    &&& w.len() >= 1
    &&& 0 <= w[0] < xs.len() * ys.len() * 3
    &&& forall|t: int| 0 <= t < w.len() - 1 ==> #[trigger] walk_step(m, xs, ys, w, t)
}

/// The total cost of the moves of a walk.
pub open spec fn walk_cost(xs: Seq<Coord>, ys: Seq<Coord>, w: Seq<int>, penalty: int) -> int
    decreases w.len(),
{
    if w.len() < 2 {
        0
    } else {
        step_cost(xs, ys, w[0], w[1], penalty) + walk_cost(xs, ys, w.drop_first(), penalty)
    }
}

/// A walk of the search from the start state at `a` (the one without a
/// direction) to a state at `b`.
pub open spec fn route_walk(m: ObstacleModel, xs: Seq<Coord>, ys: Seq<Coord>, a: Point, b: Point, w: Seq<int>) -> bool {
    &&& graph_walk(m, xs, ys, w)
    &&& w[0] % 3 == 2
    &&& state_point(xs, ys, w[0]) == a
    &&& state_point(xs, ys, w.last()) == b
}

/// The A* estimate of a state: its heuristic towards `b`.
pub open spec fn state_h(xs: Seq<Coord>, ys: Seq<Coord>, k: int, b: Point, penalty: Coord) -> int {
    heuristic_spec(state_point(xs, ys, k).x, state_point(xs, ys, k).y, k % 3, b, penalty)
}

/// `ng + h`, saturating at the largest coordinate.
pub open spec fn estimate_spec(ng: int, h: int) -> int {
    if ng + h > Coord::MAX {
        Coord::MAX as int
    } else {
        ng + h
    }
}

/// Splitting a walk at position `i` splits its cost.
proof fn lemma_walk_cost_split(xs: Seq<Coord>, ys: Seq<Coord>, w: Seq<int>, penalty: int, i: int)
    requires
        0 <= i < w.len(),
    ensures
        walk_cost(xs, ys, w, penalty) == walk_cost(xs, ys, w.take(i + 1), penalty) + walk_cost(
            xs,
            ys,
            w.skip(i),
            penalty,
        ),
    decreases i,
{
    if i == 0 {
        assert(w.skip(0) =~= w);
        assert(w.take(1).len() == 1);
    } else {
        let d = w.drop_first();
        lemma_walk_cost_split(xs, ys, d, penalty, i - 1);
        assert(d.take(i) =~= w.take(i + 1).drop_first());
        assert(d.skip(i - 1) =~= w.skip(i));
        assert(w.take(i + 1)[0] == w[0] && w.take(i + 1)[1] == w[1]);
    }
}

/// A walk with non-negative penalty costs at least nothing.
proof fn lemma_walk_cost_nonneg(xs: Seq<Coord>, ys: Seq<Coord>, w: Seq<int>, penalty: int)
    requires
        penalty >= 0,
    ensures
        walk_cost(xs, ys, w, penalty) >= 0,
    decreases w.len(),
{
    if w.len() >= 2 {
        lemma_walk_cost_nonneg(xs, ys, w.drop_first(), penalty);
    }
}

/// The heuristic never drops by more than the cost of a move.
proof fn lemma_consistent(
    m: ObstacleModel,
    xs: Seq<Coord>,
    ys: Seq<Coord>,
    u: int,
    v: int,
    b: Point,
    penalty: Coord,
)
    requires
        graph_step(m, xs, ys, u, v),
        penalty >= 0,
        ys.len() > 0,
    ensures
        state_h(xs, ys, u, b, penalty) <= step_cost(xs, ys, u, v, penalty as int) + state_h(xs, ys, v, b, penalty),
{
    let ny = ys.len() as int;
    lemma_state_range(xs.len() as int, ny, u);
    lemma_state_range(xs.len() as int, ny, v);
}

/// Along a walk the heuristic drops by at most the cost of the walk.
proof fn lemma_admissible(
    m: ObstacleModel,
    xs: Seq<Coord>,
    ys: Seq<Coord>,
    w: Seq<int>,
    b: Point,
    penalty: Coord,
)
    requires
        graph_walk(m, xs, ys, w),
        penalty >= 0,
        ys.len() > 0,
    ensures
        state_h(xs, ys, w[0], b, penalty) <= walk_cost(xs, ys, w, penalty as int) + state_h(xs, ys, w.last(), b, penalty),
    decreases w.len(),
{
    if w.len() >= 2 {
        let d = w.drop_first();
        assert(walk_step(m, xs, ys, w, 0));
        assert forall|t: int| 0 <= t < d.len() - 1 implies #[trigger] walk_step(m, xs, ys, d, t) by {
            assert(walk_step(m, xs, ys, w, t + 1));
        }
        lemma_admissible(m, xs, ys, d, b, penalty);
        lemma_consistent(m, xs, ys, w[0], w[1], b, penalty);
    }
}

/// State `k` has a reached predecessor of smaller cost, at least the distance
/// between the two nodes cheaper, joined to it by a free stretch.
pub open spec fn linked(
    m: ObstacleModel,
    xs: Seq<Coord>,
    ys: Seq<Coord>,
    g: Seq<Coord>,
    parent: Seq<usize>,
    k: int,
) -> bool {
    let p = parent[k] as int;
    &&& 0 <= p < xs.len() * ys.len() * 3
    &&& g[p] != Coord::MAX
    &&& g[p] < g[k]
    &&& g[p] + manhattan_spec(state_point(xs, ys, p), state_point(xs, ys, k)) <= g[k]
    &&& free_between(m, state_point(xs, ys, p), state_point(xs, ys, k))
}

/// What A* keeps true: every reached state lies on a free node, has a
/// non-negative cost and (except the start) a reached predecessor of smaller
/// cost joined to it by a free stretch; queue entries name reached states and
/// carry a cost no smaller than the state's.
pub open spec fn search_inv(
    m: ObstacleModel,
    xs: Seq<Coord>,
    ys: Seq<Coord>,
    s0: int,
    g: Seq<Coord>,
    parent: Seq<usize>,
    open: Seq<(Coord, Coord, usize)>,
) -> bool {
    let n = xs.len() * ys.len() * 3;
    &&& g.len() == n
    &&& parent.len() == n
    &&& 0 <= s0 < n
    &&& g[s0] == 0
    &&& parent[s0] == usize::MAX
    &&& queue_sorted(open)
    &&& forall|k: int| 0 <= k < n ==> #[trigger] g[k] >= 0
    &&& forall|k: int| 0 <= k < n && g[k] != Coord::MAX ==> m.free_point(#[trigger] state_point(xs, ys, k))
    &&& forall|k: int| 0 <= k < n && g[k] != Coord::MAX && k != s0 ==> #[trigger] linked(m, xs, ys, g, parent, k)
    &&& forall|t: int| 0 <= t < open.len() ==> {
        let e = #[trigger] open[t];
        &&& (e.2 as int) < n
        &&& g[e.2 as int] != Coord::MAX
        &&& g[e.2 as int] <= e.1
    }
}

/// Position of `c` in a strictly increasing vector, by binary search.
fn find_coord(v: &Vec<Coord>, c: Coord) -> (r: Option<usize>)
    requires
        strictly_sorted(v@),
    ensures
        r matches Some(i) ==> i < v@.len() && v@[i as int] == c,
        r is None ==> !v@.contains(c),
{
    let mut lo: usize = 0;
    let mut hi: usize = v.len();
    while lo < hi
        invariant
            strictly_sorted(v@),
            lo <= hi <= v@.len(),
            forall|i: int| 0 <= i < lo ==> #[trigger] v@[i] < c,
            forall|i: int| hi <= i < v@.len() ==> #[trigger] v@[i] > c,
        decreases hi - lo,
    {
        let mid = lo + (hi - lo) / 2;
        if v[mid] == c {
            return Some(mid);
        } else if v[mid] < c {
            lo = mid + 1;
        } else {
            hi = mid;
        }
    }
    proof {
        if v@.contains(c) {
            let t = choose|t: int| 0 <= t < v@.len() && v@[t] == c;
            assert(v@[t] == c);
        }
    }
    None
}

/// Lower bound of the remaining cost from `(x, y)` to `b` when the last move
/// ran along `axis`: the Manhattan distance plus one bend penalty if a bend is
/// unavoidable; it saturates at the largest coordinate.
pub open spec fn heuristic_spec(x: Coord, y: Coord, axis: int, b: Point, penalty: Coord) -> int {
    let dx = if x >= b.x { x - b.x } else { b.x - x };
    let dy = if y >= b.y { y - b.y } else { b.y - y };
    let bends = if dx > 0 && dy > 0 {
        1int
    } else if (dx > 0 && axis == 1) || (dy > 0 && axis == 0) {
        1int
    } else {
        0int
    };
    let h = dx + dy + bends * penalty;
    if h > Coord::MAX {
        Coord::MAX as int
    } else {
        h
    }
}

/// The A* estimate of the remaining cost; see [`heuristic_spec`].
fn heuristic(x: Coord, y: Coord, axis: usize, b: Point, penalty: Coord) -> (r: Coord)
    requires
        penalty >= 0,
    ensures
        r == heuristic_spec(x, y, axis as int, b, penalty),
        r >= 0,
{
    let dx: i128 = if x >= b.x {
        x as i128 - b.x as i128
    } else {
        b.x as i128 - x as i128
    };
    let dy: i128 = if y >= b.y {
        y as i128 - b.y as i128
    } else {
        b.y as i128 - y as i128
    };
    let bends: i128 = if dx > 0 && dy > 0 {
        1
    } else if (dx > 0 && axis == 1) || (dy > 0 && axis == 0) {
        1
    } else {
        0
    };
    let h = dx + dy + bends * (penalty as i128);
    if h > Coord::MAX as i128 {
        Coord::MAX
    } else {
        h as Coord
    }
}

/// `ng + h`, saturating at the largest coordinate.
fn estimate(ng: Coord, h: Coord) -> (r: Coord)
    requires
        ng >= 0,
        h >= 0,
    ensures
        r == (if ng + h > Coord::MAX {
            Coord::MAX as int
        } else {
            ng + h
        }),
{
    if ng > Coord::MAX - h {
        Coord::MAX
    } else {
        ng + h
    }
}

/// Every move out of `u` has been relaxed: it would not lower the cost of its
/// target, unless that cost would not fit in a coordinate.
pub open spec fn settled(m: ObstacleModel, xs: Seq<Coord>, ys: Seq<Coord>, g: Seq<Coord>, u: int, penalty: Coord) -> bool {
    forall|v: int|
        #[trigger] graph_step(m, xs, ys, u, v) ==> g[v] <= g[u] + step_cost(xs, ys, u, v, penalty as int) || g[u]
            + step_cost(xs, ys, u, v, penalty as int) >= Coord::MAX
}

/// The queue holds an entry for `u` carrying its current cost.
pub open spec fn queued(open: Seq<(Coord, Coord, usize)>, g: Seq<Coord>, u: int) -> bool {
    exists|t: int| 0 <= t < open.len() && open[t].2 as int == u && #[trigger] open[t].1 == g[u]
}

/// A queue entry carries the estimate of its cost.
pub open spec fn entry_ok(xs: Seq<Coord>, ys: Seq<Coord>, e: (Coord, Coord, usize), b: Point, penalty: Coord) -> bool {
    e.0 == estimate_spec(e.1 as int, state_h(xs, ys, e.2 as int, b, penalty))
}

/// The predecessor of `k` reaches it in one move, and the cost of `k` covers
/// the cost of its predecessor plus that move.
pub open spec fn chain_ok(
    m: ObstacleModel,
    xs: Seq<Coord>,
    ys: Seq<Coord>,
    g: Seq<Coord>,
    parent: Seq<usize>,
    k: int,
    penalty: Coord,
) -> bool {
    let p = parent[k] as int;
    &&& graph_step(m, xs, ys, p, k)
    &&& g[p] + step_cost(xs, ys, p, k, penalty as int) <= g[k]
}

/// What A* keeps true besides [`search_inv`]: queue entries carry their
/// estimates, predecessors are moves that the costs account for, and every
/// reached state has a queue entry with its current cost or has been expanded
/// (and then is no state at `b`); `pending`, just taken off the queue, may be
/// neither.
pub open spec fn astar_inv(
    m: ObstacleModel,
    xs: Seq<Coord>,
    ys: Seq<Coord>,
    s0: int,
    g: Seq<Coord>,
    parent: Seq<usize>,
    open: Seq<(Coord, Coord, usize)>,
    b: Point,
    penalty: Coord,
    pending: Option<int>,
) -> bool {
    let n = xs.len() * ys.len() * 3;
    &&& forall|t: int| 0 <= t < open.len() ==> #[trigger] entry_ok(xs, ys, open[t], b, penalty)
    &&& forall|k: int| 0 <= k < n && g[k] != Coord::MAX && k != s0 ==> #[trigger] chain_ok(m, xs, ys, g, parent, k, penalty)
    &&& forall|u: int|
        0 <= u < n && g[u] != Coord::MAX && pending != Some(u) ==> #[trigger] queued(open, g, u) || (settled(
            m,
            xs,
            ys,
            g,
            u,
            penalty,
        ) && state_point(xs, ys, u) != b)
}

/// The grid points a walk passes, in order.
pub open spec fn walk_points(xs: Seq<Coord>, ys: Seq<Coord>, w: Seq<int>) -> Seq<Point> {
    w.map_values(|k: int| state_point(xs, ys, k))
}

/// The direction of a move along an axis.
pub open spec fn axis_dir(axis: int) -> Orientation {
    if axis == 0 {
        Orientation::Horizontal
    } else {
        Orientation::Vertical
    }
}

/// A move joins two different points, in the direction of its axis.
proof fn lemma_step_dir(m: ObstacleModel, xs: Seq<Coord>, ys: Seq<Coord>, u: int, v: int)
    requires
        graph_step(m, xs, ys, u, v),
        strictly_sorted(xs),
        strictly_sorted(ys),
    ensures
        state_point(xs, ys, u) != state_point(xs, ys, v),
        crate::refine::stretch_dir(state_point(xs, ys, u), state_point(xs, ys, v)) == axis_dir(v % 3),
{
    let ny = ys.len() as int;
    let nx = xs.len() as int;
    assert(ny > 0) by (nonlinear_arith)
        requires
            0 <= u < nx * ny * 3,
            nx >= 0,
            ny >= 0,
    ;
    lemma_state_range(nx, ny, u);
    lemma_state_range(nx, ny, v);
    let (iu, iv) = (state_i(ny, u), state_i(ny, v));
    let (ju, jv) = (state_j(ny, u), state_j(ny, v));
    if iu < iv {
        assert(xs[iu] < xs[iv]);
    } else if iv < iu {
        assert(xs[iv] < xs[iu]);
    }
    if ju < jv {
        assert(ys[ju] < ys[jv]);
    } else if jv < ju {
        assert(ys[jv] < ys[ju]);
    }
}

/// The cost of a walk is the length of the polyline through its points plus
/// one penalty per bend, plus one more if its first state has a direction
/// that the first move leaves.
proof fn lemma_walk_cost_exact(m: ObstacleModel, xs: Seq<Coord>, ys: Seq<Coord>, w: Seq<int>, penalty: Coord)
    requires
        graph_walk(m, xs, ys, w),
        strictly_sorted(xs),
        strictly_sorted(ys),
    ensures
        walk_cost(xs, ys, w, penalty as int) == crate::refine::path_length(walk_points(xs, ys, w)) + penalty
            * crate::refine::bends(walk_points(xs, ys, w)) + if w.len() >= 2 && w[0] % 3 != 2 && w[0] % 3 != w[1]
            % 3 {
            penalty as int
        } else {
            0int
        },
    decreases w.len(),
{
    let pts = walk_points(xs, ys, w);
    if w.len() >= 2 {
        let d = w.drop_first();
        assert(walk_step(m, xs, ys, w, 0));
        assert forall|t: int| 0 <= t < d.len() - 1 implies #[trigger] walk_step(m, xs, ys, d, t) by {
            assert(walk_step(m, xs, ys, w, t + 1));
        }
        lemma_walk_cost_exact(m, xs, ys, d, penalty);
        let rest = walk_points(xs, ys, d);
        assert(pts =~= seq![pts[0]] + rest);
        crate::refine::lemma_path_length_concat(seq![pts[0]], rest);
        assert(seq![pts[0]].len() == 1);
        lemma_step_dir(m, xs, ys, w[0], w[1]);
        crate::refine::lemma_dirs_split(pts, 1);
        assert(pts.skip(1) =~= rest);
        assert(pts.take(2) =~= seq![pts[0], pts[1]]);
        assert(seq![pts[0], pts[1]].drop_last() =~= seq![pts[0]]);
        assert(crate::refine::dirs(seq![pts[0]]) =~= Seq::<Orientation>::empty());
        let first = crate::refine::dirs(pts.take(2));
        assert(first =~= seq![axis_dir(w[1] % 3)]);
        crate::refine::lemma_turns_concat(first, crate::refine::dirs(rest));
        if d.len() >= 2 {
            assert(walk_step(m, xs, ys, d, 0));
            lemma_step_dir(m, xs, ys, d[0], d[1]);
            crate::refine::lemma_dirs_split(rest, 1);
            assert(rest.take(2) =~= seq![rest[0], rest[1]]);
            assert(seq![rest[0], rest[1]].drop_last() =~= seq![rest[0]]);
            assert(crate::refine::dirs(seq![rest[0]]) =~= Seq::<Orientation>::empty());
            assert(crate::refine::dirs(rest)[0] == axis_dir(d[1] % 3));
        } else {
            assert(crate::refine::dirs(rest) =~= Seq::<Orientation>::empty());
        }
        let bp = crate::refine::bends(pts) as int;
        let br = crate::refine::bends(rest) as int;
        let t: int = if d.len() >= 2 && d[0] % 3 != d[1] % 3 {
            1
        } else {
            0
        };
        assert(bp == br + t);
        let pi = penalty as int;
        assert(pi * bp == pi * br + pi * t) by (nonlinear_arith)
            requires
                bp == br + t,
        ;
        assert(walk_cost(xs, ys, w, pi) == step_cost(xs, ys, w[0], w[1], pi) + walk_cost(xs, ys, d, pi));
        assert(crate::refine::path_length(pts) == manhattan_spec(pts[0], rest[0]) + crate::refine::path_length(rest));
        assert(rest[0] == pts[1]);
        assert(d[0] % 3 != 2);
        assert(pi * t == if d.len() >= 2 && d[0] % 3 != 2 && d[0] % 3 != d[1] % 3 { pi } else { 0 });
    } else {
        assert(crate::refine::dirs(pts) =~= Seq::<Orientation>::empty());
        assert(crate::refine::bends(pts) == 0);
    }
}

/// The grid point of the node in column `i` and row `j`.
pub open spec fn node_point(xs: Seq<Coord>, ys: Seq<Coord>, i: int, j: int) -> Point {
    Point { x: xs[i], y: ys[j] }
}

/// Walking a free straight stretch from the node of state `u` to the node in
/// column (axis 0) or row (axis 1) `t`, one neighbouring node at a time, costs
/// the length of the stretch plus a bend penalty if `u` was reached along the
/// other axis.
proof fn lemma_straight_walk(
    m: ObstacleModel,
    xs: Seq<Coord>,
    ys: Seq<Coord>,
    u: int,
    ax: int,
    t: int,
    penalty: Coord,
) -> (run: Seq<int>)
    requires
        m.wf(),
        strictly_sorted(xs),
        strictly_sorted(ys),
        0 <= u < xs.len() * ys.len() * 3,
        0 <= ax < 2,
        ax == 0 ==> 0 <= t < xs.len() && t != state_i(ys.len() as int, u) && free_between(
            m,
            state_point(xs, ys, u),
            node_point(xs, ys, t, state_j(ys.len() as int, u)),
        ),
        ax == 1 ==> 0 <= t < ys.len() && t != state_j(ys.len() as int, u) && free_between(
            m,
            state_point(xs, ys, u),
            node_point(xs, ys, state_i(ys.len() as int, u), t),
        ),
    ensures
        run.len() >= 1,
        graph_walk(m, xs, ys, seq![u] + run),
        run.last() == (if ax == 0 {
            state_key(ys.len() as int, t, state_j(ys.len() as int, u), 0)
        } else {
            state_key(ys.len() as int, state_i(ys.len() as int, u), t, 1)
        }),
        walk_cost(xs, ys, seq![u] + run, penalty as int) == manhattan_spec(
            state_point(xs, ys, u),
            state_point(xs, ys, run.last()),
        ) + if u % 3 != 2 && u % 3 != ax {
            penalty as int
        } else {
            0int
        },
    decreases crate::geometry::abs_int(
        t - if ax == 0 {
            state_i(ys.len() as int, u)
        } else {
            state_j(ys.len() as int, u)
        },
    ),
{
    let ny = ys.len() as int;
    let nx = xs.len() as int;
    assert(ny > 0) by (nonlinear_arith)
        requires
            0 <= u < nx * ny * 3,
            nx >= 0,
            ny >= 0,
    ;
    lemma_state_range(nx, ny, u);
    let (i, j) = (state_i(ny, u), state_j(ny, u));
    let pu = state_point(xs, ys, u);
    let cur = if ax == 0 {
        i
    } else {
        j
    };
    let next = if t > cur {
        cur + 1
    } else {
        cur - 1
    };
    let (ni, nj) = if ax == 0 {
        (next, j)
    } else {
        (i, next)
    };
    let v = state_key(ny, ni, nj, ax);
    lemma_state_key(nx, ny, ni, nj, ax);
    let pv = state_point(xs, ys, v);
    let target = if ax == 0 {
        node_point(xs, ys, t, j)
    } else {
        node_point(xs, ys, i, t)
    };
    if ax == 0 {
        if next < t {
            assert(xs[next] < xs[t]);
        } else if next > t {
            assert(xs[t] < xs[next]);
        }
        if i < next {
            assert(xs[i] < xs[next]);
        } else {
            assert(xs[next] < xs[i]);
        }
    } else {
        if next < t {
            assert(ys[next] < ys[t]);
        } else if next > t {
            assert(ys[t] < ys[next]);
        }
        if j < next {
            assert(ys[j] < ys[next]);
        } else {
            assert(ys[next] < ys[j]);
        }
    }
    assert(on_between(pu, target, pu));
    assert(on_between(pu, target, pv));
    assert(on_between(pu, target, target));
    crate::refine::lemma_free_between_sub(m, pu, target, pu, pv);
    crate::refine::lemma_free_segment_iff(m, pu, pv);
    assert(graph_step(m, xs, ys, u, v));
    if next == t {
        let run = seq![v];
        let w = seq![u] + run;
        assert(w =~= seq![u, v]);
        assert(walk_step(m, xs, ys, w, 0));
        assert(w.drop_first() =~= seq![v]);
        assert(walk_cost(xs, ys, seq![v], penalty as int) == 0);
        assert(state_point(xs, ys, run.last()) == pv);
        run
    } else {
        crate::refine::lemma_free_between_sub(m, pu, target, pv, target);
        let rest = lemma_straight_walk(m, xs, ys, v, ax, t, penalty);
        let run = seq![v] + rest;
        let w = seq![u] + run;
        assert(w.drop_first() =~= seq![v] + rest);
        assert(w[1] == v);
        assert(walk_step(m, xs, ys, w, 0));
        assert forall|k: int| 0 <= k < w.len() - 1 implies #[trigger] walk_step(m, xs, ys, w, k) by {
            if k > 0 {
                assert(walk_step(m, xs, ys, seq![v] + rest, k - 1));
            }
        }
        assert(run.last() == rest.last());
        if ax == 0 {
            lemma_state_key(nx, ny, t, j, 0);
        } else {
            lemma_state_key(nx, ny, i, t, 1);
        }
        assert(state_point(xs, ys, rest.last()) == target);
        assert(walk_cost(xs, ys, w, penalty as int) == step_cost(xs, ys, u, v, penalty as int) + walk_cost(
            xs,
            ys,
            seq![v] + rest,
            penalty as int,
        ));
        run
    }
}

/// A clean free rectilinear polyline through grid nodes is the trace of a
/// walk from the start state at its first corner that costs its length plus
/// one penalty per bend.
proof fn lemma_path_walk(m: ObstacleModel, xs: Seq<Coord>, ys: Seq<Coord>, p: Seq<Point>, penalty: Coord) -> (w: Seq<int>)
    requires
        m.wf(),
        strictly_sorted(xs),
        strictly_sorted(ys),
        p.len() >= 1,
        crate::refine::clean(p),
        crate::refine::rectilinear(p),
        crate::refine::chain_free(m, p),
        forall|k: int| 0 <= k < p.len() ==> xs.contains((#[trigger] p[k]).x) && ys.contains(p[k].y),
        xs.len() * ys.len() * 3 <= usize::MAX,
    ensures
        graph_walk(m, xs, ys, w),
        w[0] % 3 == 2,
        state_point(xs, ys, w[0]) == p[0],
        state_point(xs, ys, w.last()) == p.last(),
        p.len() == 1 ==> w.last() % 3 == 2,
        p.len() >= 2 ==> w.last() % 3 != 2 && axis_dir(w.last() % 3) == crate::refine::stretch_dir(
            p[p.len() - 2],
            p.last(),
        ),
        walk_cost(xs, ys, w, penalty as int) == crate::refine::path_length(p) + penalty * crate::refine::bends(p),
    decreases p.len(),
{
    let nx = xs.len() as int;
    let ny = ys.len() as int;
    let n = p.len() as int;
    crate::refine::lemma_clean_bends(p);
    if n == 1 {
        assert(xs.contains(p[0].x) && ys.contains(p[0].y));
        let i0 = choose|i: int| 0 <= i < xs.len() && xs[i] == p[0].x;
        let j0 = choose|j: int| 0 <= j < ys.len() && ys[j] == p[0].y;
        lemma_state_key(nx, ny, i0, j0, 2);
        let w = seq![state_key(ny, i0, j0, 2)];
        assert(crate::refine::bends(p) == 0);
        w
    } else {
        let q = p.drop_last();
        assert(crate::refine::clean(q)) by {
            assert forall|i: int| 0 <= i < q.len() - 1 implies #[trigger] crate::refine::distinct_at(q, i) by {
                assert(crate::refine::distinct_at(p, i));
            }
            assert forall|i: int| 1 <= i < q.len() - 1 implies #[trigger] crate::refine::turn_at(q, i) by {
                assert(crate::refine::turn_at(p, i));
            }
        }
        assert(crate::refine::rectilinear(q)) by {
            assert forall|i: int| 0 <= i < q.len() - 1 implies #[trigger] crate::refine::aligned_at(q, i) by {
                assert(crate::refine::aligned_at(p, i));
            }
        }
        assert(crate::refine::chain_free(m, q)) by {
            assert forall|i: int| 0 <= i < q.len() - 1 implies #[trigger] crate::refine::free_at(m, q, i) by {
                assert(crate::refine::free_at(m, p, i));
            }
        }
        assert forall|k: int| 0 <= k < q.len() implies xs.contains((#[trigger] q[k]).x) && ys.contains(q[k].y) by {
            assert(p[k] == q[k]);
        }
        let wq = lemma_path_walk(m, xs, ys, q, penalty);
        let u = wq.last();
        if wq.len() >= 2 {
            assert(walk_step(m, xs, ys, wq, wq.len() - 2));
        }
        lemma_state_range(nx, ny, u);
        let pu = state_point(xs, ys, u);
        let a = p[n - 2];
        let z = p[n - 1];
        assert(pu == a);
        assert(crate::refine::aligned_at(p, n - 2));
        assert(crate::refine::distinct_at(p, n - 2));
        assert(crate::refine::free_at(m, p, n - 2));
        assert(xs.contains(z.x) && ys.contains(z.y));
        let ax: int = if a.y == z.y {
            0
        } else {
            1
        };
        let t = if ax == 0 {
            choose|i: int| 0 <= i < xs.len() && xs[i] == z.x
        } else {
            choose|j: int| 0 <= j < ys.len() && ys[j] == z.y
        };
        if ax == 0 {
            assert(node_point(xs, ys, t, state_j(ny, u)) == z);
        } else {
            assert(node_point(xs, ys, state_i(ny, u), t) == z);
        }
        let run = lemma_straight_walk(m, xs, ys, u, ax, t, penalty);
        let w = wq + run;
        let uw = seq![u] + run;
        assert(walk_step(m, xs, ys, uw, 0));
        assert forall|k: int| 0 <= k < w.len() - 1 implies #[trigger] walk_step(m, xs, ys, w, k) by {
            if k < wq.len() - 1 {
                assert(walk_step(m, xs, ys, wq, k));
            } else {
                assert(walk_step(m, xs, ys, uw, k - wq.len() + 1));
            }
        }
        lemma_walk_cost_split(xs, ys, w, penalty as int, wq.len() - 1);
        assert(w.take(wq.len() as int) =~= wq);
        assert(w.skip(wq.len() - 1) =~= uw);
        assert(q.push(z) =~= p);
        crate::refine::lemma_path_length_push(q, z);
        if ax == 0 {
            lemma_state_key(nx, ny, t, state_j(ny, u), 0);
        } else {
            lemma_state_key(nx, ny, state_i(ny, u), t, 1);
        }
        assert(state_point(xs, ys, run.last()) == z);
        crate::refine::lemma_clean_bends(q);
        let bp = crate::refine::bends(p) as int;
        let bq = crate::refine::bends(q) as int;
        let pi = penalty as int;
        if n >= 3 {
            assert(crate::refine::turn_at(p, n - 2));
            assert(crate::refine::aligned_at(p, n - 3));
            assert(u % 3 != ax);
            assert(bp == bq + 1);
            assert(pi * bp == pi * bq + pi) by (nonlinear_arith)
                requires
                    bp == bq + 1,
            ;
        } else {
            assert(u % 3 == 2);
        }
        w
    }
}

/// The points a walk passes are grid nodes.
proof fn lemma_walk_points_on_grid(m: ObstacleModel, xs: Seq<Coord>, ys: Seq<Coord>, w: Seq<int>)
    requires
        graph_walk(m, xs, ys, w),
    ensures
        forall|k: int|
            0 <= k < w.len() ==> xs.contains((#[trigger] walk_points(xs, ys, w)[k]).x) && ys.contains(
                walk_points(xs, ys, w)[k].y,
            ),
{
    let nx = xs.len() as int;
    let ny = ys.len() as int;
    let w0 = w[0];
    assert(ny > 0) by (nonlinear_arith)
        requires
            0 <= w0 < nx * ny * 3,
            nx >= 0,
            ny >= 0,
    ;
    assert forall|k: int| 0 <= k < w.len() implies xs.contains((#[trigger] walk_points(xs, ys, w)[k]).x) && ys.contains(
        walk_points(xs, ys, w)[k].y,
    ) by {
        if k > 0 {
            assert(walk_step(m, xs, ys, w, k - 1));
        }
        lemma_state_range(nx, ny, w[k]);
        assert(walk_points(xs, ys, w)[k] == state_point(xs, ys, w[k]));
        assert(xs[state_i(ny, w[k])] == walk_points(xs, ys, w)[k].x);
        assert(ys[state_j(ny, w[k])] == walk_points(xs, ys, w)[k].y);
    }
}

/// Following a walk from the start up to position `j`, either the walk gets
/// too expensive to be recorded, or some state on it has a queue entry with a
/// cost no larger than the walk up to there, or all states before `j` have
/// been expanded and the cost of `w[j]` is no larger than the walk up to it.
proof fn lemma_first_open(
    m: ObstacleModel,
    xs: Seq<Coord>,
    ys: Seq<Coord>,
    s0: int,
    g: Seq<Coord>,
    parent: Seq<usize>,
    open: Seq<(Coord, Coord, usize)>,
    b: Point,
    penalty: Coord,
    w: Seq<int>,
    j: int,
) -> (i: int)
    requires
        search_inv(m, xs, ys, s0, g, parent, open),
        astar_inv(m, xs, ys, s0, g, parent, open, b, penalty, None),
        graph_walk(m, xs, ys, w),
        w[0] == s0,
        0 <= j < w.len(),
        penalty >= 0,
    ensures
        0 <= i <= j,
        walk_cost(xs, ys, w.take(i + 1), penalty as int) >= Coord::MAX || (g[w[i]] <= walk_cost(
            xs,
            ys,
            w.take(i + 1),
            penalty as int,
        ) && (queued(open, g, w[i]) || i == j)),
    decreases j,
{
    if j == 0 {
        assert(w.take(1).len() == 1);
        0
    } else {
        let i0 = lemma_first_open(m, xs, ys, s0, g, parent, open, b, penalty, w, j - 1);
        let pre = walk_cost(xs, ys, w.take(i0 + 1), penalty as int);
        if pre >= Coord::MAX || queued(open, g, w[i0]) {
            i0
        } else {
            assert(i0 == j - 1);
            let u = w[j - 1];
            let v = w[j];
            assert(walk_step(m, xs, ys, w, j - 1));
            assert(graph_step(m, xs, ys, u, v));
            assert(queued(open, g, u) || (settled(m, xs, ys, g, u, penalty) && state_point(xs, ys, u) != b));
            assert(settled(m, xs, ys, g, u, penalty));
            let t = w.take(j + 1);
            lemma_walk_cost_split(xs, ys, t, penalty as int, j - 1);
            assert(t.take(j) =~= w.take(j));
            let last = t.skip(j - 1);
            assert(last.len() == 2 && last[0] == u && last[1] == v);
            assert(last.drop_first().len() == 1);
            assert(walk_cost(xs, ys, last.drop_first(), penalty as int) == 0);
            assert(walk_cost(xs, ys, last, penalty as int) == step_cost(xs, ys, u, v, penalty as int));
            j
        }
    }
}

/// A walk that starts in a walk keeps its moves.
proof fn lemma_walk_skip(m: ObstacleModel, xs: Seq<Coord>, ys: Seq<Coord>, w: Seq<int>, i: int)
    requires
        graph_walk(m, xs, ys, w),
        0 <= i < w.len(),
    ensures
        graph_walk(m, xs, ys, w.skip(i)),
        w.skip(i)[0] == w[i],
        w.skip(i).last() == w.last(),
{
    let d = w.skip(i);
    if i > 0 {
        assert(walk_step(m, xs, ys, w, i - 1));
    }
    assert forall|t: int| 0 <= t < d.len() - 1 implies #[trigger] walk_step(m, xs, ys, d, t) by {
        assert(walk_step(m, xs, ys, w, t + i));
    }
}

/// When a state at `b` leaves the queue carrying its cost, no walk from the
/// start to `b` is cheaper.
proof fn lemma_goal_optimal(
    m: ObstacleModel,
    xs: Seq<Coord>,
    ys: Seq<Coord>,
    s0: int,
    g: Seq<Coord>,
    parent: Seq<usize>,
    open: Seq<(Coord, Coord, usize)>,
    e: (Coord, Coord, usize),
    b: Point,
    penalty: Coord,
    w: Seq<int>,
)
    requires
        search_inv(m, xs, ys, s0, g, parent, open.push(e)),
        astar_inv(m, xs, ys, s0, g, parent, open.push(e), b, penalty, None),
        forall|x: (Coord, Coord, usize)| #[trigger] open.contains(x) ==> !pops_before(x, e),
        e.1 == g[e.2 as int],
        state_point(xs, ys, e.2 as int) == b,
        graph_walk(m, xs, ys, w),
        w[0] == s0,
        state_point(xs, ys, w.last()) == b,
        penalty >= 0,
        ys.len() > 0,
    ensures
        g[e.2 as int] <= walk_cost(xs, ys, w, penalty as int),
{
    let full = open.push(e);
    let n = w.len() as int;
    let i = lemma_first_open(m, xs, ys, s0, g, parent, full, b, penalty, w, n - 1);
    let pre = walk_cost(xs, ys, w.take(i + 1), penalty as int);
    let rest = w.skip(i);
    lemma_walk_cost_split(xs, ys, w, penalty as int, i);
    lemma_walk_cost_nonneg(xs, ys, rest, penalty as int);
    assert(full[open.len() as int] == e);
    assert(entry_ok(xs, ys, full[open.len() as int], b, penalty));
    assert(g[e.2 as int] < Coord::MAX);
    if pre < Coord::MAX {
        if !queued(full, g, w[i]) {
            assert(i == n - 1);
            if i > 0 {
                assert(walk_step(m, xs, ys, w, i - 1));
            }
            assert(queued(full, g, w[i]) || (settled(m, xs, ys, g, w[i], penalty) && state_point(xs, ys, w[i]) != b));
        }
        let t = choose|t: int| 0 <= t < full.len() && full[t].2 as int == w[i] && #[trigger] full[t].1 == g[w[i]];
        if t < open.len() {
            let x = full[t];
            assert(open[t] == x);
            assert(open.contains(x));
            assert(!pops_before(x, e));
            assert(entry_ok(xs, ys, full[t], b, penalty));
            lemma_walk_skip(m, xs, ys, w, i);
            lemma_admissible(m, xs, ys, rest, b, penalty);
        }
    }
}

/// When the queue runs dry, every walk from the start to `b` costs too much
/// to be recorded.
proof fn lemma_no_walk(
    m: ObstacleModel,
    xs: Seq<Coord>,
    ys: Seq<Coord>,
    s0: int,
    g: Seq<Coord>,
    parent: Seq<usize>,
    open: Seq<(Coord, Coord, usize)>,
    b: Point,
    penalty: Coord,
    w: Seq<int>,
)
    requires
        search_inv(m, xs, ys, s0, g, parent, open),
        astar_inv(m, xs, ys, s0, g, parent, open, b, penalty, None),
        open.len() == 0,
        graph_walk(m, xs, ys, w),
        w[0] == s0,
        state_point(xs, ys, w.last()) == b,
        penalty >= 0,
    ensures
        walk_cost(xs, ys, w, penalty as int) >= Coord::MAX,
{
    let n = w.len() as int;
    let i = lemma_first_open(m, xs, ys, s0, g, parent, open, b, penalty, w, n - 1);
    lemma_walk_cost_split(xs, ys, w, penalty as int, i);
    lemma_walk_cost_nonneg(xs, ys, w.skip(i), penalty as int);
    if walk_cost(xs, ys, w.take(i + 1), penalty as int) < Coord::MAX {
        assert(!queued(open, g, w[i]));
        assert(i == n - 1);
        if i > 0 {
            assert(walk_step(m, xs, ys, w, i - 1));
        }
        assert(queued(open, g, w[i]) || (settled(m, xs, ys, g, w[i], penalty) && state_point(xs, ys, w[i]) != b));
    }
}

/// Lowering the cost of `nk` to `ng` through a move from the pending state
/// `k`, with a new queue entry for it, keeps the A* invariant.
proof fn lemma_relax_astar(
    m: ObstacleModel,
    xs: Seq<Coord>,
    ys: Seq<Coord>,
    s0: int,
    g0: Seq<Coord>,
    p0: Seq<usize>,
    o0: Seq<(Coord, Coord, usize)>,
    g1: Seq<Coord>,
    p1: Seq<usize>,
    o1: Seq<(Coord, Coord, usize)>,
    k: int,
    nk: int,
    ng: Coord,
    f: Coord,
    b: Point,
    penalty: Coord,
)
    requires
        astar_inv(m, xs, ys, s0, g0, p0, o0, b, penalty, Some(k)),
        g0.len() == xs.len() * ys.len() * 3,
        g0.len() <= usize::MAX,
        p0.len() == g0.len(),
        g1 == g0.update(nk, ng),
        p1 == p0.update(nk, k as usize),
        forall|x: (Coord, Coord, usize)| #[trigger] o1.contains(x) <==> o0.contains(x) || x == (f, ng, nk as usize),
        0 <= k < g0.len(),
        0 <= nk < g0.len(),
        k != nk,
        nk != s0,
        ng < g0[nk],
        f as int == estimate_spec(ng as int, state_h(xs, ys, nk, b, penalty)),
        graph_step(m, xs, ys, k, nk),
        g0[k] + step_cost(xs, ys, k, nk, penalty as int) <= ng,
    ensures
        astar_inv(m, xs, ys, s0, g1, p1, o1, b, penalty, Some(k)),
{
    let n = xs.len() * ys.len() * 3;
    let e = (f, ng, nk as usize);
    assert(e.2 as int == nk);
    assert(entry_ok(xs, ys, e, b, penalty));
    assert(p1[nk] as int == k);
    assert(g1[k] == g0[k]);
    assert forall|t: int| 0 <= t < o1.len() implies #[trigger] entry_ok(xs, ys, o1[t], b, penalty) by {
        let x = o1[t];
        assert(o1.contains(x));
        if x != e {
            assert(o0.contains(x));
            let t0 = choose|t0: int| 0 <= t0 < o0.len() && o0[t0] == x;
            assert(entry_ok(xs, ys, o0[t0], b, penalty));
        }
    }
    assert forall|c: int| 0 <= c < n && g1[c] != Coord::MAX && c != s0 implies #[trigger] chain_ok(
        m,
        xs,
        ys,
        g1,
        p1,
        c,
        penalty,
    ) by {
        if c != nk {
            assert(chain_ok(m, xs, ys, g0, p0, c, penalty));
        }
    }
    assert forall|u: int| 0 <= u < n && g1[u] != Coord::MAX && Some(k) != Some(u) implies #[trigger] queued(o1, g1, u) || (
    settled(m, xs, ys, g1, u, penalty) && state_point(xs, ys, u) != b) by {
        if u == nk {
            assert(o1.contains(e));
            let t = choose|t: int| 0 <= t < o1.len() && o1[t] == e;
            assert(o1[t].1 == g1[u]);
        } else {
            assert(g0[u] == g1[u]);
            if queued(o0, g0, u) {
                let t0 = choose|t0: int| 0 <= t0 < o0.len() && o0[t0].2 as int == u && #[trigger] o0[t0].1 == g0[u];
                assert(o0.contains(o0[t0]));
                assert(o1.contains(o0[t0]));
                let t1 = choose|t1: int| 0 <= t1 < o1.len() && o1[t1] == o0[t0];
                assert(o1[t1].1 == g1[u]);
            } else {
                assert(queued(o0, g0, u) || (settled(m, xs, ys, g0, u, penalty) && state_point(xs, ys, u) != b));
                assert forall|v: int| #[trigger] graph_step(m, xs, ys, u, v) implies g1[v] <= g1[u] + step_cost(
                    xs,
                    ys,
                    u,
                    v,
                    penalty as int,
                ) || g1[u] + step_cost(xs, ys, u, v, penalty as int) >= Coord::MAX by {
                    assert(graph_step(m, xs, ys, u, v));
                }
            }
        }
    }
}

/// Two states with the same node and the same axis are the same state.
proof fn lemma_state_unique(xs: Seq<Coord>, ys: Seq<Coord>, k1: int, k2: int)
    requires
        strictly_sorted(xs),
        strictly_sorted(ys),
        0 <= k1 < xs.len() * ys.len() * 3,
        0 <= k2 < xs.len() * ys.len() * 3,
        state_point(xs, ys, k1) == state_point(xs, ys, k2),
        k1 % 3 == k2 % 3,
    ensures
        k1 == k2,
{
    let ny = ys.len() as int;
    lemma_state_range(xs.len() as int, ny, k1);
    lemma_state_range(xs.len() as int, ny, k2);
    let (i1, i2) = (state_i(ny, k1), state_i(ny, k2));
    let (j1, j2) = (state_j(ny, k1), state_j(ny, k2));
    if i1 < i2 {
        assert(xs[i1] < xs[i2]);
    } else if i2 < i1 {
        assert(xs[i2] < xs[i1]);
    }
    if j1 < j2 {
        assert(ys[j1] < ys[j2]);
    } else if j2 < j1 {
        assert(ys[j2] < ys[j1]);
    }
}

/// The ends of a walk of the search are grid nodes.
proof fn lemma_route_walk_nodes(m: ObstacleModel, xs: Seq<Coord>, ys: Seq<Coord>, a: Point, b: Point, w: Seq<int>)
    requires
        route_walk(m, xs, ys, a, b, w),
    ensures
        xs.contains(a.x) && ys.contains(a.y) && xs.contains(b.x) && ys.contains(b.y),
{
    let ny = ys.len() as int;
    let nx = xs.len() as int;
    let k = w[0];
    assert(ny > 0) by (nonlinear_arith)
        requires
            0 <= k < nx * ny * 3,
            nx >= 0,
            ny >= 0,
    ;
    let n = w.len() as int;
    if n > 1 {
        assert(walk_step(m, xs, ys, w, n - 2));
    }
    lemma_state_range(xs.len() as int, ny, w[0]);
    lemma_state_range(xs.len() as int, ny, w[n - 1]);
    assert(xs[state_i(ny, w[0])] == a.x);
    assert(ys[state_j(ny, w[0])] == a.y);
    assert(xs[state_i(ny, w[n - 1])] == b.x);
    assert(ys[state_j(ny, w[n - 1])] == b.y);
}

/// Taking an entry off the queue: if it carries the current cost of its
/// state, that state becomes pending; otherwise nothing is lost.
proof fn lemma_astar_pop(
    m: ObstacleModel,
    xs: Seq<Coord>,
    ys: Seq<Coord>,
    s0: int,
    g: Seq<Coord>,
    parent: Seq<usize>,
    open: Seq<(Coord, Coord, usize)>,
    e: (Coord, Coord, usize),
    b: Point,
    penalty: Coord,
)
    requires
        astar_inv(m, xs, ys, s0, g, parent, open.push(e), b, penalty, None),
        g[e.2 as int] <= e.1,
    ensures
        e.1 == g[e.2 as int] ==> astar_inv(m, xs, ys, s0, g, parent, open, b, penalty, Some(e.2 as int)),
        e.1 != g[e.2 as int] ==> astar_inv(m, xs, ys, s0, g, parent, open, b, penalty, None),
{
    let full = open.push(e);
    let n = xs.len() * ys.len() * 3;
    assert forall|t: int| 0 <= t < open.len() implies #[trigger] entry_ok(xs, ys, open[t], b, penalty) by {
        assert(full[t] == open[t]);
        assert(entry_ok(xs, ys, full[t], b, penalty));
    }
    assert forall|u: int|
        0 <= u < n && g[u] != Coord::MAX && (e.1 == g[e.2 as int] ==> u != e.2 as int) implies #[trigger] queued(open, g, u)
        || (settled(m, xs, ys, g, u, penalty) && state_point(xs, ys, u) != b) by {
        if queued(full, g, u) {
            let t = choose|t: int| 0 <= t < full.len() && full[t].2 as int == u && #[trigger] full[t].1 == g[u];
            assert(t != open.len());
            assert(open[t] == full[t]);
        } else {
            assert(queued(full, g, u) || (settled(m, xs, ys, g, u, penalty) && state_point(xs, ys, u) != b));
        }
    }
}

/// Relaxes the edge from state `k` (cost `cost`, reached along `axis`) to the
/// node `(ni, nj)` entered along `naxis`: if the edge is free and the new cost
/// beats the recorded one, the neighbour state gets the new cost, `k` as its
/// predecessor and a queue entry. A cost that would not fit in a coordinate
/// is not recorded.
#[verifier::spinoff_prover]
#[verifier::rlimit(40)]
fn relax(
    obstacles: &ObstacleSet,
    xs: &Vec<Coord>,
    ys: &Vec<Coord>,
    k: usize,
    cost: Coord,
    axis: usize,
    ni: usize,
    nj: usize,
    naxis: usize,
    edge: Segment,
    penalty: Coord,
    b: Point,
    g: &mut Vec<Coord>,
    parent: &mut Vec<usize>,
    open: &mut Vec<(Coord, Coord, usize)>,
    Ghost(s0): Ghost<int>,
)
    requires
        search_inv(obstacles@, xs@, ys@, s0, old(g)@, old(parent)@, old(open)@),
        xs@.len() * ys@.len() * 3 <= usize::MAX,
        (k as int) < xs@.len() * ys@.len() * 3,
        old(g)@[k as int] == cost,
        cost != Coord::MAX,
        axis < 3,
        ni < xs@.len(),
        nj < ys@.len(),
        naxis < 2,
        edge.from < edge.to,
        edge.contains(state_point(xs@, ys@, k as int)),
        edge.contains(Point { x: xs@[ni as int], y: ys@[nj as int] }),
        penalty >= 0,
        astar_inv(obstacles@, xs@, ys@, s0, old(g)@, old(parent)@, old(open)@, b, penalty, Some(k as int)),
        axis as int == k % 3,
        naxis == 0 ==> nj as int == state_j(ys@.len() as int, k as int) && (ni + 1 == state_i(ys@.len() as int, k as int)
            || ni == state_i(ys@.len() as int, k as int) + 1) && edge == segment_spec(
            Orientation::Horizontal,
            state_point(xs@, ys@, k as int).y,
            state_point(xs@, ys@, k as int).x,
            xs@[ni as int],
        ),
        naxis == 1 ==> ni as int == state_i(ys@.len() as int, k as int) && (nj + 1 == state_j(ys@.len() as int, k as int)
            || nj == state_j(ys@.len() as int, k as int) + 1) && edge == segment_spec(
            Orientation::Vertical,
            state_point(xs@, ys@, k as int).x,
            state_point(xs@, ys@, k as int).y,
            ys@[nj as int],
        ),
    ensures
        search_inv(obstacles@, xs@, ys@, s0, final(g)@, final(parent)@, final(open)@),
        final(g)@[k as int] == cost,
        5 * total(final(g)@) + final(open)@.len() <= 5 * total(old(g)@) + old(open)@.len(),
        astar_inv(obstacles@, xs@, ys@, s0, final(g)@, final(parent)@, final(open)@, b, penalty, Some(k as int)),
        ({
            let nk = state_key(ys@.len() as int, ni as int, nj as int, naxis as int);
            graph_step(obstacles@, xs@, ys@, k as int, nk) ==> final(g)@[nk] <= cost + step_cost(
                xs@,
                ys@,
                k as int,
                nk,
                penalty as int,
            ) || cost + step_cost(xs@, ys@, k as int, nk, penalty as int) >= Coord::MAX
        }),
        forall|u: int| 0 <= u < final(g)@.len() ==> #[trigger] final(g)@[u] <= old(g)@[u],
{
    let ghost m = obstacles@;
    let ghost n = xs@.len() * ys@.len() * 3;
    let ghost nks = state_key(ys@.len() as int, ni as int, nj as int, naxis as int);
    proof {
        lemma_state_key(xs@.len() as int, ys@.len() as int, ni as int, nj as int, naxis as int);
        lemma_state_range(xs@.len() as int, ys@.len() as int, k as int);
        assert(state_point(xs@, ys@, nks) == (Point { x: xs@[ni as int], y: ys@[nj as int] }));
        assert(nks % 3 == naxis);
        assert(manhattan_spec(state_point(xs@, ys@, k as int), state_point(xs@, ys@, nks)) == edge.to - edge.from);
    }
    if !obstacles.is_free_segment(&edge) {
        return;
    }
    let bend: Coord = if axis != 2 && axis != naxis {
        penalty
    } else {
        0
    };
    let ng128: i128 = cost as i128 + (edge.to as i128 - edge.from as i128) + bend as i128;
    if ng128 >= Coord::MAX as i128 {
        return;
    }
    let ng = ng128 as Coord;
    let ny = ys.len();
    proof {
        lemma_state_key(xs@.len() as int, ny as int, ni as int, nj as int, naxis as int);
        assert(0 <= ni * ny) by (nonlinear_arith)
            requires
                0 <= ni,
                0 <= ny,
        ;
    }
    let nk = (ni * ny + nj) * 3 + naxis;
    if ng < g[nk] {
        let ghost g0 = g@;
        let ghost p0 = parent@;
        let ghost o0 = open@;
        let ghost here = state_point(xs@, ys@, k as int);
        let ghost there = Point { x: xs@[ni as int], y: ys@[nj as int] };
        proof {
            assert(state_point(xs@, ys@, nk as int) == there);
            crate::refine::lemma_free_segment_contains(m, edge, there);
            lemma_free_segment_between(m, edge, here, there);
            assert(nk != s0) by {
                assert(g0[s0] == 0);
            }
            assert(nk != k);
            assert(manhattan_spec(here, there) <= edge.to - edge.from);
            lemma_total_update(g0, nk as int, ng);
        }
        g.set(nk, ng);
        parent.set(nk, k);
        let h = heuristic(xs[ni], ys[nj], naxis, b, penalty);
        let f = estimate(ng, h);
        queue_push(open, (f, ng, nk));
        proof {
            assert(graph_step(m, xs@, ys@, k as int, nk as int));
            lemma_relax_astar(m, xs@, ys@, s0, g0, p0, o0, g@, parent@, open@, k as int, nk as int, ng, f, b, penalty);
            let g1 = g@;
            let p1 = parent@;
            assert forall|c: int| 0 <= c < n implies #[trigger] g1[c] >= 0 by {
                assert(g0[c] >= 0);
            }
            assert forall|c: int| 0 <= c < n && g1[c] != Coord::MAX implies m.free_point(#[trigger] state_point(xs@, ys@, c)) by {
                if c != nk {
                    assert(g0[c] != Coord::MAX);
                }
            }
            assert forall|c: int| 0 <= c < n && g1[c] != Coord::MAX && c != s0 implies #[trigger] linked(
                m,
                xs@,
                ys@,
                g1,
                p1,
                c,
            ) by {
                if c != nk {
                    assert(g0[c] != Coord::MAX);
                    assert(linked(m, xs@, ys@, g0, p0, c));
                    assert(p1[c] == p0[c]);
                }
            }
            assert forall|t: int| 0 <= t < open@.len() implies {
                let e = #[trigger] open@[t];
                &&& (e.2 as int) < n
                &&& g1[e.2 as int] != Coord::MAX
                &&& g1[e.2 as int] <= e.1
            } by {
                let e = open@[t];
                assert(open@.contains(e));
                if e != (f, ng, nk) {
                    assert(o0.contains(e));
                    let u = choose|u: int| 0 <= u < o0.len() && o0[u] == e;
                    assert(o0[u] == e);
                }
            }
        }
    }
}

/// A chain of grid points joined by free stretches, with free corners.
pub open spec fn free_chain(m: ObstacleModel, s: Seq<Point>) -> bool {
    &&& forall|i: int| 0 <= i < s.len() ==> m.free_point(#[trigger] s[i])
    &&& forall|i: int| 0 <= i < s.len() - 1 ==> #[trigger] free_between(m, s[i], s[i + 1])
}

/// The largest number of candidate coordinates along one axis for an obstacle
/// set and two terminals.
pub open spec fn max_candidates(m: ObstacleModel) -> int {
    (4 + 2 * m.rects.len() + 2 * stored_segments(m).len()) as int
}

/// The dense table of search states of a graph over these obstacles fits in memory.
pub open spec fn states_fit(m: ObstacleModel) -> bool {
    max_candidates(m) * max_candidates(m) * 3 <= usize::MAX
}

/// Does the dense table of search states over these obstacles fit in memory?
/// This is what [`route_visibility`] and [`route_visibility_with`] need.
pub fn states_fit_for(obstacles: &ObstacleSet) -> (r: bool)
    ensures
        r == states_fit(obstacles@),
{
    let (h, v) = obstacles.span_counts();
    let rects = obstacles.rects().len();
    proof {
        assert(stored_segments(obstacles@).len() == h + v);
    }
    let c: u128 = 4 + 2 * (rects as u128) + 2 * (h as u128) + 2 * (v as u128);
    match c.checked_mul(c) {
        Some(cc) => match cc.checked_mul(3) {
            Some(n) => n <= usize::MAX as u128,
            None => false,
        },
        None => false,
    }
}

impl<'a> VisibilityGraph<'a> {
    /// The node of the grid for a point, if both its coordinates are candidates.
    fn index_of(&self, p: Point) -> (r: Option<(usize, usize)>)
        ensures
            r matches Some((i, j)) ==> i < self.xs_spec().len() && j < self.ys_spec().len() && self.xs_spec()[i as int] == p.x
                && self.ys_spec()[j as int] == p.y,
            r is None ==> !(self.xs_spec().contains(p.x) && self.ys_spec().contains(p.y)),
    {
        proof {
            use_type_invariant(self);
        }
        let i = match find_coord(&self.xs, p.x) {
            Some(i) => i,
            None => {
                return None;
            },
        };
        let j = match find_coord(&self.ys, p.y) {
            Some(j) => j,
            None => {
                return None;
            },
        };
        Some((i, j))
    }

    /// Relaxes the up to four grid edges leaving state `k` at node `(i, j)`.
    #[verifier::spinoff_prover]
    #[verifier::rlimit(40)]
    fn expand_state(
        &self,
        k: usize,
        cost: Coord,
        i: usize,
        j: usize,
        axis: usize,
        penalty: Coord,
        b: Point,
        g: &mut Vec<Coord>,
        parent: &mut Vec<usize>,
        open: &mut Vec<(Coord, Coord, usize)>,
        Ghost(s0): Ghost<int>,
    )
        requires
            search_inv(self.model(), self.xs_spec(), self.ys_spec(), s0, old(g)@, old(parent)@, old(open)@),
            self.xs_spec().len() * self.ys_spec().len() * 3 <= usize::MAX,
            (k as int) < self.xs_spec().len() * self.ys_spec().len() * 3,
            old(g)@[k as int] == cost,
            cost != Coord::MAX,
            axis < 3,
            i < self.xs_spec().len(),
            j < self.ys_spec().len(),
            state_point(self.xs_spec(), self.ys_spec(), k as int) == (Point { x: self.xs_spec()[i as int], y: self.ys_spec()[j as int] }),
            penalty >= 0,
            astar_inv(self.model(), self.xs_spec(), self.ys_spec(), s0, old(g)@, old(parent)@, old(open)@, b, penalty, Some(k as int)),
            axis as int == k % 3,
            i as int == state_i(self.ys_spec().len() as int, k as int),
            j as int == state_j(self.ys_spec().len() as int, k as int),
            state_point(self.xs_spec(), self.ys_spec(), k as int) != b,
        ensures
            search_inv(self.model(), self.xs_spec(), self.ys_spec(), s0, final(g)@, final(parent)@, final(open)@),
            5 * total(final(g)@) + final(open)@.len() <= 5 * total(old(g)@) + old(open)@.len(),
            astar_inv(self.model(), self.xs_spec(), self.ys_spec(), s0, final(g)@, final(parent)@, final(open)@, b, penalty, None),
    {
        proof {
            use_type_invariant(self);
        }
        let ghost m = self.obstacles@;
        let ghost xs = self.xs@;
        let ghost ys = self.ys@;
        let nx = self.xs.len();
        let ny = self.ys.len();
        let here = Point::new(self.xs[i], self.ys[j]);
        let ghost g0 = g@;
        if i + 1 < nx {
            relax(self.obstacles, &self.xs, &self.ys, k, cost, axis, i + 1, j, 0,
                Segment::horizontal(here.y, here.x, self.xs[i + 1]), penalty, b, g, parent, open, Ghost(s0));
        }
        let ghost g1 = g@;
        if i > 0 {
            relax(self.obstacles, &self.xs, &self.ys, k, cost, axis, i - 1, j, 0,
                Segment::horizontal(here.y, self.xs[i - 1], here.x), penalty, b, g, parent, open, Ghost(s0));
        }
        let ghost g2 = g@;
        if j + 1 < ny {
            relax(self.obstacles, &self.xs, &self.ys, k, cost, axis, i, j + 1, 1,
                Segment::vertical(here.x, here.y, self.ys[j + 1]), penalty, b, g, parent, open, Ghost(s0));
        }
        let ghost g3 = g@;
        if j > 0 {
            relax(self.obstacles, &self.xs, &self.ys, k, cost, axis, i, j - 1, 1,
                Segment::vertical(here.x, self.ys[j - 1], here.y), penalty, b, g, parent, open, Ghost(s0));
        }
        proof {
            let g4 = g@;
            let nyi = ny as int;
            assert forall|v: int| #[trigger] graph_step(m, xs, ys, k as int, v) implies g4[v] <= g4[k as int] + step_cost(
                xs,
                ys,
                k as int,
                v,
                penalty as int,
            ) || g4[k as int] + step_cost(xs, ys, k as int, v, penalty as int) >= Coord::MAX by {
                lemma_state_range(nx as int, nyi, v);
                assert(g4[v] <= g3[v] && g3[v] <= g2[v] && g2[v] <= g1[v]);
                if v % 3 == 0 {
                    if state_i(nyi, v) == i + 1 {
                        assert(v == state_key(nyi, i + 1, j as int, 0));
                    } else {
                        assert(v == state_key(nyi, i - 1, j as int, 0));
                    }
                } else {
                    if state_j(nyi, v) == j + 1 {
                        assert(v == state_key(nyi, i as int, j + 1, 1));
                    } else {
                        assert(v == state_key(nyi, i as int, j - 1, 1));
                    }
                }
            }
            assert(settled(m, xs, ys, g4, k as int, penalty));
            assert forall|u: int|
                0 <= u < xs.len() * ys.len() * 3 && g4[u] != Coord::MAX && None::<int> != Some(u) implies #[trigger] queued(
                open@,
                g4,
                u,
            ) || (settled(m, xs, ys, g4, u, penalty) && state_point(xs, ys, u) != b) by {
                if u != k {
                    assert(Some(k as int) != Some(u));
                }
            }
        }
    }

    /// A* from `a` to `b` over the implicit graph.
    ///
    /// Search states are grid nodes together with the axis of the edge that
    /// led to them, so that bends can be charged. The cost returned is the
    /// least cost of a walk through the graph from `a` to `b` (length plus
    /// one penalty per change of direction), and the path returned is a valid
    /// route whose length plus one penalty per bend is exactly that cost.
    /// `None` for free endpoints means every such walk costs too much to be
    /// recorded in a coordinate.
    #[verifier::spinoff_prover]
    #[verifier::rlimit(50)]
    pub fn route(&self, a: Point, b: Point, config: &VisibilityConfig) -> (r: VisibilityResult)
        requires
            config.bend_penalty >= 0,
            self.xs_spec().len() * self.ys_spec().len() * 3 <= usize::MAX,
        ensures
            r.graph_nodes == self.xs_spec().len() * self.ys_spec().len(),
            r.path is Some <==> r.cost is Some,
            !(self.model().free_point(a) && self.model().free_point(b)) ==> r.path is None && r.expanded == 0,
            !(self.xs_spec().contains(a.x) && self.ys_spec().contains(a.y) && self.xs_spec().contains(b.x)
                && self.ys_spec().contains(b.y)) ==> r.path is None && r.expanded == 0,
            r.path matches Some(p) ==> valid_path(self.model(), a, b, p@),
            r.cost matches Some(c) ==> c >= 0,
            r.path matches Some(p) ==> r.cost matches Some(c) && c == crate::refine::path_length(p@)
                + config.bend_penalty * crate::refine::bends(p@),
            self.model().free_point(a) && a == b && self.xs_spec().contains(a.x) && self.ys_spec().contains(a.y)
                ==> (r.path matches Some(p) && p@ == seq![a]) && r.cost == Some(0i64) && r.expanded == 0,
            r.cost matches Some(c) ==> forall|w: Seq<int>|
                #[trigger] route_walk(self.model(), self.xs_spec(), self.ys_spec(), a, b, w) ==> c <= walk_cost(
                    self.xs_spec(),
                    self.ys_spec(),
                    w,
                    config.bend_penalty as int,
                ),
            r.cost matches Some(c) ==> exists|w: Seq<int>|
                #[trigger] route_walk(self.model(), self.xs_spec(), self.ys_spec(), a, b, w) && walk_cost(
                    self.xs_spec(),
                    self.ys_spec(),
                    w,
                    config.bend_penalty as int,
                ) == c,
            self.model().free_point(a) && self.model().free_point(b) && r.cost is None ==> forall|w: Seq<int>|
                #[trigger] route_walk(self.model(), self.xs_spec(), self.ys_spec(), a, b, w) ==> walk_cost(
                    self.xs_spec(),
                    self.ys_spec(),
                    w,
                    config.bend_penalty as int,
                ) >= Coord::MAX,
    {
        proof {
            use_type_invariant(self);
        }
        let ghost m = self.obstacles@;
        let ghost xs = self.xs@;
        let ghost ys = self.ys@;
        self.obstacles.lemma_wf();
        let nx = self.xs.len();
        let ny = self.ys.len();
        let graph_nodes = nx * ny;
        if !self.obstacles.is_free_point(a) || !self.obstacles.is_free_point(b) {
            return VisibilityResult { path: None, cost: None, graph_nodes, expanded: 0 };
        }
        let ia = self.index_of(a);
        let ib = self.index_of(b);
        if ia.is_none() || ib.is_none() {
            proof {
                assert forall|w: Seq<int>| !route_walk(m, xs, ys, a, b, w) by {
                    if route_walk(m, xs, ys, a, b, w) {
                        lemma_route_walk_nodes(m, xs, ys, a, b, w);
                    }
                }
            }
            return VisibilityResult { path: None, cost: None, graph_nodes, expanded: 0 };
        }
        let (si, sj) = ia.unwrap();
        let (gi, gj) = ib.unwrap();
        let penalty = config.bend_penalty;
        let ghost start = state_key(ny as int, si as int, sj as int, 2);
        proof {
            lemma_state_key(nx as int, ny as int, si as int, sj as int, 2);
            assert(state_point(xs, ys, start) == a);
            assert forall|w: Seq<int>| #[trigger] route_walk(m, xs, ys, a, b, w) implies w[0] == start by {
                lemma_state_unique(xs, ys, w[0], start);
            }
        }
        if a == b {
            let mut path: Vec<Point> = Vec::new();
            path.push(a);
            proof {
                reveal(valid_path);
                assert(path@ =~= seq![a]);
                assert(crate::refine::dirs(path@) =~= Seq::<Orientation>::empty());
                assert(crate::refine::bends(path@) == 0);
                assert forall|w: Seq<int>| #[trigger] route_walk(m, xs, ys, a, b, w) implies 0 <= walk_cost(xs, ys, w, penalty as int) by {
                    lemma_walk_cost_nonneg(xs, ys, w, penalty as int);
                }
                let w0 = seq![start];
                assert(route_walk(m, xs, ys, a, b, w0) && walk_cost(xs, ys, w0, penalty as int) == 0);
                assert(route_walk(self.model(), self.xs_spec(), self.ys_spec(), a, b, w0));
            }
            return VisibilityResult { path: Some(path), cost: Some(0), graph_nodes, expanded: 0 };
        }
        let states = graph_nodes * 3;
        let mut g: Vec<Coord> = crate::grid::filled(Coord::MAX, states);
        let mut parent: Vec<usize> = crate::grid::filled(usize::MAX, states);
        let mut open: Vec<(Coord, Coord, usize)> = Vec::new();
        proof {
            lemma_state_key(nx as int, ny as int, si as int, sj as int, 2);
            assert(0 <= si * ny) by (nonlinear_arith)
                requires
                    0 <= si,
                    0 <= ny,
            ;
        }
        let s0 = (si * ny + sj) * 3 + 2;
        g.set(s0, 0);
        let h0 = heuristic(self.xs[si], self.ys[sj], 2, b, penalty);
        queue_push(&mut open, (h0, 0, s0));
        proof {
            assert(state_point(xs, ys, s0 as int) == a);
            assert forall|k: int| 0 <= k < states && g@[k] != Coord::MAX implies m.free_point(#[trigger] state_point(xs, ys, k)) by {
                assert(k == s0);
            }
            assert forall|k: int| 0 <= k < states && #[trigger] g@[k] != Coord::MAX && k != s0 implies false by {}
            assert forall|t: int| 0 <= t < open@.len() implies {
                let e = #[trigger] open@[t];
                &&& (e.2 as int) < states
                &&& g@[e.2 as int] != Coord::MAX
                &&& g@[e.2 as int] <= e.1
            } by {
                assert(open@.contains(open@[t]));
            }
            assert(search_inv(m, xs, ys, s0 as int, g@, parent@, open@));
            assert(s0 as int == start);
            let e0 = (h0, 0i64, s0);
            assert(open@.contains(e0));
            let t0 = choose|t: int| 0 <= t < open@.len() && open@[t] == e0;
            assert(open@[t0].1 == g@[s0 as int]);
            assert(queued(open@, g@, s0 as int));
            assert forall|t: int| 0 <= t < open@.len() implies #[trigger] entry_ok(xs, ys, open@[t], b, penalty) by {
                assert(open@.contains(open@[t]));
            }
            assert forall|u: int| 0 <= u < states && g@[u] != Coord::MAX && None::<int> != Some(u) implies #[trigger] queued(
                open@,
                g@,
                u,
            ) || (settled(m, xs, ys, g@, u, penalty) && state_point(xs, ys, u) != b) by {
                assert(u == s0);
            }
            assert(astar_inv(m, xs, ys, s0 as int, g@, parent@, open@, b, penalty, None));
        }
        let mut expanded: usize = 0;
        let mut goal_key: Option<usize> = None;
        let mut searching = true;
        while searching
            invariant
                m == self.obstacles@,
                xs == self.xs@,
                ys == self.ys@,
                m.wf(),
                strictly_sorted(xs),
                strictly_sorted(ys),
                nx == xs.len(),
                ny == ys.len(),
                states == nx * ny * 3,
                states <= usize::MAX,
                gi < nx,
                gj < ny,
                xs[gi as int] == b.x,
                ys[gj as int] == b.y,
                penalty >= 0,
                search_inv(m, xs, ys, s0 as int, g@, parent@, open@),
                goal_key matches Some(gk) ==> gk < states && g@[gk as int] != Coord::MAX && state_point(xs, ys, gk as int) == b,
                goal_key is Some ==> !searching,
                s0 as int == start,
                state_point(xs, ys, s0 as int) == a,
                astar_inv(m, xs, ys, s0 as int, g@, parent@, open@, b, penalty, match goal_key {
                    Some(gk) => Some(gk as int),
                    None => None::<int>,
                }),
                goal_key is None && !searching ==> open@.len() == 0,
                goal_key matches Some(gk) ==> forall|w: Seq<int>|
                    #[trigger] route_walk(m, xs, ys, a, b, w) ==> g@[gk as int] <= walk_cost(xs, ys, w, penalty as int),
                forall|w: Seq<int>| #[trigger] route_walk(m, xs, ys, a, b, w) ==> w[0] == start,
            decreases 5 * total(g@) + open@.len() + if searching {
                1int
            } else {
                0int
            },
        {
            proof {
                lemma_total_nonneg(g@);
            }
            let ghost o0 = open@;
            match queue_pop(&mut open) {
                None => {
                    searching = false;
                },
                Some(entry) => {
                    let cost = entry.1;
                    let k = entry.2;
                    proof {
                        lemma_inv_pop(m, xs, ys, s0 as int, g@, parent@, open@, entry);
                        assert(o0[o0.len() - 1] == entry);
                        lemma_astar_pop(m, xs, ys, s0 as int, g@, parent@, open@, entry, b, penalty);
                    }
                    if cost <= g[k] {
                        proof {
                            lemma_state_range(nx as int, ny as int, k as int);
                        }
                        let node = k / 3;
                        let i = node / ny;
                        let j = node % ny;
                        let axis = k % 3;
                        if i == gi && j == gj {
                            proof {
                                assert(state_point(xs, ys, k as int) == b);
                                assert forall|w: Seq<int>| #[trigger] route_walk(m, xs, ys, a, b, w) implies g@[k as int]
                                    <= walk_cost(xs, ys, w, penalty as int) by {
                                    lemma_goal_optimal(m, xs, ys, s0 as int, g@, parent@, open@, entry, b, penalty, w);
                                }
                            }
                            goal_key = Some(k);
                            searching = false;
                        } else {
                            proof {
                                if state_point(xs, ys, k as int) == b {
                                    lemma_state_key(nx as int, ny as int, gi as int, gj as int, (k % 3) as int);
                                    lemma_state_unique(xs, ys, k as int, state_key(ny as int, gi as int, gj as int, (k % 3) as int));
                                }
                            }
                            expanded = expanded.saturating_add(1);
                            self.expand_state(k, cost, i, j, axis, penalty, b, &mut g, &mut parent, &mut open, Ghost(s0 as int));
                        }
                    }
                },
            }
            proof {
                lemma_total_nonneg(g@);
            }
        }
        let gk = match goal_key {
            Some(gk) => gk,
            None => {
                proof {
                    assert forall|w: Seq<int>| #[trigger] route_walk(m, xs, ys, a, b, w) implies walk_cost(xs, ys, w, penalty as int)
                        >= Coord::MAX by {
                        lemma_no_walk(m, xs, ys, s0 as int, g@, parent@, open@, b, penalty, w);
                    }
                }
                return VisibilityResult { path: None, cost: None, graph_nodes, expanded };
            },
        };
        let cost = g[gk];
        let mut corners: Vec<Point> = Vec::new();
        let mut k = gk;
        let ghost mut fw: Seq<int> = seq![gk as int];
        proof {
            lemma_state_range(nx as int, ny as int, k as int);
        }
        corners.push(Point::new(self.xs[(k / 3) / ny], self.ys[(k / 3) % ny]));
        while parent[k] != usize::MAX
            invariant
                m == self.obstacles@,
                xs == self.xs@,
                ys == self.ys@,
                nx == xs.len(),
                ny == ys.len(),
                states == nx * ny * 3,
                states <= usize::MAX,
                search_inv(m, xs, ys, s0 as int, g@, parent@, open@),
                k < states,
                g@[k as int] != Coord::MAX,
                corners@.len() >= 1,
                corners@[0] == b,
                corners@.last() == state_point(xs, ys, k as int),
                free_chain(m, corners@),
                crate::refine::path_length(corners@) + g@[k as int] <= cost,
                astar_inv(m, xs, ys, s0 as int, g@, parent@, open@, b, penalty, Some(gk as int)),
                graph_walk(m, xs, ys, fw),
                fw[0] == k as int,
                fw.last() == gk as int,
                g@[k as int] + walk_cost(xs, ys, fw, penalty as int) <= cost,
                corners@ == walk_points(xs, ys, fw).reverse(),
            decreases g@[k as int],
        {
            let ghost c0 = corners@;
            let ghost k0 = k as int;
            let ghost f0 = fw;
            proof {
                assert(k0 != s0);
                assert(linked(m, xs, ys, g@, parent@, k0));
                assert(chain_ok(m, xs, ys, g@, parent@, k0, penalty));
            }
            k = parent[k];
            proof {
                fw = seq![k as int] + f0;
                assert(fw.drop_first() =~= f0);
                assert(walk_step(m, xs, ys, fw, 0));
                assert forall|t: int| 0 <= t < fw.len() - 1 implies #[trigger] walk_step(m, xs, ys, fw, t) by {
                    if t > 0 {
                        assert(walk_step(m, xs, ys, f0, t - 1));
                    }
                }
            }
            proof {
                lemma_state_range(nx as int, ny as int, k as int);
            }
            let pt = Point::new(self.xs[(k / 3) / ny], self.ys[(k / 3) % ny]);
            corners.push(pt);
            proof {
                assert(pt == state_point(xs, ys, k as int));
                assert(corners@ =~= walk_points(xs, ys, fw).reverse());
                crate::refine::lemma_path_length_push(c0, pt);
                assert forall|t: int| 0 <= t < corners@.len() implies m.free_point(#[trigger] corners@[t]) by {
                    if t < c0.len() {
                        assert(corners@[t] == c0[t]);
                    }
                }
                assert forall|t: int| 0 <= t < corners@.len() - 1 implies #[trigger] free_between(m, corners@[t], corners@[t + 1]) by {
                    if t < c0.len() - 1 {
                        assert(corners@[t] == c0[t] && corners@[t + 1] == c0[t + 1]);
                        assert(free_between(m, c0[t], c0[t + 1]));
                    } else {
                        crate::refine::lemma_free_between_sym(m, state_point(xs, ys, k as int), state_point(xs, ys, k0));
                    }
                }
            }
        }
        proof {
            if k as int != s0 {
                assert(linked(m, xs, ys, g@, parent@, k as int));
            }
            assert(k as int == s0);
            assert(state_point(xs, ys, s0 as int) == a);
            assert(route_walk(m, xs, ys, a, b, fw));
            assert(walk_cost(xs, ys, fw, penalty as int) == cost);
            assert(route_walk(self.model(), self.xs_spec(), self.ys_spec(), a, b, fw));
            lemma_free_chain_path(m, corners@);
            crate::router::lemma_reverse_path(m, corners@);
            crate::refine::lemma_path_length_reverse(corners@);
            lemma_walk_cost_exact(m, xs, ys, fw, penalty);
            assert(corners@.reverse() =~= walk_points(xs, ys, fw));
        }
        crate::router::reverse_points(&mut corners);
        let ghost raw = corners@;
        crate::refine::cleanup(&mut corners);
        proof {
            crate::refine::lemma_corners_from_free(m, corners@, raw);
            crate::refine::lemma_covered_free(m, corners@, raw);
            crate::refine::lemma_chain_valid_path(m, a, b, corners@);
            let pi = penalty as int;
            let b1 = crate::refine::bends(corners@) as int;
            let b0 = crate::refine::bends(raw) as int;
            assert(pi * b1 <= pi * b0) by (nonlinear_arith)
                requires
                    pi >= 0,
                    b1 <= b0,
            ;
            let p = corners@;
            crate::refine::lemma_valid_path_chain(m, a, b, p);
            lemma_walk_points_on_grid(m, xs, ys, fw);
            assert forall|t: int| 0 <= t < p.len() implies xs.contains((#[trigger] p[t]).x) && ys.contains(p[t].y) by {
                reveal(crate::refine::corners_from);
                assert(raw.contains(p[t]));
                let u = choose|u: int| 0 <= u < raw.len() && raw[u] == p[t];
                assert(walk_points(xs, ys, fw)[u] == p[t]);
            }
            let wp = lemma_path_walk(m, xs, ys, p, penalty);
            assert(route_walk(m, xs, ys, a, b, wp));
        }
        VisibilityResult { path: Some(corners), cost: Some(cost), graph_nodes, expanded }
    }
}

/// Taking an entry off the queue keeps the search invariant.
proof fn lemma_inv_pop(
    m: ObstacleModel,
    xs: Seq<Coord>,
    ys: Seq<Coord>,
    s0: int,
    g: Seq<Coord>,
    parent: Seq<usize>,
    open: Seq<(Coord, Coord, usize)>,
    e: (Coord, Coord, usize),
)
    requires
        search_inv(m, xs, ys, s0, g, parent, open.push(e)),
        queue_sorted(open),
    ensures
        search_inv(m, xs, ys, s0, g, parent, open),
        (e.2 as int) < xs.len() * ys.len() * 3,
        g[e.2 as int] != Coord::MAX,
        g[e.2 as int] <= e.1,
{
    let o0 = open.push(e);
    assert(o0[open.len() as int] == e);
    assert forall|t: int| 0 <= t < open.len() implies {
        let x = #[trigger] open[t];
        &&& (x.2 as int) < xs.len() * ys.len() * 3
        &&& g[x.2 as int] != Coord::MAX
        &&& g[x.2 as int] <= x.1
    } by {
        assert(o0[t] == open[t]);
    }
}

/// A chain of free stretches with free corners is a rectilinear free path.
proof fn lemma_free_chain_path(m: ObstacleModel, s: Seq<Point>)
    requires
        free_chain(m, s),
    ensures
        crate::refine::rectilinear(s),
        crate::refine::chain_free(m, s),
        crate::refine::corners_free(m, s),
{
    assert forall|i: int| 0 <= i < s.len() - 1 implies #[trigger] crate::refine::aligned_at(s, i) by {
        assert(free_between(m, s[i], s[i + 1]));
    }
    assert forall|i: int| 0 <= i < s.len() - 1 implies #[trigger] crate::refine::free_at(m, s, i) by {
        assert(free_between(m, s[i], s[i + 1]));
    }
}

/// `xs` and `ys` are the candidate coordinates of the obstacles and the two
/// endpoints: the grid the visibility router searches.
pub open spec fn candidate_grid(m: ObstacleModel, a: Point, b: Point, xs: Seq<Coord>, ys: Seq<Coord>) -> bool {
    &&& candidate_set(m, seq![a, b], Orientation::Horizontal, xs)
    &&& candidate_set(m, seq![a, b], Orientation::Vertical, ys)
}

/// Two strictly increasing sequences with the same elements are equal.
proof fn lemma_sorted_unique(v1: Seq<Coord>, v2: Seq<Coord>)
    requires
        strictly_sorted(v1),
        strictly_sorted(v2),
        forall|c: Coord| v1.contains(c) <==> v2.contains(c),
    ensures
        v1 == v2,
    decreases v1.len(),
{
    if v1.len() == 0 {
        if v2.len() > 0 {
            assert(v2.contains(v2[0]));
        }
        assert(v1 =~= v2);
    } else if v2.len() == 0 {
        assert(v1.contains(v1[0]));
    } else {
        assert(v1.contains(v1[0]));
        assert(v2.contains(v2[0]));
        let t1 = choose|t: int| 0 <= t < v2.len() && v2[t] == v1[0];
        let t2 = choose|t: int| 0 <= t < v1.len() && v1[t] == v2[0];
        if t1 > 0 {
            assert(v2[0] < v2[t1]);
        }
        if t2 > 0 {
            assert(v1[0] < v1[t2]);
        }
        assert(v1[0] == v2[0]);
        let d1 = v1.drop_first();
        let d2 = v2.drop_first();
        assert forall|c: Coord| d1.contains(c) <==> d2.contains(c) by {
            if d1.contains(c) {
                let t = choose|t: int| 0 <= t < d1.len() && d1[t] == c;
                assert(v1[t + 1] == c && v1[0] < v1[t + 1]);
                assert(v1.contains(c));
                let u = choose|u: int| 0 <= u < v2.len() && v2[u] == c;
                assert(u != 0);
                assert(d2[u - 1] == c);
            }
            if d2.contains(c) {
                let t = choose|t: int| 0 <= t < d2.len() && d2[t] == c;
                assert(v2[t + 1] == c && v2[0] < v2[t + 1]);
                assert(v2.contains(c));
                let u = choose|u: int| 0 <= u < v1.len() && v1[u] == c;
                assert(u != 0);
                assert(d1[u - 1] == c);
            }
        }
        lemma_sorted_unique(d1, d2);
        assert(v1 =~= seq![v1[0]] + d1);
        assert(v2 =~= seq![v2[0]] + d2);
    }
}

/// The candidate coordinates along an axis are determined by the obstacles
/// and the terminals.
proof fn lemma_candidates_unique(m: ObstacleModel, terminals: Seq<Point>, o: Orientation, v1: Seq<Coord>, v2: Seq<Coord>)
    requires
        candidate_set(m, terminals, o, v1),
        candidate_set(m, terminals, o, v2),
    ensures
        v1 == v2,
{
    assert forall|c: Coord| v1.contains(c) <==> v2.contains(c) by {
        if v1.contains(c) {
            let t = choose|t: int| 0 <= t < v1.len() && v1[t] == c;
            assert(coord_candidate(m, terminals, o, c as int));
        }
        if v2.contains(c) {
            let t = choose|t: int| 0 <= t < v2.len() && v2[t] == c;
            assert(coord_candidate(m, terminals, o, c as int));
        }
    }
    lemma_sorted_unique(v1, v2);
}

/// Shortest rectilinear path over the orthogonal visibility graph, or `None`
/// if the graph holds no walk from `a` to `b`: the path is no longer than
/// any walk of the graph between them.
pub fn route_visibility(obstacles: &ObstacleSet, a: Point, b: Point) -> (r: Option<Vec<Point>>)
    requires
        states_fit(obstacles@),
    ensures
        !(obstacles@.free_point(a) && obstacles@.free_point(b)) ==> r is None,
        r matches Some(p) ==> valid_path(obstacles@, a, b, p@),
        obstacles@.free_point(a) && a == b ==> (r matches Some(p) && p@ == seq![a]),
        r matches Some(p) ==> forall|xs: Seq<Coord>, ys: Seq<Coord>, w: Seq<int>|
            candidate_grid(obstacles@, a, b, xs, ys) && #[trigger] route_walk(obstacles@, xs, ys, a, b, w)
                ==> crate::refine::path_length(p@) <= walk_cost(xs, ys, w, 0),
        obstacles@.free_point(a) && obstacles@.free_point(b) && r is None ==> forall|
            xs: Seq<Coord>,
            ys: Seq<Coord>,
            w: Seq<int>,
        | candidate_grid(obstacles@, a, b, xs, ys) && #[trigger] route_walk(obstacles@, xs, ys, a, b, w)
            ==> walk_cost(xs, ys, w, 0) >= Coord::MAX,
{
    let config = VisibilityConfig::default();
    let r = route_visibility_with(obstacles, a, b, &config);
    proof {
        if r.path is Some {
            let p = r.path->0;
            let c = r.cost->0;
            let bp = crate::refine::bends(p@) as int;
            assert(config.bend_penalty * bp == 0) by (nonlinear_arith)
                requires
                    config.bend_penalty == 0,
            ;
            assert forall|xs: Seq<Coord>, ys: Seq<Coord>, w: Seq<int>|
                candidate_grid(obstacles@, a, b, xs, ys) && #[trigger] route_walk(obstacles@, xs, ys, a, b, w)
                    implies crate::refine::path_length(p@) <= walk_cost(xs, ys, w, 0) by {
                assert(c <= walk_cost(xs, ys, w, config.bend_penalty as int));
            }
        }
    }
    r.path
}

/// Routes over the orthogonal visibility graph with the given cost model:
/// the cost is the least cost of a walk of the graph from `a` to `b`.
pub fn route_visibility_with(obstacles: &ObstacleSet, a: Point, b: Point, config: &VisibilityConfig) -> (r: VisibilityResult)
    requires
        states_fit(obstacles@),
        config.bend_penalty >= 0,
    ensures
        r.path is Some <==> r.cost is Some,
        !(obstacles@.free_point(a) && obstacles@.free_point(b)) ==> r.path is None && r.expanded == 0,
        r.path matches Some(p) ==> valid_path(obstacles@, a, b, p@),
        r.cost matches Some(c) ==> c >= 0,
        r.path matches Some(p) ==> r.cost matches Some(c) && c == crate::refine::path_length(p@) + config.bend_penalty
            * crate::refine::bends(p@),
        obstacles@.free_point(a) && a == b ==> (r.path matches Some(p) && p@ == seq![a]) && r.cost == Some(0i64),
        r.cost matches Some(c) ==> forall|xs: Seq<Coord>, ys: Seq<Coord>, w: Seq<int>|
            candidate_grid(obstacles@, a, b, xs, ys) && #[trigger] route_walk(obstacles@, xs, ys, a, b, w) ==> c
                <= walk_cost(xs, ys, w, config.bend_penalty as int),
        r.cost matches Some(c) ==> forall|xs: Seq<Coord>, ys: Seq<Coord>|
            #[trigger] candidate_grid(obstacles@, a, b, xs, ys) ==> exists|w: Seq<int>|
                #[trigger] route_walk(obstacles@, xs, ys, a, b, w) && walk_cost(xs, ys, w, config.bend_penalty as int) == c,
        obstacles@.free_point(a) && obstacles@.free_point(b) && r.cost is None ==> forall|
            xs: Seq<Coord>,
            ys: Seq<Coord>,
            w: Seq<int>,
        | candidate_grid(obstacles@, a, b, xs, ys) && #[trigger] route_walk(obstacles@, xs, ys, a, b, w)
            ==> walk_cost(xs, ys, w, config.bend_penalty as int) >= Coord::MAX,
{
    let terminals = [a, b];
    let graph = VisibilityGraph::new(obstacles, &terminals);
    proof {
        let ts = terminals@;
        assert(ts[0] == a && ts[1] == b);
        let n = graph.xs_spec().len();
        let k = graph.ys_spec().len();
        let c = max_candidates(obstacles@);
        assert(n * k * 3 <= c * c * 3) by (nonlinear_arith)
            requires
                0 <= n <= c,
                0 <= k <= c,
        ;
        if obstacles@.free_point(a) {
            assert(coord_candidate(obstacles@, ts, Orientation::Horizontal, a.x as int)) by {
                assert(ts[0].along(Orientation::Horizontal) == a.x);
            }
            assert(coord_candidate(obstacles@, ts, Orientation::Vertical, a.y as int)) by {
                assert(ts[0].along(Orientation::Vertical) == a.y);
            }
        }
    }
    let r = graph.route(a, b, config);
    proof {
        let ts = terminals@;
        assert(ts =~= seq![a, b]);
        assert forall|xs: Seq<Coord>, ys: Seq<Coord>| #[trigger] candidate_grid(obstacles@, a, b, xs, ys) implies xs
            == graph.xs_spec() && ys == graph.ys_spec() by {
            lemma_candidates_unique(obstacles@, ts, Orientation::Horizontal, xs, graph.xs_spec());
            lemma_candidates_unique(obstacles@, ts, Orientation::Vertical, ys, graph.ys_spec());
        }
    }
    r
}

} // verus!
