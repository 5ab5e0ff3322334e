//! Obstacle storage and the cover / escape-line queries the router is built on.

use vstd::prelude::*;
use vstd::multiset::Multiset;

use crate::geometry::{
    Bounds, Coord, Orientation, Point, Segment, between_spec, coord_max, coord_min, lemma_along_across, max_int, min_int,
    lemma_from_along_across,
};

verus! {

/// A stored obstacle span: `(fixed, from, to)`, the constant coordinate and the
/// inclusive running interval of one axis-parallel segment.
pub type Span = (Coord, Coord, Coord);

/// Lexicographic order on `(fixed, from)`.
pub open spec fn key_le(a: Span, b: Span) -> bool {
    a.0 < b.0 || (a.0 == b.0 && a.1 <= b.1)
}

/// Strict lexicographic order on `(fixed, from)`.
pub open spec fn key_lt(a: Span, b: Span) -> bool {
    a.0 < b.0 || (a.0 == b.0 && a.1 < b.1)
}

/// The spans are ordered by fixed coordinate, then by start.
pub open spec fn spans_sorted(s: Seq<Span>) -> bool {
    forall|i: int, j: int| 0 <= i < j < s.len() ==> key_le(#[trigger] s[i], #[trigger] s[j])
}

/// Every span is normalized (`from <= to`).
pub open spec fn spans_wf(s: Seq<Span>) -> bool {
    forall|i: int| 0 <= i < s.len() ==> (#[trigger] s[i]).1 <= s[i].2
}

/// The segment of the given orientation that a stored span describes.
pub open spec fn span_segment(o: Orientation, sp: Span) -> Segment {
    Segment { orientation: o, fixed: sp.0, from: sp.1, to: sp.2 }
}

/// `new` is `old` with `sp` inserted in front of every span whose key is not smaller.
pub open spec fn inserted_sorted(old: Seq<Span>, new: Seq<Span>, sp: Span) -> bool {
    exists|k: int|
        0 <= k <= old.len() && new == old.insert(k, sp) && (forall|j: int|
            0 <= j < k ==> key_lt(#[trigger] old[j], sp)) && (forall|j: int|
            k <= j < old.len() ==> !key_lt(#[trigger] old[j], sp))
}

/// The mathematical content of an [`ObstacleSet`].
pub struct ObstacleModel {
    /// The routing area.
    pub bounds: Bounds,
    /// Horizontal obstacles as `(y, x_from, x_to)`, sorted.
    pub horizontal: Seq<Span>,
    /// Vertical obstacles as `(x, y_from, y_to)`, sorted.
    pub vertical: Seq<Span>,
    /// The rectangles added with `add_rect`, as normalized corner pairs.
    pub rects: Seq<(Point, Point)>,
}

impl ObstacleModel {
    /// The stored spans of one orientation.
    pub open spec fn spans(self, o: Orientation) -> Seq<Span> {
        match o {
            Orientation::Horizontal => self.horizontal,
            Orientation::Vertical => self.vertical,
        }
    }

    /// Both span lists are sorted and normalized.
    pub open spec fn wf(self) -> bool {
        spans_sorted(self.horizontal) && spans_sorted(self.vertical) && spans_wf(self.horizontal)
            && spans_wf(self.vertical)
    }

    /// Some stored span of orientation `o` contains `p`.
    pub open spec fn blocks_on(self, o: Orientation, p: Point) -> bool {
        exists|i: int|
            0 <= i < self.spans(o).len() && #[trigger] span_segment(o, self.spans(o)[i]).contains(
                p,
            )
    }

    /// The point lies on some obstacle segment.
    pub open spec fn on_obstacle(self, p: Point) -> bool {
        self.blocks_on(Orientation::Horizontal, p) || self.blocks_on(Orientation::Vertical, p)
    }

    /// The point is inside the bounds and not on an obstacle.
    pub open spec fn free_point(self, p: Point) -> bool {
        self.bounds.contains(p) && !self.on_obstacle(p)
    }

    /// A stored span of the segment's own orientation overlaps it collinearly.
    pub open spec fn collinear_hit(self, s: Segment) -> bool {
        exists|i: int|
            0 <= i < self.spans(s.orientation).len() && #[trigger] span_segment(
                s.orientation,
                self.spans(s.orientation)[i],
            ).overlaps_collinear(&s)
    }

    /// A stored span of the other orientation crosses or touches the segment.
    pub open spec fn cross_hit(self, s: Segment) -> bool {
        exists|i: int|
            0 <= i < self.spans(s.orientation.perpendicular()).len() && (#[trigger] span_segment(
                s.orientation.perpendicular(),
                self.spans(s.orientation.perpendicular())[i],
            )).crossing(&s) is Some
    }

    /// The segment stays inside the bounds and touches no obstacle.
    #[verifier::opaque]
    pub open spec fn free_segment(self, s: Segment) -> bool {
        &&& self.bounds.contains(s.start())
        &&& self.bounds.contains(s.end())
        &&& !self.collinear_hit(s)
        &&& !self.cross_hit(s)
    }

    /// Span `i` of orientation `o` covers `p` and lies strictly on its positive side.
    pub open spec fn covers_above(self, o: Orientation, i: int, p: Point) -> bool {
        &&& 0 <= i < self.spans(o).len()
        &&& self.spans(o)[i].0 > p.across(o)
        &&& self.spans(o)[i].1 <= p.along(o) <= self.spans(o)[i].2
    }

    /// Span `i` of orientation `o` covers `p` and lies strictly on its negative side.
    pub open spec fn covers_below(self, o: Orientation, i: int, p: Point) -> bool {
        &&& 0 <= i < self.spans(o).len()
        &&& self.spans(o)[i].0 < p.across(o)
        &&& self.spans(o)[i].1 <= p.along(o) <= self.spans(o)[i].2
    }

    /// The nearest positive-side cover of `p` among the spans of orientation `o`
    /// is span `i`: the first covering span of the nearest covering row.
    pub open spec fn is_cover_above(self, o: Orientation, i: int, p: Point) -> bool {
        &&& self.covers_above(o, i, p)
        &&& forall|j: int|
            #![trigger self.covers_above(o, j, p)]
            self.covers_above(o, j, p) ==> self.spans(o)[i].0 <= self.spans(o)[j].0
        &&& forall|j: int|
            #![trigger self.covers_above(o, j, p)]
            self.covers_above(o, j, p) && j < i ==> self.spans(o)[j].0 < self.spans(o)[i].0
    }

    /// The nearest negative-side cover of `p` among the spans of orientation `o`
    /// is span `i`: the first covering span of the nearest covering row.
    pub open spec fn is_cover_below(self, o: Orientation, i: int, p: Point) -> bool {
        &&& self.covers_below(o, i, p)
        &&& forall|j: int|
            #![trigger self.covers_below(o, j, p)]
            self.covers_below(o, j, p) ==> self.spans(o)[j].0 <= self.spans(o)[i].0
        &&& forall|j: int|
            #![trigger self.covers_below(o, j, p)]
            self.covers_below(o, j, p) && j < i ==> self.spans(o)[j].0 < self.spans(o)[i].0
    }

    /// `r` is the result of a positive-side cover query of `p` among spans of orientation `o`.
    pub open spec fn cover_above_result(self, o: Orientation, p: Point, r: Option<Segment>) -> bool {
        &&& (r is Some <==> exists|j: int| self.covers_above(o, j, p))
        &&& r is Some ==> exists|i: int|
            self.is_cover_above(o, i, p) && r == Some(span_segment(o, #[trigger] self.spans(o)[i]))
    }

    /// `r` is the result of a negative-side cover query of `p` among spans of orientation `o`.
    pub open spec fn cover_below_result(self, o: Orientation, p: Point, r: Option<Segment>) -> bool {
        &&& (r is Some <==> exists|j: int| self.covers_below(o, j, p))
        &&& r is Some ==> exists|i: int|
            self.is_cover_below(o, i, p) && r == Some(span_segment(o, #[trigger] self.spans(o)[i]))
    }

    /// The point one unit beyond `t` on the line of orientation `o` at `across` is
    /// outside the routing area or on an obstacle.
    pub open spec fn stops_at(self, o: Orientation, across: Coord, t: int) -> bool {
        self.on_obstacle(Point::from_along_across(o, t as Coord, across))
    }

    /// `r` is the maximal obstacle-free segment of orientation `o` through `p`:
    /// it contains `p`, is free, and neither end can be pushed one unit further.
    pub open spec fn is_escape_line(self, p: Point, o: Orientation, r: Segment) -> bool {
        &&& r.orientation == o
        &&& r.fixed == p.across(o)
        &&& r.from <= p.along(o) <= r.to
        &&& self.free_segment(r)
        &&& (r.to == self.bounds.hi(o) || self.stops_at(o, r.fixed, r.to + 1))
        &&& (r.from == self.bounds.lo(o) || self.stops_at(o, r.fixed, r.from - 1))
    }
}

/// A set of non-traversable axis-parallel segments inside a bounding box.
///
/// Horizontal segments are kept as `(y, x_from, x_to)` spans, vertical ones as
/// `(x, y_from, y_to)`, each list sorted by fixed coordinate and then by start.
/// Cover queries locate the row of the query point by binary search.
///
/// The four edges of the bounding box are *not* stored as obstacles; escape
/// lines are clipped to the box directly.
#[derive(Debug)]
pub struct ObstacleSet {
    bounds: Bounds,
    horizontal: Vec<Span>,
    vertical: Vec<Span>,
    rects: Vec<(Point, Point)>,
}

impl View for ObstacleSet {
    type V = ObstacleModel;

    closed spec fn view(&self) -> ObstacleModel {
        ObstacleModel {
            bounds: self.bounds,
            horizontal: self.horizontal@,
            vertical: self.vertical@,
            rects: self.rects@,
        }
    }
}

/// Copies of a span list, element by element.
fn copy_spans(v: &Vec<Span>) -> (r: Vec<Span>)
    ensures
        r@ == v@,
{
    let mut r: Vec<Span> = Vec::new();
    let mut i: usize = 0;
    while i < v.len()
        invariant
            i <= v@.len(),
            r@ == v@.take(i as int),
        decreases v@.len() - i,
    {
        r.push(v[i]);
        i = i + 1;
        assert(r@ =~= v@.take(i as int));
    }
    assert(v@.take(i as int) =~= v@);
    r
}

impl Clone for ObstacleSet {
    /// An independent copy with the same bounds and obstacles.
    fn clone(&self) -> (r: ObstacleSet)
        ensures
            r@ == self@,
    {
        proof {
            use_type_invariant(self);
        }
        let mut rects: Vec<(Point, Point)> = Vec::new();
        let mut i: usize = 0;
        while i < self.rects.len()
            invariant
                i <= self.rects@.len(),
                rects@ == self.rects@.take(i as int),
            decreases self.rects@.len() - i,
        {
            rects.push(self.rects[i]);
            i = i + 1;
            assert(rects@ =~= self.rects@.take(i as int));
        }
        assert(self.rects@.take(i as int) =~= self.rects@);
        ObstacleSet {
            bounds: self.bounds,
            horizontal: copy_spans(&self.horizontal),
            vertical: copy_spans(&self.vertical),
            rects,
        }
    }
}

/// First index whose span has a fixed coordinate of at least `f`.
fn first_row_at_least(spans: &Vec<Span>, f: Coord) -> (k: usize)
    requires
        spans_sorted(spans@),
    ensures
        k <= spans@.len(),
        forall|j: int| 0 <= j < k ==> (#[trigger] spans@[j]).0 < f,
        forall|j: int| k <= j < spans@.len() ==> (#[trigger] spans@[j]).0 >= f,
{
    let mut lo: usize = 0;
    let mut hi: usize = spans.len();
    while lo < hi
        invariant
            spans_sorted(spans@),
            0 <= lo <= hi <= spans@.len(),
            forall|j: int| 0 <= j < lo ==> (#[trigger] spans@[j]).0 < f,
            forall|j: int| hi <= j < spans@.len() ==> (#[trigger] spans@[j]).0 >= f,
        decreases hi - lo,
    {
        let mid = lo + (hi - lo) / 2;
        if spans[mid].0 < f {
            assert forall|j: int| 0 <= j <= mid implies (#[trigger] spans@[j]).0 < f by {
                if j < mid {
                    assert(key_le(spans@[j], spans@[mid as int]));
                }
            }
            lo = mid + 1;
        } else {
            assert forall|j: int| mid <= j < spans@.len() implies (#[trigger] spans@[j]).0 >= f by {
                if j > mid {
                    assert(key_le(spans@[mid as int], spans@[j]));
                }
            }
            hi = mid;
        }
    }
    lo
}

/// The position at which a span with the given key is inserted: in front of
/// every span whose key is not smaller.
fn insertion_point(spans: &Vec<Span>, sp: Span) -> (k: usize)
    requires
        spans_sorted(spans@),
    ensures
        k <= spans@.len(),
        forall|j: int| 0 <= j < k ==> key_lt(#[trigger] spans@[j], sp),
        forall|j: int| k <= j < spans@.len() ==> !key_lt(#[trigger] spans@[j], sp),
{
    let mut lo: usize = 0;
    let mut hi: usize = spans.len();
    while lo < hi
        invariant
            spans_sorted(spans@),
            0 <= lo <= hi <= spans@.len(),
            forall|j: int| 0 <= j < lo ==> key_lt(#[trigger] spans@[j], sp),
            forall|j: int| hi <= j < spans@.len() ==> !key_lt(#[trigger] spans@[j], sp),
        decreases hi - lo,
    {
        let mid = lo + (hi - lo) / 2;
        let m = spans[mid];
        if m.0 < sp.0 || (m.0 == sp.0 && m.1 < sp.1) {
            assert forall|j: int| 0 <= j <= mid implies key_lt(#[trigger] spans@[j], sp) by {
                if j < mid {
                    assert(key_le(spans@[j], spans@[mid as int]));
                }
            }
            lo = mid + 1;
        } else {
            assert forall|j: int| mid <= j < spans@.len() implies !key_lt(
                #[trigger] spans@[j],
                sp,
            ) by {
                if j > mid {
                    assert(key_le(spans@[mid as int], spans@[j]));
                }
            }
            hi = mid;
        }
    }
    lo
}

/// Inserting a normalized span at its insertion point keeps the list sorted and normalized.
proof fn lemma_insert_sorted(old: Seq<Span>, k: int, sp: Span)
    requires
        spans_sorted(old),
        spans_wf(old),
        sp.1 <= sp.2,
        0 <= k <= old.len(),
        forall|j: int| 0 <= j < k ==> key_lt(#[trigger] old[j], sp),
        forall|j: int| k <= j < old.len() ==> !key_lt(#[trigger] old[j], sp),
    ensures
        spans_sorted(old.insert(k, sp)),
        spans_wf(old.insert(k, sp)),
        inserted_sorted(old, old.insert(k, sp), sp),
{
    let new = old.insert(k, sp);
    assert forall|i: int, j: int| 0 <= i < j < new.len() implies key_le(
        #[trigger] new[i],
        #[trigger] new[j],
    ) by {
        if i < k && j < k {
            assert(key_le(old[i], old[j]));
        } else if i < k && j == k {
            assert(key_lt(old[i], sp));
        } else if i < k {
            assert(key_le(old[i], old[j - 1]));
        } else if i == k {
            assert(!key_lt(old[j - 1], sp));
        } else {
            assert(key_le(old[i - 1], old[j - 1]));
        }
    }
    assert forall|i: int| 0 <= i < new.len() implies (#[trigger] new[i]).1 <= new[i].2 by {
        if i < k {
            assert(old[i].1 <= old[i].2);
        } else if i > k {
            assert(old[i - 1].1 <= old[i - 1].2);
        }
    }
}

impl ObstacleSet {
    #[verifier::type_invariant]
    spec fn inv(&self) -> bool {
        spans_sorted(self.horizontal@) && spans_sorted(self.vertical@) && spans_wf(
            self.horizontal@,
        ) && spans_wf(self.vertical@)
    }

    /// An empty obstacle set with the given routing area.
    pub fn new(bounds: Bounds) -> (r: ObstacleSet)
        ensures
            r@.bounds == bounds,
            r@.horizontal == Seq::<Span>::empty(),
            r@.vertical == Seq::<Span>::empty(),
            r@.rects == Seq::<(Point, Point)>::empty(),
    {
        ObstacleSet { bounds, horizontal: Vec::new(), vertical: Vec::new(), rects: Vec::new() }
    }

    /// The routing area.
    pub fn bounds(&self) -> (r: Bounds)
        ensures
            r == self@.bounds,
    {
        self.bounds
    }

    /// The stored spans are sorted and normalized.
    pub(crate) fn lemma_wf(&self)
        ensures
            self@.wf(),
    {
        proof {
            use_type_invariant(self);
        }
    }

    /// The spans of one orientation.
    fn spans_of(&self, o: Orientation) -> (r: &Vec<Span>)
        ensures
            r@ == self@.spans(o),
            spans_sorted(r@),
            spans_wf(r@),
    {
        proof {
            use_type_invariant(self);
        }
        match o {
            Orientation::Horizontal => &self.horizontal,
            Orientation::Vertical => &self.vertical,
        }
    }

    /// Adds one segment. Duplicates and overlaps are allowed. The span goes in
    /// front of the stored spans of the same row that start at the same place.
    pub fn add_segment(&mut self, s: Segment)
        requires
            s.from <= s.to,
        ensures
            final(self)@.bounds == old(self)@.bounds,
            final(self)@.rects == old(self)@.rects,
            final(self)@.spans(s.orientation.perpendicular()) == old(self)@.spans(
                s.orientation.perpendicular(),
            ),
            inserted_sorted(
                old(self)@.spans(s.orientation),
                final(self)@.spans(s.orientation),
                (s.fixed, s.from, s.to),
            ),
            final(self)@.spans(s.orientation).to_multiset() == old(self)@.spans(s.orientation).to_multiset().insert(
                (s.fixed, s.from, s.to),
            ),
    {
        let ghost old_spans = self@.spans(s.orientation);
        proof {
            use_type_invariant(&*self);
        }
        let sp: Span = (s.fixed, s.from, s.to);
        match s.orientation {
            Orientation::Horizontal => {
                let k = insertion_point(&self.horizontal, sp);
                proof {
                    lemma_insert_sorted(self.horizontal@, k as int, sp);
                }
                let mut spans: Vec<Span> = Vec::new();
                std::mem::swap(&mut spans, &mut self.horizontal);
                spans.insert(k, sp);
                self.horizontal = spans;
            },
            Orientation::Vertical => {
                let k = insertion_point(&self.vertical, sp);
                proof {
                    lemma_insert_sorted(self.vertical@, k as int, sp);
                }
                let mut spans: Vec<Span> = Vec::new();
                std::mem::swap(&mut spans, &mut self.vertical);
                spans.insert(k, sp);
                self.vertical = spans;
            },
        }
        proof {
            assert(inserted_sorted(old_spans, self@.spans(s.orientation), sp));
            lemma_inserted_multiset(old_spans, self@.spans(s.orientation), sp);
        }
    }
}

impl ObstacleSet {
    /// Does some stored span of orientation `o` contain `p`?
    fn row_blocks(&self, o: Orientation, p: Point) -> (r: bool)
        ensures
            r == self@.blocks_on(o, p),
    {
        let rows = self.spans_of(o);
        let along = p.along(o);
        let across = p.across(o);
        let start = first_row_at_least(rows, across);
        let mut k = start;
        while k < rows.len() && rows[k].0 == across
            invariant
                start <= k,
                forall|j: int| start <= j < rows@.len() ==> (#[trigger] rows@[j]).0 >= across,
                rows@ == self@.spans(o),
                spans_sorted(rows@),
                along == p.along(o),
                across == p.across(o),
                k <= rows@.len(),
                forall|j: int| 0 <= j < k ==> !(#[trigger] span_segment(o, rows@[j])).contains(p),
            decreases rows@.len() - k,
        {
            if rows[k].1 <= along && along <= rows[k].2 {
                assert(span_segment(o, rows@[k as int]).contains(p));
                return true;
            }
            k = k + 1;
        }
        assert forall|j: int| 0 <= j < rows@.len() implies !(#[trigger] span_segment(
            o,
            rows@[j],
        )).contains(p) by {
            if j >= k {
                assert(k < rows@.len());
                if j > k {
                    assert(key_le(rows@[k as int], rows@[j]));
                }
            }
        }
        false
    }

    /// Does the point lie on any obstacle segment?
    pub fn is_on_obstacle(&self, p: Point) -> (r: bool)
        ensures
            r == self@.on_obstacle(p),
    {
        let on_h = self.row_blocks(Orientation::Horizontal, p);
        let on_v = self.row_blocks(Orientation::Vertical, p);
        on_h || on_v
    }

    /// Is the point inside the bounds and not on an obstacle?
    pub fn is_free_point(&self, p: Point) -> (r: bool)
        ensures
            r == self@.free_point(p),
    {
        self.bounds.contains(p) && !self.is_on_obstacle(p)
    }

    /// Does the segment stay inside the bounds and avoid every obstacle
    /// (no crossing, no touching, no collinear overlap)?
    pub fn is_free_segment(&self, s: &Segment) -> (r: bool)
        requires
            s.from <= s.to,
        ensures
            r == self@.free_segment(*s),
    {
        if !self.bounds.contains(s.start()) || !self.bounds.contains(s.end()) {
            assert(!self@.free_segment(*s)) by {
                reveal(ObstacleModel::free_segment);
            }
            return false;
        }
        let o = s.orientation;
        let perp = o.perpendicular();
        // Collinear spans on the same row.
        let same = self.spans_of(o);
        let start = first_row_at_least(same, s.fixed);
        let mut k = start;
        while k < same.len() && same[k].0 == s.fixed
            invariant
                start <= k,
                forall|j: int| start <= j < same@.len() ==> (#[trigger] same@[j]).0 >= s.fixed,
                same@ == self@.spans(o),
                o == s.orientation,
                spans_sorted(same@),
                k <= same@.len(),
                forall|j: int|
                    0 <= j < k ==> !(#[trigger] span_segment(o, same@[j])).overlaps_collinear(s),
            decreases same@.len() - k,
        {
            if same[k].1 <= s.to && s.from <= same[k].2 {
                assert(span_segment(o, same@[k as int]).overlaps_collinear(s));
                assert(!self@.free_segment(*s)) by {
                    reveal(ObstacleModel::free_segment);
                }
                return false;
            }
            k = k + 1;
        }
        assert forall|j: int| 0 <= j < same@.len() implies !(#[trigger] span_segment(
            o,
            same@[j],
        )).overlaps_collinear(s) by {
            if j >= k {
                if j > k {
                    assert(key_le(same@[k as int], same@[j]));
                }
            }
        }
        // Perpendicular spans whose fixed coordinate lies in the segment's span.
        let other = self.spans_of(perp);
        let start2 = first_row_at_least(other, s.from);
        let mut i = start2;
        while i < other.len() && other[i].0 <= s.to
            invariant
                start2 <= i,
                forall|j: int| start2 <= j < other@.len() ==> (#[trigger] other@[j]).0 >= s.from,
                other@ == self@.spans(perp),
                perp == s.orientation.perpendicular(),
                spans_sorted(other@),
                i <= other@.len(),
                forall|j: int| 0 <= j < i ==> (#[trigger] span_segment(perp, other@[j])).crossing(s) is None,
            decreases other@.len() - i,
        {
            if other[i].1 <= s.fixed && s.fixed <= other[i].2 {
                assert(span_segment(perp, other@[i as int]).crossing(s) is Some);
                assert(!self@.free_segment(*s)) by {
                    reveal(ObstacleModel::free_segment);
                }
                return false;
            }
            i = i + 1;
        }
        assert forall|j: int| 0 <= j < other@.len() implies (#[trigger] span_segment(
            perp,
            other@[j],
        )).crossing(s) is None by {
            if j >= i {
                if j > i {
                    assert(key_le(other@[i as int], other@[j]));
                }
            }
        }
        assert(self@.free_segment(*s)) by {
            reveal(ObstacleModel::free_segment);
        }
        true
    }

    /// Nearest segment of the given orientation that covers `p` and lies
    /// strictly on the positive side (above for horizontal, right for vertical).
    fn cover_positive(&self, p: Point, o: Orientation) -> (r: Option<Segment>)
        ensures
            self@.cover_above_result(o, p, r),
    {
        let rows = self.spans_of(o);
        let along = p.along(o);
        let across = p.across(o);
        if across == i64::MAX {
            assert(forall|j: int| !self@.covers_above(o, j, p));
            return None;
        }
        let start = first_row_at_least(rows, across + 1);
        let mut i = start;
        while i < rows.len()
            invariant
                rows@ == self@.spans(o),
                spans_sorted(rows@),
                along == p.along(o),
                across == p.across(o),
                start <= i <= rows@.len(),
                forall|j: int| 0 <= j < start ==> (#[trigger] rows@[j]).0 < across + 1,
                forall|j: int| start <= j < rows@.len() ==> (#[trigger] rows@[j]).0 >= across + 1,
                forall|j: int| 0 <= j < i ==> !#[trigger] self@.covers_above(o, j, p),
            decreases rows@.len() - i,
        {
            let sp = rows[i];
            if sp.1 <= along && along <= sp.2 {
                proof {
                    assert(self@.covers_above(o, i as int, p));
                    assert forall|j: int| #[trigger] self@.covers_above(o, j, p) implies rows@[i as int].0 <= rows@[j].0 by {
                        if j > i {
                            assert(key_le(rows@[i as int], rows@[j]));
                        }
                    }
                    assert(self@.is_cover_above(o, i as int, p));
                }
                return Some(Segment { orientation: o, fixed: sp.0, from: sp.1, to: sp.2 });
            }
            i = i + 1;
        }
        None
    }

    /// Nearest segment of the given orientation that covers `p` and lies
    /// strictly on the negative side (below for horizontal, left for vertical).
    fn cover_negative(&self, p: Point, o: Orientation) -> (r: Option<Segment>)
        ensures
            self@.cover_below_result(o, p, r),
    {
        let rows = self.spans_of(o);
        let along = p.along(o);
        let across = p.across(o);
        let end = first_row_at_least(rows, across);
        let mut best: Option<usize> = None;
        let mut i: usize = 0;
        while i < end
            invariant
                rows@ == self@.spans(o),
                spans_sorted(rows@),
                along == p.along(o),
                across == p.across(o),
                i <= end <= rows@.len(),
                forall|j: int| 0 <= j < end ==> (#[trigger] rows@[j]).0 < across,
                forall|j: int| end <= j < rows@.len() ==> (#[trigger] rows@[j]).0 >= across,
                best is None ==> forall|j: int| 0 <= j < i ==> !#[trigger] self@.covers_below(o, j, p),
                best is Some ==> {
                    let b = best->0 as int;
                    &&& b < i
                    &&& self@.covers_below(o, b, p)
                    &&& forall|j: int|
                        0 <= j < i && #[trigger] self@.covers_below(o, j, p) ==> rows@[j].0 <= rows@[b].0
                    &&& forall|j: int|
                        0 <= j < i && #[trigger] self@.covers_below(o, j, p) && j < b ==> rows@[j].0 < rows@[b].0
                },
            decreases end - i,
        {
            let sp = rows[i];
            if sp.1 <= along && along <= sp.2 {
                match best {
                    None => {
                        best = Some(i);
                    },
                    Some(b) => {
                        if sp.0 > rows[b].0 {
                            best = Some(i);
                        } else {
                            assert(key_le(rows@[b as int], rows@[i as int]));
                        }
                    },
                }
            }
            i = i + 1;
        }
        match best {
            None => {
                assert forall|j: int| !#[trigger] self@.covers_below(o, j, p) by {
                    if 0 <= j < rows@.len() && j >= end {
                        assert(rows@[j].0 >= across);
                    }
                }
                None
            },
            Some(b) => {
                let sp = rows[b];
                proof {
                    assert forall|j: int| #[trigger] self@.covers_below(o, j, p) implies j < end by {
                        if j >= end {
                            assert(rows@[j].0 >= across);
                        }
                    }
                    assert(self@.is_cover_below(o, b as int, p));
                }
                Some(Segment { orientation: o, fixed: sp.0, from: sp.1, to: sp.2 })
            },
        }
    }

    /// Nearest horizontal segment strictly above `p` whose x-span contains `p.x`.
    pub fn cover_above(&self, p: Point) -> (r: Option<Segment>)
        ensures
            self@.cover_above_result(Orientation::Horizontal, p, r),
    {
        self.cover_positive(p, Orientation::Horizontal)
    }

    /// Nearest horizontal segment strictly below `p` whose x-span contains `p.x`.
    pub fn cover_below(&self, p: Point) -> (r: Option<Segment>)
        ensures
            self@.cover_below_result(Orientation::Horizontal, p, r),
    {
        self.cover_negative(p, Orientation::Horizontal)
    }

    /// Nearest vertical segment strictly right of `p` whose y-span contains `p.y`.
    pub fn cover_right(&self, p: Point) -> (r: Option<Segment>)
        ensures
            self@.cover_above_result(Orientation::Vertical, p, r),
    {
        self.cover_positive(p, Orientation::Vertical)
    }

    /// Nearest vertical segment strictly left of `p` whose y-span contains `p.y`.
    pub fn cover_left(&self, p: Point) -> (r: Option<Segment>)
        ensures
            self@.cover_below_result(Orientation::Vertical, p, r),
    {
        self.cover_negative(p, Orientation::Vertical)
    }

    /// The two covers perpendicular to `orientation` that bound the escape
    /// line of that orientation: `(negative side, positive side)`.
    /// For a horizontal escape line these are the vertical covers (left, right),
    /// for a vertical escape line the horizontal covers (below, above).
    pub fn bounding_covers(&self, p: Point, orientation: Orientation) -> (r: (
        Option<Segment>,
        Option<Segment>,
    ))
        ensures
            self@.cover_below_result(orientation.perpendicular(), p, r.0),
            self@.cover_above_result(orientation.perpendicular(), p, r.1),
    {
        let perp = orientation.perpendicular();
        (self.cover_negative(p, perp), self.cover_positive(p, perp))
    }
}

/// The spans of orientation `o` of the segments `ss`, duplicates kept.
pub open spec fn added_spans(ss: Seq<Segment>, o: Orientation) -> Multiset<Span>
    decreases ss.len(),
{
    if ss.len() == 0 {
        Multiset::empty()
    } else {
        let s = ss.last();
        let rest = added_spans(ss.drop_last(), o);
        if s.orientation == o {
            rest.insert((s.fixed, s.from, s.to))
        } else {
            rest
        }
    }
}

/// `m1` is what adding the rectangle with corners `a` and `b` to `m0` gives:
/// the normalized corners are recorded, the lower and then the upper edge are
/// inserted among the horizontal spans, the left and then the right edge among
/// the vertical ones.
pub open spec fn rect_added(m0: ObstacleModel, m1: ObstacleModel, a: Point, b: Point) -> bool {
    let x1 = min_int(a.x as int, b.x as int) as Coord;
    let x2 = max_int(a.x as int, b.x as int) as Coord;
    let y1 = min_int(a.y as int, b.y as int) as Coord;
    let y2 = max_int(a.y as int, b.y as int) as Coord;
    &&& m1.bounds == m0.bounds
    &&& m1.rects == m0.rects.push((Point { x: x1, y: y1 }, Point { x: x2, y: y2 }))
    &&& inserted_sorted_twice(m0.horizontal, m1.horizontal, (y1, x1, x2), (y2, x1, x2))
    &&& inserted_sorted_twice(m0.vertical, m1.vertical, (x1, y1, y2), (x2, y1, y2))
}

/// Sorted insertion has one result.
proof fn lemma_inserted_sorted_unique(old: Seq<Span>, n1: Seq<Span>, n2: Seq<Span>, sp: Span)
    requires
        inserted_sorted(old, n1, sp),
        inserted_sorted(old, n2, sp),
    ensures
        n1 == n2,
{
    let k1 = choose|k: int|
        0 <= k <= old.len() && n1 == old.insert(k, sp) && (forall|j: int|
            0 <= j < k ==> key_lt(#[trigger] old[j], sp)) && (forall|j: int|
            k <= j < old.len() ==> !key_lt(#[trigger] old[j], sp));
    let k2 = choose|k: int|
        0 <= k <= old.len() && n2 == old.insert(k, sp) && (forall|j: int|
            0 <= j < k ==> key_lt(#[trigger] old[j], sp)) && (forall|j: int|
            k <= j < old.len() ==> !key_lt(#[trigger] old[j], sp));
    if k1 < k2 {
        assert(key_lt(old[k1], sp));
    } else if k2 < k1 {
        assert(key_lt(old[k2], sp));
    }
}

/// Adding a rectangle by two opposite corners has the same effect whichever
/// corner comes first: `add_rect(a, b)` and `add_rect(b, a)` leave equal sets.
pub proof fn lemma_add_rect_symmetric(m0: ObstacleModel, m1: ObstacleModel, m2: ObstacleModel, a: Point, b: Point)
    requires
        rect_added(m0, m1, a, b),
        rect_added(m0, m2, b, a),
    ensures
        m1 == m2,
{
    let x1 = min_int(a.x as int, b.x as int) as Coord;
    let x2 = max_int(a.x as int, b.x as int) as Coord;
    let y1 = min_int(a.y as int, b.y as int) as Coord;
    let y2 = max_int(a.y as int, b.y as int) as Coord;
    assert(min_int(a.x as int, b.x as int) == min_int(b.x as int, a.x as int));
    assert(max_int(a.x as int, b.x as int) == max_int(b.x as int, a.x as int));
    assert(min_int(a.y as int, b.y as int) == min_int(b.y as int, a.y as int));
    assert(max_int(a.y as int, b.y as int) == max_int(b.y as int, a.y as int));
    let h1 = choose|mid: Seq<Span>| inserted_sorted(m0.horizontal, mid, (y1, x1, x2)) && inserted_sorted(mid, m1.horizontal, (y2, x1, x2));
    let h2 = choose|mid: Seq<Span>| inserted_sorted(m0.horizontal, mid, (y1, x1, x2)) && inserted_sorted(mid, m2.horizontal, (y2, x1, x2));
    lemma_inserted_sorted_unique(m0.horizontal, h1, h2, (y1, x1, x2));
    lemma_inserted_sorted_unique(h1, m1.horizontal, m2.horizontal, (y2, x1, x2));
    let v1 = choose|mid: Seq<Span>| inserted_sorted(m0.vertical, mid, (x1, y1, y2)) && inserted_sorted(mid, m1.vertical, (x2, y1, y2));
    let v2 = choose|mid: Seq<Span>| inserted_sorted(m0.vertical, mid, (x1, y1, y2)) && inserted_sorted(mid, m2.vertical, (x2, y1, y2));
    lemma_inserted_sorted_unique(m0.vertical, v1, v2, (x1, y1, y2));
    lemma_inserted_sorted_unique(v1, m1.vertical, m2.vertical, (x2, y1, y2));
}

/// `m1` is what adding segment `s` to `m0` gives, as `add_segment` states it.
pub open spec fn segment_added(m0: ObstacleModel, m1: ObstacleModel, s: Segment) -> bool {
    &&& m1.spans(s.orientation.perpendicular()) == m0.spans(s.orientation.perpendicular())
    &&& m1.spans(s.orientation).to_multiset() == m0.spans(s.orientation).to_multiset().insert((s.fixed, s.from, s.to))
}

/// A set that starts empty and gets the segments `ss` added one after the
/// other (`ms[k + 1]` after adding `ss[k]` to `ms[k]`) stores exactly their
/// spans, duplicates kept, whatever the order: its segments are a
/// permutation of `ss`.
pub proof fn lemma_spans_of_adds(ms: Seq<ObstacleModel>, ss: Seq<Segment>)
    requires
        ms.len() == ss.len() + 1,
        ms[0].horizontal.len() == 0,
        ms[0].vertical.len() == 0,
        forall|k: int| 0 <= k < ss.len() ==> segment_added(ms[k], #[trigger] ms[k + 1], ss[k]),
    ensures
        ms.last().horizontal.to_multiset() == added_spans(ss, Orientation::Horizontal),
        ms.last().vertical.to_multiset() == added_spans(ss, Orientation::Vertical),
    decreases ss.len(),
{
    broadcast use vstd::seq_lib::group_to_multiset_ensures;
    if ss.len() == 0 {
        assert(ms[0].horizontal =~= Seq::<Span>::empty());
        assert(ms[0].vertical =~= Seq::<Span>::empty());
        assert(ms[0].horizontal.to_multiset() =~= Multiset::<Span>::empty());
        assert(ms[0].vertical.to_multiset() =~= Multiset::<Span>::empty());
    } else {
        let n = ss.len() - 1;
        let ms1 = ms.drop_last();
        let ss1 = ss.drop_last();
        assert forall|k: int| 0 <= k < ss1.len() implies segment_added(ms1[k], #[trigger] ms1[k + 1], ss1[k]) by {
            assert(segment_added(ms[k], ms[k + 1], ss[k]));
        }
        lemma_spans_of_adds(ms1, ss1);
        assert(segment_added(ms[n], ms[n + 1], ss[n]));
        assert(ms1.last() == ms[n]);
        if ss[n].orientation == Orientation::Horizontal {
            assert(ms[n + 1].vertical == ms[n].vertical);
        } else {
            assert(ms[n + 1].horizontal == ms[n].horizontal);
        }
    }
}

/// A cover query has exactly one answer. So the bounding covers of a point
/// for a horizontal escape line are its left and right covers, and for a
/// vertical one its lower and upper covers: the queries share their result
/// predicates.
pub proof fn lemma_cover_result_unique(m: ObstacleModel, o: Orientation, p: Point, r1: Option<Segment>, r2: Option<Segment>)
    requires
        (m.cover_below_result(o, p, r1) && m.cover_below_result(o, p, r2)) || (m.cover_above_result(o, p, r1)
            && m.cover_above_result(o, p, r2)),
    ensures
        r1 == r2,
{
    if r1 is Some {
        if m.cover_below_result(o, p, r1) && m.cover_below_result(o, p, r2) {
            let i1 = choose|i: int| m.is_cover_below(o, i, p) && r1 == Some(span_segment(o, #[trigger] m.spans(o)[i]));
            let i2 = choose|i: int| m.is_cover_below(o, i, p) && r2 == Some(span_segment(o, #[trigger] m.spans(o)[i]));
            assert(m.covers_below(o, i1, p) && m.covers_below(o, i2, p));
            assert(i1 == i2);
        } else {
            let i1 = choose|i: int| m.is_cover_above(o, i, p) && r1 == Some(span_segment(o, #[trigger] m.spans(o)[i]));
            let i2 = choose|i: int| m.is_cover_above(o, i, p) && r2 == Some(span_segment(o, #[trigger] m.spans(o)[i]));
            assert(m.covers_above(o, i1, p) && m.covers_above(o, i2, p));
            assert(i1 == i2);
        }
    }
}

impl ObstacleSet {
    /// The maximal obstacle-free segment of the given orientation through `p`.
    ///
    /// It ends one unit short of the bounding covers (giving the path a
    /// clearance of one unit), or on the bounding box, and also stops one unit
    /// short of any collinear obstacle on the same row/column. The result can
    /// have zero length. `p` must be a free point.
    pub fn escape_line(&self, p: Point, orientation: Orientation) -> (r: Segment)
        requires
            self@.free_point(p),
        ensures
            self@.is_escape_line(p, orientation, r),
    {
        proof {
            use_type_invariant(self);
            lemma_along_across(orientation, p);
        }
        let o = orientation;
        let perp = o.perpendicular();
        let along = p.along(o);
        let across = p.across(o);
        let ghost m = self@;
        let mut lo = self.bounds.lo(o);
        let mut hi = self.bounds.hi(o);
        let (neg, pos) = self.bounding_covers(p, o);
        if let Some(c) = neg {
            lo = coord_max(lo, c.fixed + 1);
        }
        if let Some(c) = pos {
            hi = coord_min(hi, c.fixed - 1);
        }
        proof {
            if neg is Some && lo != m.bounds.lo(o) {
                let i0 = choose|i: int|
                    m.is_cover_below(perp, i, p) && neg == Some(
                        span_segment(perp, #[trigger] m.spans(perp)[i]),
                    );
                let q = Point::from_along_across(o, (lo - 1) as Coord, across);
                lemma_from_along_across(o, (lo - 1) as Coord, across);
                assert(span_segment(perp, m.spans(perp)[i0]).contains(q));
                assert(m.blocks_on(perp, q));
            }
            if pos is Some && hi != m.bounds.hi(o) {
                let i0 = choose|i: int|
                    m.is_cover_above(perp, i, p) && pos == Some(
                        span_segment(perp, #[trigger] m.spans(perp)[i]),
                    );
                let q = Point::from_along_across(o, (hi + 1) as Coord, across);
                lemma_from_along_across(o, (hi + 1) as Coord, across);
                assert(span_segment(perp, m.spans(perp)[i0]).contains(q));
                assert(m.blocks_on(perp, q));
            }
        }
        let rows = self.spans_of(o);
        let start = first_row_at_least(rows, across);
        let mut k = start;
        while k < rows.len() && rows[k].0 == across
            invariant
                m == self@,
                m.wf(),
                rows@ == m.spans(o),
                perp == o.perpendicular(),
                along == p.along(o),
                across == p.across(o),
                start <= k <= rows@.len(),
                forall|j: int| 0 <= j < start ==> (#[trigger] rows@[j]).0 < across,
                forall|j: int| start <= j < rows@.len() ==> (#[trigger] rows@[j]).0 >= across,
                m.bounds.lo(o) <= lo <= along <= hi <= m.bounds.hi(o),
                lo == m.bounds.lo(o) || m.stops_at(o, across, lo - 1),
                hi == m.bounds.hi(o) || m.stops_at(o, across, hi + 1),
                neg is Some ==> lo > neg->0.fixed,
                pos is Some ==> hi < pos->0.fixed,
                forall|j: int|
                    start <= j < k ==> ((#[trigger] rows@[j]).2 < along ==> lo > rows@[j].2) && (
                    !(rows@[j].2 < along) && rows@[j].1 > along ==> hi < rows@[j].1),
            decreases rows@.len() - k,
        {
            let a = rows[k].1;
            let b = rows[k].2;
            if b < along {
                if b + 1 > lo {
                    proof {
                        let q = Point::from_along_across(o, b, across);
                        lemma_from_along_across(o, b, across);
                        assert(span_segment(o, rows@[k as int]).contains(q));
                        assert(m.blocks_on(o, q));
                    }
                }
                lo = coord_max(lo, b + 1);
            } else if a > along {
                if a - 1 < hi {
                    proof {
                        let q = Point::from_along_across(o, a, across);
                        lemma_from_along_across(o, a, across);
                        assert(span_segment(o, rows@[k as int]).contains(q));
                        assert(m.blocks_on(o, q));
                    }
                }
                hi = coord_min(hi, a - 1);
            } else {
                proof {
                    assert(span_segment(o, rows@[k as int]).contains(p));
                    assert(m.blocks_on(o, p));
                }
            }
            k = k + 1;
        }
        let r = Segment {
            orientation: o,
            fixed: across,
            from: coord_min(lo, along),
            to: coord_max(hi, along),
        };
        proof {
            lemma_from_along_across(o, lo, across);
            lemma_from_along_across(o, hi, across);
            // No collinear obstacle overlaps the line.
            assert forall|i: int|
                0 <= i < m.spans(o).len() implies !(#[trigger] span_segment(
                o,
                m.spans(o)[i],
            )).overlaps_collinear(&r) by {
                if span_segment(o, m.spans(o)[i]).overlaps_collinear(&r) {
                    assert(i >= start);
                    if i >= k {
                        assert(k < rows@.len());
                        if i > k {
                            assert(key_le(rows@[k as int], rows@[i]));
                        }
                        assert(false);
                    }
                    if !(rows@[i].2 < along) && !(rows@[i].1 > along) {
                        assert(span_segment(o, rows@[i]).contains(p));
                        assert(m.blocks_on(o, p));
                    }
                }
            }
            // No perpendicular obstacle crosses or touches the line.
            assert forall|i: int|
                0 <= i < m.spans(perp).len() implies (#[trigger] span_segment(
                perp,
                m.spans(perp)[i],
            )).crossing(&r) is None by {
                if span_segment(perp, m.spans(perp)[i]).crossing(&r) is Some {
                    let sp = m.spans(perp)[i];
                    if sp.0 > along {
                        assert(m.covers_above(perp, i, p));
                        let i0 = choose|i1: int|
                            m.is_cover_above(perp, i1, p) && pos == Some(
                                span_segment(perp, #[trigger] m.spans(perp)[i1]),
                            );
                        assert(m.spans(perp)[i0].0 <= sp.0);
                    } else if sp.0 < along {
                        assert(m.covers_below(perp, i, p));
                        let i0 = choose|i1: int|
                            m.is_cover_below(perp, i1, p) && neg == Some(
                                span_segment(perp, #[trigger] m.spans(perp)[i1]),
                            );
                        assert(m.spans(perp)[i0].0 >= sp.0);
                    } else {
                        assert(span_segment(perp, sp).contains(p));
                        assert(m.blocks_on(perp, p));
                        if o == Orientation::Horizontal {
                            assert(m.blocks_on(Orientation::Vertical, p));
                        } else {
                            assert(m.blocks_on(Orientation::Horizontal, p));
                        }
                    }
                }
            }
            assert(!m.collinear_hit(r));
            assert(!m.cross_hit(r));
            assert(m.free_segment(r)) by {
                reveal(ObstacleModel::free_segment);
            }
        }
        r
    }
}

/// The spans that `add_path` stores for the rectilinear pairs of consecutive
/// corners, restricted to orientation `o`.
pub open spec fn path_spans(corners: Seq<Point>, o: Orientation) -> Multiset<Span>
    decreases corners.len(),
{
    if corners.len() < 2 {
        Multiset::empty()
    } else {
        let n = corners.len();
        let rest = path_spans(corners.drop_last(), o);
        match between_spec(corners[n - 2], corners[n - 1]) {
            Some(s) => if s.orientation == o {
                rest.insert((s.fixed, s.from, s.to))
            } else {
                rest
            },
            None => rest,
        }
    }
}

/// The zero-length horizontal spans that `add_path_corners` stores, one per corner.
pub open spec fn corner_spans(corners: Seq<Point>) -> Multiset<Span> {
    corners.map_values(|c: Point| (c.y, c.x, c.x)).to_multiset()
}

/// `new` is `old` with `a` and then `b` inserted by the sorted-insertion rule.
pub open spec fn inserted_sorted_twice(old: Seq<Span>, new: Seq<Span>, a: Span, b: Span) -> bool {
    exists|mid: Seq<Span>| inserted_sorted(old, mid, a) && inserted_sorted(mid, new, b)
}

/// Inserting into a sequence adds the element to its multiset.
pub(crate) proof fn lemma_inserted_multiset(old: Seq<Span>, new: Seq<Span>, sp: Span)
    requires
        inserted_sorted(old, new, sp),
    ensures
        new.to_multiset() == old.to_multiset().insert(sp),
{
    let k = choose|k: int|
        0 <= k <= old.len() && new == old.insert(k, sp) && (forall|j: int|
            0 <= j < k ==> key_lt(#[trigger] old[j], sp)) && (forall|j: int|
            k <= j < old.len() ==> !key_lt(#[trigger] old[j], sp));
    vstd::seq_lib::to_multiset_insert(old, k, sp);
}

impl ObstacleSet {
    /// Adds the four edges of an axis-parallel rectangle: the lower and upper
    /// horizontal edge, then the left and right vertical edge.
    pub fn add_rect(&mut self, a: Point, b: Point)
        ensures
            rect_added(old(self)@, final(self)@, a, b),
            final(self)@.horizontal.to_multiset() == old(self)@.horizontal.to_multiset().insert(
                (min_int(a.y as int, b.y as int) as Coord, min_int(a.x as int, b.x as int) as Coord, max_int(a.x as int, b.x as int) as Coord),
            ).insert(
                (max_int(a.y as int, b.y as int) as Coord, min_int(a.x as int, b.x as int) as Coord, max_int(a.x as int, b.x as int) as Coord),
            ),
            final(self)@.vertical.to_multiset() == old(self)@.vertical.to_multiset().insert(
                (min_int(a.x as int, b.x as int) as Coord, min_int(a.y as int, b.y as int) as Coord, max_int(a.y as int, b.y as int) as Coord),
            ).insert(
                (max_int(a.x as int, b.x as int) as Coord, min_int(a.y as int, b.y as int) as Coord, max_int(a.y as int, b.y as int) as Coord),
            ),
    {
        let x1 = coord_min(a.x, b.x);
        let x2 = coord_max(a.x, b.x);
        let y1 = coord_min(a.y, b.y);
        let y2 = coord_max(a.y, b.y);
        let ghost h0 = self@.horizontal;
        let ghost v0 = self@.vertical;
        self.add_segment(Segment::horizontal(y1, x1, x2));
        let ghost h1 = self@.horizontal;
        self.add_segment(Segment::horizontal(y2, x1, x2));
        assert(inserted_sorted(h0, h1, (y1, x1, x2)) && inserted_sorted(h1, self@.horizontal, (y2, x1, x2)));
        self.add_segment(Segment::vertical(x1, y1, y2));
        let ghost v1 = self@.vertical;
        self.add_segment(Segment::vertical(x2, y1, y2));
        assert(inserted_sorted(v0, v1, (x1, y1, y2)) && inserted_sorted(v1, self@.vertical, (x2, y1, y2)));
        proof {
            use_type_invariant(&*self);
        }
        let mut rects: Vec<(Point, Point)> = Vec::new();
        std::mem::swap(&mut rects, &mut self.rects);
        rects.push((Point::new(x1, y1), Point::new(x2, y2)));
        self.rects = rects;
    }

    /// The rectangles added with [`ObstacleSet::add_rect`], as normalized corner pairs.
    pub fn rects(&self) -> (r: &Vec<(Point, Point)>)
        ensures
            r@ == self@.rects,
    {
        &self.rects
    }

    /// Adds a rectilinear polyline (e.g. an already routed path) as obstacles,
    /// one segment per pair of consecutive corners. Diagonal pairs are ignored.
    pub fn add_path(&mut self, corners: &[Point])
        ensures
            final(self)@.bounds == old(self)@.bounds,
            final(self)@.rects == old(self)@.rects,
            final(self)@.horizontal.to_multiset() == old(self)@.horizontal.to_multiset().add(
                path_spans(corners@, Orientation::Horizontal),
            ),
            final(self)@.vertical.to_multiset() == old(self)@.vertical.to_multiset().add(
                path_spans(corners@, Orientation::Vertical),
            ),
    {
        let ghost h0 = self@.horizontal;
        let ghost v0 = self@.vertical;
        if corners.len() < 2 {
            assert(h0.to_multiset().add(Multiset::empty()) =~= h0.to_multiset());
            assert(v0.to_multiset().add(Multiset::empty()) =~= v0.to_multiset());
            return;
        }
        assert(h0.to_multiset().add(path_spans(corners@.take(1), Orientation::Horizontal)) =~= h0.to_multiset());
        assert(v0.to_multiset().add(path_spans(corners@.take(1), Orientation::Vertical)) =~= v0.to_multiset());
        let mut i: usize = 1;
        while i < corners.len()
            invariant
                1 <= i <= corners@.len(),
                self@.bounds == old(self)@.bounds,
                self@.rects == old(self)@.rects,
                h0 == old(self)@.horizontal,
                v0 == old(self)@.vertical,
                self@.horizontal.to_multiset() == h0.to_multiset().add(
                    path_spans(corners@.take(i as int), Orientation::Horizontal),
                ),
                self@.vertical.to_multiset() == v0.to_multiset().add(
                    path_spans(corners@.take(i as int), Orientation::Vertical),
                ),
            decreases corners@.len() - i,
        {
            let ghost pre = corners@.take(i as int);
            let ghost next = corners@.take(i + 1);
            assert(next.drop_last() =~= pre);
            assert(next[next.len() - 2] == corners@[i - 1]);
            assert(next[next.len() - 1] == corners@[i as int]);
            let ghost hb = self@.horizontal;
            let ghost vb = self@.vertical;
            if let Some(s) = Segment::between(corners[i - 1], corners[i]) {
                self.add_segment(s);
                proof {
                    lemma_inserted_multiset(
                        if s.orientation == Orientation::Horizontal { hb } else { vb },
                        if s.orientation == Orientation::Horizontal { self@.horizontal } else { self@.vertical },
                        (s.fixed, s.from, s.to),
                    );
                    if s.orientation == Orientation::Horizontal {
                        assert(self@.vertical == vb);
                        assert(self@.horizontal.to_multiset() =~= h0.to_multiset().add(
                            path_spans(next, Orientation::Horizontal)));
                        assert(self@.vertical.to_multiset() =~= v0.to_multiset().add(
                            path_spans(next, Orientation::Vertical)));
                    } else {
                        assert(self@.horizontal == hb);
                        assert(self@.horizontal.to_multiset() =~= h0.to_multiset().add(
                            path_spans(next, Orientation::Horizontal)));
                        assert(self@.vertical.to_multiset() =~= v0.to_multiset().add(
                            path_spans(next, Orientation::Vertical)));
                    }
                }
            } else {
                assert(path_spans(next, Orientation::Horizontal) == path_spans(pre, Orientation::Horizontal));
                assert(path_spans(next, Orientation::Vertical) == path_spans(pre, Orientation::Vertical));
            }
            i = i + 1;
        }
        assert(corners@.take(corners@.len() as int) =~= corners@);
    }

    /// Adds only the corners of a path as zero-length obstacles. This is the
    /// paper's "PERT diagram" mode: later paths may cross this one but cannot
    /// run along it or bend on it.
    pub fn add_path_corners(&mut self, corners: &[Point])
        ensures
            final(self)@.bounds == old(self)@.bounds,
            final(self)@.rects == old(self)@.rects,
            final(self)@.vertical == old(self)@.vertical,
            final(self)@.horizontal.to_multiset() == old(self)@.horizontal.to_multiset().add(
                corner_spans(corners@),
            ),
    {
        let ghost h0 = self@.horizontal;
        assert(corners@.take(0).map_values(|c: Point| (c.y, c.x, c.x)) =~= Seq::<Span>::empty());
        proof {
            let e = corners@.take(0).map_values(|c: Point| (c.y, c.x, c.x));
            vstd::seq_lib::to_multiset_len(e);
            vstd::multiset::lemma_multiset_empty_len(e.to_multiset());
            assert(h0.to_multiset().add(corner_spans(corners@.take(0))) =~= h0.to_multiset());
        }
        let mut i: usize = 0;
        while i < corners.len()
            invariant
                0 <= i <= corners@.len(),
                self@.bounds == old(self)@.bounds,
                self@.rects == old(self)@.rects,
                self@.vertical == old(self)@.vertical,
                h0 == old(self)@.horizontal,
                self@.horizontal.to_multiset() == h0.to_multiset().add(
                    corner_spans(corners@.take(i as int)),
                ),
            decreases corners@.len() - i,
        {
            let c = corners[i];
            let ghost hb = self@.horizontal;
            self.add_segment(Segment::horizontal(c.y, c.x, c.x));
            proof {
                lemma_inserted_multiset(hb, self@.horizontal, (c.y, c.x, c.x));
                let f = |c: Point| (c.y, c.x, c.x);
                assert(corners@.take(i + 1).map_values(f) =~= corners@.take(i as int).map_values(f).push(
                    (c.y, c.x, c.x)));
                vstd::seq_lib::to_multiset_build(corners@.take(i as int).map_values(f), (c.y, c.x, c.x));
                assert(self@.horizontal.to_multiset() =~= h0.to_multiset().add(
                    corner_spans(corners@.take(i + 1))));
            }
            i = i + 1;
        }
        assert(corners@.take(corners@.len() as int) =~= corners@);
    }

    /// All stored segments: the horizontal ones by row, then the vertical ones by column.
    pub fn segments(&self) -> (r: Vec<Segment>)
        ensures
            r@ == self@.horizontal.map_values(|sp: Span| span_segment(Orientation::Horizontal, sp))
                + self@.vertical.map_values(|sp: Span| span_segment(Orientation::Vertical, sp)),
    {
        let mut r: Vec<Segment> = Vec::new();
        let mut i: usize = 0;
        while i < self.horizontal.len()
            invariant
                i <= self@.horizontal.len(),
                r@ =~= self@.horizontal.take(i as int).map_values(
                    |sp: Span| span_segment(Orientation::Horizontal, sp),
                ),
            decreases self@.horizontal.len() - i,
        {
            let sp = self.horizontal[i];
            r.push(Segment { orientation: Orientation::Horizontal, fixed: sp.0, from: sp.1, to: sp.2 });
            assert(self@.horizontal.take(i + 1) =~= self@.horizontal.take(i as int).push(sp));
            i = i + 1;
        }
        assert(self@.horizontal.take(i as int) =~= self@.horizontal);
        let ghost hs = r@;
        let mut j: usize = 0;
        while j < self.vertical.len()
            invariant
                j <= self@.vertical.len(),
                hs == self@.horizontal.map_values(|sp: Span| span_segment(Orientation::Horizontal, sp)),
                r@ =~= hs + self@.vertical.take(j as int).map_values(
                    |sp: Span| span_segment(Orientation::Vertical, sp),
                ),
            decreases self@.vertical.len() - j,
        {
            let sp = self.vertical[j];
            r.push(Segment { orientation: Orientation::Vertical, fixed: sp.0, from: sp.1, to: sp.2 });
            assert(self@.vertical.take(j + 1) =~= self@.vertical.take(j as int).push(sp));
            j = j + 1;
        }
        assert(self@.vertical.take(j as int) =~= self@.vertical);
        r
    }

    /// Number of stored segments.
    pub fn len(&self) -> (r: usize)
        requires
            self@.horizontal.len() + self@.vertical.len() <= usize::MAX,
        ensures
            r == self@.horizontal.len() + self@.vertical.len(),
    {
        self.horizontal.len() + self.vertical.len()
    }

    /// Numbers of stored horizontal and vertical segments.
    pub(crate) fn span_counts(&self) -> (r: (usize, usize))
        ensures
            r.0 == self@.horizontal.len(),
            r.1 == self@.vertical.len(),
    {
        (self.horizontal.len(), self.vertical.len())
    }

    /// True if no segments are stored.
    pub fn is_empty(&self) -> (r: bool)
        ensures
            r == (self@.horizontal.len() == 0 && self@.vertical.len() == 0),
    {
        self.horizontal.is_empty() && self.vertical.is_empty()
    }
}

} // verus!
