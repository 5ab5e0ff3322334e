//! Basic integer geometry: points, orientations, axis-parallel segments and
//! the bounding box. All coordinates are `i64`; every predicate is exact.

use vstd::prelude::*;

verus! {

/// Coordinate type used throughout the crate. Integer only, no floats.
pub type Coord = i64;

/// The smaller of two integers.
pub open spec fn min_int(a: int, b: int) -> int {
    if a <= b { a } else { b }
}

/// The larger of two integers.
pub open spec fn max_int(a: int, b: int) -> int {
    if a >= b { a } else { b }
}

/// Absolute value of an integer.
pub open spec fn abs_int(a: int) -> int {
    if a >= 0 { a } else { -a }
}

/// The smaller of two coordinates.
pub fn coord_min(a: Coord, b: Coord) -> (r: Coord)
    ensures r == min_int(a as int, b as int),
{
    if a <= b { a } else { b }
}

/// The larger of two coordinates.
pub fn coord_max(a: Coord, b: Coord) -> (r: Coord)
    ensures r == max_int(a as int, b as int),
{
    if a >= b { a } else { b }
}

/// A point in the plane.
#[derive(Clone, Copy, PartialEq, Eq, Structural, Hash, Debug, PartialOrd, Ord)]
pub struct Point {
    /// Horizontal coordinate.
    pub x: Coord,
    /// Vertical coordinate (grows upward).
    pub y: Coord,
}

/// Orientation of an axis-parallel segment.
#[derive(Clone, Copy, PartialEq, Eq, Structural, Hash, Debug)]
pub enum Orientation {
    /// Parallel to the x-axis.
    Horizontal,
    /// Parallel to the y-axis.
    Vertical,
}

/// Manhattan distance of two points, as a mathematical integer.
pub open spec fn manhattan_spec(p: Point, q: Point) -> int {
    abs_int(p.x - q.x) + abs_int(p.y - q.y)
}

/// Squared Euclidean distance of two points, as a mathematical integer.
pub open spec fn dist2_spec(p: Point, q: Point) -> int {
    (p.x - q.x) * (p.x - q.x) + (p.y - q.y) * (p.y - q.y)
}

/// Two points share a row or a column.
pub open spec fn axis_aligned(p: Point, q: Point) -> bool {
    p.x == q.x || p.y == q.y
}

impl Point {
    /// Creates a point.
    pub fn new(x: Coord, y: Coord) -> (r: Point)
        ensures r.x == x, r.y == y,
    {
        Point { x, y }
    }

    /// Squared Euclidean distance, computed in `i128`.
    pub fn dist2(self, other: Point) -> (r: i128)
        requires dist2_spec(self, other) <= i128::MAX,
        ensures r == dist2_spec(self, other),
    {
        let dx: i128 = self.x as i128 - other.x as i128;
        let dy: i128 = self.y as i128 - other.y as i128;
        assert(dx * dx >= 0 && dy * dy >= 0) by (nonlinear_arith);
        dx * dx + dy * dy
    }

    /// Manhattan (taxicab) distance.
    pub fn manhattan(self, other: Point) -> (r: Coord)
        requires manhattan_spec(self, other) <= i64::MAX,
        ensures r == manhattan_spec(self, other),
    {
        let dx: Coord = if self.x >= other.x { self.x - other.x } else { other.x - self.x };
        let dy: Coord = if self.y >= other.y { self.y - other.y } else { other.y - self.y };
        dx + dy
    }

    /// The coordinate along the given orientation: `x` for horizontal, `y` for vertical.
    #[verifier::allow_in_spec]
    pub fn along(self, orientation: Orientation) -> Coord
        returns (match orientation {
            Orientation::Horizontal => self.x,
            Orientation::Vertical => self.y,
        }),
    {
        match orientation {
            Orientation::Horizontal => self.x,
            Orientation::Vertical => self.y,
        }
    }

    /// The coordinate perpendicular to the given orientation: `y` for horizontal, `x` for vertical.
    #[verifier::allow_in_spec]
    pub fn across(self, orientation: Orientation) -> Coord
        returns (match orientation {
            Orientation::Horizontal => self.y,
            Orientation::Vertical => self.x,
        }),
    {
        match orientation {
            Orientation::Horizontal => self.y,
            Orientation::Vertical => self.x,
        }
    }

    /// Builds a point from its coordinate along and across an orientation.
    #[verifier::allow_in_spec]
    pub fn from_along_across(orientation: Orientation, along: Coord, across: Coord) -> Point
        returns (match orientation {
            Orientation::Horizontal => Point { x: along, y: across },
            Orientation::Vertical => Point { x: across, y: along },
        }),
    {
        match orientation {
            Orientation::Horizontal => Point { x: along, y: across },
            Orientation::Vertical => Point { x: across, y: along },
        }
    }
}

/// Coordinates along and across an orientation swap under the perpendicular
/// orientation, and a point is rebuilt from them.
pub proof fn lemma_along_across(o: Orientation, p: Point)
    ensures
        p.along(o.perpendicular()) == p.across(o),
        p.across(o.perpendicular()) == p.along(o),
        Point::from_along_across(o, p.along(o), p.across(o)) == p,
        o.perpendicular().perpendicular() == o,
{
}

/// The coordinates of a point built from an along and an across coordinate.
pub proof fn lemma_from_along_across(o: Orientation, along: Coord, across: Coord)
    ensures
        Point::from_along_across(o, along, across).along(o) == along,
        Point::from_along_across(o, along, across).across(o) == across,
        Point::from_along_across(o, along, across).along(o.perpendicular()) == across,
        Point::from_along_across(o, along, across).across(o.perpendicular()) == along,
{
}

impl From<(Coord, Coord)> for Point {
    fn from(xy: (Coord, Coord)) -> (r: Point) {
        Point { x: xy.0, y: xy.1 }
    }
}

impl vstd::std_specs::convert::FromSpecImpl<(Coord, Coord)> for Point {
    open spec fn obeys_from_spec() -> bool {
        true
    }

    open spec fn from_spec(xy: (Coord, Coord)) -> Point {
        Point { x: xy.0, y: xy.1 }
    }
}

impl Orientation {
    /// The other orientation.
    #[verifier::allow_in_spec]
    pub fn perpendicular(self) -> Orientation
        returns (match self {
            Orientation::Horizontal => Orientation::Vertical,
            Orientation::Vertical => Orientation::Horizontal,
        }),
    {
        match self {
            Orientation::Horizontal => Orientation::Vertical,
            Orientation::Vertical => Orientation::Horizontal,
        }
    }
}

/// An axis-parallel segment: `fixed` is the constant coordinate (`y` for a
/// horizontal segment, `x` for a vertical one) and `[from, to]` the inclusive
/// span along the other axis. A point is a zero-length segment (`from == to`).
#[derive(Clone, Copy, PartialEq, Eq, Structural, Hash, Debug)]
pub struct Segment {
    /// Direction the segment runs in.
    pub orientation: Orientation,
    /// The constant coordinate (`y` if horizontal, `x` if vertical).
    pub fixed: Coord,
    /// Start of the inclusive span along the running axis.
    pub from: Coord,
    /// End of the inclusive span along the running axis (`from <= to`).
    pub to: Coord,
}

/// The segment of the given orientation and fixed coordinate spanning `a..b` in either order.
pub open spec fn segment_spec(orientation: Orientation, fixed: Coord, a: Coord, b: Coord) -> Segment {
    Segment {
        orientation,
        fixed,
        from: if a <= b { a } else { b },
        to: if a <= b { b } else { a },
    }
}

/// The segment between two axis-aligned points (horizontal if they share `y`).
pub open spec fn between_spec(a: Point, b: Point) -> Option<Segment> {
    if a.y == b.y {
        Some(segment_spec(Orientation::Horizontal, a.y, a.x, b.x))
    } else if a.x == b.x {
        Some(segment_spec(Orientation::Vertical, a.x, a.y, b.y))
    } else {
        None
    }
}

/// The segment between two axis-aligned points, for use in specifications.
pub open spec fn seg_of(a: Point, b: Point) -> Segment {
    between_spec(a, b).unwrap()
}

impl Segment {
    /// Creates a segment; the span is normalized so that `from <= to`.
    pub fn new(orientation: Orientation, fixed: Coord, a: Coord, b: Coord) -> (r: Segment)
        ensures r == segment_spec(orientation, fixed, a, b),
    {
        Segment { orientation, fixed, from: coord_min(a, b), to: coord_max(a, b) }
    }

    /// Horizontal segment `{ y, x in [x1, x2] }`.
    pub fn horizontal(y: Coord, x1: Coord, x2: Coord) -> (r: Segment)
        ensures r == segment_spec(Orientation::Horizontal, y, x1, x2),
    {
        Segment::new(Orientation::Horizontal, y, x1, x2)
    }

    /// Vertical segment `{ x, y in [y1, y2] }`.
    pub fn vertical(x: Coord, y1: Coord, y2: Coord) -> (r: Segment)
        ensures r == segment_spec(Orientation::Vertical, x, y1, y2),
    {
        Segment::new(Orientation::Vertical, x, y1, y2)
    }

    /// The segment between two points, if they are axis-aligned.
    /// Two equal points yield a horizontal zero-length segment.
    pub fn between(a: Point, b: Point) -> (r: Option<Segment>)
        ensures r == between_spec(a, b),
    {
        if a.y == b.y {
            Some(Segment::horizontal(a.y, a.x, b.x))
        } else if a.x == b.x {
            Some(Segment::vertical(a.x, a.y, b.y))
        } else {
            None
        }
    }

    /// Length of the segment (zero for a point).
    pub fn len(&self) -> (r: Coord)
        requires i64::MIN <= self.to - self.from <= i64::MAX,
        ensures r == self.to - self.from,
    {
        self.to - self.from
    }

    /// Is the segment a single point?
    pub fn is_empty(&self) -> (r: bool)
        ensures r == (self.from == self.to),
    {
        self.from == self.to
    }

    /// Endpoint with the smaller running coordinate.
    #[verifier::allow_in_spec]
    pub fn start(&self) -> Point
        returns Point::from_along_across(self.orientation, self.from, self.fixed),
    {
        Point::from_along_across(self.orientation, self.from, self.fixed)
    }

    /// Endpoint with the larger running coordinate.
    #[verifier::allow_in_spec]
    pub fn end(&self) -> Point
        returns Point::from_along_across(self.orientation, self.to, self.fixed),
    {
        Point::from_along_across(self.orientation, self.to, self.fixed)
    }

    /// Both endpoints.
    pub fn endpoints(&self) -> (r: [Point; 2])
        ensures r@ == seq![self.start(), self.end()],
    {
        let r = [self.start(), self.end()];
        assert(r@ =~= seq![self.start(), self.end()]);
        r
    }

    /// Does the perpendicular from `p` onto this segment's line hit the segment?
    /// (Hightower's "cover" verb.) The point may lie on either side or on the line.
    #[verifier::allow_in_spec]
    pub fn covers(&self, p: Point) -> bool
        returns self.from <= p.along(self.orientation) <= self.to,
    {
        let a = p.along(self.orientation);
        self.from <= a && a <= self.to
    }

    /// Is `p` on the segment (inclusive endpoints)?
    #[verifier::allow_in_spec]
    pub fn contains(&self, p: Point) -> bool
        returns p.across(self.orientation) == self.fixed && self.covers(p),
    {
        p.across(self.orientation) == self.fixed && self.covers(p)
    }

    /// Do the two segments have the same orientation and fixed coordinate and
    /// share at least one point? Zero-length segments are handled.
    #[verifier::allow_in_spec]
    pub fn overlaps_collinear(&self, other: &Segment) -> bool
        returns self.orientation == other.orientation && self.fixed == other.fixed
            && self.from <= other.to && other.from <= self.to,
    {
        self.orientation == other.orientation && self.fixed == other.fixed && self.from
            <= other.to && other.from <= self.to
    }

    /// If the segments are perpendicular and cross (touching at an endpoint
    /// counts), returns the crossing point.
    #[verifier::allow_in_spec]
    pub fn crossing(&self, other: &Segment) -> Option<Point>
        returns (if self.orientation != other.orientation && self.from <= other.fixed
            <= self.to && other.from <= self.fixed <= other.to {
            Some(Point::from_along_across(self.orientation, other.fixed, self.fixed))
        } else {
            None
        }),
    {
        if self.orientation == other.orientation {
            return None;
        }
        let on_self = self.from <= other.fixed && other.fixed <= self.to;
        let on_other = other.from <= self.fixed && self.fixed <= other.to;
        if on_self && on_other {
            Some(Point::from_along_across(self.orientation, other.fixed, self.fixed))
        } else {
            None
        }
    }

    /// Any contact at all: perpendicular crossing, T-touch, endpoint touch or
    /// collinear overlap.
    #[verifier::allow_in_spec]
    pub fn touches(&self, other: &Segment) -> bool
        returns (if self.orientation == other.orientation {
            self.overlaps_collinear(other)
        } else {
            self.crossing(other).is_some()
        }),
    {
        if self.orientation == other.orientation {
            self.overlaps_collinear(other)
        } else {
            self.crossing(other).is_some()
        }
    }
}

/// The routing area. Escape lines are clipped to it; both limits are inclusive.
#[derive(Clone, Copy, PartialEq, Eq, Structural, Debug)]
pub struct Bounds {
    /// Lower-left corner (inclusive).
    pub min: Point,
    /// Upper-right corner (inclusive).
    pub max: Point,
}

impl Bounds {
    /// Creates a bounding box from two corners (normalized).
    pub fn new(a: Point, b: Point) -> (r: Bounds)
        ensures
            r.min == (Point { x: min_int(a.x as int, b.x as int) as i64, y: min_int(a.y as int, b.y as int) as i64 }),
            r.max == (Point { x: max_int(a.x as int, b.x as int) as i64, y: max_int(a.y as int, b.y as int) as i64 }),
            r.wf(),
    {
        Bounds {
            min: Point::new(coord_min(a.x, b.x), coord_min(a.y, b.y)),
            max: Point::new(coord_max(a.x, b.x), coord_max(a.y, b.y)),
        }
    }

    /// The box is normalized: its lower-left corner is not above or right of its upper-right one.
    pub open spec fn wf(&self) -> bool {
        self.min.x <= self.max.x && self.min.y <= self.max.y
    }

    /// Width along x.
    pub fn width(&self) -> (r: Coord)
        requires self.max.x - self.min.x <= i64::MAX, self.max.x - self.min.x >= i64::MIN,
        ensures r == self.max.x - self.min.x,
    {
        self.max.x - self.min.x
    }

    /// Height along y.
    pub fn height(&self) -> (r: Coord)
        requires self.max.y - self.min.y <= i64::MAX, self.max.y - self.min.y >= i64::MIN,
        ensures r == self.max.y - self.min.y,
    {
        self.max.y - self.min.y
    }

    /// Is the point inside or on the boundary?
    #[verifier::allow_in_spec]
    pub fn contains(&self, p: Point) -> bool
        returns self.min.x <= p.x <= self.max.x && self.min.y <= p.y <= self.max.y,
    {
        self.min.x <= p.x && p.x <= self.max.x && self.min.y <= p.y && p.y <= self.max.y
    }

    /// Lower limit of the running coordinate for a segment of this orientation.
    #[verifier::allow_in_spec]
    pub fn lo(&self, orientation: Orientation) -> Coord
        returns self.min.along(orientation),
    {
        self.min.along(orientation)
    }

    /// Upper limit of the running coordinate for a segment of this orientation.
    #[verifier::allow_in_spec]
    pub fn hi(&self, orientation: Orientation) -> Coord
        returns self.max.along(orientation),
    {
        self.max.along(orientation)
    }
}

/// The points of a segment, in plain coordinates: a horizontal segment holds
/// the points of its row between its ends, a vertical one those of its
/// column; its ends are among them.
pub proof fn lemma_segment_points(s: Segment, p: Point)
    ensures
        s.orientation == Orientation::Horizontal ==> (s.contains(p) <==> (p.y == s.fixed && s.from <= p.x <= s.to)),
        s.orientation == Orientation::Vertical ==> (s.contains(p) <==> (p.x == s.fixed && s.from <= p.y <= s.to)),
        s.from <= s.to ==> s.contains(s.start()) && s.contains(s.end()),
        s.orientation == Orientation::Horizontal ==> s.start() == (Point { x: s.from, y: s.fixed }) && s.end() == (
        Point { x: s.to, y: s.fixed }),
        s.orientation == Orientation::Vertical ==> s.start() == (Point { x: s.fixed, y: s.from }) && s.end() == (
        Point { x: s.fixed, y: s.to }),
{
}

/// Two segments cross exactly where they are perpendicular and share a
/// point, and the crossing reported is that shared point.
pub proof fn lemma_crossing_is_the_shared_point(s: Segment, t: Segment, p: Point)
    ensures
        s.crossing(&t) matches Some(x) ==> s.orientation != t.orientation && s.contains(x) && t.contains(x),
        s.orientation != t.orientation && s.contains(p) && t.contains(p) ==> s.crossing(&t) == Some(p),
        s.orientation == t.orientation ==> s.crossing(&t) is None,
{
}

/// Two segments (each with `from <= to`) overlap collinearly exactly where
/// they run the same way and share a point.
pub proof fn lemma_overlap_is_a_shared_point(s: Segment, t: Segment, p: Point)
    ensures
        s.orientation == t.orientation && s.contains(p) && t.contains(p) ==> s.overlaps_collinear(&t),
        s.from <= s.to && t.from <= t.to && s.overlaps_collinear(&t) ==> s.orientation == t.orientation && s.contains(
            Point::from_along_across(s.orientation, if s.from >= t.from { s.from } else { t.from }, s.fixed),
        ) && t.contains(
            Point::from_along_across(s.orientation, if s.from >= t.from { s.from } else { t.from }, s.fixed),
        ),
{
}

/// The segment made from two coordinates runs between them, the smaller
/// one first, on the given line.
pub proof fn lemma_segment_from_coords(o: Orientation, fixed: Coord, a: Coord, b: Coord)
    ensures
        segment_spec(o, fixed, a, b).orientation == o,
        segment_spec(o, fixed, a, b).fixed == fixed,
        segment_spec(o, fixed, a, b).from <= segment_spec(o, fixed, a, b).to,
        (segment_spec(o, fixed, a, b).from == a && segment_spec(o, fixed, a, b).to == b) || (segment_spec(
            o,
            fixed,
            a,
            b,
        ).from == b && segment_spec(o, fixed, a, b).to == a),
{
}

} // verus!
