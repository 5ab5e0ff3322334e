//! Hightower's line-search routing algorithm on the continuous plane.
//!
//! Find a rectilinear path (axis-parallel segments, right-angle bends) between
//! two points that avoids a set of axis-parallel obstacle segments. Two
//! networks of escape lines grow alternately from the start and the target
//! point; as soon as a line of one network crosses a line of the other, a path
//! exists and is read off the two trees. All coordinates are `i64`.

pub mod geometry;

pub use geometry::{Bounds, Coord, Orientation, Point, Segment};
pub mod obstacles;
pub use obstacles::ObstacleSet;
pub mod trace;
pub use trace::{NetId, Process, Trace, TraceEvent};
pub mod refine;
pub mod escape;
pub mod router;
pub mod grid;
pub mod translation;
pub mod svg;
pub mod visibility;
pub mod editor;
pub use refine::{cleanup, validate_path};
pub use router::{Improvement, Outcome, RouteResult, RouterConfig, route, route_with};
pub use visibility::{
    VisibilityConfig, VisibilityGraph, VisibilityResult, route_visibility, route_visibility_with,
};
