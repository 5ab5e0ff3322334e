//! Recording of everything the router does, for visualization and debugging.

use vstd::prelude::*;

use crate::geometry::{Point, Segment};

verus! {

/// Which of the two networks an event belongs to: the one rooted at the start
/// point `A` or the one rooted at the target `B`.
#[derive(Clone, Copy, PartialEq, Eq, Structural, Hash, Debug)]
pub enum NetId {
    /// The network rooted at the start point.
    A,
    /// The network rooted at the target point.
    B,
}

impl NetId {
    /// The other network.
    pub fn other(self) -> (r: NetId)
        ensures
            r != self,
    {
        match self {
            NetId::A => NetId::B,
            NetId::B => NetId::A,
        }
    }
}

/// Which escape process found an escape point.
#[derive(Clone, Copy, PartialEq, Eq, Structural, Hash, Debug)]
pub enum Process {
    /// Escape Process I: slip around the end of a cover.
    I,
    /// Escape Process II: retreat along the escape line and branch off.
    II,
}

/// One step of the algorithm, in chronological order.
#[derive(Clone, PartialEq, Eq, Debug)]
pub enum TraceEvent {
    /// A network constructed a new escape line through `through`.
    LineAdded {
        /// Owning network.
        net: NetId,
        /// The constructed line.
        line: Segment,
        /// The escape point the line was drawn through.
        through: Point,
    },
    /// Escape Process II constructed a trial line through a retreat position.
    /// Trial lines are tested for intersections and searched with Process I,
    /// but they are not entered in the network unless the position becomes an
    /// escape point.
    ProbeLine {
        /// Owning network.
        net: NetId,
        /// The trial line.
        line: Segment,
        /// The retreat position it was drawn through.
        through: Point,
    },
    /// A network accepted a new escape point (which becomes its object point).
    EscapePoint {
        /// Owning network.
        net: NetId,
        /// The new escape point.
        point: Point,
        /// Which process found it.
        process: Process,
    },
    /// A network could not find another escape point and gave up.
    NoEscape {
        /// The network that gave up.
        net: NetId,
    },
    /// A line of one network crossed a perpendicular line of the other.
    Intersection {
        /// The crossing point.
        point: Point,
        /// The crossing line of network `A`.
        line_a: Segment,
        /// The crossing line of network `B`.
        line_b: Segment,
    },
    /// The path read off the two escape-point trees, after collinear cleanup
    /// but before any improvement.
    RawPath {
        /// Corner list from `A` to `B`.
        corners: Vec<Point>,
    },
    /// The path after one improvement pass.
    Improved {
        /// Corner list from `A` to `B`.
        corners: Vec<Point>,
    },
}

/// The corners carried by a path event (`RawPath` or `Improved`).
pub open spec fn event_path(e: TraceEvent) -> Option<Seq<Point>> {
    match e {
        TraceEvent::RawPath { corners } => Some(corners@),
        TraceEvent::Improved { corners } => Some(corners@),
        _ => None,
    }
}

/// Is the event a Process II trial line?
pub open spec fn is_probe_event(e: TraceEvent) -> bool {
    e is ProbeLine
}

/// Is the event an entered escape line?
pub open spec fn is_line_event(e: TraceEvent) -> bool {
    e is LineAdded
}

/// The chronological list of [`TraceEvent`]s of one routing run.
#[derive(Clone, PartialEq, Eq, Debug)]
pub struct Trace {
    /// The events in the order they happened.
    pub events: Vec<TraceEvent>,
}

impl Default for Trace {
    fn default() -> (r: Trace)
        ensures
            r.events@ == Seq::<TraceEvent>::empty(),
    {
        Trace { events: Vec::new() }
    }
}

impl Trace {
    /// The last path event of the trace, if any.
    pub open spec fn final_path_spec(self) -> Option<Seq<Point>> {
        let s = self.events@;
        if exists|i: int| 0 <= i < s.len() && (#[trigger] event_path(s[i])) is Some {
            let i = choose|i: int|
                0 <= i < s.len() && (#[trigger] event_path(s[i])) is Some && forall|j: int|
                    i < j < s.len() ==> (#[trigger] event_path(s[j])) is None;
            event_path(s[i])
        } else {
            None
        }
    }

    /// Appends an event.
    pub fn push(&mut self, event: TraceEvent)
        ensures
            final(self).events@ == old(self).events@.push(event),
    {
        self.events.push(event);
    }

    /// Number of recorded events.
    pub fn len(&self) -> (r: usize)
        ensures
            r == self.events@.len(),
    {
        self.events.len()
    }

    /// True if nothing was recorded.
    pub fn is_empty(&self) -> (r: bool)
        ensures
            r == (self.events@.len() == 0),
    {
        self.events.is_empty()
    }

    /// Number of trial lines Process II constructed (not entered in the networks).
    pub fn probe_count(&self) -> (r: usize)
        ensures
            r == self.events@.filter(|e: TraceEvent| is_probe_event(e)).len(),
    {
        let mut n: usize = 0;
        let mut i: usize = 0;
        while i < self.events.len()
            invariant
                i <= self.events@.len(),
                n == self.events@.take(i as int).filter(|e: TraceEvent| is_probe_event(e)).len(),
                n <= i,
            decreases self.events@.len() - i,
        {
            let ghost pre = self.events@.take(i as int);
            assert(self.events@.take(i + 1) =~= pre.push(self.events@[i as int]));
            proof {
                pre.lemma_filter_push(self.events@[i as int], |e: TraceEvent| is_probe_event(e));
            }
            if let TraceEvent::ProbeLine { .. } = &self.events[i] {
                n = n + 1;
            }
            i = i + 1;
        }
        assert(self.events@.take(i as int) =~= self.events@);
        n
    }

    /// Number of escape lines entered by both networks together.
    pub fn line_count(&self) -> (r: usize)
        ensures
            r == self.events@.filter(|e: TraceEvent| is_line_event(e)).len(),
    {
        let mut n: usize = 0;
        let mut i: usize = 0;
        while i < self.events.len()
            invariant
                i <= self.events@.len(),
                n == self.events@.take(i as int).filter(|e: TraceEvent| is_line_event(e)).len(),
                n <= i,
            decreases self.events@.len() - i,
        {
            let ghost pre = self.events@.take(i as int);
            assert(self.events@.take(i + 1) =~= pre.push(self.events@[i as int]));
            proof {
                pre.lemma_filter_push(self.events@[i as int], |e: TraceEvent| is_line_event(e));
            }
            if let TraceEvent::LineAdded { .. } = &self.events[i] {
                n = n + 1;
            }
            i = i + 1;
        }
        assert(self.events@.take(i as int) =~= self.events@);
        n
    }

    /// The last path event (`Improved` if present, else `RawPath`).
    pub fn final_path(&self) -> (r: Option<&[Point]>)
        ensures
            r is None <==> self.final_path_spec() is None,
            r is Some ==> Some(r->0@) == self.final_path_spec(),
    {
        let ghost s = self.events@;
        let mut i = self.events.len();
        while i > 0
            invariant
                i <= s.len(),
                s == self.events@,
                forall|j: int| i <= j < s.len() ==> (#[trigger] event_path(s[j])) is None,
            decreases i,
        {
            i = i - 1;
            match &self.events[i] {
                TraceEvent::RawPath { corners } => {
                    proof {
                        assert(event_path(s[i as int]) is Some);
                        let k = choose|k: int|
                            0 <= k < s.len() && (#[trigger] event_path(s[k])) is Some && forall|
                                j: int,
                            | k < j < s.len() ==> (#[trigger] event_path(s[j])) is None;
                        if k < i {
                            assert(event_path(s[i as int]) is None);
                        }
                    }
                    return Some(corners.as_slice());
                },
                TraceEvent::Improved { corners } => {
                    proof {
                        assert(event_path(s[i as int]) is Some);
                        let k = choose|k: int|
                            0 <= k < s.len() && (#[trigger] event_path(s[k])) is Some && forall|
                                j: int,
                            | k < j < s.len() ==> (#[trigger] event_path(s[j])) is None;
                        if k < i {
                            assert(event_path(s[i as int]) is None);
                        }
                    }
                    return Some(corners.as_slice());
                },
                _ => {},
            }
        }
        None
    }
}

} // verus!
