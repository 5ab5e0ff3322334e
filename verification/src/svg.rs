//! The parts of SVG figure making that are plain geometry: which layers of a
//! trace to draw, the scene being drawn and the outline of a rectangle.

use vstd::prelude::*;

use crate::geometry::{Coord, Orientation, Point, Segment, segment_spec};
use crate::obstacles::ObstacleSet;
use crate::trace::{NetId, Process, Trace, TraceEvent};

verus! {

/// Which layers of a trace to draw.
#[derive(Clone, Copy, PartialEq, Eq, Structural, Debug)]
pub struct Layers {
    /// Entered escape lines.
    pub lines: bool,
    /// Trial lines of Process II.
    pub probes: bool,
    /// Escape points.
    pub escape_points: bool,
    /// The crossing of the two networks.
    pub intersection: bool,
    /// The path before improvement.
    pub raw_path: bool,
    /// The final path.
    pub final_path: bool,
}

impl Default for Layers {
    /// Everything but the raw path.
    fn default() -> (r: Layers)
        ensures
            r == (Layers {
                lines: true,
                probes: true,
                escape_points: true,
                intersection: true,
                raw_path: false,
                final_path: true,
            }),
    {
        Layers {
            lines: true,
            probes: true,
            escape_points: true,
            intersection: true,
            raw_path: false,
            final_path: true,
        }
    }
}

/// A scene: obstacles plus the two endpoints.
#[derive(Clone, Copy, Debug)]
pub struct Scene<'a> {
    /// The obstacles and bounds.
    pub obstacles: &'a ObstacleSet,
    /// Start point.
    pub a: Point,
    /// Target point.
    pub b: Point,
}

/// The four sides of the rectangle with corners `min` and `max`: bottom, top,
/// left, right.
pub fn rect_segments(min: Point, max: Point) -> (r: [Segment; 4])
    ensures
        r@ == seq![
            segment_spec(Orientation::Horizontal, min.y, min.x, max.x),
            segment_spec(Orientation::Horizontal, max.y, min.x, max.x),
            segment_spec(Orientation::Vertical, min.x, min.y, max.y),
            segment_spec(Orientation::Vertical, max.x, min.y, max.y),
        ],
{
    let r = [
        Segment::horizontal(min.y, min.x, max.x),
        Segment::horizontal(max.y, min.x, max.x),
        Segment::vertical(min.x, min.y, max.y),
        Segment::vertical(max.x, min.y, max.y),
    ];
    assert(r@ =~= seq![r[0], r[1], r[2], r[3]]);
    r
}

/// One thing to draw for a trace, in drawing order.
#[derive(Clone, Copy, PartialEq, Eq, Structural, Debug)]
pub enum Mark {
    /// A trial line of Process II.
    Probe(NetId, Segment),
    /// An entered escape line.
    Line(NetId, Segment),
    /// An escape point and the process that found it.
    Escape(NetId, Point, Process),
    /// The raw path of the event at this index of the trace.
    Raw(usize),
    /// The final path: the corners of the event at this index of the trace.
    Final(usize),
    /// The crossing of the two networks.
    Crossing(Point),
}

/// The layers that draw one mark per event.
#[derive(Clone, Copy, PartialEq, Eq, Structural, Debug)]
pub enum EventLayer {
    /// Trial lines.
    Probes,
    /// Entered escape lines.
    Lines,
    /// Escape points.
    EscapePoints,
    /// Raw paths.
    RawPaths,
    /// Crossings.
    Crossings,
}

/// The mark that event `i` puts on a layer, if any.
pub open spec fn event_mark(e: TraceEvent, i: int, layer: EventLayer) -> Option<Mark> {
    match (layer, e) {
        (EventLayer::Probes, TraceEvent::ProbeLine { net, line, .. }) => Some(Mark::Probe(net, line)),
        (EventLayer::Lines, TraceEvent::LineAdded { net, line, .. }) => Some(Mark::Line(net, line)),
        (EventLayer::EscapePoints, TraceEvent::EscapePoint { net, point, process }) => Some(
            Mark::Escape(net, point, process),
        ),
        (EventLayer::RawPaths, TraceEvent::RawPath { .. }) => Some(Mark::Raw(i as usize)),
        (EventLayer::Crossings, TraceEvent::Intersection { point, .. }) => Some(Mark::Crossing(point)),
        _ => None,
    }
}

/// The marks of one layer for the first `n` events, in event order.
pub open spec fn layer_marks(es: Seq<TraceEvent>, n: int, layer: EventLayer) -> Seq<Mark>
    decreases n,
{
    if n <= 0 {
        Seq::empty()
    } else {
        let rest = layer_marks(es, n - 1, layer);
        match event_mark(es[n - 1], n - 1, layer) {
            Some(mk) => rest.push(mk),
            None => rest,
        }
    }
}

/// The index of the last path event (raw or improved) among the first `n` events.
pub open spec fn last_path_event(es: Seq<TraceEvent>, n: int) -> Option<int>
    decreases n,
{
    if n <= 0 {
        None
    } else if es[n - 1] is RawPath || es[n - 1] is Improved {
        Some(n - 1)
    } else {
        last_path_event(es, n - 1)
    }
}

/// Everything to draw for the events `es`, layer by layer: trial lines, escape
/// lines, escape points, raw paths, the final path, crossings.
pub open spec fn marks_spec(es: Seq<TraceEvent>, layers: Layers) -> Seq<Mark> {
    let n = es.len() as int;
    (if layers.probes { layer_marks(es, n, EventLayer::Probes) } else { Seq::empty() })
        + (if layers.lines { layer_marks(es, n, EventLayer::Lines) } else { Seq::empty() })
        + (if layers.escape_points { layer_marks(es, n, EventLayer::EscapePoints) } else { Seq::empty() })
        + (if layers.raw_path { layer_marks(es, n, EventLayer::RawPaths) } else { Seq::empty() })
        + (if layers.final_path {
        match last_path_event(es, n) {
            Some(i) => seq![Mark::Final(i as usize)],
            None => Seq::empty(),
        }
    } else {
        Seq::empty()
    }) + (if layers.intersection { layer_marks(es, n, EventLayer::Crossings) } else { Seq::empty() })
}

/// Appends the marks of one layer for the first `n` events.
fn push_layer(events: &Vec<TraceEvent>, n: usize, layer: EventLayer, out: &mut Vec<Mark>)
    requires
        n <= events@.len(),
    ensures
        final(out)@ == old(out)@ + layer_marks(events@, n as int, layer),
{
    let mut i: usize = 0;
    while i < n
        invariant
            i <= n,
            n <= events@.len(),
            out@ == old(out)@ + layer_marks(events@, i as int, layer),
        decreases n - i,
    {
        let mk: Option<Mark> = match (layer, &events[i]) {
            (EventLayer::Probes, TraceEvent::ProbeLine { net, line, .. }) => Some(Mark::Probe(*net, *line)),
            (EventLayer::Lines, TraceEvent::LineAdded { net, line, .. }) => Some(Mark::Line(*net, *line)),
            (EventLayer::EscapePoints, TraceEvent::EscapePoint { net, point, process }) => Some(
                Mark::Escape(*net, *point, *process),
            ),
            (EventLayer::RawPaths, TraceEvent::RawPath { .. }) => Some(Mark::Raw(i)),
            (EventLayer::Crossings, TraceEvent::Intersection { point, .. }) => Some(Mark::Crossing(*point)),
            _ => None,
        };
        assert(mk == event_mark(events@[i as int], i as int, layer));
        if let Some(m) = mk {
            out.push(m);
        }
        i = i + 1;
        proof {
            assert(layer_marks(events@, i as int, layer) == (match event_mark(events@[i - 1], i - 1, layer) {
                Some(mk) => layer_marks(events@, i - 1, layer).push(mk),
                None => layer_marks(events@, i - 1, layer),
            }));
        }
    }
}

/// Which events of the first `upto` of a trace are drawn, and in which order:
/// all trial lines, then all escape lines, escape points, raw paths, the last
/// path event as the final path, and the crossings, each layer only if it is
/// switched on.
pub fn trace_marks(trace: &Trace, upto: usize, layers: Layers) -> (r: Vec<Mark>)
    ensures
        r@ == marks_spec(
            trace.events@.take(if upto < trace.events@.len() { upto as int } else { trace.events@.len() as int }),
            layers,
        ),
{
    let n = if upto < trace.events.len() {
        upto
    } else {
        trace.events.len()
    };
    let ghost es = trace.events@.take(n as int);
    proof {
        assert forall|k: int, layer: EventLayer| 0 <= k <= n implies #[trigger] layer_marks(es, k, layer) == layer_marks(
            trace.events@,
            k,
            layer,
        ) by {
            lemma_layer_marks_prefix(trace.events@, n as int, k, layer);
        }
        lemma_last_path_prefix(trace.events@, n as int, n as int);
    }
    let mut r: Vec<Mark> = Vec::new();
    let ghost r0 = r@;
    if layers.probes {
        push_layer(&trace.events, n, EventLayer::Probes, &mut r);
    }
    let ghost r1 = r@;
    if layers.lines {
        push_layer(&trace.events, n, EventLayer::Lines, &mut r);
    }
    let ghost r2 = r@;
    if layers.escape_points {
        push_layer(&trace.events, n, EventLayer::EscapePoints, &mut r);
    }
    let ghost r3 = r@;
    if layers.raw_path {
        push_layer(&trace.events, n, EventLayer::RawPaths, &mut r);
    }
    let ghost r4 = r@;
    if layers.final_path {
        let mut k = n;
        let mut found: Option<usize> = None;
        while k > 0
            invariant_except_break
                found is None,
                last_path_event(trace.events@, n as int) == last_path_event(trace.events@, k as int),
            invariant
                k <= n,
                n <= trace.events@.len(),
            ensures
                found == (match last_path_event(trace.events@, n as int) {
                    Some(i) => Some(i as usize),
                    None => None::<usize>,
                }),
            decreases k,
        {
            let e = &trace.events[k - 1];
            let is_path = match e {
                TraceEvent::RawPath { .. } => true,
                TraceEvent::Improved { .. } => true,
                _ => false,
            };
            if is_path {
                found = Some(k - 1);
                break;
            }
            k = k - 1;
        }
        if let Some(i) = found {
            r.push(Mark::Final(i));
        }
    }
    let ghost r5 = r@;
    if layers.intersection {
        push_layer(&trace.events, n, EventLayer::Crossings, &mut r);
    }
    proof {
        assert(r0 =~= Seq::<Mark>::empty());
        assert(r@ =~= marks_spec(es, layers));
    }
    r
}

/// The marks of a layer depend only on the events they look at.
proof fn lemma_layer_marks_prefix(s: Seq<TraceEvent>, n: int, k: int, layer: EventLayer)
    requires
        0 <= k <= n <= s.len(),
    ensures
        layer_marks(s.take(n), k, layer) == layer_marks(s, k, layer),
    decreases k,
{
    if k > 0 {
        lemma_layer_marks_prefix(s, n, k - 1, layer);
        assert(s.take(n)[k - 1] == s[k - 1]);
    }
}

/// The last path event depends only on the events it looks at.
proof fn lemma_last_path_prefix(s: Seq<TraceEvent>, n: int, k: int)
    requires
        0 <= k <= n <= s.len(),
    ensures
        last_path_event(s.take(n), k) == last_path_event(s, k),
    decreases k,
{
    if k > 0 {
        lemma_last_path_prefix(s, n, k - 1);
        assert(s.take(n)[k - 1] == s[k - 1]);
    }
}

/// How one character is written in XML text: the three markup characters
/// `&`, `<` and `>` as entities, everything else as it is.
pub open spec fn char_escaped(c: char) -> Seq<char> {
    if c == '&' {
        seq!['&', 'a', 'm', 'p', ';']
    } else if c == '<' {
        seq!['&', 'l', 't', ';']
    } else if c == '>' {
        seq!['&', 'g', 't', ';']
    } else {
        seq![c]
    }
}

/// The text written character by character as XML text.
pub open spec fn xml_escaped(s: Seq<char>) -> Seq<char>
    decreases s.len(),
{
    if s.len() == 0 {
        Seq::empty()
    } else {
        xml_escaped(s.drop_last()) + char_escaped(s.last())
    }
}

/// Escapes `&`, `<` and `>` for use in XML text; the characters come back in order.
pub fn escape_xml(text: &str) -> (r: Vec<char>)
    ensures
        r@ == xml_escaped(text@),
{
    broadcast use vstd::string::axiom_spec_iter;
    let mut r: Vec<char> = Vec::new();
    for c in it: text.chars()
        invariant
            it.seq() == text@,
            r@ == xml_escaped(text@.take(it.index() as int)),
    {
        proof {
            assert(text@.take(it.index() + 1).drop_last() =~= text@.take(it.index() as int));
            assert(text@.take(it.index() + 1).last() == c);
        }
        if c == '&' {
            r.push('&');
            r.push('a');
            r.push('m');
            r.push('p');
            r.push(';');
        } else if c == '<' {
            r.push('&');
            r.push('l');
            r.push('t');
            r.push(';');
        } else if c == '>' {
            r.push('&');
            r.push('g');
            r.push('t');
            r.push(';');
        } else {
            r.push(c);
        }
        assert(r@ =~= xml_escaped(text@.take(it.index() + 1)));
    }
    assert(text@.take(text@.len() as int) =~= text@);
    r
}

/// Convenience: a coordinate from a small integer, for figure code.
pub fn c(v: i32) -> (r: Coord)
    ensures
        r == v,
{
    v as Coord
}

/// The final path is drawn from the last path event: `last_path_event`
/// names a raw or improved path event among the first `n`, with no path
/// event after it, and is `None` only where there is none.
pub proof fn lemma_last_path_event(es: Seq<TraceEvent>, n: int)
    requires
        0 <= n <= es.len(),
    ensures
        last_path_event(es, n) matches Some(i) ==> 0 <= i < n && (es[i] is RawPath || es[i] is Improved) && forall|j: int|
            i < j < n ==> !(#[trigger] es[j] is RawPath) && !(es[j] is Improved),
        last_path_event(es, n) is None ==> forall|j: int| 0 <= j < n ==> !(#[trigger] es[j] is RawPath) && !(es[j] is Improved),
    decreases n,
{
    if n > 0 {
        lemma_last_path_event(es, n - 1);
    }
}

/// Escaped text holds no `<` or `>`, and text without `&`, `<` and `>`
/// comes back as it is.
pub proof fn lemma_xml_escaped(s: Seq<char>)
    ensures
        !xml_escaped(s).contains('<'),
        !xml_escaped(s).contains('>'),
        xml_escaped(s).len() >= s.len(),
        (forall|i: int| 0 <= i < s.len() ==> #[trigger] s[i] != '&' && s[i] != '<' && s[i] != '>') ==> xml_escaped(s) == s,
    decreases s.len(),
{
    if s.len() > 0 {
        let r = s.drop_last();
        lemma_xml_escaped(r);
        let c = s.last();
        let t = char_escaped(c);
        assert(xml_escaped(s) == xml_escaped(r) + t);
        assert(!t.contains('<')) by {
            if t.contains('<') {
                let k = choose|k: int| 0 <= k < t.len() && t[k] == '<';
            }
        }
        assert(!t.contains('>')) by {
            if t.contains('>') {
                let k = choose|k: int| 0 <= k < t.len() && t[k] == '>';
            }
        }
        assert(!xml_escaped(s).contains('<')) by {
            if xml_escaped(s).contains('<') {
                let k = choose|k: int| 0 <= k < xml_escaped(s).len() && xml_escaped(s)[k] == '<';
                if k < xml_escaped(r).len() {
                    assert(xml_escaped(r)[k] == '<');
                } else {
                    assert(t[k - xml_escaped(r).len()] == '<');
                }
            }
        }
        assert(!xml_escaped(s).contains('>')) by {
            if xml_escaped(s).contains('>') {
                let k = choose|k: int| 0 <= k < xml_escaped(s).len() && xml_escaped(s)[k] == '>';
                if k < xml_escaped(r).len() {
                    assert(xml_escaped(r)[k] == '>');
                } else {
                    assert(t[k - xml_escaped(r).len()] == '>');
                }
            }
        }
        if forall|i: int| 0 <= i < s.len() ==> #[trigger] s[i] != '&' && s[i] != '<' && s[i] != '>' {
            assert forall|i: int| 0 <= i < r.len() implies #[trigger] r[i] != '&' && r[i] != '<' && r[i] != '>' by {
                assert(r[i] == s[i]);
            }
            assert(s[s.len() - 1] == c);
            assert(s == r.push(c));
            assert(xml_escaped(s) =~= s);
        }
    }
}

} // verus!
