//! Events emitted by the line assembler.
use vstd::prelude::*;

verus! {

/// What the line assembler hands on for one piece of the stream.
#[derive(Debug, PartialEq, Eq)]
pub enum LineEvent {
    /// A complete line **without** the trailing newline.
    Line(Vec<u8>),
    /// Partial data remaining after an explicit flush (EOF).
    Partial(Vec<u8>),
    /// Forced flush because a line exceeded the line limit without a newline.
    /// This is **not** a logical line; matching and highlighting are suppressed.
    Overflow(Vec<u8>),
}

/// The mathematical value of a [`LineEvent`].
pub enum EventSpec {
    Line(Seq<u8>),
    Partial(Seq<u8>),
    Overflow(Seq<u8>),
}

impl View for LineEvent {
    type V = EventSpec;

    open spec fn view(&self) -> EventSpec {
        match self {
            LineEvent::Line(v) => EventSpec::Line(v@),
            LineEvent::Partial(v) => EventSpec::Partial(v@),
            LineEvent::Overflow(v) => EventSpec::Overflow(v@),
        }
    }
}

/// The values of a vector of events.
pub open spec fn events_view(evs: Seq<LineEvent>) -> Seq<EventSpec> {
    evs.map_values(|e: LineEvent| e@)
}

/// The bytes an event stands for in the input stream: a line with its
/// newline restored, the raw bytes otherwise.
pub open spec fn event_bytes(e: EventSpec) -> Seq<u8> {
    match e {
        EventSpec::Line(l) => l.push(crate::scan::NEWLINE),
        EventSpec::Partial(p) => p,
        EventSpec::Overflow(o) => o,
    }
}

/// Concatenation of the bytes of a sequence of events.
pub open spec fn events_bytes(evs: Seq<EventSpec>) -> Seq<u8>
    decreases evs.len(),
{
    if evs.len() == 0 {
        Seq::empty()
    } else {
        events_bytes(evs.drop_last()) + event_bytes(evs.last())
    }
}

/// The bytes of two event sequences one after the other are the bytes of
/// the joined sequence.
pub proof fn lemma_events_bytes_concat(a: Seq<EventSpec>, b: Seq<EventSpec>)
    ensures
        events_bytes(a + b) == events_bytes(a) + events_bytes(b),
    decreases b.len(),
{
    if b.len() == 0 {
        assert(a + b =~= a);
        assert(events_bytes(a) + Seq::<u8>::empty() =~= events_bytes(a));
    } else {
        assert((a + b).drop_last() =~= a + b.drop_last());
        assert((a + b).last() == b.last());
        lemma_events_bytes_concat(a, b.drop_last());
        assert(events_bytes(a + b) =~= events_bytes(a) + events_bytes(b));
    }
}

/// The bytes of a single event.
pub proof fn lemma_events_bytes_single(e: EventSpec)
    ensures
        events_bytes(seq![e]) == event_bytes(e),
{
    assert(seq![e].drop_last() =~= Seq::<EventSpec>::empty());
    assert(seq![e].last() == e);
    assert(events_bytes(Seq::<EventSpec>::empty()) == Seq::<u8>::empty());
    assert(Seq::<u8>::empty() + event_bytes(e) =~= event_bytes(e));
}

} // verus!
