//! The events that flow through the pipeline, and the time line they denote.
use vstd::prelude::*;

verus! {

/// One note as it appears in a song document.
#[derive(Clone, Copy, Debug, PartialEq, Eq)]
pub struct NoteEvent {
    pub channel: u8,
    pub note: u8,
    pub velocity: u8,
}

/// What an event carries. Only note-on and tempo events matter to the
/// pipeline; every other kind of MIDI event is `Other`.
#[derive(Clone, Copy, Debug, PartialEq, Eq)]
pub enum Payload {
    NoteOn { channel: u8, key: u8, velocity: u8 },
    TempoChange { micros_per_quarter: u32 },
    Other,
}

/// An event of a track or of the merged stream. `delta` is the distance to
/// the previous event of the same stream, in pulses (PPQ units).
#[derive(Clone, Copy, Debug, PartialEq, Eq)]
pub struct RawEvent {
    pub delta: u32,
    pub payload: Payload,
}

/// An event whose distance to its predecessor is real time. `delta` counts
/// time units; a stream of resolution `ppq` has `ppq * 1_000_000` units to
/// the second, so every tempo-scaled pulse count is a whole number of units.
#[derive(Clone, Copy, Debug, PartialEq, Eq)]
pub struct TimedEvent {
    pub delta: u128,
    pub payload: Payload,
}

/// An event of a timed stream together with the instant at which it occurs,
/// in time units since the start of the stream.
pub ghost struct Moment {
    pub at: nat,
    pub payload: Payload,
}

impl Payload {
    /// The note that a note-on payload puts into the document.
    pub open spec fn note(self) -> NoteEvent {
        match self {
            Payload::NoteOn { channel, key, velocity } => NoteEvent { channel, note: key, velocity },
            _ => NoteEvent { channel: 0, note: 0, velocity: 0 },
        }
    }

    /// Whether this payload is a tempo change.
    pub fn is_tempo(&self) -> (b: bool)
        ensures
            b == (*self is TempoChange),
    {
        match self {
            Payload::TempoChange { .. } => true,
            _ => false,
        }
    }

    /// The document note of a note-on payload, `None` for any other payload.
    pub fn as_note(&self) -> (r: Option<NoteEvent>)
        ensures
            r == (if *self is NoteOn { Some(self.note()) } else { None::<NoteEvent> }),
    {
        match self {
            Payload::NoteOn { channel, key, velocity } => Some(
                NoteEvent { channel: *channel, note: *key, velocity: *velocity },
            ),
            _ => None,
        }
    }
}

/// Pulses from the start of a stream to its `n`-th event boundary: the sum
/// of the first `n` deltas. Event `i` occurs at `pulses_until(events, i + 1)`.
pub open spec fn pulses_until(events: Seq<RawEvent>, n: int) -> nat
    decreases n,
{
    if n <= 0 {
        0
    } else {
        pulses_until(events, n - 1) + events[n - 1].delta as nat
    }
}

/// Time units from the start of a stream to its `n`-th event boundary: the
/// sum of the first `n` deltas. Event `i` occurs at `units_until(events, i + 1)`.
pub open spec fn units_until(events: Seq<TimedEvent>, n: int) -> nat
    decreases n,
{
    if n <= 0 {
        0
    } else {
        units_until(events, n - 1) + events[n - 1].delta as nat
    }
}

/// The time line of a timed stream: each event with its absolute instant.
pub open spec fn timeline(events: Seq<TimedEvent>) -> Seq<Moment> {
    Seq::new(
        events.len(),
        |i: int| Moment { at: units_until(events, i + 1), payload: events[i].payload },
    )
}

/// Sums of deltas never decrease.
pub proof fn lemma_pulses_monotone(events: Seq<RawEvent>, m: int, n: int)
    requires
        m <= n,
    ensures
        pulses_until(events, m) <= pulses_until(events, n),
    decreases n - m,
{
    if m < n {
        lemma_pulses_monotone(events, m, n - 1);
    }
}

/// Sums of deltas never decrease.
pub proof fn lemma_units_monotone(events: Seq<TimedEvent>, m: int, n: int)
    requires
        m <= n,
    ensures
        units_until(events, m) <= units_until(events, n),
    decreases n - m,
{
    if m < n {
        lemma_units_monotone(events, m, n - 1);
    }
}

/// The sum of the first `n` deltas depends on the first `n` events only.
pub proof fn lemma_pulses_prefix(a: Seq<RawEvent>, b: Seq<RawEvent>, n: int)
    requires
        n <= a.len(),
        n <= b.len(),
        forall|k: int| 0 <= k < n ==> a[k].delta == b[k].delta,
    ensures
        pulses_until(a, n) == pulses_until(b, n),
    decreases n,
{
    if n > 0 {
        lemma_pulses_prefix(a, b, n - 1);
    }
}

/// The sum of the first `n` deltas depends on the first `n` events only.
pub proof fn lemma_units_prefix(a: Seq<TimedEvent>, b: Seq<TimedEvent>, n: int)
    requires
        n <= a.len(),
        n <= b.len(),
        forall|k: int| 0 <= k < n ==> a[k].delta == b[k].delta,
    ensures
        units_until(a, n) == units_until(b, n),
    decreases n,
{
    if n > 0 {
        lemma_units_prefix(a, b, n - 1);
    }
}

/// Filtering a sequence that grew by one element.
pub proof fn lemma_filter_push<A>(s: Seq<A>, x: A, pred: spec_fn(A) -> bool)
    ensures
        s.push(x).filter(pred) == if pred(x) {
            s.filter(pred).push(x)
        } else {
            s.filter(pred)
        },
{
    reveal(Seq::filter);
    assert(s.push(x).drop_last() =~= s);
}

/// The time line of a stream that grew by one event.
pub proof fn lemma_timeline_push(events: Seq<TimedEvent>, e: TimedEvent)
    ensures
        timeline(events.push(e)) == timeline(events).push(
            Moment { at: units_until(events, events.len() as int) + e.delta as nat, payload: e.payload },
        ),
        units_until(events.push(e), events.len() as int + 1) == units_until(events, events.len() as int)
            + e.delta as nat,
{
    let grown = events.push(e);
    assert forall|k: int| 0 <= k <= events.len() implies units_until(grown, k) == units_until(
        events,
        k,
    ) by {
        lemma_units_prefix(grown, events, k);
    }
    assert(timeline(grown) =~= timeline(events).push(
        Moment { at: units_until(events, events.len() as int) + e.delta as nat, payload: e.payload },
    ));
}

/// A time line fixes its stream: streams with the same time line have the
/// same events.
pub proof fn lemma_timeline_fixes_events(a: Seq<TimedEvent>, b: Seq<TimedEvent>)
    requires
        timeline(a) == timeline(b),
    ensures
        a == b,
{
    assert(a.len() == timeline(a).len());
    assert(b.len() == timeline(b).len());
    assert forall|i: int| 0 <= i < a.len() implies a[i] == b[i] by {
        assert(timeline(a)[i].at == units_until(a, i + 1));
        assert(timeline(b)[i].at == units_until(b, i + 1));
        assert(timeline(a)[i].payload == a[i].payload);
        assert(timeline(b)[i].payload == b[i].payload);
        assert(units_until(a, i) == units_until(b, i)) by {
            if i > 0 {
                assert(timeline(a)[i - 1].at == units_until(a, i));
                assert(timeline(b)[i - 1].at == units_until(b, i));
            }
        }
        assert(units_until(a, i + 1) == units_until(a, i) + a[i].delta);
        assert(units_until(b, i + 1) == units_until(b, i) + b[i].delta);
    }
    assert(a =~= b);
}

/// Filtering twice, where the second filter lets through only what the
/// first does, is filtering by the second alone.
pub proof fn lemma_filter_twice<A>(s: Seq<A>, first: spec_fn(A) -> bool, second: spec_fn(A) -> bool)
    requires
        forall|x: A| #[trigger] second(x) ==> first(x),
    ensures
        s.filter(first).filter(second) == s.filter(second),
    decreases s.len(),
{
    reveal(Seq::filter);
    if s.len() > 0 {
        let front = s.drop_last();
        let x = s.last();
        lemma_filter_twice(front, first, second);
        assert(s =~= front.push(x));
        lemma_filter_push(front, x, first);
        lemma_filter_push(front, x, second);
        if first(x) {
            lemma_filter_push(front.filter(first), x, second);
        }
    }
}

} // verus!
