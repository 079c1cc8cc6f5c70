//! The time-base converter: pulse counts become real time under the tempo
//! in effect.
use vstd::prelude::*;
use crate::event::{Payload, RawEvent, TimedEvent, units_until};

verus! {

/// A stream in real time.
///
/// One second is `ppq * 1_000_000` time units, so a delta of `d` pulses at a
/// tempo of `t` microseconds per quarter note lasts exactly `d * t` units.
#[derive(Clone, Debug, PartialEq, Eq)]
pub struct TimedStream {
    /// Pulses per quarter note of the source; fixes the time unit.
    pub ppq: u16,
    /// The events, each with the time since its predecessor.
    pub events: Vec<TimedEvent>,
    /// Time that passes after the last event.
    pub tail: u128,
}

impl TimedStream {
    /// The whole length of the stream, in time units.
    pub open spec fn duration(&self) -> nat {
        units_until(self.events@, self.events@.len() as int) + self.tail as nat
    }

    /// The stream has a time unit, and its length can be held in a `u128`.
    pub open spec fn wf(&self) -> bool {
        self.ppq > 0 && self.duration() <= u128::MAX
    }

    /// Makes a stream of the given parts, if they make a well-formed one:
    /// `None` if `ppq` is zero or the length of the stream is beyond `u128`.
    pub fn new(ppq: u16, events: Vec<TimedEvent>, tail: u128) -> (made: Option<TimedStream>)
        ensures
            match made {
                Some(stream) => {
                    &&& stream.ppq == ppq
                    &&& stream.events == events
                    &&& stream.tail == tail
                    &&& stream.wf()
                },
                None => ppq == 0 || units_until(events@, events@.len() as int) + tail > u128::MAX,
            },
    {
        if ppq == 0 {
            return None;
        }
        let mut total: u128 = 0;
        let mut i: usize = 0;
        while i < events.len()
            invariant
                i <= events.len(),
                total == units_until(events@, i as int),
            decreases events.len() - i,
        {
            proof {
                crate::event::lemma_units_monotone(events@, i + 1, events@.len() as int);
            }
            if events[i].delta > u128::MAX - total {
                return None;
            }
            total = total + events[i].delta;
            i += 1;
        }
        if tail > u128::MAX - total {
            return None;
        }
        Some(TimedStream { ppq, events, tail })
    }

    /// The whole length of the stream, in time units.
    pub fn total_units(&self) -> (total: u128)
        requires
            self.wf(),
        ensures
            total == self.duration(),
    {
        let mut total: u128 = 0;
        let mut i: usize = 0;
        while i < self.events.len()
            invariant
                i <= self.events.len(),
                total == units_until(self.events@, i as int),
                self.wf(),
            decreases self.events.len() - i,
        {
            proof {
                crate::event::lemma_units_monotone(
                    self.events@,
                    i + 1,
                    self.events@.len() as int,
                );
            }
            total = total + self.events[i].delta;
            i += 1;
        }
        total + self.tail
    }
}

/// The tempo, in microseconds per quarter note, under which the delta of
/// event `i` accrues: that of the last tempo change before event `i`, or
/// `default_tempo` if there is none. A tempo change does not reach back to
/// its own delta.
pub open spec fn tempo_before(events: Seq<RawEvent>, i: int, default_tempo: u32) -> u32
    decreases i,
{
    if i <= 0 {
        default_tempo
    } else {
        match events[i - 1].payload {
            Payload::TempoChange { micros_per_quarter } => micros_per_quarter,
            _ => tempo_before(events, i - 1, default_tempo),
        }
    }
}

/// The time units that the delta of event `i` lasts.
pub open spec fn delta_units(events: Seq<RawEvent>, i: int, default_tempo: u32) -> nat {
    events[i].delta as nat * tempo_before(events, i, default_tempo) as nat
}

/// The stream in real time: the same payloads, each delta scaled by the
/// tempo under which it accrues.
pub open spec fn converted(events: Seq<RawEvent>, default_tempo: u32) -> Seq<TimedEvent> {
    Seq::new(
        events.len(),
        |i: int|
            TimedEvent {
                delta: delta_units(events, i, default_tempo) as u128,
                payload: events[i].payload,
            },
    )
}

/// A scaled delta is below `2^64`.
pub proof fn lemma_delta_units_bound(events: Seq<RawEvent>, i: int, default_tempo: u32)
    ensures
        delta_units(events, i, default_tempo) <= 0xffff_ffff * 0xffff_ffff,
{
    let d = events[i].delta;
    let t = tempo_before(events, i, default_tempo);
    assert(d * t <= 0xffff_ffff * 0xffff_ffff) by (nonlinear_arith)
        requires
            0 <= d <= 0xffff_ffff,
            0 <= t <= 0xffff_ffff,
    ;
}

/// A stream of `n` scaled deltas is shorter than `n * 2^64` units.
proof fn lemma_units_bound(events: Seq<TimedEvent>, n: int)
    requires
        0 <= n <= events.len(),
        forall|k: int| 0 <= k < n ==> events[k].delta <= 0xffff_ffff * 0xffff_ffff,
    ensures
        units_until(events, n) <= n * (0xffff_ffff * 0xffff_ffff),
    decreases n,
{
    if n > 0 {
        lemma_units_bound(events, n - 1);
        assert(n * (0xffff_ffff * 0xffff_ffff) == (n - 1) * (0xffff_ffff * 0xffff_ffff)
            + 0xffff_ffff * 0xffff_ffff) by (nonlinear_arith);
    }
}

/// Converts a stream from pulses to real time.
///
/// The tempo starts at `default_tempo`; each tempo change sets it for the
/// deltas that follow. No payload is touched. The stream is well formed
/// unless `ppq` is zero, which leaves it without a time unit.
pub fn to_seconds(events: &Vec<RawEvent>, ppq: u16, default_tempo: u32) -> (stream: TimedStream)
    ensures
        stream.ppq == ppq,
        stream.tail == 0,
        stream.events@ == converted(events@, default_tempo),
        stream.duration() <= u128::MAX,
        stream.wf() <==> ppq > 0,
{
    let mut out: Vec<TimedEvent> = Vec::new();
    let mut tempo: u32 = default_tempo;
    let mut i: usize = 0;
    while i < events.len()
        invariant
            i <= events.len(),
            out.len() == i,
            tempo == tempo_before(events@, i as int, default_tempo),
            forall|k: int| 0 <= k < i ==> out[k] == converted(events@, default_tempo)[k],
        decreases events.len() - i,
    {
        let e = events[i];
        proof {
            lemma_delta_units_bound(events@, i as int, default_tempo);
        }
        out.push(TimedEvent { delta: (e.delta as u128) * (tempo as u128), payload: e.payload });
        match e.payload {
            Payload::TempoChange { micros_per_quarter } => {
                tempo = micros_per_quarter;
            },
            _ => {},
        }
        i += 1;
    }
    proof {
        assert(out@ =~= converted(events@, default_tempo));
        assert forall|k: int| 0 <= k < out.len() implies out[k].delta <= 0xffff_ffff
            * 0xffff_ffff by {
            lemma_delta_units_bound(events@, k, default_tempo);
        }
        lemma_units_bound(out@, out.len() as int);
        assert(out.len() * (0xffff_ffff * 0xffff_ffff) <= u128::MAX) by (nonlinear_arith)
            requires
                out.len() <= 0xffff_ffff_ffff_ffff,
        ;
    }
    TimedStream { ppq, events: out, tail: 0 }
}

} // verus!
