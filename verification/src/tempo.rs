//! The tempo event canceller: once deltas are real time, tempo events have
//! done their work and leave the stream.
use vstd::prelude::*;
use crate::event::{
    Moment, TimedEvent, timeline, units_until, lemma_filter_push, lemma_timeline_push,
    lemma_filter_twice, lemma_units_monotone,
};
use crate::grid::{bucket, buckets, on_tick};
use crate::timebase::TimedStream;

verus! {

/// The events that the canceller keeps: all but tempo changes.
pub open spec fn kept() -> spec_fn(Moment) -> bool {
    |m: Moment| !(m.payload is TempoChange)
}

/// Removes the tempo events from a stream.
///
/// The time of a removed event is not lost: every event that stays keeps
/// its instant, and the stream keeps its length. Time that only removed
/// events at the end of the stream accounted for becomes part of the tail.
pub fn cancel_tempo_events(stream: &TimedStream) -> (out: TimedStream)
    requires
        stream.wf(),
    ensures
        out.ppq == stream.ppq,
        timeline(out.events@) == timeline(stream.events@).filter(kept()),
        out.duration() == stream.duration(),
        out.wf(),
{
    let ghost line = timeline(stream.events@);
    let mut events: Vec<TimedEvent> = Vec::new();
    let mut carry: u128 = 0;
    let mut i: usize = 0;
    proof {
        assert(line.take(0) =~= Seq::<Moment>::empty());
        assert(timeline(events@) =~= Seq::<Moment>::empty());
        reveal(Seq::filter);
    }
    while i < stream.events.len()
        invariant
            i <= stream.events.len(),
            stream.wf(),
            line == timeline(stream.events@),
            timeline(events@) == line.take(i as int).filter(kept()),
            units_until(events@, events.len() as int) + carry == units_until(
                stream.events@,
                i as int,
            ),
        decreases stream.events.len() - i,
    {
        let e = stream.events[i];
        proof {
            lemma_units_monotone(stream.events@, i + 1, stream.events@.len() as int);
            assert(line.take(i + 1) =~= line.take(i as int).push(line[i as int]));
            lemma_filter_push(line.take(i as int), line[i as int], kept());
        }
        let delta = carry + e.delta;
        if e.payload.is_tempo() {
            carry = delta;
        } else {
            proof {
                lemma_timeline_push(events@, TimedEvent { delta, payload: e.payload });
            }
            events.push(TimedEvent { delta, payload: e.payload });
            carry = 0;
        }
        i += 1;
    }
    proof {
        assert(line.take(stream.events.len() as int) =~= line);
    }
    TimedStream { ppq: stream.ppq, events, tail: carry + stream.tail }
}

/// Removing the tempo events from a time line changes the notes of no tick.
pub proof fn lemma_cancel_keeps_notes(line: Seq<Moment>, ppq: nat, rate: nat)
    ensures
        buckets(line.filter(kept()), ppq, rate) == buckets(line, ppq, rate),
{
    assert forall|tick: nat|
        bucket(line.filter(kept()), ppq, rate, tick) == bucket(line, ppq, rate, tick) by {
        lemma_filter_twice(line, kept(), on_tick(ppq, rate, tick));
    }
    assert(buckets(line.filter(kept()), ppq, rate) =~= buckets(line, ppq, rate));
}

} // verus!
