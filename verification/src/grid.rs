//! The output grid: rounding real time to ticks.
use vstd::prelude::*;
use vstd::arithmetic::div_mod::{
    lemma_div_is_ordered, lemma_fundamental_div_mod, lemma_hoist_over_denominator, lemma_mod_bound,
};
use std::collections::BTreeMap;
use crate::event::{
    Moment, NoteEvent, TimedEvent, timeline, units_until, lemma_filter_push, lemma_timeline_push,
    lemma_units_monotone,
};
use crate::timebase::TimedStream;

verus! {

/// Time units in one second of a stream whose resolution is `ppq` pulses per
/// quarter note.
pub open spec fn units_per_second_spec(ppq: nat) -> nat {
    ppq * 1_000_000
}

/// `units * rate / (ppq * 1_000_000)` rounded to the nearest whole number,
/// halves rounding up (away from zero).
pub open spec fn rounded_ticks(units: nat, ppq: nat, rate: nat) -> nat {
    ((2 * units * rate + units_per_second_spec(ppq)) / (2 * units_per_second_spec(ppq))) as nat
}

/// The grid tick on which an instant lands: the rounded tick count, held at
/// `u32::MAX` for instants beyond the last tick that a `u32` can name.
pub open spec fn tick_of(units: nat, ppq: nat, rate: nat) -> nat {
    if rounded_ticks(units, ppq, rate) <= u32::MAX {
        rounded_ticks(units, ppq, rate)
    } else {
        u32::MAX as nat
    }
}

/// Rounding is to the nearest tick, halves up: `tick` is the rounded tick
/// count of an instant exactly if the instant lies no more than half a tick
/// before it and less than half a tick after it.
pub proof fn lemma_rounded_is_nearest(units: nat, ppq: nat, rate: nat, tick: nat)
    requires
        ppq > 0,
    ensures
        rounded_ticks(units, ppq, rate) == tick <==> (2 * tick - 1) * units_per_second_spec(ppq) <= 2
            * units * rate < (2 * tick + 1) * units_per_second_spec(ppq),
{
    let d = units_per_second_spec(ppq) as int;
    let x = 2 * units * rate + d;
    let q = x / (2 * d);
    lemma_fundamental_div_mod(x, 2 * d);
    lemma_mod_bound(x, 2 * d);
    assert(q >= 0) by (nonlinear_arith)
        requires
            x >= 0,
            d > 0,
            q == x / (2 * d),
    ;
    assert((2 * q - 1) * d == (2 * d) * q - d) by (nonlinear_arith);
    assert((2 * q + 1) * d == (2 * d) * q + d) by (nonlinear_arith);
    if (2 * tick - 1) * d <= 2 * units * rate < (2 * tick + 1) * d {
        assert(q == tick) by (nonlinear_arith)
            requires
                (2 * tick - 1) * d <= x - d < (2 * tick + 1) * d,
                (2 * q - 1) * d <= x - d < (2 * q + 1) * d,
                d > 0,
        ;
    }
}

/// Time units in one second at resolution `ppq`.
pub fn units_per_second(ppq: u16) -> (units: u64)
    ensures
        units == units_per_second_spec(ppq as nat),
{
    (ppq as u64) * 1_000_000
}

/// Later instants never land on earlier ticks.
pub proof fn lemma_tick_monotone(a: nat, b: nat, ppq: nat, rate: nat)
    requires
        ppq > 0,
        a <= b,
    ensures
        tick_of(a, ppq, rate) <= tick_of(b, ppq, rate),
{
    let d = units_per_second_spec(ppq);
    assert(2 * a * rate <= 2 * b * rate) by (nonlinear_arith)
        requires
            a <= b,
    ;
    lemma_div_is_ordered(
        (2 * a * rate + d) as int,
        (2 * b * rate + d) as int,
        (2 * d) as int,
    );
}

/// Rounds an instant to its grid tick.
pub fn quantize(units: u128, ppq: u16, rate: u32) -> (tick: u32)
    requires
        ppq > 0,
    ensures
        tick == tick_of(units as nat, ppq as nat, rate as nat),
{
    let d: u128 = (ppq as u128) * 1_000_000;
    let whole: u128 = units / d;
    let rest: u128 = units % d;
    let ghost exact = rounded_ticks(units as nat, ppq as nat, rate as nat);
    proof {
        // units == whole * d + rest, so the multiple of the divisor comes out whole
        lemma_fundamental_div_mod(units as int, d as int);
        let x: int = 2 * rest * rate + d;
        let j: int = whole * rate;
        lemma_hoist_over_denominator(x, j, (2 * d) as nat);
        assert(x + j * (2 * d) == 2 * units * rate + d) by (nonlinear_arith)
            requires
                units == d * whole + rest,
                x == 2 * rest * rate + d,
                j == whole * rate,
        ;
        assert(exact == x / (2 * d) + j);
        assert(x / (2 * d) >= 0) by (nonlinear_arith)
            requires
                x >= 0,
                d > 0,
        ;
    }
    if rate == 0 {
        proof {
            assert(whole * rate == 0) by (nonlinear_arith)
                requires
                    rate == 0,
            ;
            assert(2 * rest * rate == 0) by (nonlinear_arith)
                requires
                    rate == 0,
            ;
            assert((d as int) / (2 * d) == 0) by (nonlinear_arith)
                requires
                    d > 0,
            ;
        }
        return 0;
    }
    if whole > u32::MAX as u128 {
        proof {
            assert(whole * rate >= whole) by (nonlinear_arith)
                requires
                    rate >= 1,
                    whole >= 0,
            ;
        }
        return u32::MAX;
    }
    assert(whole * rate <= 0xffff_ffff * 0xffff_ffff) by (nonlinear_arith)
        requires
            whole <= 0xffff_ffff,
            rate <= 0xffff_ffff,
    ;
    assert(2 * rest * rate <= 2 * 65_535_000_000 * 0xffff_ffff) by (nonlinear_arith)
        requires
            rest < d,
            d <= 65_535_000_000,
            rate <= 0xffff_ffff,
    ;
    let part: u128 = (2 * rest * (rate as u128) + d) / (2 * d);
    let total: u128 = whole * (rate as u128) + part;
    if total > u32::MAX as u128 {
        u32::MAX
    } else {
        total as u32
    }
}

/// The note-on events that land on `tick`.
pub open spec fn on_tick(ppq: nat, rate: nat, tick: nat) -> spec_fn(Moment) -> bool {
    |m: Moment| m.payload is NoteOn && tick_of(m.at, ppq, rate) == tick
}

/// The document note of an event.
pub open spec fn to_note() -> spec_fn(Moment) -> NoteEvent {
    |m: Moment| m.payload.note()
}

/// The notes of one tick: those of the note-on events of the time line that
/// land on it, in the order of the time line.
pub open spec fn bucket(line: Seq<Moment>, ppq: nat, rate: nat, tick: nat) -> Seq<NoteEvent> {
    line.filter(on_tick(ppq, rate, tick)).map_values(to_note())
}

/// The notes of a time line by tick. Only ticks on which a note lands have
/// an entry.
pub open spec fn buckets(line: Seq<Moment>, ppq: nat, rate: nat) -> Map<u32, Seq<NoteEvent>> {
    Map::new(
        |tick: u32| bucket(line, ppq, rate, tick as nat).len() > 0,
        |tick: u32| bucket(line, ppq, rate, tick as nat),
    )
}

/// The bucket of a tick when the time line grows by one event.
pub proof fn lemma_bucket_push(line: Seq<Moment>, m: Moment, ppq: nat, rate: nat, tick: nat)
    ensures
        bucket(line.push(m), ppq, rate, tick) == if m.payload is NoteOn && tick_of(
            m.at,
            ppq,
            rate,
        ) == tick {
            bucket(line, ppq, rate, tick).push(m.payload.note())
        } else {
            bucket(line, ppq, rate, tick)
        },
{
    let pred = on_tick(ppq, rate, tick);
    lemma_filter_push(line, m, pred);
    if pred(m) {
        assert(line.filter(pred).push(m).map_values(to_note()) =~= line.filter(pred).map_values(
            to_note(),
        ).push(m.payload.note()));
    }
}

/// As the time line grows, the notes of a tick grow at the end only.
pub proof fn lemma_bucket_grows(line: Seq<Moment>, ppq: nat, rate: nat, tick: nat, k: int, n: int)
    requires
        0 <= k <= n <= line.len(),
    ensures
        bucket(line.take(k), ppq, rate, tick).len() <= bucket(line.take(n), ppq, rate, tick).len(),
        forall|r: int|
            0 <= r < bucket(line.take(k), ppq, rate, tick).len() ==> bucket(
                line.take(n),
                ppq,
                rate,
                tick,
            )[r] == bucket(line.take(k), ppq, rate, tick)[r],
    decreases n - k,
{
    if k < n {
        lemma_bucket_grows(line, ppq, rate, tick, k, n - 1);
        assert(line.take(n) =~= line.take(n - 1).push(line[n - 1]));
        lemma_bucket_push(line.take(n - 1), line[n - 1], ppq, rate, tick);
    }
}

/// The place of event `i` among the notes of its tick, if it is a note-on
/// event: the number of earlier note-on events that land on the same tick.
pub open spec fn place(line: Seq<Moment>, ppq: nat, rate: nat, i: int) -> nat {
    bucket(line.take(i), ppq, rate, tick_of(line[i].at, ppq, rate)).len()
}

/// No note is dropped: every note-on event stands among the notes of the
/// tick on which it lands, at its place.
pub proof fn lemma_note_kept(line: Seq<Moment>, ppq: nat, rate: nat, i: int)
    requires
        0 <= i < line.len(),
        line[i].payload is NoteOn,
    ensures
        place(line, ppq, rate, i) < bucket(line, ppq, rate, tick_of(line[i].at, ppq, rate)).len(),
        bucket(line, ppq, rate, tick_of(line[i].at, ppq, rate))[place(line, ppq, rate, i) as int]
            == line[i].payload.note(),
{
    let tick = tick_of(line[i].at, ppq, rate);
    assert(line.take(i + 1) =~= line.take(i).push(line[i]));
    lemma_bucket_push(line.take(i), line[i], ppq, rate, tick);
    lemma_bucket_grows(line, ppq, rate, tick, i + 1, line.len() as int);
    assert(line.take(line.len() as int) =~= line);
}

/// Notes of one tick keep the order of the stream: of two note-on events
/// that land on the same tick, the earlier has the earlier place.
pub proof fn lemma_same_tick_order(line: Seq<Moment>, ppq: nat, rate: nat, i: int, j: int)
    requires
        0 <= i < j < line.len(),
        line[i].payload is NoteOn,
        line[j].payload is NoteOn,
        tick_of(line[i].at, ppq, rate) == tick_of(line[j].at, ppq, rate),
    ensures
        place(line, ppq, rate, i) < place(line, ppq, rate, j),
{
    let tick = tick_of(line[i].at, ppq, rate);
    assert(line.take(i + 1) =~= line.take(i).push(line[i]));
    lemma_bucket_push(line.take(i), line[i], ppq, rate, tick);
    lemma_bucket_grows(line, ppq, rate, tick, i + 1, j);
}

/// Every place among the notes that a tick has after `n` events is the
/// place of one of these events.
proof fn lemma_note_origin_among(
    line: Seq<Moment>,
    ppq: nat,
    rate: nat,
    tick: nat,
    n: int,
    r: int,
)
    requires
        0 <= n <= line.len(),
        0 <= r < bucket(line.take(n), ppq, rate, tick).len(),
    ensures
        exists|i: int|
            0 <= i < n && (#[trigger] line[i]).payload is NoteOn && tick_of(line[i].at, ppq, rate)
                == tick && place(line, ppq, rate, i) == r,
    decreases n,
{
    if n == 0 {
        reveal(Seq::filter);
        assert(line.take(0) =~= Seq::<Moment>::empty());
    } else {
        assert(line.take(n) =~= line.take(n - 1).push(line[n - 1]));
        lemma_bucket_push(line.take(n - 1), line[n - 1], ppq, rate, tick);
        if r < bucket(line.take(n - 1), ppq, rate, tick).len() {
            lemma_note_origin_among(line, ppq, rate, tick, n - 1, r);
        } else {
            assert(line[n - 1].payload is NoteOn);
            assert(place(line, ppq, rate, n - 1) == r);
        }
    }
}

/// No note is made up or doubled: every place among the notes of a tick is
/// the place of a note-on event that lands on that tick.
pub proof fn lemma_note_origin(line: Seq<Moment>, ppq: nat, rate: nat, tick: nat, r: int)
    requires
        0 <= r < bucket(line, ppq, rate, tick).len(),
    ensures
        exists|i: int|
            0 <= i < line.len() && (#[trigger] line[i]).payload is NoteOn && tick_of(
                line[i].at,
                ppq,
                rate,
            ) == tick && place(line, ppq, rate, i) == r,
{
    assert(line.take(line.len() as int) =~= line);
    lemma_note_origin_among(line, ppq, rate, tick, line.len() as int, r);
}

/// An event that is no note-on event adds its delta to the length of the
/// stream, and so moves the last tick, but changes the notes of no tick.
pub proof fn lemma_silent_event(events: Seq<TimedEvent>, e: TimedEvent, ppq: nat, rate: nat)
    requires
        !(e.payload is NoteOn),
    ensures
        units_until(events.push(e), events.len() as int + 1) == units_until(
            events,
            events.len() as int,
        ) + e.delta as nat,
        buckets(timeline(events.push(e)), ppq, rate) == buckets(timeline(events), ppq, rate),
{
    lemma_timeline_push(events, e);
    let m = Moment { at: units_until(events, events.len() as int) + e.delta as nat, payload: e.payload };
    assert forall|tick: nat|
        bucket(timeline(events.push(e)), ppq, rate, tick) == bucket(
            timeline(events),
            ppq,
            rate,
            tick,
        ) by {
        lemma_bucket_push(timeline(events), m, ppq, rate, tick);
    }
    assert(buckets(timeline(events.push(e)), ppq, rate) =~= buckets(timeline(events), ppq, rate));
}

/// Notes grouped by the tick on which they land, and the last tick of the
/// stream they came from.
#[derive(Clone, Debug, PartialEq, Eq)]
pub struct TickGrid {
    /// The tick at which the stream ends.
    pub max_tick: u32,
    /// The notes of each tick on which a note lands, in stream order.
    pub notes: BTreeMap<u32, Vec<NoteEvent>>,
}

impl TickGrid {
    /// The notes by tick, as sequences.
    pub open spec fn notes_view(&self) -> Map<u32, Seq<NoteEvent>> {
        self.notes@.map_values(|bucket: Vec<NoteEvent>| bucket@)
    }
}

/// Appends `note` to the bucket of `tick`, which is made if there is none.
fn push_note(notes: &mut BTreeMap<u32, Vec<NoteEvent>>, tick: u32, note: NoteEvent)
    ensures
        final(notes)@.dom() == old(notes)@.dom().insert(tick),
        final(notes)@[tick]@ == if old(notes)@.contains_key(tick) {
            old(notes)@[tick]@.push(note)
        } else {
            seq![note]
        },
        forall|t: u32| t != tick && old(notes)@.contains_key(t) ==> final(notes)@[t] == old(notes)@[t],
{
    broadcast use vstd::std_specs::btree::group_btree_axioms;

    let mut bucket = match notes.remove(&tick) {
        Some(bucket) => bucket,
        None => Vec::new(),
    };
    bucket.push(note);
    notes.insert(tick, bucket);
}

/// Puts the notes of a stream on the grid.
///
/// Every note-on event lands on the tick nearest to its instant and joins
/// the notes of that tick, behind those that came before it. Other events
/// leave no note, but their time counts: the last tick is that of the end of
/// the stream, whether or not a note lands there.
pub fn group_by_tick(stream: &TimedStream, rate: u32) -> (grid: TickGrid)
    requires
        stream.wf(),
    ensures
        grid.max_tick == tick_of(stream.duration(), stream.ppq as nat, rate as nat),
        grid.notes_view() == buckets(timeline(stream.events@), stream.ppq as nat, rate as nat),
{
    let ghost line = timeline(stream.events@);
    let ghost ppq = stream.ppq as nat;
    let mut notes: BTreeMap<u32, Vec<NoteEvent>> = BTreeMap::new();
    let mut now: u128 = 0;
    let mut i: usize = 0;
    proof {
        reveal(Seq::filter);
        assert(line.take(0) =~= Seq::<Moment>::empty());
    }
    while i < stream.events.len()
        invariant
            i <= stream.events.len(),
            stream.wf(),
            ppq == stream.ppq,
            line == timeline(stream.events@),
            now == units_until(stream.events@, i as int),
            forall|tick: u32|
                notes@.contains_key(tick) <==> bucket(
                    line.take(i as int),
                    ppq,
                    rate as nat,
                    tick as nat,
                ).len() > 0,
            forall|tick: u32|
                notes@.contains_key(tick) ==> (#[trigger] notes@[tick])@ == bucket(
                    line.take(i as int),
                    ppq,
                    rate as nat,
                    tick as nat,
                ),
        decreases stream.events.len() - i,
    {
        let e = stream.events[i];
        proof {
            lemma_units_monotone(stream.events@, i + 1, stream.events@.len() as int);
            assert(line.take(i + 1) =~= line.take(i as int).push(line[i as int]));
            assert forall|tick: u32|
                bucket(line.take(i + 1), ppq, rate as nat, tick as nat) == if line[i as int].payload is NoteOn
                    && tick_of(line[i as int].at, ppq, rate as nat) == tick {
                    bucket(line.take(i as int), ppq, rate as nat, tick as nat).push(
                        line[i as int].payload.note(),
                    )
                } else {
                    bucket(line.take(i as int), ppq, rate as nat, tick as nat)
                } by {
                lemma_bucket_push(line.take(i as int), line[i as int], ppq, rate as nat, tick as nat);
            }
        }
        if e.delta != 0 {
            now = now + e.delta;
        }
        let tick = quantize(now, stream.ppq, rate);
        match e.payload.as_note() {
            Some(note) => {
                push_note(&mut notes, tick, note);
            },
            None => {},
        }
        i += 1;
    }
    let max_tick = quantize(now + stream.tail, stream.ppq, rate);
    let grid = TickGrid { max_tick, notes };
    proof {
        assert(line.take(stream.events.len() as int) =~= line);
        assert(grid.notes_view() =~= buckets(line, ppq, rate as nat));
    }
    grid
}

} // verus!
