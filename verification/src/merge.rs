//! The track merger: several delta-timed tracks become one stream in which
//! every event keeps its absolute position.
use vstd::prelude::*;
use crate::event::{RawEvent, pulses_until, lemma_pulses_monotone, lemma_pulses_prefix};

verus! {

/// The place of an event among the tracks: which track, and where in it.
pub ghost struct Slot {
    pub track: int,
    pub index: int,
}

/// The tracks as sequences of events.
pub open spec fn tracks_view(tracks: &Vec<Vec<RawEvent>>) -> Seq<Seq<RawEvent>> {
    Seq::new(tracks@.len(), |t: int| tracks@[t]@)
}

/// `s` names an event of `tracks`.
pub open spec fn slot_valid(tracks: Seq<Seq<RawEvent>>, s: Slot) -> bool {
    0 <= s.track < tracks.len() && 0 <= s.index < tracks[s.track].len()
}

/// The absolute position, in pulses, of the event that `s` names.
pub open spec fn slot_position(tracks: Seq<Seq<RawEvent>>, s: Slot) -> nat {
    pulses_until(tracks[s.track], s.index + 1)
}

/// The order in which events leave the merger: by position; at one position
/// by track; within a track as they stand.
pub open spec fn precedes(tracks: Seq<Seq<RawEvent>>, a: Slot, b: Slot) -> bool {
    let pa = slot_position(tracks, a);
    let pb = slot_position(tracks, b);
    pa < pb || (pa == pb && (a.track < b.track || (a.track == b.track && a.index < b.index)))
}

/// `order` lists every event of `tracks` exactly once, in merge order.
pub open spec fn is_schedule(tracks: Seq<Seq<RawEvent>>, order: Seq<Slot>) -> bool {
    &&& forall|j: int| 0 <= j < order.len() ==> slot_valid(tracks, #[trigger] order[j])
    &&& forall|j: int, k: int|
        0 <= j < k < order.len() ==> precedes(tracks, #[trigger] order[j], #[trigger] order[k])
    &&& forall|s: Slot| #[trigger] slot_valid(tracks, s) ==> order.contains(s)
}

/// `out` carries, one for one, the events that `order` names: each with its
/// payload, and at the position that it had in its own track.
pub open spec fn follows_schedule(
    tracks: Seq<Seq<RawEvent>>,
    order: Seq<Slot>,
    out: Seq<RawEvent>,
) -> bool {
    &&& out.len() == order.len()
    &&& forall|j: int|
        0 <= j < out.len() ==> {
            &&& out[j].payload == tracks[order[j].track][order[j].index].payload
            &&& pulses_until(out, j + 1) == slot_position(tracks, #[trigger] order[j])
        }
}

/// `out` is a merge of `tracks`: all their events, in merge order, each at
/// its own absolute position.
pub open spec fn is_merge(tracks: Seq<Seq<RawEvent>>, out: Seq<RawEvent>) -> bool {
    exists|order: Seq<Slot>|
        is_schedule(tracks, order) && #[trigger] follows_schedule(tracks, order, out)
}

/// The merge of `tracks`. There is at most one (`lemma_merge_unique`).
pub open spec fn merge_of(tracks: Seq<Seq<RawEvent>>) -> Seq<RawEvent> {
    choose|out: Seq<RawEvent>| is_merge(tracks, out)
}

/// Two schedules of the same tracks agree on their first `n` places.
proof fn lemma_schedules_agree(tracks: Seq<Seq<RawEvent>>, x: Seq<Slot>, y: Seq<Slot>, n: int)
    requires
        is_schedule(tracks, x),
        is_schedule(tracks, y),
        0 <= n <= x.len(),
        n <= y.len(),
    ensures
        forall|j: int| 0 <= j < n ==> x[j] == y[j],
    decreases n,
{
    if n > 0 {
        lemma_schedules_agree(tracks, x, y, n - 1);
        let a = x[n - 1];
        let b = y[n - 1];
        if a != b {
            assert(slot_valid(tracks, a));
            assert(slot_valid(tracks, b));
            if precedes(tracks, a, b) {
                let k = choose|k: int| 0 <= k < y.len() && y[k] == a;
                if k < n - 1 {
                    assert(x[k] == a);
                    assert(precedes(tracks, x[k], x[n - 1]));
                } else {
                    assert(precedes(tracks, y[n - 1], y[k]));
                }
            } else {
                assert(precedes(tracks, b, a));
                let k = choose|k: int| 0 <= k < x.len() && x[k] == b;
                if k < n - 1 {
                    assert(y[k] == b);
                    assert(precedes(tracks, y[k], y[n - 1]));
                } else {
                    assert(precedes(tracks, x[n - 1], x[k]));
                }
            }
        }
    }
}

/// A schedule is no longer than another of the same tracks.
proof fn lemma_schedule_not_longer(tracks: Seq<Seq<RawEvent>>, x: Seq<Slot>, y: Seq<Slot>)
    requires
        is_schedule(tracks, x),
        is_schedule(tracks, y),
    ensures
        y.len() <= x.len(),
{
    if x.len() < y.len() {
        let n = x.len() as int;
        lemma_schedules_agree(tracks, x, y, n);
        let b = y[n];
        assert(slot_valid(tracks, b));
        let k = choose|k: int| 0 <= k < x.len() && x[k] == b;
        assert(y[k] == b);
        assert(precedes(tracks, y[k], y[n]));
    }
}

/// The tracks fix the order in which their events leave the merger.
pub proof fn lemma_schedule_unique(tracks: Seq<Seq<RawEvent>>, x: Seq<Slot>, y: Seq<Slot>)
    requires
        is_schedule(tracks, x),
        is_schedule(tracks, y),
    ensures
        x == y,
{
    lemma_schedule_not_longer(tracks, x, y);
    lemma_schedule_not_longer(tracks, y, x);
    lemma_schedules_agree(tracks, x, y, x.len() as int);
    assert(x =~= y);
}

/// The tracks fix their merge: any two merges of the same tracks are equal.
pub proof fn lemma_merge_unique(tracks: Seq<Seq<RawEvent>>, a: Seq<RawEvent>, b: Seq<RawEvent>)
    requires
        is_merge(tracks, a),
        is_merge(tracks, b),
    ensures
        a == b,
{
    let x = choose|order: Seq<Slot>|
        is_schedule(tracks, order) && #[trigger] follows_schedule(tracks, order, a);
    let y = choose|order: Seq<Slot>|
        is_schedule(tracks, order) && #[trigger] follows_schedule(tracks, order, b);
    lemma_schedule_unique(tracks, x, y);
    assert forall|j: int| 0 <= j < a.len() implies a[j] == b[j] by {
        // both streams reach the instant of slot `x[j]` from that of `x[j - 1]`
        assert(pulses_until(a, j + 1) == slot_position(tracks, x[j]));
        assert(pulses_until(a, j) == pulses_until(b, j)) by {
            if j > 0 {
                assert(pulses_until(a, j) == slot_position(tracks, x[j - 1]));
            }
        }
        assert(pulses_until(a, j + 1) == pulses_until(a, j) + a[j].delta);
        assert(pulses_until(b, j + 1) == pulses_until(b, j) + b[j].delta);
    }
    assert(a =~= b);
}

/// In a merge the positions never decrease, and of two events at one
/// position the one of the earlier track comes first.
pub proof fn lemma_merge_ordering(
    tracks: Seq<Seq<RawEvent>>,
    order: Seq<Slot>,
    out: Seq<RawEvent>,
    j: int,
    k: int,
)
    requires
        is_schedule(tracks, order),
        follows_schedule(tracks, order, out),
        0 <= j < k < out.len(),
    ensures
        pulses_until(out, j + 1) <= pulses_until(out, k + 1),
        pulses_until(out, j + 1) == pulses_until(out, k + 1) ==> order[j].track <= order[k].track,
        pulses_until(out, j + 1) == pulses_until(out, k + 1) && order[j].track == order[k].track
            ==> order[j].index < order[k].index,
{
    assert(precedes(tracks, order[j], order[k]));
}

/// The number of events in the first `k` tracks.
pub open spec fn event_count(tracks: Seq<Seq<RawEvent>>, k: int) -> nat
    decreases k,
{
    if k <= 0 {
        0
    } else {
        event_count(tracks, k - 1) + tracks[k - 1].len()
    }
}

/// Events not yet taken from the first `k` tracks, where `cursors[t]` events
/// of track `t` have been taken.
spec fn remaining(tracks: Seq<Seq<RawEvent>>, cursors: Seq<usize>, k: int) -> int
    decreases k,
{
    if k <= 0 {
        0
    } else {
        remaining(tracks, cursors, k - 1) + (tracks[k - 1].len() - cursors[k - 1])
    }
}

/// While no cursor has passed the end of its track, nothing is owed.
proof fn lemma_remaining_nonneg(tracks: Seq<Seq<RawEvent>>, cursors: Seq<usize>, k: int)
    requires
        0 <= k <= cursors.len(),
        cursors.len() == tracks.len(),
        forall|t: int| 0 <= t < cursors.len() ==> cursors[t] <= tracks[t].len(),
    ensures
        remaining(tracks, cursors, k) >= 0,
    decreases k,
{
    if k > 0 {
        lemma_remaining_nonneg(tracks, cursors, k - 1);
    }
}

/// Before anything is taken, every event is owed.
proof fn lemma_remaining_at_start(tracks: Seq<Seq<RawEvent>>, cursors: Seq<usize>, k: int)
    requires
        0 <= k <= cursors.len(),
        forall|t: int| 0 <= t < cursors.len() ==> cursors[t] == 0,
    ensures
        remaining(tracks, cursors, k) == event_count(tracks, k),
    decreases k,
{
    if k > 0 {
        lemma_remaining_at_start(tracks, cursors, k - 1);
    }
}

/// Once every track is used up, nothing is owed.
proof fn lemma_remaining_at_end(tracks: Seq<Seq<RawEvent>>, cursors: Seq<usize>, k: int)
    requires
        0 <= k <= cursors.len(),
        cursors.len() == tracks.len(),
        forall|t: int| 0 <= t < cursors.len() ==> cursors[t] == tracks[t].len(),
    ensures
        remaining(tracks, cursors, k) == 0,
    decreases k,
{
    if k > 0 {
        lemma_remaining_at_end(tracks, cursors, k - 1);
    }
}

/// Taking one event from a track leaves one event fewer.
proof fn lemma_remaining_step(
    tracks: Seq<Seq<RawEvent>>,
    cursors: Seq<usize>,
    moved: Seq<usize>,
    p: int,
    k: int,
)
    requires
        0 <= p < cursors.len(),
        0 <= k <= cursors.len(),
        cursors.len() == tracks.len(),
        moved.len() == cursors.len(),
        moved[p] == cursors[p] + 1,
        forall|t: int| 0 <= t < cursors.len() && t != p ==> moved[t] == cursors[t],
    ensures
        remaining(tracks, moved, k) == remaining(tracks, cursors, k) - (if p < k {
            1int
        } else {
            0int
        }),
    decreases k,
{
    if k > 0 {
        lemma_remaining_step(tracks, cursors, moved, p, k - 1);
    }
}

/// The sum of `n` deltas is at most `n` times the largest delta.
proof fn lemma_pulses_bound(events: Seq<RawEvent>, n: int)
    requires
        0 <= n,
    ensures
        pulses_until(events, n) <= n * 0xffff_ffff,
    decreases n,
{
    if n > 0 {
        lemma_pulses_bound(events, n - 1);
    }
}

/// `next` is the track from which the merger takes its next event: the one
/// whose next event has the smallest position, the earliest such track if
/// several share it; `None` when every track is used up.
spec fn is_next(
    tracks: Seq<Seq<RawEvent>>,
    cursors: Seq<usize>,
    next: Option<usize>,
) -> bool {
    match next {
        None => forall|t: int| 0 <= t < tracks.len() ==> cursors[t] == tracks[t].len(),
        Some(p) => {
            &&& p < tracks.len()
            &&& cursors[p as int] < tracks[p as int].len()
            &&& forall|t: int|
                0 <= t < tracks.len() && cursors[t] < tracks[t].len() ==> {
                    let mine = pulses_until(tracks[p as int], cursors[p as int] + 1);
                    let other = pulses_until(#[trigger] tracks[t], cursors[t] + 1);
                    mine < other || (mine == other && p <= t)
                }
        },
    }
}

/// Selects the track whose next event is due first.
fn pick_next(tracks: &Vec<Vec<RawEvent>>, cursors: &Vec<usize>, heads: &Vec<u128>) -> (next:
    Option<usize>)
    requires
        cursors.len() == tracks.len(),
        heads.len() == tracks.len(),
        forall|t: int| 0 <= t < tracks.len() ==> cursors[t] <= tracks[t].len(),
        forall|t: int|
            0 <= t < tracks.len() && cursors[t] < tracks[t].len() ==> heads[t] == pulses_until(
                #[trigger] tracks_view(tracks)[t],
                cursors[t] + 1,
            ),
    ensures
        is_next(tracks_view(tracks), cursors@, next),
{
    let ghost tv = tracks_view(tracks);
    let mut best: Option<usize> = None;
    let mut t: usize = 0;
    while t < tracks.len()
        invariant
            t <= tracks.len(),
            cursors.len() == tracks.len(),
            heads.len() == tracks.len(),
            tv == tracks_view(tracks),
            forall|u: int| 0 <= u < tracks.len() ==> cursors[u] <= tracks[u].len(),
            forall|u: int|
                0 <= u < tracks.len() && cursors[u] < tracks[u].len() ==> heads[u] == pulses_until(
                    #[trigger] tv[u],
                    cursors[u] + 1,
                ),
            is_next(tv.take(t as int), cursors@, best),
        decreases tracks.len() - t,
    {
        let ghost before = tv.take(t as int);
        let ghost after = tv.take(t + 1);
        assert(forall|u: int| 0 <= u < t ==> before[u] == after[u]);
        assert(after[t as int] == tv[t as int]);
        if cursors[t] < tracks[t].len() {
            match best {
                None => {
                    best = Some(t);
                },
                Some(p) => {
                    assert(before[p as int] == tv[p as int]);
                    if heads[t] < heads[p] {
                        best = Some(t);
                    }
                },
            }
        }
        t += 1;
        assert(is_next(after, cursors@, best));
    }
    assert(tv.take(tracks.len() as int) =~= tv);
    best
}

/// Merges tracks into one stream.
///
/// Every event of every track appears once, at the absolute position that it
/// had in its own track. Events come in the order of their positions; events
/// of several tracks at one position come in the order of the tracks.
pub fn merge_tracks(tracks: &Vec<Vec<RawEvent>>) -> (merged: Vec<RawEvent>)
    ensures
        is_merge(tracks_view(tracks), merged@),
        merged@ == merge_of(tracks_view(tracks)),
        merged@.len() == event_count(tracks_view(tracks), tracks@.len() as int),
{
    let ghost tv = tracks_view(tracks);
    let mut cursors: Vec<usize> = Vec::new();
    let mut heads: Vec<u128> = Vec::new();
    let mut t: usize = 0;
    while t < tracks.len()
        invariant
            t <= tracks.len(),
            cursors.len() == t,
            heads.len() == t,
            tv == tracks_view(tracks),
            forall|u: int| 0 <= u < t ==> cursors[u] == 0,
            forall|u: int|
                0 <= u < t && tracks[u].len() > 0 ==> heads[u] == pulses_until(#[trigger] tv[u], 1),
        decreases tracks.len() - t,
    {
        cursors.push(0);
        if tracks[t].len() > 0 {
            assert(pulses_until(tv[t as int], 1) == pulses_until(tv[t as int], 0)
                + tv[t as int][0].delta);
            heads.push(tracks[t][0].delta as u128);
        } else {
            heads.push(0);
        }
        t += 1;
    }
    let mut merged: Vec<RawEvent> = Vec::new();
    let mut last: u128 = 0;
    let ghost mut order: Seq<Slot> = Seq::empty();
    let mut next = pick_next(tracks, &cursors, &heads);
    proof {
        lemma_remaining_nonneg(tv, cursors@, tv.len() as int);
        lemma_remaining_at_start(tv, cursors@, tv.len() as int);
    }
    while next.is_some()
        invariant
            merged.len() + remaining(tv, cursors@, tv.len() as int) == event_count(
                tv,
                tv.len() as int,
            ),
            tv == tracks_view(tracks),
            cursors.len() == tracks.len(),
            heads.len() == tracks.len(),
            forall|u: int| 0 <= u < tracks.len() ==> cursors[u] <= tracks[u].len(),
            forall|u: int|
                0 <= u < tracks.len() && cursors[u] < tracks[u].len() ==> heads[u] == pulses_until(
                    #[trigger] tv[u],
                    cursors[u] + 1,
                ),
            is_next(tv, cursors@, next),
            follows_schedule(tv, order, merged@),
            forall|j: int| 0 <= j < order.len() ==> slot_valid(tv, #[trigger] order[j]),
            forall|j: int, k: int|
                0 <= j < k < order.len() ==> precedes(tv, #[trigger] order[j], #[trigger] order[k]),
            forall|u: int, i: int|
                0 <= u < tracks.len() && 0 <= i < cursors[u] ==> #[trigger] order.contains(
                    Slot { track: u, index: i },
                ),
            forall|j: int, u: int, i: int|
                0 <= j < order.len() && 0 <= u < tracks.len() && cursors[u] <= i < tracks[u].len()
                    ==> #[trigger] precedes(tv, order[j], Slot { track: u, index: i }),
            last == pulses_until(merged@, merged.len() as int),
            forall|u: int|
                0 <= u < tracks.len() ==> pulses_until(#[trigger] tv[u], cursors[u] as int) <= last,
            remaining(tv, cursors@, tv.len() as int) >= 0,
        decreases remaining(tv, cursors@, tv.len() as int),
    {
        let p = next.unwrap();
        let c = cursors[p];
        let head = heads[p];
        let event = tracks[p][c];
        let ghost slot = Slot { track: p as int, index: c as int };
        let ghost old_cursors = cursors@;
        let ghost old_merged = merged@;
        let ghost old_order = order;
        let ghost n = merged.len() as int;
        proof {
            assert(tv[p as int] == tracks[p as int]@);
            assert(head == pulses_until(tv[p as int], c + 1));
            assert(pulses_until(tv[p as int], c as int) <= last);
            if n > 0 {
                assert(precedes(tv, order[n - 1], slot));
            }
            lemma_pulses_bound(tv[p as int], c + 2);
            assert((c + 2) * 0xffff_ffff <= 0x1_0000_0000_0000_0001 * 0xffff_ffff)
                by (nonlinear_arith)
                requires
                    c <= 0xffff_ffff_ffff_ffff,
            ;
        }
        merged.push(RawEvent { delta: (head - last) as u32, payload: event.payload });
        last = head;
        cursors.set(p, c + 1);
        if c + 1 < tracks[p].len() {
            heads.set(p, head + tracks[p][c + 1].delta as u128);
        }
        proof {
            order = order.push(slot);
            lemma_remaining_step(tv, old_cursors, cursors@, p as int, tv.len() as int);
            lemma_remaining_nonneg(tv, cursors@, tv.len() as int);
            assert forall|j: int| 0 <= j <= n implies pulses_until(merged@, j) == pulses_until(
                old_merged,
                j,
            ) by {
                lemma_pulses_prefix(merged@, old_merged, j);
            }
            assert(pulses_until(merged@, n + 1) == head);
            assert forall|j: int| 0 <= j < merged@.len() implies {
                &&& merged@[j].payload == tv[order[j].track][order[j].index].payload
                &&& pulses_until(merged@, j + 1) == slot_position(tv, #[trigger] order[j])
            } by {
                if j < n {
                    assert(merged@[j] == old_merged[j]);
                    assert(order[j] == old_order[j]);
                }
            }
            assert forall|u: int, i: int|
                0 <= u < tracks.len() && 0 <= i < cursors[u] implies #[trigger] order.contains(
                Slot { track: u, index: i },
            ) by {
                if u == p && i == c {
                    assert(order[n] == slot);
                } else {
                    assert(old_order.contains(Slot { track: u, index: i }));
                    let w = choose|w: int|
                        0 <= w < old_order.len() && old_order[w] == (Slot { track: u, index: i });
                    assert(order[w] == old_order[w]);
                }
            }
            assert forall|j: int, u: int, i: int|
                0 <= j < order.len() && 0 <= u < tracks.len() && cursors[u] <= i
                    < tracks[u].len() implies #[trigger] precedes(
                tv,
                order[j],
                Slot { track: u, index: i },
            ) by {
                if j < n {
                    assert(order[j] == old_order[j]);
                    assert(precedes(tv, old_order[j], Slot { track: u, index: i }));
                } else {
                    assert(tv[u] == tracks[u]@);
                    if u == p {
                        lemma_pulses_monotone(tv[u], c + 1, i + 1);
                    } else {
                        assert(old_cursors[u] == cursors[u]);
                        lemma_pulses_monotone(tv[u], cursors[u] + 1, i + 1);
                    }
                }
            }
            assert forall|u: int| 0 <= u < tracks.len() implies pulses_until(
                #[trigger] tv[u],
                cursors[u] as int,
            ) <= last by {
                if u != p {
                    assert(old_cursors[u] == cursors[u]);
                }
            }
        }
        next = pick_next(tracks, &cursors, &heads);
    }
    proof {
        assert forall|s: Slot| #[trigger] slot_valid(tv, s) implies order.contains(s) by {
            assert(order.contains(Slot { track: s.track, index: s.index }));
        }
        assert(is_schedule(tv, order));
        assert(is_merge(tv, merged@));
        lemma_remaining_at_end(tv, cursors@, tv.len() as int);
        lemma_merge_unique(tv, merged@, merge_of(tv));
    }
    merged
}

} // verus!
