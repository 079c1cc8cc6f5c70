use midi_grid::event::{NoteEvent, Payload, TimedEvent};
use midi_grid::grid::{group_by_tick, quantize};
use midi_grid::timebase::TimedStream;

fn on(delta: u128, key: u8) -> TimedEvent {
    TimedEvent { delta, payload: Payload::NoteOn { channel: 0, key, velocity: 100 } }
}

fn out(key: u8) -> NoteEvent {
    NoteEvent { channel: 0, note: key, velocity: 100 }
}

// at one pulse per quarter note a time unit is a microsecond
fn micros(events: Vec<TimedEvent>, tail: u128) -> TimedStream {
    TimedStream { ppq: 1, events, tail }
}

#[test]
fn half_a_tick_rounds_up() {
    // 0.025 s at 20 ticks per second is half a tick
    assert_eq!(quantize(25_000, 1, 20), 1);
    assert_eq!(quantize(12_000_000, 480, 20), 1);
}

#[test]
fn just_under_half_a_tick_rounds_down() {
    // 0.024999 s
    assert_eq!(quantize(24_999, 1, 20), 0);
    assert_eq!(quantize(11_999_520, 480, 20), 0);
}

#[test]
fn whole_seconds_are_twenty_ticks_each() {
    assert_eq!(quantize(0, 96, 20), 0);
    assert_eq!(quantize(96_000_000, 96, 20), 20);
    assert_eq!(quantize(3 * 96_000_000, 96, 20), 60);
}

#[test]
fn ticks_are_the_nearest_to_the_instant() {
    // ticks are 50_000 microseconds apart
    assert_eq!(quantize(74_999, 1, 20), 1);
    assert_eq!(quantize(75_000, 1, 20), 2);
    assert_eq!(quantize(124_999, 1, 20), 2);
    assert_eq!(quantize(125_000, 1, 20), 3);
    assert_eq!(quantize(1_000_000, 1, 3), 3);
    assert_eq!(quantize(500_000, 1, 3), 2);
    assert_eq!(quantize(499_999, 1, 3), 1);
}

#[test]
fn ticks_beyond_the_last_are_held_at_the_last() {
    assert_eq!(quantize(u128::MAX, 1, 20), u32::MAX);
    assert_eq!(quantize(u128::MAX, u16::MAX, 1), u32::MAX);
    assert_eq!(quantize(1_000_000 * (u32::MAX as u128), 1, 1), u32::MAX);
    assert_eq!(quantize(1_000_000 * (u32::MAX as u128) - 500_001, 1, 1), u32::MAX - 1);
    assert_eq!(quantize(1_000_000 * (u32::MAX as u128) - 500_000, 1, 1), u32::MAX);
    assert_eq!(quantize(1_000_000 * (u32::MAX as u128 + 5), 1, 1), u32::MAX);
    assert_eq!(quantize(1_000_000, 1, u32::MAX), u32::MAX);
}

#[test]
fn a_grid_without_ticks_has_everything_on_tick_zero() {
    assert_eq!(quantize(0, 1, 0), 0);
    assert_eq!(quantize(u128::MAX, 1, 0), 0);
}

#[test]
fn later_instants_never_land_on_earlier_ticks() {
    let mut last = 0;
    for units in (0..2_000_000u128).step_by(9_973) {
        let tick = quantize(units, 7, 20);
        assert!(last <= tick);
        last = tick;
    }
}

#[test]
fn notes_on_one_tick_stand_in_stream_order() {
    // 1.000 s, 1.010 s and 1.020 s all land on tick 20
    let stream = micros(vec![on(1_000_000, 60), on(10_000, 64), on(10_000, 67)], 0);
    let grid = group_by_tick(&stream, 20);
    assert_eq!(grid.notes.len(), 1);
    assert_eq!(grid.notes.get(&20), Some(&vec![out(60), out(64), out(67)]));
    assert_eq!(grid.max_tick, 20);
}

#[test]
fn two_equal_notes_on_one_tick_are_both_kept() {
    let stream = micros(vec![on(0, 60), on(0, 60)], 0);
    let grid = group_by_tick(&stream, 20);
    assert_eq!(grid.notes.get(&0), Some(&vec![out(60), out(60)]));
}

#[test]
fn notes_on_the_same_tick_need_not_be_neighbours_in_time() {
    // 0.030 s rounds to tick 1, 0.070 s rounds to tick 1, 0.080 s rounds to tick 2
    let stream = micros(vec![on(30_000, 1), on(40_000, 2), on(10_000, 3)], 0);
    let grid = group_by_tick(&stream, 20);
    assert_eq!(grid.notes.get(&1), Some(&vec![out(1), out(2)]));
    assert_eq!(grid.notes.get(&2), Some(&vec![out(3)]));
    assert_eq!(grid.notes.len(), 2);
}

#[test]
fn every_note_is_in_one_bucket_only() {
    let stream = micros(
        vec![on(0, 1), on(50_000, 2), on(0, 3), on(50_000, 4), on(25_000, 5), on(24_999, 6)],
        0,
    );
    let grid = group_by_tick(&stream, 20);
    let total: usize = grid.notes.values().map(|b| b.len()).sum();
    assert_eq!(total, 6);
    assert_eq!(grid.notes.get(&0), Some(&vec![out(1)]));
    assert_eq!(grid.notes.get(&1), Some(&vec![out(2), out(3)]));
    assert_eq!(grid.notes.get(&2), Some(&vec![out(4)]));
    assert_eq!(grid.notes.get(&3), Some(&vec![out(5), out(6)]));
}

#[test]
fn ticks_come_in_increasing_order() {
    let stream = micros(vec![on(500_000, 1), on(500_000, 2), on(500_000, 3)], 0);
    let grid = group_by_tick(&stream, 20);
    let ticks: Vec<u32> = grid.notes.keys().copied().collect();
    assert_eq!(ticks, vec![10, 20, 30]);
}

#[test]
fn last_event_that_is_no_note_still_moves_the_last_tick() {
    let stream = micros(
        vec![on(0, 60), TimedEvent { delta: 2_000_000, payload: Payload::Other }],
        0,
    );
    let grid = group_by_tick(&stream, 20);
    assert_eq!(grid.max_tick, 40);
    assert_eq!(grid.notes.len(), 1);
    assert_eq!(grid.notes.get(&0), Some(&vec![out(60)]));
    assert_eq!(grid.notes.get(&40), None);
}

#[test]
fn tail_of_the_stream_moves_the_last_tick() {
    let grid = group_by_tick(&micros(vec![on(100_000, 60)], 400_000), 20);
    assert_eq!(grid.max_tick, 10);
    assert_eq!(grid.notes.get(&2), Some(&vec![out(60)]));
}

#[test]
fn events_that_are_no_notes_leave_no_bucket() {
    let stream = micros(
        vec![
            TimedEvent { delta: 100_000, payload: Payload::Other },
            TimedEvent { delta: 100_000, payload: Payload::TempoChange { micros_per_quarter: 1 } },
        ],
        0,
    );
    let grid = group_by_tick(&stream, 20);
    assert!(grid.notes.is_empty());
    assert_eq!(grid.max_tick, 4);
}

#[test]
fn empty_stream_ends_at_tick_zero() {
    let grid = group_by_tick(&micros(Vec::new(), 0), 20);
    assert!(grid.notes.is_empty());
    assert_eq!(grid.max_tick, 0);
}

#[test]
fn note_fields_are_carried_into_the_bucket() {
    let e = TimedEvent { delta: 0, payload: Payload::NoteOn { channel: 9, key: 36, velocity: 127 } };
    let grid = group_by_tick(&micros(vec![e], 0), 20);
    assert_eq!(grid.notes.get(&0), Some(&vec![NoteEvent { channel: 9, note: 36, velocity: 127 }]));
}

#[test]
fn payload_tells_tempo_events_and_notes_apart() {
    let n = Payload::NoteOn { channel: 1, key: 2, velocity: 3 };
    let t = Payload::TempoChange { micros_per_quarter: 4 };
    assert!(t.is_tempo());
    assert!(!n.is_tempo());
    assert!(!Payload::Other.is_tempo());
    assert_eq!(n.as_note(), Some(NoteEvent { channel: 1, note: 2, velocity: 3 }));
    assert_eq!(t.as_note(), None);
    assert_eq!(Payload::Other.as_note(), None);
}
