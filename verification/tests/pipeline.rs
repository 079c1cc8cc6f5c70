use midi_grid::convert::{convert, try_convert, Settings, DEFAULT_TEMPO, TICKS_PER_SECOND};
use midi_grid::document::assemble;
use midi_grid::event::{NoteEvent, Payload, RawEvent, TimedEvent};
use midi_grid::grid::group_by_tick;
use midi_grid::tempo::cancel_tempo_events;
use midi_grid::timebase::{to_seconds, TimedStream};

fn raw_note(delta: u32, channel: u8, key: u8, velocity: u8) -> RawEvent {
    RawEvent { delta, payload: Payload::NoteOn { channel, key, velocity } }
}

fn raw_tempo(delta: u32, micros_per_quarter: u32) -> RawEvent {
    RawEvent { delta, payload: Payload::TempoChange { micros_per_quarter } }
}

fn doc_note(channel: u8, note: u8, velocity: u8) -> NoteEvent {
    NoteEvent { channel, note, velocity }
}

#[test]
fn standard_settings_are_twenty_ticks_and_quarter_second_quarters() {
    let s = Settings::standard();
    assert_eq!(s.ticks_per_second, 20);
    assert_eq!(s.default_tempo, 250_000);
    assert_eq!(TICKS_PER_SECOND, 20);
    assert_eq!(DEFAULT_TEMPO, 250_000);
}

#[test]
fn one_track_at_120_bpm_end_to_end() {
    // 48 pulses of 96 per quarter at 500_000 microseconds per quarter are
    // 0.25 s, which is tick 5 of 20 per second
    let track = vec![raw_tempo(0, 500_000), raw_note(0, 0, 60, 100), raw_note(48, 0, 64, 100)];
    let doc = convert(&vec![track], 96, String::from("song"), &Settings::standard());
    assert_eq!(doc.title, "song");
    assert_eq!(doc.pitchint, 0);
    assert_eq!(doc.maxtick, 5);
    assert_eq!(doc.data.len(), 2);
    assert_eq!(doc.data.get(&0), Some(&vec![doc_note(0, 60, 100)]));
    assert_eq!(doc.data.get(&5), Some(&vec![doc_note(0, 64, 100)]));
    assert_eq!(doc.data.get(&10), None);
}

#[test]
fn one_track_at_120_bpm_by_setting() {
    let track = vec![raw_note(0, 0, 60, 100), raw_note(48, 0, 64, 100)];
    let settings = Settings { ticks_per_second: 20, default_tempo: 500_000 };
    let doc = convert(&vec![track], 96, String::from("song"), &settings);
    assert_eq!(doc.maxtick, 5);
    assert_eq!(doc.data.get(&0), Some(&vec![doc_note(0, 60, 100)]));
    assert_eq!(doc.data.get(&5), Some(&vec![doc_note(0, 64, 100)]));
}

#[test]
fn time_before_the_first_tempo_change_runs_at_the_default() {
    // a quarter note at the default of 250_000 microseconds is tick 5
    let track = vec![raw_note(96, 0, 60, 100)];
    let doc = convert(&vec![track], 96, String::new(), &Settings::standard());
    assert_eq!(doc.maxtick, 5);
    assert_eq!(doc.data.get(&5), Some(&vec![doc_note(0, 60, 100)]));
}

#[test]
fn tempo_track_sets_the_time_of_the_note_tracks() {
    let conductor = vec![raw_tempo(0, 500_000), raw_tempo(960, 1_000_000)];
    let melody = vec![raw_note(0, 0, 60, 90), raw_note(480, 0, 62, 90), raw_note(960, 0, 64, 90)];
    let bass = vec![raw_note(0, 1, 36, 80), raw_note(1440, 1, 38, 80)];
    let doc = convert(&vec![conductor, melody, bass], 480, String::from("two parts"), &Settings::standard());
    // 480 pulses: 0.5 s; 960 pulses: 1 s; the last 480 pulses take 1 s more
    assert_eq!(doc.data.get(&0), Some(&vec![doc_note(0, 60, 90), doc_note(1, 36, 80)]));
    assert_eq!(doc.data.get(&10), Some(&vec![doc_note(0, 62, 90)]));
    assert_eq!(doc.data.get(&40), Some(&vec![doc_note(0, 64, 90), doc_note(1, 38, 80)]));
    assert_eq!(doc.data.len(), 3);
    assert_eq!(doc.maxtick, 40);
    assert_eq!(doc.title, "two parts");
}

#[test]
fn tempo_event_at_the_end_still_counts_for_the_last_tick() {
    let track = vec![raw_tempo(0, 500_000), raw_note(0, 0, 60, 100), raw_tempo(96, 250_000)];
    let doc = convert(&vec![track], 96, String::new(), &Settings::standard());
    assert_eq!(doc.maxtick, 10);
    assert_eq!(doc.data.len(), 1);
    assert_eq!(doc.data.get(&0), Some(&vec![doc_note(0, 60, 100)]));
}

#[test]
fn event_that_is_no_note_at_the_end_still_counts_for_the_last_tick() {
    let track = vec![
        raw_tempo(0, 500_000),
        raw_note(96, 0, 60, 100),
        RawEvent { delta: 192, payload: Payload::Other },
    ];
    let doc = convert(&vec![track], 96, String::new(), &Settings::standard());
    assert_eq!(doc.data.get(&10), Some(&vec![doc_note(0, 60, 100)]));
    assert_eq!(doc.maxtick, 30);
}

#[test]
fn no_tracks_give_an_empty_document() {
    let doc = convert(&Vec::new(), 96, String::from("nothing"), &Settings::standard());
    assert_eq!(doc.maxtick, 0);
    assert_eq!(doc.pitchint, 0);
    assert_eq!(doc.title, "nothing");
    assert!(doc.data.is_empty());
}

#[test]
fn notes_of_several_tracks_on_one_tick_stand_in_track_order() {
    let tracks = vec![
        vec![raw_note(10, 0, 60, 1)],
        vec![raw_note(10, 1, 61, 2)],
        vec![raw_note(10, 2, 62, 3)],
    ];
    let doc = convert(&tracks, 96, String::new(), &Settings::standard());
    let tick = doc.maxtick;
    assert_eq!(doc.data.len(), 1);
    assert_eq!(
        doc.data.get(&tick),
        Some(&vec![doc_note(0, 60, 1), doc_note(1, 61, 2), doc_note(2, 62, 3)])
    );
}

#[test]
fn pipeline_is_the_chain_of_its_stages() {
    let tracks = vec![
        vec![raw_tempo(0, 600_000), raw_note(17, 0, 60, 100), raw_tempo(30, 300_000)],
        vec![raw_note(5, 1, 61, 100), raw_note(100, 1, 62, 100)],
    ];
    let settings = Settings::standard();
    let merged = midi_grid::merge::merge_tracks(&tracks);
    let timed = to_seconds(&merged, 24, settings.default_tempo);
    let cancelled = cancel_tempo_events(&timed);
    let grid = group_by_tick(&cancelled, settings.ticks_per_second);
    let by_stages = assemble(String::from("t"), grid);
    let at_once = convert(&tracks, 24, String::from("t"), &settings);
    assert_eq!(by_stages, at_once);
}

#[test]
fn cancelling_tempo_events_changes_no_bucket() {
    let t = Payload::TempoChange { micros_per_quarter: 1 };
    let n = |key| Payload::NoteOn { channel: 0, key, velocity: 1 };
    let stream = TimedStream {
        ppq: 1,
        events: vec![
            TimedEvent { delta: 30_000, payload: t },
            TimedEvent { delta: 30_000, payload: n(1) },
            TimedEvent { delta: 0, payload: t },
            TimedEvent { delta: 40_000, payload: n(2) },
            TimedEvent { delta: 90_000, payload: t },
        ],
        tail: 0,
    };
    assert_eq!(group_by_tick(&cancel_tempo_events(&stream), 20), group_by_tick(&stream, 20));
}

#[test]
fn document_takes_over_the_grid() {
    let stream = TimedStream {
        ppq: 1,
        events: vec![TimedEvent {
            delta: 50_000,
            payload: Payload::NoteOn { channel: 2, key: 3, velocity: 4 },
        }],
        tail: 50_000,
    };
    let grid = group_by_tick(&stream, 20);
    let doc = assemble(String::from("a title"), grid.clone());
    assert_eq!(doc.maxtick, grid.max_tick);
    assert_eq!(doc.maxtick, 2);
    assert_eq!(doc.data, grid.notes);
    assert_eq!(doc.pitchint, 0);
    assert_eq!(doc.title, "a title");
}

#[test]
fn ticks_of_a_document_come_in_increasing_order() {
    let track = vec![
        raw_tempo(0, 500_000),
        raw_note(96, 0, 60, 1),
        raw_note(0, 0, 61, 1),
        raw_note(96, 0, 62, 1),
        raw_note(960, 0, 63, 1),
        raw_note(1, 0, 64, 1),
    ];
    let doc = convert(&vec![track], 96, String::new(), &Settings::standard());
    assert_eq!(doc.ticks(), vec![10, 20, 120]);
    let listed: Vec<u32> = doc.data.keys().copied().collect();
    assert_eq!(doc.ticks(), listed);
}

#[test]
fn document_without_notes_has_no_ticks() {
    let doc = convert(&vec![vec![raw_tempo(5, 1)]], 96, String::new(), &Settings::standard());
    assert!(doc.ticks().is_empty());
}

#[test]
fn file_without_resolution_is_not_converted() {
    let track = vec![raw_note(0, 0, 60, 100)];
    assert_eq!(try_convert(&vec![track], 0, String::from("x"), &Settings::standard()), None);
    assert_eq!(try_convert(&Vec::new(), 0, String::new(), &Settings::standard()), None);
}

#[test]
fn file_with_resolution_is_converted() {
    let tracks = vec![vec![raw_tempo(0, 500_000), raw_note(48, 0, 64, 100)]];
    let made = try_convert(&tracks, 96, String::from("x"), &Settings::standard());
    assert_eq!(made, Some(convert(&tracks, 96, String::from("x"), &Settings::standard())));
    assert_eq!(made.map(|doc| doc.maxtick), Some(5));
    let finest = try_convert(&tracks, 1, String::new(), &Settings::standard());
    assert_eq!(finest.map(|doc| doc.maxtick), Some(480));
}
