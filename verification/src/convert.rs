//! The whole pipeline, from tracks to document.
use vstd::prelude::*;
use crate::document::{SongDocument, assemble};
use crate::event::{RawEvent, TimedEvent, timeline, units_until};
use crate::grid::{buckets, group_by_tick, tick_of};
use crate::merge::{merge_of, merge_tracks, tracks_view};
use crate::tempo::{cancel_tempo_events, lemma_cancel_keeps_notes};
use crate::timebase::{converted, to_seconds};

verus! {

/// Grid ticks per second of the standard grid.
pub const TICKS_PER_SECOND: u32 = 20;

/// Microseconds per quarter note before the first tempo change of a stream.
pub const DEFAULT_TEMPO: u32 = 250_000;

/// What the pipeline is run with.
#[derive(Clone, Copy, Debug, PartialEq, Eq)]
pub struct Settings {
    /// Grid ticks per second.
    pub ticks_per_second: u32,
    /// Microseconds per quarter note before the first tempo change.
    pub default_tempo: u32,
}

impl Settings {
    /// The standard grid: 20 ticks per second, and 250,000 microseconds per
    /// quarter note until a tempo change says otherwise.
    pub fn standard() -> (settings: Settings)
        ensures
            settings.ticks_per_second == 20,
            settings.default_tempo == 250_000,
    {
        Settings { ticks_per_second: TICKS_PER_SECOND, default_tempo: DEFAULT_TEMPO }
    }
}

/// The tracks as one stream in real time: merged, then scaled by tempo.
pub open spec fn song_events(tracks: Seq<Seq<RawEvent>>, default_tempo: u32) -> Seq<TimedEvent> {
    converted(merge_of(tracks), default_tempo)
}

/// `doc` is the song of `tracks` under `title`: it holds the notes of every
/// note-on event by the tick on which the event lands, and ends at the tick
/// of the end of the merged stream.
pub open spec fn is_song_of(
    doc: SongDocument,
    tracks: Seq<Seq<RawEvent>>,
    ppq: u16,
    title: String,
    settings: Settings,
) -> bool {
    let events = song_events(tracks, settings.default_tempo);
    &&& doc.title == title
    &&& doc.pitchint == 0
    &&& doc.maxtick == tick_of(
        units_until(events, events.len() as int),
        ppq as nat,
        settings.ticks_per_second as nat,
    )
    &&& doc.notes_view() == buckets(timeline(events), ppq as nat, settings.ticks_per_second as nat)
}

/// Converts the tracks of a MIDI file into a song document.
///
/// The tracks are merged, their deltas become real time, the tempo events
/// are removed, and the notes are put on the grid.
pub fn convert(tracks: &Vec<Vec<RawEvent>>, ppq: u16, title: String, settings: &Settings) -> (doc:
    SongDocument)
    requires
        ppq > 0,
    ensures
        is_song_of(doc, tracks_view(tracks), ppq, title, *settings),
{
    let merged = merge_tracks(tracks);
    let timed = to_seconds(&merged, ppq, settings.default_tempo);
    let cancelled = cancel_tempo_events(&timed);
    let grid = group_by_tick(&cancelled, settings.ticks_per_second);
    proof {
        lemma_cancel_keeps_notes(
            timeline(timed.events@),
            ppq as nat,
            settings.ticks_per_second as nat,
        );
    }
    assemble(title, grid)
}

/// Converts the tracks of a MIDI file into a song document, if the file has
/// a resolution: `None` exactly if `ppq` is zero.
pub fn try_convert(
    tracks: &Vec<Vec<RawEvent>>,
    ppq: u16,
    title: String,
    settings: &Settings,
) -> (made: Option<SongDocument>)
    ensures
        made is None <==> ppq == 0,
        made matches Some(doc) ==> is_song_of(doc, tracks_view(tracks), ppq, title, *settings),
{
    if ppq == 0 {
        None
    } else {
        Some(convert(tracks, ppq, title, settings))
    }
}

} // verus!
