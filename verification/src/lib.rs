//! Normalises MIDI event streams onto a fixed-rate tick grid.
//!
//! Tracks of delta-timed events are merged into one stream ([`merge`]), their
//! deltas are turned into real time under the tempo in effect ([`timebase`]),
//! tempo events are folded away ([`tempo`]), the note-on events are grouped
//! by the grid tick on which they land ([`grid`]), and the result is made
//! into a song document ([`document`]). [`convert`] runs the whole chain.
//!
//! Real time is held exactly. A stream of resolution `ppq` pulses per quarter
//! note counts time in units of which `ppq * 1_000_000` make a second, so a
//! delta of `d` pulses at a tempo of `t` microseconds per quarter note lasts
//! `d * t` units, and no rounding happens before an instant is put on the
//! grid. There it is rounded to the nearest tick, halves away from zero.
pub mod event;
pub mod merge;
pub mod timebase;
pub mod tempo;
pub mod grid;
pub mod document;
pub mod convert;
