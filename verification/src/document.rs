//! The song document.
use vstd::prelude::*;
use std::collections::BTreeMap;
use vstd::std_specs::cmp::OrdSpec;
use vstd::std_specs::iter::IteratorSpec;
use crate::event::NoteEvent;
use crate::grid::TickGrid;

verus! {

/// A song on the tick grid.
#[derive(Clone, Debug, PartialEq, Eq)]
pub struct SongDocument {
    /// The tick at which the song ends.
    pub maxtick: u32,
    /// Reserved; always 0.
    pub pitchint: u32,
    /// The title that the user gave.
    pub title: String,
    /// The notes of each tick on which a note lands, in stream order.
    pub data: BTreeMap<u32, Vec<NoteEvent>>,
}

impl SongDocument {
    /// The notes by tick, as sequences.
    pub open spec fn notes_view(&self) -> Map<u32, Seq<NoteEvent>> {
        self.data@.map_values(|bucket: Vec<NoteEvent>| bucket@)
    }

    /// The ticks that hold notes, each once, in increasing order.
    pub fn ticks(&self) -> (ticks: Vec<u32>)
        ensures
            ticks@.to_set() == self.data@.dom(),
            forall|i: int, j: int| 0 <= i < j < ticks.len() ==> ticks[i] < ticks[j],
    {
        broadcast use vstd::std_specs::btree::group_btree_axioms;

        let ghost keys = vstd::std_specs::btree::spec_keys_iter(&self.data).remaining();
        let mut ticks: Vec<u32> = Vec::new();
        for tick in iter: self.data.keys()
            invariant
                iter.seq() == keys,
                ticks.len() == iter.index(),
                forall|k: int| 0 <= k < ticks.len() ==> ticks[k] == *keys[k],
        {
            ticks.push(*tick);
        }
        proof {
            broadcast use vstd::laws_cmp::group_laws_cmp;

            assert(ticks@ =~= keys.unref());
            assert forall|i: int, j: int| 0 <= i < j < ticks.len() implies ticks[i] < ticks[j] by {
                assert((&keys[i]).cmp_spec(&keys[j]) is Less);
            }
        }
        ticks
    }
}

/// Makes the document of a grid under a title.
pub fn assemble(title: String, grid: TickGrid) -> (doc: SongDocument)
    ensures
        doc.maxtick == grid.max_tick,
        doc.pitchint == 0,
        doc.title == title,
        doc.data == grid.notes,
        doc.notes_view() == grid.notes_view(),
{
    SongDocument { maxtick: grid.max_tick, pitchint: 0, title, data: grid.notes }
}

} // verus!
