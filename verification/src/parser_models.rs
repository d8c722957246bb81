//! The stored song model: note kinds, block flags and per-song summaries
//! that the catalog keeps.
use vstd::prelude::*;

verus! {

/// Flags of a whole note block.
#[allow(non_camel_case_types)]
#[derive(Debug, Clone, Copy, PartialEq, Eq, Structural)]
pub enum NoteBlockFlags {
    UNDEFINED,
    MUTE,
}

impl Default for NoteBlockFlags {
    fn default() -> (r: Self)
        ensures
            r == NoteBlockFlags::UNDEFINED,
    {
        NoteBlockFlags::UNDEFINED
    }
}

/// Techniques and markers a single note can carry.
#[allow(non_camel_case_types)]
#[derive(Debug, Clone, Copy, PartialEq, Eq, Structural)]
pub enum NoteType {
    UNDEFINED,
    MISSING,
    CHORD,
    OPEN,
    FRETHANDMUTE,
    TREMOLO,
    HARMONIC,
    PALMMUTE,
    SLAP,
    PLUCK,
    POP,
    HAMMERON,
    PULLOFF,
    SLIDE,
    BEND,
    SUSTAIN,
    TAP,
    PINCHHARMONIC,
    VIBRATO,
    MUTE,
    IGNORE,
    LEFTHAND,
    RIGHTHAND,
    HIGHDENSITY,
    SLIDEUNPITCHEDTO,
    SINGLE,
    CHORDNOTES,
    DOUBLESTOP,
    ACCENT,
    PARENT,
    CHILD,
    ARPEGGIO,
    MISSING2,
    STRUM,
}

impl Default for NoteType {
    fn default() -> (r: Self)
        ensures
            r == NoteType::UNDEFINED,
    {
        NoteType::UNDEFINED
    }
}

/// A slide at the end of a note.
#[derive(Debug, Clone, Copy, PartialEq, Eq, Structural)]
pub struct SingleSlide {
    pub to_fret: i32,
    pub slide_unpitched: bool,
}

impl Default for SingleSlide {
    fn default() -> (r: Self)
        ensures
            r == (SingleSlide { to_fret: 0, slide_unpitched: false }),
    {
        SingleSlide { to_fret: 0, slide_unpitched: false }
    }
}

/// How many lyric words a song has.
#[derive(Debug, Clone, Copy, PartialEq, Eq, Structural)]
pub struct SongFileLyrics {
    pub word_count: usize,
}

impl Default for SongFileLyrics {
    fn default() -> (r: Self)
        ensures
            r.word_count == 0,
    {
        SongFileLyrics { word_count: 0 }
    }
}

/// One archive brought into the song folder.
pub struct ImportEntry {
    pub source_path: String,
    pub folder_name: String,
}

/// The outcome of an import: how many archives were imported and how many
/// failed, with an entry per imported archive.
pub struct ImportReport {
    pub completed: usize,
    pub failed: usize,
    pub entries: Vec<ImportEntry>,
}

impl Default for ImportReport {
    fn default() -> (r: Self)
        ensures
            r.completed == 0,
            r.failed == 0,
            r.entries@.len() == 0,
    {
        ImportReport { completed: 0, failed: 0, entries: Vec::new() }
    }
}

} // verus!
