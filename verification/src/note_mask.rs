//! Note masks of the binary song format: which note kinds a mask's flags stand
//! for, in the order the two note models list them.
use vstd::prelude::*;
use crate::gd_models::NoteType;
use crate::parser_models::NoteType as ParsedNoteType;

verus! {

/// The note-mask flags of the binary song format that map to a note kind.
#[derive(Debug, Clone, Copy, PartialEq, Eq, Structural)]
pub enum SngMaskFlag {
    Chord,
    Open,
    FretHandMute,
    Tremolo,
    Harmonic,
    PalmMute,
    Slap,
    Pluck,
    HammerOn,
    PullOff,
    Slide,
    Bend,
    Sustain,
    Tap,
    PinchHarmonic,
    Vibrato,
    Mute,
    Ignore,
    LeftHand,
    RightHand,
    HighDensity,
    UnpitchedSlide,
    Single,
    ChordNotes,
    DoubleStop,
    Accent,
    Parent,
    Child,
    Arpeggio,
}

/// Flags with the player's note kinds, in the order the player lists them.
pub open spec fn player_mask_order() -> Seq<(SngMaskFlag, NoteType)> {
    seq![
        (SngMaskFlag::Chord, NoteType::Chord),
        (SngMaskFlag::Open, NoteType::Open),
        (SngMaskFlag::FretHandMute, NoteType::FretHandMute),
        (SngMaskFlag::Tremolo, NoteType::Tremolo),
        (SngMaskFlag::Harmonic, NoteType::Harmonic),
        (SngMaskFlag::PalmMute, NoteType::PalmMute),
        (SngMaskFlag::Slap, NoteType::Slap),
        (SngMaskFlag::Pluck, NoteType::Pluck),
        (SngMaskFlag::PullOff, NoteType::PullOff),
        (SngMaskFlag::HammerOn, NoteType::HammerOn),
        (SngMaskFlag::Slide, NoteType::Slide),
        (SngMaskFlag::Bend, NoteType::Bend),
        (SngMaskFlag::Sustain, NoteType::Sustain),
        (SngMaskFlag::Tap, NoteType::Tap),
        (SngMaskFlag::PinchHarmonic, NoteType::PinchHarmonic),
        (SngMaskFlag::Vibrato, NoteType::Vibrato),
        (SngMaskFlag::Mute, NoteType::Mute),
        (SngMaskFlag::Ignore, NoteType::Ignore),
        (SngMaskFlag::LeftHand, NoteType::LeftHand),
        (SngMaskFlag::RightHand, NoteType::RightHand),
        (SngMaskFlag::HighDensity, NoteType::HighDensity),
        (SngMaskFlag::UnpitchedSlide, NoteType::SlideUnpitchedTo),
        (SngMaskFlag::Single, NoteType::Single),
        (SngMaskFlag::ChordNotes, NoteType::ChordNotes),
        (SngMaskFlag::DoubleStop, NoteType::DoubleStop),
        (SngMaskFlag::Accent, NoteType::Accent),
        (SngMaskFlag::Parent, NoteType::Parent),
        (SngMaskFlag::Child, NoteType::Child),
        (SngMaskFlag::Arpeggio, NoteType::Arpeggio),
    ]
}

/// Flags with the stored model's note kinds, in the order it lists them.
pub open spec fn model_mask_order() -> Seq<(SngMaskFlag, ParsedNoteType)> {
    seq![
        (SngMaskFlag::Chord, ParsedNoteType::CHORD),
        (SngMaskFlag::Open, ParsedNoteType::OPEN),
        (SngMaskFlag::FretHandMute, ParsedNoteType::FRETHANDMUTE),
        (SngMaskFlag::Tremolo, ParsedNoteType::TREMOLO),
        (SngMaskFlag::Harmonic, ParsedNoteType::HARMONIC),
        (SngMaskFlag::PalmMute, ParsedNoteType::PALMMUTE),
        (SngMaskFlag::Slap, ParsedNoteType::SLAP),
        (SngMaskFlag::Pluck, ParsedNoteType::PLUCK),
        (SngMaskFlag::HammerOn, ParsedNoteType::HAMMERON),
        (SngMaskFlag::PullOff, ParsedNoteType::PULLOFF),
        (SngMaskFlag::Slide, ParsedNoteType::SLIDE),
        (SngMaskFlag::Bend, ParsedNoteType::BEND),
        (SngMaskFlag::Sustain, ParsedNoteType::SUSTAIN),
        (SngMaskFlag::Tap, ParsedNoteType::TAP),
        (SngMaskFlag::PinchHarmonic, ParsedNoteType::PINCHHARMONIC),
        (SngMaskFlag::Vibrato, ParsedNoteType::VIBRATO),
        (SngMaskFlag::Mute, ParsedNoteType::MUTE),
        (SngMaskFlag::Ignore, ParsedNoteType::IGNORE),
        (SngMaskFlag::LeftHand, ParsedNoteType::LEFTHAND),
        (SngMaskFlag::RightHand, ParsedNoteType::RIGHTHAND),
        (SngMaskFlag::HighDensity, ParsedNoteType::HIGHDENSITY),
        (SngMaskFlag::UnpitchedSlide, ParsedNoteType::SLIDEUNPITCHEDTO),
        (SngMaskFlag::Single, ParsedNoteType::SINGLE),
        (SngMaskFlag::ChordNotes, ParsedNoteType::CHORDNOTES),
        (SngMaskFlag::DoubleStop, ParsedNoteType::DOUBLESTOP),
        (SngMaskFlag::Accent, ParsedNoteType::ACCENT),
        (SngMaskFlag::Parent, ParsedNoteType::PARENT),
        (SngMaskFlag::Child, ParsedNoteType::CHILD),
        (SngMaskFlag::Arpeggio, ParsedNoteType::ARPEGGIO),
    ]
}

/// The kinds, in table order, whose flags are in `present`.
pub open spec fn kinds_present<K>(table: Seq<(SngMaskFlag, K)>, present: Seq<SngMaskFlag>) -> Seq<K>
    decreases table.len(),
{
    if table.len() == 0 {
        Seq::empty()
    } else {
        let prev = kinds_present(table.drop_last(), present);
        if present.contains(table.last().0) {
            prev.push(table.last().1)
        } else {
            prev
        }
    }
}

fn has_flag(present: &[SngMaskFlag], f: SngMaskFlag) -> (r: bool)
    ensures
        r == present@.contains(f),
{
    let n = present.len();
    for i in 0..n
        invariant
            n == present@.len(),
            forall|j: int| 0 <= j < i ==> present@[j] != f,
    {
        if present[i] == f {
            assert(present@[i as int] == f);
            return true;
        }
    }
    false
}

fn player_entry(k: usize) -> (r: (SngMaskFlag, NoteType))
    requires
        k < 29,
    ensures
        r == player_mask_order()[k as int],
{
    match k {
        0 => (SngMaskFlag::Chord, NoteType::Chord),
        1 => (SngMaskFlag::Open, NoteType::Open),
        2 => (SngMaskFlag::FretHandMute, NoteType::FretHandMute),
        3 => (SngMaskFlag::Tremolo, NoteType::Tremolo),
        4 => (SngMaskFlag::Harmonic, NoteType::Harmonic),
        5 => (SngMaskFlag::PalmMute, NoteType::PalmMute),
        6 => (SngMaskFlag::Slap, NoteType::Slap),
        7 => (SngMaskFlag::Pluck, NoteType::Pluck),
        8 => (SngMaskFlag::PullOff, NoteType::PullOff),
        9 => (SngMaskFlag::HammerOn, NoteType::HammerOn),
        10 => (SngMaskFlag::Slide, NoteType::Slide),
        11 => (SngMaskFlag::Bend, NoteType::Bend),
        12 => (SngMaskFlag::Sustain, NoteType::Sustain),
        13 => (SngMaskFlag::Tap, NoteType::Tap),
        14 => (SngMaskFlag::PinchHarmonic, NoteType::PinchHarmonic),
        15 => (SngMaskFlag::Vibrato, NoteType::Vibrato),
        16 => (SngMaskFlag::Mute, NoteType::Mute),
        17 => (SngMaskFlag::Ignore, NoteType::Ignore),
        18 => (SngMaskFlag::LeftHand, NoteType::LeftHand),
        19 => (SngMaskFlag::RightHand, NoteType::RightHand),
        20 => (SngMaskFlag::HighDensity, NoteType::HighDensity),
        21 => (SngMaskFlag::UnpitchedSlide, NoteType::SlideUnpitchedTo),
        22 => (SngMaskFlag::Single, NoteType::Single),
        23 => (SngMaskFlag::ChordNotes, NoteType::ChordNotes),
        24 => (SngMaskFlag::DoubleStop, NoteType::DoubleStop),
        25 => (SngMaskFlag::Accent, NoteType::Accent),
        26 => (SngMaskFlag::Parent, NoteType::Parent),
        27 => (SngMaskFlag::Child, NoteType::Child),
        _ => (SngMaskFlag::Arpeggio, NoteType::Arpeggio),
    }
}

fn model_entry(k: usize) -> (r: (SngMaskFlag, ParsedNoteType))
    requires
        k < 29,
    ensures
        r == model_mask_order()[k as int],
{
    match k {
        0 => (SngMaskFlag::Chord, ParsedNoteType::CHORD),
        1 => (SngMaskFlag::Open, ParsedNoteType::OPEN),
        2 => (SngMaskFlag::FretHandMute, ParsedNoteType::FRETHANDMUTE),
        3 => (SngMaskFlag::Tremolo, ParsedNoteType::TREMOLO),
        4 => (SngMaskFlag::Harmonic, ParsedNoteType::HARMONIC),
        5 => (SngMaskFlag::PalmMute, ParsedNoteType::PALMMUTE),
        6 => (SngMaskFlag::Slap, ParsedNoteType::SLAP),
        7 => (SngMaskFlag::Pluck, ParsedNoteType::PLUCK),
        8 => (SngMaskFlag::HammerOn, ParsedNoteType::HAMMERON),
        9 => (SngMaskFlag::PullOff, ParsedNoteType::PULLOFF),
        10 => (SngMaskFlag::Slide, ParsedNoteType::SLIDE),
        11 => (SngMaskFlag::Bend, ParsedNoteType::BEND),
        12 => (SngMaskFlag::Sustain, ParsedNoteType::SUSTAIN),
        13 => (SngMaskFlag::Tap, ParsedNoteType::TAP),
        14 => (SngMaskFlag::PinchHarmonic, ParsedNoteType::PINCHHARMONIC),
        15 => (SngMaskFlag::Vibrato, ParsedNoteType::VIBRATO),
        16 => (SngMaskFlag::Mute, ParsedNoteType::MUTE),
        17 => (SngMaskFlag::Ignore, ParsedNoteType::IGNORE),
        18 => (SngMaskFlag::LeftHand, ParsedNoteType::LEFTHAND),
        19 => (SngMaskFlag::RightHand, ParsedNoteType::RIGHTHAND),
        20 => (SngMaskFlag::HighDensity, ParsedNoteType::HIGHDENSITY),
        21 => (SngMaskFlag::UnpitchedSlide, ParsedNoteType::SLIDEUNPITCHEDTO),
        22 => (SngMaskFlag::Single, ParsedNoteType::SINGLE),
        23 => (SngMaskFlag::ChordNotes, ParsedNoteType::CHORDNOTES),
        24 => (SngMaskFlag::DoubleStop, ParsedNoteType::DOUBLESTOP),
        25 => (SngMaskFlag::Accent, ParsedNoteType::ACCENT),
        26 => (SngMaskFlag::Parent, ParsedNoteType::PARENT),
        27 => (SngMaskFlag::Child, ParsedNoteType::CHILD),
        _ => (SngMaskFlag::Arpeggio, ParsedNoteType::ARPEGGIO),
    }
}

/// The player's note kinds for a mask with flags `present`.
pub fn convert_note_mask(present: &[SngMaskFlag]) -> (r: Vec<NoteType>)
    ensures
        r@ == kinds_present(player_mask_order(), present@),
{
    let ghost table = player_mask_order();
    let mut out: Vec<NoteType> = Vec::new();
    for k in 0..29
        invariant
            table == player_mask_order(),
            table.len() == 29,
            out@ == kinds_present(table.take(k as int), present@),
    {
        let (f, t) = player_entry(k);
        assert(table.take(k + 1).drop_last() == table.take(k as int));
        assert(table.take(k + 1).last() == (f, t));
        if has_flag(present, f) {
            out.push(t);
        }
    }
    assert(table.take(29) == table);
    out
}

/// The stored model's note kinds for a mask with flags `present`.
pub fn convert_to_model(present: &[SngMaskFlag]) -> (r: Vec<ParsedNoteType>)
    ensures
        r@ == kinds_present(model_mask_order(), present@),
{
    let ghost table = model_mask_order();
    let mut out: Vec<ParsedNoteType> = Vec::new();
    for k in 0..29
        invariant
            table == model_mask_order(),
            table.len() == 29,
            out@ == kinds_present(table.take(k as int), present@),
    {
        let (f, t) = model_entry(k);
        assert(table.take(k + 1).drop_last() == table.take(k as int));
        assert(table.take(k + 1).last() == (f, t));
        if has_flag(present, f) {
            out.push(t);
        }
    }
    assert(table.take(29) == table);
    out
}


// ---------------------------------------------------------------------------
// What the two conversions keep
// ---------------------------------------------------------------------------

/// Position of a flag in the declaration order of `SngMaskFlag`.
pub open spec fn flag_rank(f: SngMaskFlag) -> int {
    match f {
        SngMaskFlag::Chord => 0,
        SngMaskFlag::Open => 1,
        SngMaskFlag::FretHandMute => 2,
        SngMaskFlag::Tremolo => 3,
        SngMaskFlag::Harmonic => 4,
        SngMaskFlag::PalmMute => 5,
        SngMaskFlag::Slap => 6,
        SngMaskFlag::Pluck => 7,
        SngMaskFlag::HammerOn => 8,
        SngMaskFlag::PullOff => 9,
        SngMaskFlag::Slide => 10,
        SngMaskFlag::Bend => 11,
        SngMaskFlag::Sustain => 12,
        SngMaskFlag::Tap => 13,
        SngMaskFlag::PinchHarmonic => 14,
        SngMaskFlag::Vibrato => 15,
        SngMaskFlag::Mute => 16,
        SngMaskFlag::Ignore => 17,
        SngMaskFlag::LeftHand => 18,
        SngMaskFlag::RightHand => 19,
        SngMaskFlag::HighDensity => 20,
        SngMaskFlag::UnpitchedSlide => 21,
        SngMaskFlag::Single => 22,
        SngMaskFlag::ChordNotes => 23,
        SngMaskFlag::DoubleStop => 24,
        SngMaskFlag::Accent => 25,
        SngMaskFlag::Parent => 26,
        SngMaskFlag::Child => 27,
        SngMaskFlag::Arpeggio => 28,
    }
}

/// The flag at position `k` of the declaration order of `SngMaskFlag`.
pub open spec fn flag_at(k: int) -> SngMaskFlag {
    if k <= 0 {
        SngMaskFlag::Chord
    } else if k == 1 {
        SngMaskFlag::Open
    } else if k == 2 {
        SngMaskFlag::FretHandMute
    } else if k == 3 {
        SngMaskFlag::Tremolo
    } else if k == 4 {
        SngMaskFlag::Harmonic
    } else if k == 5 {
        SngMaskFlag::PalmMute
    } else if k == 6 {
        SngMaskFlag::Slap
    } else if k == 7 {
        SngMaskFlag::Pluck
    } else if k == 8 {
        SngMaskFlag::HammerOn
    } else if k == 9 {
        SngMaskFlag::PullOff
    } else if k == 10 {
        SngMaskFlag::Slide
    } else if k == 11 {
        SngMaskFlag::Bend
    } else if k == 12 {
        SngMaskFlag::Sustain
    } else if k == 13 {
        SngMaskFlag::Tap
    } else if k == 14 {
        SngMaskFlag::PinchHarmonic
    } else if k == 15 {
        SngMaskFlag::Vibrato
    } else if k == 16 {
        SngMaskFlag::Mute
    } else if k == 17 {
        SngMaskFlag::Ignore
    } else if k == 18 {
        SngMaskFlag::LeftHand
    } else if k == 19 {
        SngMaskFlag::RightHand
    } else if k == 20 {
        SngMaskFlag::HighDensity
    } else if k == 21 {
        SngMaskFlag::UnpitchedSlide
    } else if k == 22 {
        SngMaskFlag::Single
    } else if k == 23 {
        SngMaskFlag::ChordNotes
    } else if k == 24 {
        SngMaskFlag::DoubleStop
    } else if k == 25 {
        SngMaskFlag::Accent
    } else if k == 26 {
        SngMaskFlag::Parent
    } else if k == 27 {
        SngMaskFlag::Child
    } else {
        SngMaskFlag::Arpeggio
    }
}

/// Position of a kind in the declaration order of the player's `NoteType`.
pub open spec fn player_kind_rank(t: NoteType) -> int {
    match t {
        NoteType::Undefined => 0,
        NoteType::Missing => 1,
        NoteType::Chord => 2,
        NoteType::Open => 3,
        NoteType::FretHandMute => 4,
        NoteType::Tremolo => 5,
        NoteType::Harmonic => 6,
        NoteType::PalmMute => 7,
        NoteType::Slap => 8,
        NoteType::Pluck => 9,
        NoteType::Pop => 10,
        NoteType::HammerOn => 11,
        NoteType::PullOff => 12,
        NoteType::Slide => 13,
        NoteType::Bend => 14,
        NoteType::Sustain => 15,
        NoteType::Tap => 16,
        NoteType::PinchHarmonic => 17,
        NoteType::Vibrato => 18,
        NoteType::Mute => 19,
        NoteType::Ignore => 20,
        NoteType::LeftHand => 21,
        NoteType::RightHand => 22,
        NoteType::HighDensity => 23,
        NoteType::SlideUnpitchedTo => 24,
        NoteType::Single => 25,
        NoteType::ChordNotes => 26,
        NoteType::DoubleStop => 27,
        NoteType::Accent => 28,
        NoteType::Parent => 29,
        NoteType::Child => 30,
        NoteType::Arpeggio => 31,
        NoteType::Missing2 => 32,
        NoteType::Strum => 33,
    }
}

/// Position of a kind in the declaration order of the stored model's
/// `NoteType`.
pub open spec fn model_kind_rank(t: ParsedNoteType) -> int {
    match t {
        ParsedNoteType::UNDEFINED => 0,
        ParsedNoteType::MISSING => 1,
        ParsedNoteType::CHORD => 2,
        ParsedNoteType::OPEN => 3,
        ParsedNoteType::FRETHANDMUTE => 4,
        ParsedNoteType::TREMOLO => 5,
        ParsedNoteType::HARMONIC => 6,
        ParsedNoteType::PALMMUTE => 7,
        ParsedNoteType::SLAP => 8,
        ParsedNoteType::PLUCK => 9,
        ParsedNoteType::POP => 10,
        ParsedNoteType::HAMMERON => 11,
        ParsedNoteType::PULLOFF => 12,
        ParsedNoteType::SLIDE => 13,
        ParsedNoteType::BEND => 14,
        ParsedNoteType::SUSTAIN => 15,
        ParsedNoteType::TAP => 16,
        ParsedNoteType::PINCHHARMONIC => 17,
        ParsedNoteType::VIBRATO => 18,
        ParsedNoteType::MUTE => 19,
        ParsedNoteType::IGNORE => 20,
        ParsedNoteType::LEFTHAND => 21,
        ParsedNoteType::RIGHTHAND => 22,
        ParsedNoteType::HIGHDENSITY => 23,
        ParsedNoteType::SLIDEUNPITCHEDTO => 24,
        ParsedNoteType::SINGLE => 25,
        ParsedNoteType::CHORDNOTES => 26,
        ParsedNoteType::DOUBLESTOP => 27,
        ParsedNoteType::ACCENT => 28,
        ParsedNoteType::PARENT => 29,
        ParsedNoteType::CHILD => 30,
        ParsedNoteType::ARPEGGIO => 31,
        ParsedNoteType::MISSING2 => 32,
        ParsedNoteType::STRUM => 33,
    }
}

/// The flags that a table lists.
pub open spec fn table_flags<K>(table: Seq<(SngMaskFlag, K)>) -> Set<SngMaskFlag> {
    Set::new(|f: SngMaskFlag| exists|k: int| 0 <= k < table.len() && #[trigger] table[k].0 == f)
}

proof fn lemma_kinds_member<K>(table: Seq<(SngMaskFlag, K)>, present: Seq<SngMaskFlag>, t: K)
    ensures
        kinds_present(table, present).contains(t) <==> exists|k: int|
            0 <= k < table.len() && present.contains(table[k].0) && #[trigger] table[k].1 == t,
    decreases table.len(),
{
    if table.len() > 0 {
        let prev_table = table.drop_last();
        lemma_kinds_member(prev_table, present, t);
        let r = kinds_present(table, present);
        if r.contains(t) {
            let prev = kinds_present(prev_table, present);
            if !prev.contains(t) {
                assert(present.contains(table.last().0) && table.last().1 == t) by {
                    if !present.contains(table.last().0) {
                        assert(r == prev);
                    } else {
                        let i = choose|i: int| 0 <= i < r.len() && r[i] == t;
                        if i < prev.len() {
                            assert(prev[i] == r[i]);
                        }
                    }
                }
                assert(table[table.len() - 1].1 == t);
            } else {
                let k = choose|k: int|
                    0 <= k < prev_table.len() && present.contains(prev_table[k].0) && #[trigger] prev_table[k].1
                        == t;
                assert(table[k] == prev_table[k]);
            }
        } else {
            assert forall|k: int| 0 <= k < table.len() && present.contains(table[k].0) implies #[trigger] table[k].1
                != t by {
                if k < table.len() - 1 {
                    assert(table[k] == prev_table[k]);
                    if prev_table[k].1 == t {
                        let prev = kinds_present(prev_table, present);
                        assert(prev.contains(t));
                        let i = choose|i: int| 0 <= i < prev.len() && prev[i] == t;
                        assert(r[i] == prev[i]);
                    }
                } else {
                    let prev = kinds_present(prev_table, present);
                    assert(r[prev.len() as int] == table.last().1);
                }
            }
        }
    }
}

proof fn lemma_kinds_ranked<K>(table: Seq<(SngMaskFlag, K)>, present: Seq<SngMaskFlag>, rank: spec_fn(K) -> int)
    requires
        forall|i: int, j: int| 0 <= i < j < table.len() ==> rank(#[trigger] table[i].1) < rank(#[trigger] table[j].1),
    ensures
        forall|i: int, j: int|
            0 <= i < j < kinds_present(table, present).len() ==> rank(
                #[trigger] kinds_present(table, present)[i],
            ) < rank(#[trigger] kinds_present(table, present)[j]),
    decreases table.len(),
{
    if table.len() > 0 {
        let prev_table = table.drop_last();
        assert forall|i: int, j: int| 0 <= i < j < prev_table.len() implies rank(#[trigger] prev_table[i].1) < rank(
            #[trigger] prev_table[j].1,
        ) by {
            assert(prev_table[i] == table[i] && prev_table[j] == table[j]);
        }
        lemma_kinds_ranked(prev_table, present, rank);
        let prev = kinds_present(prev_table, present);
        let r = kinds_present(table, present);
        if present.contains(table.last().0) {
            assert forall|i: int, j: int| 0 <= i < j < r.len() implies rank(#[trigger] r[i]) < rank(#[trigger] r[j]) by {
                if j == r.len() - 1 {
                    lemma_kinds_member(prev_table, present, r[i]);
                    assert(prev.contains(r[i])) by {
                        assert(prev[i] == r[i]);
                    }
                    let k = choose|k: int|
                        0 <= k < prev_table.len() && present.contains(prev_table[k].0) && #[trigger] prev_table[k].1
                            == r[i];
                    assert(prev_table[k] == table[k]);
                    assert(rank(table[k].1) < rank(table[table.len() - 1].1));
                } else {
                    assert(r[i] == prev[i] && r[j] == prev[j]);
                }
            }
        }
    }
}

proof fn lemma_kinds_distinct<K>(table: Seq<(SngMaskFlag, K)>, present: Seq<SngMaskFlag>)
    requires
        forall|i: int, j: int| 0 <= i < j < table.len() ==> #[trigger] table[i].1 != #[trigger] table[j].1,
    ensures
        forall|i: int, j: int|
            0 <= i < j < kinds_present(table, present).len() ==> #[trigger] kinds_present(table, present)[i]
                != #[trigger] kinds_present(table, present)[j],
    decreases table.len(),
{
    if table.len() > 0 {
        let prev_table = table.drop_last();
        assert forall|i: int, j: int| 0 <= i < j < prev_table.len() implies #[trigger] prev_table[i].1
            != #[trigger] prev_table[j].1 by {
            assert(prev_table[i] == table[i] && prev_table[j] == table[j]);
        }
        lemma_kinds_distinct(prev_table, present);
        let prev = kinds_present(prev_table, present);
        let r = kinds_present(table, present);
        if present.contains(table.last().0) {
            assert forall|i: int, j: int| 0 <= i < j < r.len() implies #[trigger] r[i] != #[trigger] r[j] by {
                if j == r.len() - 1 {
                    lemma_kinds_member(prev_table, present, r[i]);
                    assert(prev.contains(r[i])) by {
                        assert(prev[i] == r[i]);
                    }
                    let k = choose|k: int|
                        0 <= k < prev_table.len() && present.contains(prev_table[k].0) && #[trigger] prev_table[k].1
                            == r[i];
                    assert(prev_table[k] == table[k]);
                    assert(table[k].1 != table[table.len() - 1].1);
                } else {
                    assert(r[i] == prev[i] && r[j] == prev[j]);
                }
            }
        }
    }
}

proof fn lemma_kinds_count<K>(table: Seq<(SngMaskFlag, K)>, present: Seq<SngMaskFlag>)
    requires
        forall|i: int, j: int| 0 <= i < j < table.len() ==> #[trigger] table[i].0 != #[trigger] table[j].0,
    ensures
        kinds_present(table, present).len() == present.to_set().intersect(table_flags(table)).len(),
        present.to_set().intersect(table_flags(table)).finite(),
    decreases table.len(),
{
    vstd::seq_lib::seq_to_set_is_finite(present);
    let ps = present.to_set();
    if table.len() == 0 {
        assert(ps.intersect(table_flags(table)) =~= Set::empty());
    } else {
        let prev_table = table.drop_last();
        assert forall|i: int, j: int| 0 <= i < j < prev_table.len() implies #[trigger] prev_table[i].0
            != #[trigger] prev_table[j].0 by {
            assert(prev_table[i] == table[i] && prev_table[j] == table[j]);
        }
        lemma_kinds_count(prev_table, present);
        let f = table.last().0;
        let before = ps.intersect(table_flags(prev_table));
        assert(!table_flags(prev_table).contains(f)) by {
            if table_flags(prev_table).contains(f) {
                let k = choose|k: int| 0 <= k < prev_table.len() && #[trigger] prev_table[k].0 == f;
                assert(table[k].0 == table[table.len() - 1].0);
            }
        }
        assert(table_flags(table) =~= table_flags(prev_table).insert(f)) by {
            assert forall|g: SngMaskFlag| table_flags(table).contains(g) implies table_flags(prev_table).insert(
                f,
            ).contains(g) by {
                let k = choose|k: int| 0 <= k < table.len() && #[trigger] table[k].0 == g;
                if k < table.len() - 1 {
                    assert(prev_table[k] == table[k]);
                }
            }
            assert forall|g: SngMaskFlag| table_flags(prev_table).insert(f).contains(g) implies table_flags(
                table,
            ).contains(g) by {
                if g == f {
                    assert(table[table.len() - 1].0 == g);
                } else {
                    let k = choose|k: int| 0 <= k < prev_table.len() && #[trigger] prev_table[k].0 == g;
                    assert(table[k] == prev_table[k]);
                }
            }
        }
        if present.contains(f) {
            assert(ps.intersect(table_flags(table)) =~= before.insert(f));
        } else {
            assert(ps.intersect(table_flags(table)) =~= before);
        }
    }
}

proof fn model_row(k: int)
    requires
        0 <= k < 29,
    ensures
        model_kind_rank(model_mask_order()[k].1) == (if k < 8 {
            k + 2
        } else {
            k + 3
        }),
        model_mask_order()[k].0 == flag_at(k),
{
    if k == 0 {
    } else if k == 1 {
    } else if k == 2 {
    } else if k == 3 {
    } else if k == 4 {
    } else if k == 5 {
    } else if k == 6 {
    } else if k == 7 {
    } else if k == 8 {
    } else if k == 9 {
    } else if k == 10 {
    } else if k == 11 {
    } else if k == 12 {
    } else if k == 13 {
    } else if k == 14 {
    } else if k == 15 {
    } else if k == 16 {
    } else if k == 17 {
    } else if k == 18 {
    } else if k == 19 {
    } else if k == 20 {
    } else if k == 21 {
    } else if k == 22 {
    } else if k == 23 {
    } else if k == 24 {
    } else if k == 25 {
    } else if k == 26 {
    } else if k == 27 {
    } else {
    }
}

/// The declaration position of the kind in row `k` of the player's table.
pub open spec fn player_row_rank(k: int) -> int {
    if k < 8 {
        k + 2
    } else if k == 8 {
        12
    } else if k == 9 {
        11
    } else {
        k + 3
    }
}

/// The declaration position of the flag in row `k` of the player's table.
pub open spec fn player_row_flag(k: int) -> int {
    if k == 8 {
        9
    } else if k == 9 {
        8
    } else {
        k
    }
}

proof fn player_row(k: int)
    requires
        0 <= k < 29,
    ensures
        player_kind_rank(player_mask_order()[k].1) == player_row_rank(k),
        player_mask_order()[k].0 == flag_at(player_row_flag(k)),
{
    if k == 0 {
    } else if k == 1 {
    } else if k == 2 {
    } else if k == 3 {
    } else if k == 4 {
    } else if k == 5 {
    } else if k == 6 {
    } else if k == 7 {
    } else if k == 8 {
    } else if k == 9 {
    } else if k == 10 {
    } else if k == 11 {
    } else if k == 12 {
    } else if k == 13 {
    } else if k == 14 {
    } else if k == 15 {
    } else if k == 16 {
    } else if k == 17 {
    } else if k == 18 {
    } else if k == 19 {
    } else if k == 20 {
    } else if k == 21 {
    } else if k == 22 {
    } else if k == 23 {
    } else if k == 24 {
    } else if k == 25 {
    } else if k == 26 {
    } else if k == 27 {
    } else {
    }
}

proof fn lemma_flag_positions(f: SngMaskFlag, k: int)
    ensures
        0 <= flag_rank(f) < 29,
        flag_at(flag_rank(f)) == f,
        0 <= k < 29 ==> flag_rank(flag_at(k)) == k,
{
}

proof fn lemma_table_covers_flags<K>(table: Seq<(SngMaskFlag, K)>, present: Seq<SngMaskFlag>, pos: spec_fn(int) -> int)
    requires
        table.len() == 29,
        forall|k: int| 0 <= k < 29 ==> 0 <= #[trigger] pos(k) < 29,
        forall|k: int| 0 <= k < 29 ==> #[trigger] table[k].0 == flag_at(pos(k)),
        forall|k: int| 0 <= k < 29 ==> pos(#[trigger] pos(k)) == k,
    ensures
        kinds_present(table, present).len() == present.to_set().len(),
{
    assert forall|i: int, j: int| 0 <= i < j < table.len() implies #[trigger] table[i].0 != #[trigger] table[j].0 by {
        lemma_flag_positions(table[i].0, pos(i));
        lemma_flag_positions(table[j].0, pos(j));
        assert(pos(pos(i)) == i && pos(pos(j)) == j);
    }
    lemma_kinds_count(table, present);
    assert(present.to_set().intersect(table_flags(table)) =~= present.to_set()) by {
        assert forall|f: SngMaskFlag| present.to_set().contains(f) implies table_flags(table).contains(f) by {
            lemma_flag_positions(f, 0);
            let k = pos(flag_rank(f));
            assert(pos(k) == flag_rank(f));
            assert(table[k].0 == f);
        }
    }
}

/// The stored model's kinds for a mask with flags `present`: a kind is there
/// exactly when the mask has the flag the table pairs it with; the kinds come
/// in declaration order, so each comes once; and there is one kind for each
/// distinct flag of the mask.
pub proof fn model_kinds_follow_flags(present: Seq<SngMaskFlag>)
    ensures
        forall|t: ParsedNoteType|
            kinds_present(model_mask_order(), present).contains(t) <==> exists|f: SngMaskFlag|
                present.contains(f) && #[trigger] model_mask_order().contains((f, t)),
        forall|i: int, j: int|
            0 <= i < j < kinds_present(model_mask_order(), present).len() ==> model_kind_rank(
                #[trigger] kinds_present(model_mask_order(), present)[i],
            ) < model_kind_rank(#[trigger] kinds_present(model_mask_order(), present)[j]),
        kinds_present(model_mask_order(), present).len() == present.to_set().len(),
{
    let table = model_mask_order();
    let r = kinds_present(table, present);
    assert forall|t: ParsedNoteType| r.contains(t) <==> exists|f: SngMaskFlag|
        present.contains(f) && #[trigger] table.contains((f, t)) by {
        lemma_kinds_member(table, present, t);
        if r.contains(t) {
            let k = choose|k: int| 0 <= k < table.len() && present.contains(table[k].0) && #[trigger] table[k].1 == t;
            assert(table[k] == (table[k].0, t));
            assert(table.contains((table[k].0, t)));
        }
        if exists|f: SngMaskFlag| present.contains(f) && #[trigger] table.contains((f, t)) {
            let f = choose|f: SngMaskFlag| present.contains(f) && #[trigger] table.contains((f, t));
            let k = choose|k: int| 0 <= k < table.len() && table[k] == (f, t);
            assert(present.contains(table[k].0) && table[k].1 == t);
        }
    }
    let rank = |t: ParsedNoteType| model_kind_rank(t);
    assert forall|i: int, j: int| 0 <= i < j < table.len() implies rank(#[trigger] table[i].1) < rank(
        #[trigger] table[j].1,
    ) by {
        model_row(i);
        model_row(j);
    }
    lemma_kinds_ranked(table, present, rank);
    assert forall|i: int, j: int| 0 <= i < j < r.len() implies model_kind_rank(#[trigger] r[i]) < model_kind_rank(
        #[trigger] r[j],
    ) by {
        assert(rank(r[i]) < rank(r[j]));
    }
    let pos = |k: int| k;
    assert forall|k: int| 0 <= k < 29 implies #[trigger] table[k].0 == flag_at(pos(k)) by {
        model_row(k);
    }
    lemma_table_covers_flags(table, present, pos);
}

/// The player's kinds for a mask with flags `present`: a kind is there exactly
/// when the mask has the flag the table pairs it with; no kind comes twice;
/// the kinds that no flag stands for never come; and there is one kind for
/// each distinct flag of the mask.
pub proof fn player_kinds_follow_flags(present: Seq<SngMaskFlag>)
    ensures
        forall|t: NoteType|
            kinds_present(player_mask_order(), present).contains(t) <==> exists|f: SngMaskFlag|
                present.contains(f) && #[trigger] player_mask_order().contains((f, t)),
        forall|i: int, j: int|
            0 <= i < j < kinds_present(player_mask_order(), present).len() ==> #[trigger] kinds_present(
                player_mask_order(),
                present,
            )[i] != #[trigger] kinds_present(player_mask_order(), present)[j],
        !kinds_present(player_mask_order(), present).contains(NoteType::Undefined),
        !kinds_present(player_mask_order(), present).contains(NoteType::Missing),
        !kinds_present(player_mask_order(), present).contains(NoteType::Pop),
        !kinds_present(player_mask_order(), present).contains(NoteType::Missing2),
        !kinds_present(player_mask_order(), present).contains(NoteType::Strum),
        kinds_present(player_mask_order(), present).len() == present.to_set().len(),
{
    let table = player_mask_order();
    let r = kinds_present(table, present);
    assert forall|t: NoteType| r.contains(t) <==> exists|f: SngMaskFlag|
        present.contains(f) && #[trigger] table.contains((f, t)) by {
        lemma_kinds_member(table, present, t);
        if r.contains(t) {
            let k = choose|k: int| 0 <= k < table.len() && present.contains(table[k].0) && #[trigger] table[k].1 == t;
            assert(table[k] == (table[k].0, t));
            assert(table.contains((table[k].0, t)));
        }
        if exists|f: SngMaskFlag| present.contains(f) && #[trigger] table.contains((f, t)) {
            let f = choose|f: SngMaskFlag| present.contains(f) && #[trigger] table.contains((f, t));
            let k = choose|k: int| 0 <= k < table.len() && table[k] == (f, t);
            assert(present.contains(table[k].0) && table[k].1 == t);
        }
    }
    assert forall|i: int, j: int| 0 <= i < j < table.len() implies #[trigger] table[i].1 != #[trigger] table[j].1 by {
        player_row(i);
        player_row(j);
    }
    lemma_kinds_distinct(table, present);
    assert forall|t: NoteType| #[trigger] r.contains(t) implies player_kind_rank(t) != 0 && player_kind_rank(t)
        != 1 && player_kind_rank(t) != 10 && player_kind_rank(t) < 32 by {
        lemma_kinds_member(table, present, t);
        let k = choose|k: int| 0 <= k < table.len() && present.contains(table[k].0) && #[trigger] table[k].1 == t;
        player_row(k);
    }
    assert(player_kind_rank(NoteType::Pop) == 10);
    let pos = |k: int| player_row_flag(k);
    assert forall|k: int| 0 <= k < 29 implies #[trigger] table[k].0 == flag_at(pos(k)) by {
        player_row(k);
    }
    lemma_table_covers_flags(table, present, pos);
}

} // verus!
