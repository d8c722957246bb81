//! The player's note and song model: note kinds, chord identity, tuning
//! names, instrument summaries and lyric lines.
use vstd::prelude::*;
use crate::numbers::{decimal, decimal_chars, decimal_signed, decimal_chars_signed};
use crate::ordering::views_of;
use crate::text::{chars_eq, chars_of, has_suffix, lower_chars, lower_seq, push_all, str_eq, string_of};

verus! {

/// Flags of a whole note block.
#[derive(Debug, Clone, Copy, PartialEq, Eq, Structural)]
pub enum NoteBlockFlags {
    Undefined,
    Mute,
}

/// Techniques and markers a single note can carry.
#[derive(Debug, Clone, Copy, PartialEq, Eq, Structural, Hash)]
pub enum NoteType {
    Undefined,
    Missing,
    Chord,
    Open,
    FretHandMute,
    Tremolo,
    Harmonic,
    PalmMute,
    Slap,
    Pluck,
    Pop,
    HammerOn,
    PullOff,
    Slide,
    Bend,
    Sustain,
    Tap,
    PinchHarmonic,
    Vibrato,
    Mute,
    Ignore,
    LeftHand,
    RightHand,
    HighDensity,
    SlideUnpitchedTo,
    Single,
    ChordNotes,
    DoubleStop,
    Accent,
    Parent,
    Child,
    Arpeggio,
    Missing2,
    Strum,
}

/// A slide at the end of a note.
#[derive(Debug, Clone, Copy, PartialEq, Eq, Structural)]
pub struct SingleSlide {
    pub to_fret: i32,
    pub slide_unpitched: bool,
}

/// How many lyric words a song has.
#[derive(Debug, Clone, Copy, PartialEq, Eq, Structural)]
pub struct SongFileLyrics {
    pub word_count: usize,
}

/// Kinds that do not distinguish one chord from another.
pub open spec fn is_ignored_type(t: NoteType) -> bool {
    ||| t == NoteType::Undefined
    ||| t == NoteType::Missing
    ||| t == NoteType::Chord
    ||| t == NoteType::Open
    ||| t == NoteType::Ignore
    ||| t == NoteType::HighDensity
    ||| t == NoteType::Single
    ||| t == NoteType::ChordNotes
    ||| t == NoteType::DoubleStop
    ||| t == NoteType::Missing2
    ||| t == NoteType::Strum
    ||| t == NoteType::Accent
}

impl NoteType {
    /// The kinds that chord comparison leaves out.
    pub fn ignored_types() -> (r: Vec<NoteType>)
        ensures
            r@ == seq![
                NoteType::Undefined,
                NoteType::Missing,
                NoteType::Chord,
                NoteType::Open,
                NoteType::Ignore,
                NoteType::HighDensity,
                NoteType::Single,
                NoteType::ChordNotes,
                NoteType::DoubleStop,
                NoteType::Missing2,
                NoteType::Strum,
                NoteType::Accent,
            ],
            forall|t: NoteType| r@.contains(t) <==> is_ignored_type(t),
    {
        let r = vec![
            NoteType::Undefined,
            NoteType::Missing,
            NoteType::Chord,
            NoteType::Open,
            NoteType::Ignore,
            NoteType::HighDensity,
            NoteType::Single,
            NoteType::ChordNotes,
            NoteType::DoubleStop,
            NoteType::Missing2,
            NoteType::Strum,
            NoteType::Accent,
        ];
        proof {
            assert forall|t: NoteType| r@.contains(t) <==> is_ignored_type(t) by {
                if is_ignored_type(t) {
                    if t == NoteType::Undefined { assert(r@[0] == t); }
                    else if t == NoteType::Missing { assert(r@[1] == t); }
                    else if t == NoteType::Chord { assert(r@[2] == t); }
                    else if t == NoteType::Open { assert(r@[3] == t); }
                    else if t == NoteType::Ignore { assert(r@[4] == t); }
                    else if t == NoteType::HighDensity { assert(r@[5] == t); }
                    else if t == NoteType::Single { assert(r@[6] == t); }
                    else if t == NoteType::ChordNotes { assert(r@[7] == t); }
                    else if t == NoteType::DoubleStop { assert(r@[8] == t); }
                    else if t == NoteType::Missing2 { assert(r@[9] == t); }
                    else if t == NoteType::Strum { assert(r@[10] == t); }
                    else { assert(r@[11] == t); }
                }
            }
        }
        r
    }
}

fn is_ignored(t: NoteType) -> (r: bool)
    ensures
        r == is_ignored_type(t),
{
    match t {
        NoteType::Undefined | NoteType::Missing | NoteType::Chord | NoteType::Open | NoteType::Ignore
        | NoteType::HighDensity | NoteType::Single | NoteType::ChordNotes | NoteType::DoubleStop
        | NoteType::Missing2 | NoteType::Strum | NoteType::Accent => true,
        _ => false,
    }
}

// ---------------------------------------------------------------------------
// Chord identity
// ---------------------------------------------------------------------------

/// What chord comparison reads of one note of a block.
pub struct ChordNote {
    pub string_num: i32,
    pub fret_num: i32,
    pub types: Vec<NoteType>,
    /// The note has a non-empty bend list.
    pub has_bends: bool,
    /// The note slides.
    pub has_slide: bool,
}

/// What chord comparison reads of a note block.
pub struct ChordShape {
    pub chord_flags: Vec<NoteBlockFlags>,
    pub notes: Vec<ChordNote>,
}

pub open spec fn relevant_types(ts: Seq<NoteType>) -> Seq<NoteType> {
    ts.filter(|t: NoteType| !is_ignored_type(t))
}

pub open spec fn has_extras(notes: Seq<ChordNote>) -> bool {
    exists|i: int| 0 <= i < notes.len() && (#[trigger] notes[i].has_bends || notes[i].has_slide)
}

/// Two blocks show the same chord: neither has a bending or sliding note, they
/// have the same flags and the same notes on the same strings and frets, and
/// their notes carry the same techniques once the ignored kinds are left out.
pub open spec fn same_chord_spec(a: &ChordShape, b: &ChordShape) -> bool {
    &&& !has_extras(a.notes@)
    &&& !has_extras(b.notes@)
    &&& a.notes@.len() == b.notes@.len()
    &&& a.chord_flags@ == b.chord_flags@
    &&& forall|i: int|
        0 <= i < a.notes@.len() ==> {
            &&& (#[trigger] a.notes@[i]).fret_num == b.notes@[i].fret_num
            &&& a.notes@[i].string_num == b.notes@[i].string_num
            &&& relevant_types(a.notes@[i].types@) == relevant_types(b.notes@[i].types@)
        }
}

fn relevant_types_of(ts: &Vec<NoteType>) -> (r: Vec<NoteType>)
    ensures
        r@ == relevant_types(ts@),
{
    let mut r: Vec<NoteType> = Vec::new();
    let n = ts.len();
    for i in 0..n
        invariant
            n == ts.len(),
            r@ == relevant_types(ts@.take(i as int)),
    {
        proof {
            reveal(Seq::filter);
            assert(ts@.take(i + 1).drop_last() == ts@.take(i as int));
        }
        if !is_ignored(ts[i]) {
            r.push(ts[i]);
        }
        assert(r@ =~= relevant_types(ts@.take(i + 1)));
    }
    assert(ts@.take(n as int) == ts@);
    r
}

fn types_eq(a: &Vec<NoteType>, b: &Vec<NoteType>) -> (r: bool)
    ensures
        r == (a@ == b@),
{
    if a.len() != b.len() {
        return false;
    }
    let n = a.len();
    for i in 0..n
        invariant
            n == a.len(),
            n == b.len(),
            forall|j: int| 0 <= j < i ==> a@[j] == b@[j],
    {
        if a[i] != b[i] {
            return false;
        }
    }
    assert(a@ =~= b@);
    true
}

fn flags_eq(a: &Vec<NoteBlockFlags>, b: &Vec<NoteBlockFlags>) -> (r: bool)
    ensures
        r == (a@ == b@),
{
    if a.len() != b.len() {
        return false;
    }
    let n = a.len();
    for i in 0..n
        invariant
            n == a.len(),
            n == b.len(),
            forall|j: int| 0 <= j < i ==> a@[j] == b@[j],
    {
        if a[i] != b[i] {
            return false;
        }
    }
    assert(a@ =~= b@);
    true
}

spec fn note_extra(n: ChordNote) -> bool {
    n.has_bends || n.has_slide
}

fn any_extras(notes: &Vec<ChordNote>) -> (r: bool)
    ensures
        r == has_extras(notes@),
{
    let n = notes.len();
    let mut i: usize = 0;
    while i < n
        invariant
            n == notes@.len(),
            i <= n,
            forall|j: int| 0 <= j < i ==> !note_extra(#[trigger] notes@[j]),
        decreases n - i,
    {
        let extra = notes[i].has_bends || notes[i].has_slide;
        assert(extra == note_extra(notes@[i as int]));
        if extra {
            assert(notes@[i as int].has_bends || notes@[i as int].has_slide);
            return true;
        }
        i = i + 1;
    }
    assert(!has_extras(notes@)) by {
        if has_extras(notes@) {
            let k = choose|k: int| 0 <= k < notes@.len() && (#[trigger] notes@[k].has_bends || notes@[k].has_slide);
            assert(!note_extra(notes@[k]));
        }
    }
    false
}

impl ChordShape {
    /// Whether this block shows the same chord as `other` (never, when there
    /// is no other block).
    pub fn is_same_chord_as(&self, other: Option<&ChordShape>) -> (r: bool)
        ensures
            r == match other {
                Some(o) => same_chord_spec(self, o),
                None => false,
            },
    {
        let o = match other {
            Some(o) => o,
            None => return false,
        };
        if any_extras(&self.notes) {
            return false;
        }
        if any_extras(&o.notes) {
            return false;
        }
        if self.notes.len() != o.notes.len() {
            return false;
        }
        if !flags_eq(&self.chord_flags, &o.chord_flags) {
            return false;
        }
        let n = self.notes.len();
        for i in 0..n
            invariant
                other == Some(o),
                !has_extras(self.notes@),
                !has_extras(o.notes@),
                self.chord_flags@ == o.chord_flags@,
                n == self.notes@.len(),
                n == o.notes@.len(),
                forall|j: int|
                    0 <= j < i ==> {
                        &&& (#[trigger] self.notes@[j]).fret_num == o.notes@[j].fret_num
                        &&& self.notes@[j].string_num == o.notes@[j].string_num
                        &&& relevant_types(self.notes@[j].types@) == relevant_types(
                            o.notes@[j].types@,
                        )
                    },
        {
            let left = &self.notes[i];
            let right = &o.notes[i];
            if left.fret_num != right.fret_num || left.string_num != right.string_num {
                assert(self.notes@[i as int] == *left);
                return false;
            }
            let tl = relevant_types_of(&left.types);
            let tr = relevant_types_of(&right.types);
            if !types_eq(&tl, &tr) {
                assert(self.notes@[i as int] == *left);
                return false;
            }
        }
        true
    }
}

// ---------------------------------------------------------------------------
// Tuning names
// ---------------------------------------------------------------------------

pub open spec fn note_names() -> Seq<Seq<char>> {
    seq!["E"@, "F"@, "Gb"@, "G"@, "Ab"@, "A"@, "Bb"@, "B"@, "C"@, "Db"@, "D"@, "Eb"@]
}

/// Semitones of each open string above E, from the lowest string.
pub open spec fn string_offsets() -> Seq<int> {
    seq![0int, 5int, 10int, 3int, 7int, 0int]
}

/// The note a string sounds when tuned `offset` semitones from standard;
/// the highest string (index 5) is written in lowercase.
pub open spec fn note_name_spec(index: int, offset: int) -> Seq<char> {
    let n = note_names()[(string_offsets()[index] + offset) % 12];
    if index == 5 {
        lower_seq(n)
    } else {
        n
    }
}

fn note_name(k: usize) -> (r: &'static str)
    requires
        k < 12,
    ensures
        r@ == note_names()[k as int],
{
    match k {
        0 => "E",
        1 => "F",
        2 => "Gb",
        3 => "G",
        4 => "Ab",
        5 => "A",
        6 => "Bb",
        7 => "B",
        8 => "C",
        9 => "Db",
        10 => "D",
        _ => "Eb",
    }
}

fn string_offset(index: usize) -> (r: i32)
    requires
        index < 6,
    ensures
        r as int == string_offsets()[index as int],
{
    match index {
        0 => 0,
        1 => 5,
        2 => 10,
        3 => 3,
        4 => 7,
        _ => 0,
    }
}

/// The note of string `index` (0 = lowest) tuned `offset` semitones away.
pub fn note_for_index_and_offset(index: usize, offset: i16) -> (r: String)
    requires
        index < 6,
    ensures
        r@ == note_name_spec(index as int, offset as int),
{
    let pos: i32 = string_offset(index) + offset as i32;
    let rem = pos % 12;
    let k = (if rem < 0 {
        rem + 12
    } else {
        rem
    }) as usize;
    assert(k as int == pos as int % 12);
    let name = chars_of(note_name(k));
    if index == 5 {
        string_of(&lower_chars(&name))
    } else {
        string_of(&name)
    }
}

/// The names of the common tunings: `[first string offset, other offsets]`.
pub open spec fn is_pattern(t: Seq<i16>, a: int, b: int) -> bool {
    &&& t.len() == 6
    &&& t[0] == a
    &&& t[1] == b
    &&& t[2] == b
    &&& t[3] == b
    &&& t[4] == b
    &&& t[5] == b
}

pub open spec fn named_tuning(t: Seq<i16>) -> Option<Seq<char>> {
    let is = |a: int, b: int| is_pattern(t, a, b);
    if is(1, 1) {
        Some("F Standard"@)
    } else if is(0, 0) {
        Some("E Standard"@)
    } else if is(-2, 0) {
        Some("Drop D"@)
    } else if is(-1, -1) {
        Some("Eb Standard"@)
    } else if is(-3, -1) {
        Some("Eb Drop Db"@)
    } else if is(-2, -2) {
        Some("D Standard"@)
    } else if is(-4, -2) {
        Some("D Drop C"@)
    } else if is(-3, -3) {
        Some("Db Standard"@)
    } else if is(-5, -3) {
        Some("Db Drop B"@)
    } else if is(-4, -4) {
        Some("C Standard"@)
    } else if is(-6, -4) {
        Some("C Drop Bb"@)
    } else if is(-5, -5) {
        Some("B Standard"@)
    } else {
        None
    }
}

/// The parts joined with `,` between them.
pub open spec fn join_comma(parts: Seq<Seq<char>>) -> Seq<char>
    decreases parts.len(),
{
    if parts.len() == 0 {
        Seq::empty()
    } else if parts.len() == 1 {
        parts[0]
    } else {
        join_comma(parts.drop_last()) + seq![','] + parts.last()
    }
}

/// A tuning's name: a common name, or the note of each string joined by `,`.
pub open spec fn tuning_name_spec(t: Seq<i16>) -> Seq<char> {
    match named_tuning(t) {
        Some(n) => n,
        None => join_comma(Seq::new(6, |i: int| note_name_spec(i, t[i] as int))),
    }
}

fn tuning_is(t: &[i16; 6], a: i16, b: i16) -> (r: bool)
    ensures
        r == is_pattern(t@, a as int, b as int),
{
    t[0] == a && t[1] == b && t[2] == b && t[3] == b && t[4] == b && t[5] == b
}

/// The name of a six-string tuning (offsets in semitones from E standard,
/// lowest string first).
pub fn calc_tuning_name_without_capo(tuning: [i16; 6]) -> (r: String)
    ensures
        r@ == tuning_name_spec(tuning@),
{
    let t = &tuning;
    if tuning_is(t, 1, 1) {
        return String::from_str("F Standard");
    }
    if tuning_is(t, 0, 0) {
        return String::from_str("E Standard");
    }
    if tuning_is(t, -2, 0) {
        return String::from_str("Drop D");
    }
    if tuning_is(t, -1, -1) {
        return String::from_str("Eb Standard");
    }
    if tuning_is(t, -3, -1) {
        return String::from_str("Eb Drop Db");
    }
    if tuning_is(t, -2, -2) {
        return String::from_str("D Standard");
    }
    if tuning_is(t, -4, -2) {
        return String::from_str("D Drop C");
    }
    if tuning_is(t, -3, -3) {
        return String::from_str("Db Standard");
    }
    if tuning_is(t, -5, -3) {
        return String::from_str("Db Drop B");
    }
    if tuning_is(t, -4, -4) {
        return String::from_str("C Standard");
    }
    if tuning_is(t, -6, -4) {
        return String::from_str("C Drop Bb");
    }
    if tuning_is(t, -5, -5) {
        return String::from_str("B Standard");
    }
    assert(named_tuning(tuning@) is None);
    let ghost parts = Seq::new(6, |i: int| note_name_spec(i, tuning@[i] as int));
    let mut out: Vec<char> = Vec::new();
    for i in 0..6
        invariant
            parts == Seq::new(6, |i: int| note_name_spec(i, tuning@[i] as int)),
            i > 0 ==> out@ == join_comma(parts.take(i as int)),
            i == 0 ==> out@.len() == 0,
    {
        let name = note_for_index_and_offset(i, tuning[i]);
        let nc = chars_of(name.as_str());
        let ghost before = out@;
        if i > 0 {
            out.push(',');
        }
        push_all(&mut out, &nc);
        proof {
            let t = parts.take(i + 1);
            assert(t.drop_last() == parts.take(i as int));
            assert(t.last() == nc@);
            if i == 0 {
                assert(out@ =~= nc@);
                assert(t.len() == 1);
            } else {
                assert(out@ =~= before + seq![','] + nc@);
            }
        }
    }
    assert(parts.take(6) == parts);
    string_of(&out)
}

// ---------------------------------------------------------------------------
// Instrument summaries
// ---------------------------------------------------------------------------

pub open spec fn is_lead_name(n: Seq<char>) -> bool {
    n == "lead"@ || n == "lead1"@ || n == "lead2"@
}

pub open spec fn is_rhythm_name(n: Seq<char>) -> bool {
    n == "rhythm"@ || n == "rhythm1"@ || n == "rhythm2"@
}

pub open spec fn is_bass_name(n: Seq<char>) -> bool {
    n == "bass"@ || n == "bass1"@ || n == "bass2"@
}

/// The three standard instrument names.
pub open spec fn is_standard_name(n: Seq<char>) -> bool {
    n == "lead"@ || n == "rhythm"@ || n == "bass"@
}

pub open spec fn count_other(names: Seq<Seq<char>>) -> nat
    decreases names.len(),
{
    if names.len() == 0 {
        0
    } else {
        count_other(names.drop_last()) + if is_standard_name(names.last()) {
            0nat
        } else {
            1nat
        }
    }
}

/// The five-character parts column: `L`, `R`, `B` for lead, rhythm and bass
/// parts, `V` for lyrics with words, then the first digit of the number of
/// parts other than the three standard names; blanks where absent.
pub open spec fn instrument_chars_spec(names: Seq<Seq<char>>, lyrics: Option<SongFileLyrics>) -> Seq<char> {
    seq![
        if exists|i: int| 0 <= i < names.len() && is_lead_name(#[trigger] names[i]) { 'L' } else { ' ' },
        if exists|i: int| 0 <= i < names.len() && is_rhythm_name(#[trigger] names[i]) { 'R' } else { ' ' },
        if exists|i: int| 0 <= i < names.len() && is_bass_name(#[trigger] names[i]) { 'B' } else { ' ' },
        if lyrics matches Some(l) && l.word_count > 0 { 'V' } else { ' ' },
        if count_other(names) > 0 { decimal(count_other(names))[0] } else { ' ' },
    ]
}

fn name_in(n: &Vec<char>, a: &str, b: &str, c: &str) -> (r: bool)
    ensures
        r == (n@ == a@ || n@ == b@ || n@ == c@),
{
    chars_eq(n, &chars_of(a)) || chars_eq(n, &chars_of(b)) || chars_eq(n, &chars_of(c))
}

/// The parts column for a song with instruments `instrument_names`.
pub fn instrument_chars(instrument_names: &[String], lyrics: Option<SongFileLyrics>) -> (r: String)
    ensures
        r@ == instrument_chars_spec(views_of(instrument_names@), lyrics),
{
    let ghost names = views_of(instrument_names@);
    let mut lead = false;
    let mut rhythm = false;
    let mut bass = false;
    let mut other: usize = 0;
    let n = instrument_names.len();
    for i in 0..n
        invariant
            n == instrument_names@.len(),
            names == views_of(instrument_names@),
            lead == exists|j: int| 0 <= j < i && is_lead_name(#[trigger] names[j]),
            rhythm == exists|j: int| 0 <= j < i && is_rhythm_name(#[trigger] names[j]),
            bass == exists|j: int| 0 <= j < i && is_bass_name(#[trigger] names[j]),
            other == count_other(names.take(i as int)),
            other <= i,
    {
        let nm = chars_of(instrument_names[i].as_str());
        assert(names[i as int] == nm@);
        if name_in(&nm, "lead", "lead1", "lead2") {
            lead = true;
        }
        if name_in(&nm, "rhythm", "rhythm1", "rhythm2") {
            rhythm = true;
        }
        if name_in(&nm, "bass", "bass1", "bass2") {
            bass = true;
        }
        assert(names.take(i + 1).drop_last() == names.take(i as int));
        if !name_in(&nm, "lead", "rhythm", "bass") {
            other = other + 1;
        }
    }
    assert(names.take(n as int) == names);
    let mut out: Vec<char> = Vec::new();
    out.push(if lead { 'L' } else { ' ' });
    out.push(if rhythm { 'R' } else { ' ' });
    out.push(if bass { 'B' } else { ' ' });
    let v = match lyrics {
        Some(l) => l.word_count > 0,
        None => false,
    };
    out.push(if v { 'V' } else { ' ' });
    if other > 0 {
        let d = decimal_chars(other as u128);
        proof {
            crate::numbers::lemma_decimal_value(other as nat);
        }
        out.push(d[0]);
    } else {
        out.push(' ');
    }
    assert(out@ =~= instrument_chars_spec(names, lyrics));
    string_of(&out)
}

pub open spec fn preferred_names() -> Seq<Seq<char>> {
    seq![
        "lead"@,
        "lead1"@,
        "lead2"@,
        "rhythm"@,
        "rhythm1"@,
        "rhythm2"@,
        "bass"@,
        "bass1"@,
        "bass2"@,
        "combo"@,
        "combo1"@,
        "combo2"@,
        "combo3"@,
        "combo4"@,
    ]
}

pub open spec fn first_index_of_name(names: Seq<Seq<char>>, n: Seq<char>) -> Option<int> {
    if exists|i: int| 0 <= i < names.len() && names[i] == n {
        Some(choose|i: int| 0 <= i < names.len() && names[i] == n && forall|j: int| 0 <= j < i ==> names[j] != n)
    } else {
        None
    }
}

/// The main instrument: the first instrument whose name comes earliest in the
/// preference list lead, lead1, lead2, rhythm, ..., combo4; the first
/// instrument when none has a preferred name.
pub open spec fn main_instrument_index_spec(names: Seq<Seq<char>>) -> int
    decreases 14int,
{
    main_from(names, 0)
}

pub open spec fn main_from(names: Seq<Seq<char>>, k: int) -> int
    decreases 14 - k,
{
    if k >= 14 || k < 0 {
        0
    } else {
        match first_index_of_name(names, preferred_names()[k]) {
            Some(i) => i,
            None => main_from(names, k + 1),
        }
    }
}

fn preferred_name(k: usize) -> (r: &'static str)
    requires
        k < 14,
    ensures
        r@ == preferred_names()[k as int],
{
    match k {
        0 => "lead",
        1 => "lead1",
        2 => "lead2",
        3 => "rhythm",
        4 => "rhythm1",
        5 => "rhythm2",
        6 => "bass",
        7 => "bass1",
        8 => "bass2",
        9 => "combo",
        10 => "combo1",
        11 => "combo2",
        12 => "combo3",
        _ => "combo4",
    }
}

fn find_name(names: &[String], n: &str) -> (r: Option<usize>)
    ensures
        match r {
            Some(i) => first_index_of_name(views_of(names@), n@) == Some(i as int),
            None => first_index_of_name(views_of(names@), n@) is None,
        },
{
    let ghost v = views_of(names@);
    let len = names.len();
    for i in 0..len
        invariant
            len == names@.len(),
            v == views_of(names@),
            forall|j: int| 0 <= j < i ==> v[j] != n@,
    {
        if str_eq(names[i].as_str(), n) {
            proof {
                assert(v[i as int] == n@);
                let c = choose|c: int| 0 <= c < v.len() && v[c] == n@ && forall|j: int| 0 <= j < c ==> v[j] != n@;
                if c < i {
                } else if c > i {
                    assert(v[i as int] != n@);
                }
            }
            return Some(i);
        }
    }
    None
}

/// Index of the main instrument among instruments named `names`.
pub fn find_main_instrument_index(names: &[String]) -> (r: usize)
    ensures
        r as int == main_instrument_index_spec(views_of(names@)),
{
    let ghost v = views_of(names@);
    for k in 0..14
        invariant
            v == views_of(names@),
            main_instrument_index_spec(v) == main_from(v, k as int),
    {
        match find_name(names, preferred_name(k)) {
            Some(i) => {
                return i;
            },
            None => {},
        }
    }
    0
}

// ---------------------------------------------------------------------------
// Note symbols
// ---------------------------------------------------------------------------

/// The symbols drawn next to a note: `h` hammer-on, `p` pull-off, `b<step>`
/// bend (when the note has bends; `bend_step` is its largest step), `L` left
/// hand, `x` mute or palm mute, `T` tap, `H` harmonic, `o` pinch harmonic,
/// `.` fret-hand mute.
pub open spec fn note_symbols_spec(types: Seq<NoteType>, bend_step: Option<i32>) -> Seq<Seq<char>> {
    let h = if types.contains(NoteType::HammerOn) { seq!["h"@] } else { Seq::empty() };
    let p = if types.contains(NoteType::PullOff) { seq!["p"@] } else { Seq::empty() };
    let b = if types.contains(NoteType::Bend) && bend_step is Some {
        seq![seq!['b'] + decimal_signed(bend_step->0 as int)]
    } else {
        Seq::empty()
    };
    let l = if types.contains(NoteType::LeftHand) { seq!["L"@] } else { Seq::empty() };
    let x = if types.contains(NoteType::Mute) || types.contains(NoteType::PalmMute) {
        seq!["x"@]
    } else {
        Seq::empty()
    };
    let t = if types.contains(NoteType::Tap) { seq!["T"@] } else { Seq::empty() };
    let hh = if types.contains(NoteType::Harmonic) { seq!["H"@] } else { Seq::empty() };
    let o = if types.contains(NoteType::PinchHarmonic) { seq!["o"@] } else { Seq::empty() };
    let d = if types.contains(NoteType::FretHandMute) { seq!["."@] } else { Seq::empty() };
    h + p + b + l + x + t + hh + o + d
}

fn has_type(types: &Vec<NoteType>, t: NoteType) -> (r: bool)
    ensures
        r == types@.contains(t),
{
    let n = types.len();
    for i in 0..n
        invariant
            n == types.len(),
            forall|j: int| 0 <= j < i ==> types@[j] != t,
    {
        if types[i] == t {
            return true;
        }
    }
    false
}

fn push_symbol(out: &mut Vec<String>, present: bool, s: &str)
    ensures
        views_of(final(out)@) == views_of(old(out)@) + if present {
            seq![s@]
        } else {
            Seq::empty()
        },
{
    if present {
        out.push(s.to_owned());
    }
    assert(views_of(final(out)@) =~= views_of(old(out)@) + if present {
        seq![s@]
    } else {
        Seq::empty()
    });
}

/// The symbols for a note with techniques `types`; `bend_step` is the largest
/// step of its bends, `None` when it has none.
pub fn note_symbols(types: &Vec<NoteType>, bend_step: Option<i32>) -> (r: Vec<String>)
    ensures
        views_of(r@) == note_symbols_spec(types@, bend_step),
{
    let mut out: Vec<String> = Vec::new();
    push_symbol(&mut out, has_type(types, NoteType::HammerOn), "h");
    push_symbol(&mut out, has_type(types, NoteType::PullOff), "p");
    let ghost before_b = views_of(out@);
    if has_type(types, NoteType::Bend) {
        match bend_step {
            Some(step) => {
                let mut b: Vec<char> = Vec::new();
                b.push('b');
                let d = decimal_chars_signed(step as i64);
                push_all(&mut b, &d);
                out.push(string_of(&b));
            },
            None => {},
        }
    }
    assert(views_of(out@) =~= before_b + if types@.contains(NoteType::Bend) && bend_step is Some {
        seq![seq!['b'] + decimal_signed(bend_step->0 as int)]
    } else {
        Seq::empty()
    });
    push_symbol(&mut out, has_type(types, NoteType::LeftHand), "L");
    push_symbol(&mut out, has_type(types, NoteType::Mute) || has_type(types, NoteType::PalmMute), "x");
    push_symbol(&mut out, has_type(types, NoteType::Tap), "T");
    push_symbol(&mut out, has_type(types, NoteType::Harmonic), "H");
    push_symbol(&mut out, has_type(types, NoteType::PinchHarmonic), "o");
    push_symbol(&mut out, has_type(types, NoteType::FretHandMute), ".");
    assert(views_of(out@) =~= note_symbols_spec(types@, bend_step));
    out
}

// ---------------------------------------------------------------------------
// Fret-window changes
// ---------------------------------------------------------------------------

/// Where the fret window moves to, and when.
#[derive(Debug, Clone, Copy)]
pub struct CenterFret<T> {
    pub time: T,
    pub fret: i32,
    pub window_size: i32,
}

/// A note block's time and fret window, as the window track reads it.
#[derive(Debug, Clone, Copy)]
pub struct WindowAt<T> {
    pub time: T,
    pub fret_window_start: i32,
    pub fret_window_length: i32,
}

/// One entry per note whose fret window differs from the previous note's
/// (the first note's always counts, the "previous" window being `(-1, -1)`).
pub open spec fn window_changes<T>(notes: Seq<WindowAt<T>>) -> Seq<CenterFret<T>>
    decreases notes.len(),
{
    if notes.len() == 0 {
        Seq::empty()
    } else {
        let prev = window_changes(notes.drop_last());
        let last = notes.last();
        let (pf, pw) = if notes.len() >= 2 {
            (notes[notes.len() - 2].fret_window_start, notes[notes.len() - 2].fret_window_length)
        } else {
            (-1i32, -1i32)
        };
        if pf != last.fret_window_start || pw != last.fret_window_length {
            prev.push(CenterFret { time: last.time, fret: last.fret_window_start, window_size: last.fret_window_length })
        } else {
            prev
        }
    }
}

/// The fret-window track of notes sorted by time.
pub fn calc_control_data<T: Copy>(notes: &[WindowAt<T>]) -> (r: Vec<CenterFret<T>>)
    ensures
        r@ == window_changes(notes@),
{
    let mut out: Vec<CenterFret<T>> = Vec::new();
    let mut last_fret: i32 = -1;
    let mut last_width: i32 = -1;
    let n = notes.len();
    for i in 0..n
        invariant
            n == notes@.len(),
            out@ == window_changes(notes@.take(i as int)),
            i == 0 ==> last_fret == -1 && last_width == -1,
            i > 0 ==> last_fret == notes@[i - 1].fret_window_start && last_width == notes@[i
                - 1].fret_window_length,
    {
        let note = notes[i];
        let ghost t = notes@.take(i + 1);
        assert(t.drop_last() == notes@.take(i as int));
        if i > 0 {
            assert(t[t.len() - 2] == notes@[i - 1]);
        }
        if last_fret != note.fret_window_start || last_width != note.fret_window_length {
            out.push(CenterFret { time: note.time, fret: note.fret_window_start, window_size: note.fret_window_length });
        }
        last_fret = note.fret_window_start;
        last_width = note.fret_window_length;
        assert(out@ =~= window_changes(t));
    }
    assert(notes@.take(n as int) == notes@);
    out
}

// ---------------------------------------------------------------------------
// Lyric lines
// ---------------------------------------------------------------------------

/// A word followed by a space, unless it ends in `-` (a split word).
pub open spec fn word_piece(w: Seq<char>) -> Seq<char> {
    if has_suffix(w, seq!['-']) {
        w
    } else {
        w.push(' ')
    }
}

/// A lyric line's words as one text.
pub open spec fn line_text_spec(words: Seq<Seq<char>>) -> Seq<char>
    decreases words.len(),
{
    if words.len() == 0 {
        Seq::empty()
    } else {
        line_text_spec(words.drop_last()) + word_piece(words.last())
    }
}

/// The text of a lyric line with words `words`.
pub fn line_text(words: &[String]) -> (r: String)
    ensures
        r@ == line_text_spec(views_of(words@)),
{
    let ghost v = views_of(words@);
    let mut out: Vec<char> = Vec::new();
    let n = words.len();
    for i in 0..n
        invariant
            n == words@.len(),
            v == views_of(words@),
            out@ == line_text_spec(v.take(i as int)),
    {
        let w = chars_of(words[i].as_str());
        assert(v.take(i + 1).drop_last() == v.take(i as int));
        assert(v.take(i + 1).last() == w@);
        push_all(&mut out, &w);
        let dash = w.len() > 0 && w[w.len() - 1] == '-';
        assert(dash == has_suffix(w@, seq!['-'])) by {
            if w@.len() > 0 {
                let tail = w@.subrange(w@.len() - 1, w@.len() as int);
                assert(tail =~= seq![w@.last()]);
                if dash {
                    assert(tail =~= seq!['-']);
                } else if has_suffix(w@, seq!['-']) {
                    assert(tail[0] == '-');
                }
            }
        }
        if !dash {
            out.push(' ');
        }
        assert(out@ =~= line_text_spec(v.take(i + 1)));
    }
    assert(v.take(n as int) == v);
    string_of(&out)
}


/// The words of `v` whose mark in `sung` is `flag`, in order.
pub open spec fn words_marked(v: Seq<Seq<char>>, sung: Seq<bool>, flag: bool) -> Seq<Seq<char>>
    decreases v.len(),
{
    if v.len() == 0 {
        Seq::empty()
    } else {
        let prev = words_marked(v.drop_last(), sung, flag);
        if sung[v.len() - 1] == flag {
            prev.push(v.last())
        } else {
            prev
        }
    }
}

/// The two parts of a lyric line while it is sung: the text of the words
/// marked as sung in `sung`, and the text of the others.
pub fn line_parts(words: &[String], sung: &[bool]) -> (r: (String, String))
    requires
        sung@.len() == words@.len(),
    ensures
        r.0@ == line_text_spec(words_marked(views_of(words@), sung@, true)),
        r.1@ == line_text_spec(words_marked(views_of(words@), sung@, false)),
{
    let ghost v = views_of(words@);
    let mut done: Vec<String> = Vec::new();
    let mut rest: Vec<String> = Vec::new();
    let n = words.len();
    for i in 0..n
        invariant
            n == words@.len(),
            n == sung@.len(),
            v == views_of(words@),
            views_of(done@) == words_marked(v.take(i as int), sung@, true),
            views_of(rest@) == words_marked(v.take(i as int), sung@, false),
    {
        assert(v.take(i + 1).drop_last() == v.take(i as int));
        assert(v.take(i + 1).last() == words@[i as int]@);
        let ghost old_done = done@;
        let ghost old_rest = rest@;
        if sung[i] {
            done.push(words[i].clone());
            assert(views_of(done@) =~= views_of(old_done).push(words@[i as int]@));
        } else {
            rest.push(words[i].clone());
            assert(views_of(rest@) =~= views_of(old_rest).push(words@[i as int]@));
        }
    }
    assert(v.take(n as int) == v);
    (line_text(done.as_slice()), line_text(rest.as_slice()))
}

proof fn lemma_line_text_concat(a: Seq<Seq<char>>, b: Seq<Seq<char>>)
    ensures
        line_text_spec(a + b) == line_text_spec(a) + line_text_spec(b),
    decreases b.len(),
{
    if b.len() == 0 {
        assert(a + b =~= a);
    } else {
        lemma_line_text_concat(a, b.drop_last());
        assert((a + b).drop_last() =~= a + b.drop_last());
        assert((a + b).last() == b.last());
    }
}

proof fn lemma_words_marked_split(v: Seq<Seq<char>>, sung: Seq<bool>, k: int)
    requires
        0 <= k <= v.len(),
        sung.len() >= v.len(),
        forall|i: int| 0 <= i < v.len() ==> sung[i] == (i < k),
    ensures
        words_marked(v, sung, true) == v.take(k),
        words_marked(v, sung, false) == v.skip(k),
    decreases v.len(),
{
    if v.len() > 0 {
        let d = v.drop_last();
        if k == v.len() {
            lemma_words_marked_split(d, sung, k - 1);
            assert(v.take(k) =~= d.take(k - 1).push(v.last()));
            assert(d.skip(k - 1) =~= Seq::<Seq<char>>::empty());
            assert(v.skip(k) =~= Seq::<Seq<char>>::empty());
        } else {
            lemma_words_marked_split(d, sung, k);
            assert(v.take(k) =~= d.take(k));
            assert(v.skip(k) =~= d.skip(k).push(v.last()));
        }
    }
}

/// Once the sung words are the first ones (as they are for words in time
/// order), the two parts of a line put together give the whole line.
pub proof fn line_parts_join(v: Seq<Seq<char>>, sung: Seq<bool>, k: int)
    requires
        sung.len() == v.len(),
        0 <= k <= v.len(),
        forall|i: int| 0 <= i < v.len() ==> sung[i] == (i < k),
    ensures
        line_text_spec(words_marked(v, sung, true)) + line_text_spec(words_marked(v, sung, false))
            == line_text_spec(v),
{
    lemma_words_marked_split(v, sung, k);
    lemma_line_text_concat(v.take(k), v.skip(k));
    assert(v.take(k) + v.skip(k) =~= v);
}

/// Showing the same chord is symmetric.
pub proof fn same_chord_is_symmetric(a: &ChordShape, b: &ChordShape)
    ensures
        same_chord_spec(a, b) == same_chord_spec(b, a),
{
    if same_chord_spec(a, b) {
        assert forall|i: int| 0 <= i < b.notes@.len() implies {
            &&& (#[trigger] b.notes@[i]).fret_num == a.notes@[i].fret_num
            &&& b.notes@[i].string_num == a.notes@[i].string_num
            &&& relevant_types(b.notes@[i].types@) == relevant_types(a.notes@[i].types@)
        } by {
            assert(a.notes@[i].fret_num == b.notes@[i].fret_num);
        }
    }
    if same_chord_spec(b, a) {
        assert forall|i: int| 0 <= i < a.notes@.len() implies {
            &&& (#[trigger] a.notes@[i]).fret_num == b.notes@[i].fret_num
            &&& a.notes@[i].string_num == b.notes@[i].string_num
            &&& relevant_types(a.notes@[i].types@) == relevant_types(b.notes@[i].types@)
        } by {
            assert(b.notes@[i].fret_num == a.notes@[i].fret_num);
        }
    }
}

/// What decides chord identity: blocks whose notes at some position lie on
/// different strings or frets are never the same chord, nor are blocks with a
/// different number of notes or different flags, nor any pair where a note
/// bends or slides, nor a pair where a note has a technique (one not ignored)
/// that the other block's note at that position lacks. Blocks without bending
/// or sliding notes, with the same flags and the same notes, kinds included,
/// are the same chord.
pub proof fn same_chord_needs_same_notes(a: &ChordShape, b: &ChordShape, i: int, t: NoteType)
    ensures
        0 <= i < a.notes@.len() && i < b.notes@.len() && (a.notes@[i].string_num != b.notes@[i].string_num
            || a.notes@[i].fret_num != b.notes@[i].fret_num) ==> !same_chord_spec(a, b),
        a.notes@.len() != b.notes@.len() ==> !same_chord_spec(a, b),
        a.chord_flags@ != b.chord_flags@ ==> !same_chord_spec(a, b),
        0 <= i < a.notes@.len() && (a.notes@[i].has_bends || a.notes@[i].has_slide) ==> !same_chord_spec(a, b),
        0 <= i < b.notes@.len() && (b.notes@[i].has_bends || b.notes@[i].has_slide) ==> !same_chord_spec(a, b),
        0 <= i < a.notes@.len() && i < b.notes@.len() && !is_ignored_type(t) && a.notes@[i].types@.contains(t)
            && !b.notes@[i].types@.contains(t) ==> !same_chord_spec(a, b),
        ({
            &&& forall|k: int|
                0 <= k < a.notes@.len() ==> !(#[trigger] a.notes@[k]).has_bends && !a.notes@[k].has_slide
            &&& forall|k: int|
                0 <= k < b.notes@.len() ==> !(#[trigger] b.notes@[k]).has_bends && !b.notes@[k].has_slide
            &&& a.notes@.len() == b.notes@.len()
            &&& a.chord_flags@ == b.chord_flags@
            &&& forall|k: int|
                0 <= k < a.notes@.len() ==> (#[trigger] a.notes@[k]).string_num == b.notes@[k].string_num
                    && a.notes@[k].fret_num == b.notes@[k].fret_num && a.notes@[k].types@ == b.notes@[k].types@
        }) ==> same_chord_spec(a, b),
{
    if 0 <= i < a.notes@.len() && (a.notes@[i].has_bends || a.notes@[i].has_slide) {
        assert(has_extras(a.notes@));
    }
    if 0 <= i < b.notes@.len() && (b.notes@[i].has_bends || b.notes@[i].has_slide) {
        assert(has_extras(b.notes@));
    }
    if 0 <= i < a.notes@.len() && i < b.notes@.len() && !is_ignored_type(t) && a.notes@[i].types@.contains(t)
        && !b.notes@[i].types@.contains(t) {
        let pr = |x: NoteType| !is_ignored_type(x);
        let ta = a.notes@[i].types@;
        let tb = b.notes@[i].types@;
        assert(relevant_types(ta) == ta.filter(pr));
        assert(relevant_types(tb) == tb.filter(pr));
        let j = choose|j: int| 0 <= j < ta.len() && ta[j] == t;
        ta.lemma_filter_contains(pr, j);
        if tb.filter(pr).contains(t) {
            tb.lemma_filter_contains_rev(pr, t);
        }
        let ra = relevant_types(ta);
        let rb = relevant_types(tb);
        assert(ra != rb);
    }
}

/// A block shows the same chord as itself exactly when none of its notes
/// bends or slides.
pub proof fn same_chord_is_reflexive(a: &ChordShape)
    ensures
        same_chord_spec(a, a) == !has_extras(a.notes@),
{
}

/// The fret-window track has one entry at most per note, and two entries in
/// a row never show the same window.
pub proof fn window_changes_shape<T>(notes: Seq<WindowAt<T>>)
    ensures
        window_changes(notes).len() <= notes.len(),
        forall|k: int|
            0 <= k < window_changes(notes).len() - 1 ==> (#[trigger] window_changes(notes)[k]).fret
                != window_changes(notes)[k + 1].fret || window_changes(notes)[k].window_size
                != window_changes(notes)[k + 1].window_size,
    decreases notes.len(),
{
    if notes.len() > 0 {
        let d = notes.drop_last();
        window_changes_shape(d);
        lemma_window_changes_last(d);
        let w = window_changes(notes);
        let wd = window_changes(d);
        if w.len() > wd.len() && wd.len() > 0 {
            assert forall|k: int| 0 <= k < w.len() - 1 implies (#[trigger] w[k]).fret != w[k + 1].fret || w[k].window_size != w[k + 1].window_size by {
                if k < wd.len() - 1 {
                    assert(w[k] == wd[k] && w[k + 1] == wd[k + 1]);
                } else {
                    assert(w[k] == wd.last());
                }
            }
        } else if w.len() == wd.len() {
            assert(w == wd);
        }
    }
}

/// The last entry of the track shows the window of the last note.
proof fn lemma_window_changes_last<T>(notes: Seq<WindowAt<T>>)
    ensures
        window_changes(notes).len() > 0 ==> window_changes(notes).last().fret
            == notes.last().fret_window_start && window_changes(notes).last().window_size
            == notes.last().fret_window_length,
    decreases notes.len(),
{
    if notes.len() > 0 {
        lemma_window_changes_last(notes.drop_last());
        if notes.len() >= 2 {
            assert(notes.drop_last().last() == notes[notes.len() - 2]);
        } else {
            assert(window_changes(notes.drop_last()).len() == 0);
        }
    }
}

} // verus!
