//! Building note blocks from the binary song format: which strings of a
//! chord sound, with which kinds and slides, and whether the chord is muted.
//! Times, lengths and bend curves stay with the caller; this module decides
//! everything else.
use vstd::prelude::*;
use crate::gd_models::{NoteType, SingleSlide as PlayerSlide};
use crate::note_mask::{convert_note_mask, convert_to_model, kinds_present, model_mask_order, player_mask_order, SngMaskFlag};
use crate::parser_models::{NoteType as ParsedNoteType, SingleSlide};
use crate::song_text::{decode_zero_terminated, zero_terminated_text};

verus! {

/// What a chord's extra data says about one string.
pub struct StringExtras {
    /// The note-mask flags set for this string.
    pub mask: Vec<SngMaskFlag>,
    /// The fret this string slides to (negative: no slide).
    pub slide_to: i32,
    /// The fret this string slides to without pitch (negative: no slide).
    pub slide_unpitch_to: i32,
    /// Whether this string keeps any bend points.
    pub has_bends: bool,
}

impl View for StringExtras {
    type V = (Seq<SngMaskFlag>, i32, i32, bool);

    open spec fn view(&self) -> Self::V {
        (self.mask@, self.slide_to, self.slide_unpitch_to, self.has_bends)
    }
}

pub open spec fn extras_views(es: Seq<StringExtras>) -> Seq<(Seq<SngMaskFlag>, i32, i32, bool)> {
    es.map_values(|e: StringExtras| e@)
}

// ---------------------------------------------------------------------------
// The stored model
// ---------------------------------------------------------------------------

/// Every note kind of the stored model, in declaration order.
pub open spec fn model_kind_order() -> Seq<ParsedNoteType> {
    seq![
        ParsedNoteType::UNDEFINED,
        ParsedNoteType::MISSING,
        ParsedNoteType::CHORD,
        ParsedNoteType::OPEN,
        ParsedNoteType::FRETHANDMUTE,
        ParsedNoteType::TREMOLO,
        ParsedNoteType::HARMONIC,
        ParsedNoteType::PALMMUTE,
        ParsedNoteType::SLAP,
        ParsedNoteType::PLUCK,
        ParsedNoteType::POP,
        ParsedNoteType::HAMMERON,
        ParsedNoteType::PULLOFF,
        ParsedNoteType::SLIDE,
        ParsedNoteType::BEND,
        ParsedNoteType::SUSTAIN,
        ParsedNoteType::TAP,
        ParsedNoteType::PINCHHARMONIC,
        ParsedNoteType::VIBRATO,
        ParsedNoteType::MUTE,
        ParsedNoteType::IGNORE,
        ParsedNoteType::LEFTHAND,
        ParsedNoteType::RIGHTHAND,
        ParsedNoteType::HIGHDENSITY,
        ParsedNoteType::SLIDEUNPITCHEDTO,
        ParsedNoteType::SINGLE,
        ParsedNoteType::CHORDNOTES,
        ParsedNoteType::DOUBLESTOP,
        ParsedNoteType::ACCENT,
        ParsedNoteType::PARENT,
        ParsedNoteType::CHILD,
        ParsedNoteType::ARPEGGIO,
        ParsedNoteType::MISSING2,
        ParsedNoteType::STRUM,
    ]
}

fn model_kind(k: usize) -> (r: ParsedNoteType)
    requires
        k < 34,
    ensures
        r == model_kind_order()[k as int],
{
    match k {
        0 => ParsedNoteType::UNDEFINED,
        1 => ParsedNoteType::MISSING,
        2 => ParsedNoteType::CHORD,
        3 => ParsedNoteType::OPEN,
        4 => ParsedNoteType::FRETHANDMUTE,
        5 => ParsedNoteType::TREMOLO,
        6 => ParsedNoteType::HARMONIC,
        7 => ParsedNoteType::PALMMUTE,
        8 => ParsedNoteType::SLAP,
        9 => ParsedNoteType::PLUCK,
        10 => ParsedNoteType::POP,
        11 => ParsedNoteType::HAMMERON,
        12 => ParsedNoteType::PULLOFF,
        13 => ParsedNoteType::SLIDE,
        14 => ParsedNoteType::BEND,
        15 => ParsedNoteType::SUSTAIN,
        16 => ParsedNoteType::TAP,
        17 => ParsedNoteType::PINCHHARMONIC,
        18 => ParsedNoteType::VIBRATO,
        19 => ParsedNoteType::MUTE,
        20 => ParsedNoteType::IGNORE,
        21 => ParsedNoteType::LEFTHAND,
        22 => ParsedNoteType::RIGHTHAND,
        23 => ParsedNoteType::HIGHDENSITY,
        24 => ParsedNoteType::SLIDEUNPITCHEDTO,
        25 => ParsedNoteType::SINGLE,
        26 => ParsedNoteType::CHORDNOTES,
        27 => ParsedNoteType::DOUBLESTOP,
        28 => ParsedNoteType::ACCENT,
        29 => ParsedNoteType::PARENT,
        30 => ParsedNoteType::CHILD,
        31 => ParsedNoteType::ARPEGGIO,
        32 => ParsedNoteType::MISSING2,
        _ => ParsedNoteType::STRUM,
    }
}

/// The kinds of `flags` once, in declaration order.
pub open spec fn kinds_in_order(flags: Seq<ParsedNoteType>) -> Seq<ParsedNoteType> {
    model_kind_order().filter(|k: ParsedNoteType| flags.contains(k))
}

fn contains_kind(flags: &Vec<ParsedNoteType>, k: ParsedNoteType) -> (r: bool)
    ensures
        r == flags@.contains(k),
{
    let n = flags.len();
    for i in 0..n
        invariant
            n == flags@.len(),
            forall|j: int| 0 <= j < i ==> flags@[j] != k,
    {
        if flags[i] == k {
            assert(flags@[i as int] == k);
            return true;
        }
    }
    false
}

fn sorted_kinds(flags: &Vec<ParsedNoteType>) -> (r: Vec<ParsedNoteType>)
    ensures
        r@ == kinds_in_order(flags@),
{
    let ghost order = model_kind_order();
    let ghost pr = |k: ParsedNoteType| flags@.contains(k);
    let mut out: Vec<ParsedNoteType> = Vec::new();
    for k in 0..34
        invariant
            order == model_kind_order(),
            order.len() == 34,
            pr == (|k: ParsedNoteType| flags@.contains(k)),
            out@ == order.take(k as int).filter(pr),
    {
        proof {
            reveal(Seq::filter);
            assert(order.take(k + 1).drop_last() == order.take(k as int));
        }
        let t = model_kind(k);
        if contains_kind(flags, t) {
            out.push(t);
        }
        assert(out@ =~= order.take(k + 1).filter(pr));
    }
    assert(order.take(34) == order);
    out
}

fn drop_kind(flags: &Vec<ParsedNoteType>, k: ParsedNoteType) -> (r: Vec<ParsedNoteType>)
    ensures
        r@ == flags@.filter(|x: ParsedNoteType| x != k),
{
    let ghost pr = |x: ParsedNoteType| x != k;
    let mut out: Vec<ParsedNoteType> = Vec::new();
    let n = flags.len();
    for i in 0..n
        invariant
            n == flags@.len(),
            pr == (|x: ParsedNoteType| x != k),
            out@ == flags@.take(i as int).filter(pr),
    {
        proof {
            reveal(Seq::filter);
            assert(flags@.take(i + 1).drop_last() == flags@.take(i as int));
        }
        if flags[i] != k {
            out.push(flags[i]);
        }
        assert(out@ =~= flags@.take(i + 1).filter(pr));
    }
    assert(flags@.take(n as int) == flags@);
    out
}

/// A note of the stored model as the conversion builds it (its length and
/// bend points are the caller's).
pub struct ModelNote {
    pub string_num: i32,
    pub fret_num: i32,
    pub note_type: Vec<ParsedNoteType>,
    pub slide: Option<SingleSlide>,
}

impl View for ModelNote {
    type V = (i32, i32, Seq<ParsedNoteType>, Option<SingleSlide>);

    open spec fn view(&self) -> Self::V {
        (self.string_num, self.fret_num, self.note_type@, self.slide)
    }
}

/// The slide the stored model keeps: an unpitched slide wins over a pitched
/// one, and a note without sustain keeps none.
pub open spec fn model_slide(slide_to: i32, slide_unpitch_to: i32, sustained: bool) -> Option<SingleSlide> {
    if !sustained {
        None
    } else if slide_unpitch_to >= 0 {
        Some(SingleSlide { to_fret: slide_unpitch_to, slide_unpitched: true })
    } else if slide_to >= 0 {
        Some(SingleSlide { to_fret: slide_to, slide_unpitched: false })
    } else {
        None
    }
}

fn slide_for_model(slide_to: i32, slide_unpitch_to: i32, sustained: bool) -> (r: Option<SingleSlide>)
    ensures
        r == model_slide(slide_to, slide_unpitch_to, sustained),
{
    if !sustained {
        None
    } else if slide_unpitch_to >= 0 {
        Some(SingleSlide { to_fret: slide_unpitch_to, slide_unpitched: true })
    } else if slide_to >= 0 {
        Some(SingleSlide { to_fret: slide_to, slide_unpitched: false })
    } else {
        None
    }
}

/// The kinds of a note: a bend kind is dropped when no bend points are left.
pub open spec fn with_bend_checked(flags: Seq<ParsedNoteType>, has_bends: bool) -> Seq<ParsedNoteType> {
    if has_bends {
        flags
    } else {
        flags.filter(|x: ParsedNoteType| x != ParsedNoteType::BEND)
    }
}

/// A single note of the stored model: the kinds of its mask (a bend kind
/// only while bend points are left) and its slide.
pub open spec fn model_single_spec(
    mask: Seq<SngMaskFlag>,
    string_num: i32,
    fret_num: i32,
    slide_to: i32,
    slide_unpitch_to: i32,
    has_bends: bool,
    sustained: bool,
) -> (i32, i32, Seq<ParsedNoteType>, Option<SingleSlide>) {
    (
        string_num,
        fret_num,
        with_bend_checked(kinds_present(model_mask_order(), mask), has_bends),
        model_slide(slide_to, slide_unpitch_to, sustained),
    )
}

/// The stored model's note for a single (non-chord) note.
pub fn model_single_note(
    mask: &[SngMaskFlag],
    string_num: i32,
    fret_num: i32,
    slide_to: i32,
    slide_unpitch_to: i32,
    has_bends: bool,
    sustained: bool,
) -> (r: ModelNote)
    ensures
        r@ == model_single_spec(mask@, string_num, fret_num, slide_to, slide_unpitch_to, has_bends, sustained),
{
    let flags = convert_to_model(mask);
    let kinds = if has_bends {
        flags
    } else {
        drop_kind(&flags, ParsedNoteType::BEND)
    };
    ModelNote {
        string_num,
        fret_num,
        note_type: kinds,
        slide: slide_for_model(slide_to, slide_unpitch_to, sustained),
    }
}

/// The note of chord string `i` with fret `fret` in the stored model.
pub open spec fn model_string_note(
    base: Seq<ParsedNoteType>,
    i: int,
    fret: i32,
    extras: Option<(Seq<SngMaskFlag>, i32, i32, bool)>,
    sustained: bool,
) -> (i32, i32, Seq<ParsedNoteType>, Option<SingleSlide>) {
    match extras {
        Some(e) => (
            i as i32,
            fret,
            kinds_in_order(with_bend_checked(base + kinds_present(model_mask_order(), e.0), e.3)),
            model_slide(e.1, e.2, sustained),
        ),
        None => (i as i32, fret, kinds_in_order(base), None),
    }
}

/// The notes of the first `k` strings of a chord with frets `frets` (strings
/// with a negative fret are silent).
pub open spec fn model_chord_upto(
    base: Seq<ParsedNoteType>,
    frets: Seq<i32>,
    extras: Option<Seq<(Seq<SngMaskFlag>, i32, i32, bool)>>,
    sustained: bool,
    k: int,
) -> Seq<(i32, i32, Seq<ParsedNoteType>, Option<SingleSlide>)>
    decreases k,
{
    if k <= 0 {
        Seq::empty()
    } else {
        let prev = model_chord_upto(base, frets, extras, sustained, k - 1);
        if frets[k - 1] >= 0 {
            prev.push(
                model_string_note(
                    base,
                    k - 1,
                    frets[k - 1],
                    match extras {
                        Some(es) => Some(es[k - 1]),
                        None => None,
                    },
                    sustained,
                ),
            )
        } else {
            prev
        }
    }
}

/// The notes of the sounding strings of a chord (none when it is unknown).
pub open spec fn model_chord_listed(
    base: Seq<ParsedNoteType>,
    frets: Option<Seq<i32>>,
    extras: Option<Seq<(Seq<SngMaskFlag>, i32, i32, bool)>>,
    sustained: bool,
) -> Seq<(i32, i32, Seq<ParsedNoteType>, Option<SingleSlide>)> {
    match frets {
        Some(fs) => model_chord_upto(base, fs, extras, sustained, 6),
        None => Seq::empty(),
    }
}

/// The notes of a chord in the stored model: one per sounding string of the
/// chord's six (none when the chord is unknown), or a single silent
/// placeholder note when no string sounds.
pub open spec fn model_chord_spec(
    base: Seq<ParsedNoteType>,
    frets: Option<Seq<i32>>,
    extras: Option<Seq<(Seq<SngMaskFlag>, i32, i32, bool)>>,
    sustained: bool,
) -> Seq<(i32, i32, Seq<ParsedNoteType>, Option<SingleSlide>)> {
    let listed = model_chord_listed(base, frets, extras, sustained);
    if listed.len() == 0 {
        seq![(0i32, 0i32, Seq::<ParsedNoteType>::empty(), None::<SingleSlide>)]
    } else {
        listed
    }
}

/// A chord of the stored model is muted when each of its notes is muted or
/// fret-hand muted.
pub open spec fn model_chord_muted(notes: Seq<(i32, i32, Seq<ParsedNoteType>, Option<SingleSlide>)>) -> bool {
    forall|i: int|
        0 <= i < notes.len() ==> (#[trigger] notes[i]).2.contains(ParsedNoteType::MUTE) || notes[i].2.contains(
            ParsedNoteType::FRETHANDMUTE,
        )
}

pub open spec fn model_note_views(ns: Seq<ModelNote>) -> Seq<(i32, i32, Seq<ParsedNoteType>, Option<SingleSlide>)> {
    ns.map_values(|n: ModelNote| n@)
}

/// The stored model's notes of a chord note whose mask has flags `mask`:
/// `frets` are the chord's six frets (`None` when the chord is unknown) and
/// `extras` its per-string data (`None` when it has none). Returns the notes,
/// whether the chord is muted, and whether the only note is the placeholder
/// of a chord without sounding strings.
pub fn model_chord_notes(
    mask: &[SngMaskFlag],
    frets: Option<&Vec<i32>>,
    extras: Option<&Vec<StringExtras>>,
    sustained: bool,
) -> (r: (Vec<ModelNote>, bool, bool))
    requires
        frets matches Some(f) ==> f@.len() == 6,
        extras matches Some(e) ==> e@.len() == 6,
    ensures
        model_note_views(r.0@) == model_chord_spec(
            kinds_present(model_mask_order(), mask@),
            match frets {
                Some(f) => Some(f@),
                None => None,
            },
            match extras {
                Some(e) => Some(extras_views(e@)),
                None => None,
            },
            sustained,
        ),
        r.1 == model_chord_muted(model_note_views(r.0@)),
        r.2 == (model_chord_listed(
            kinds_present(model_mask_order(), mask@),
            match frets {
                Some(f) => Some(f@),
                None => None,
            },
            match extras {
                Some(e) => Some(extras_views(e@)),
                None => None,
            },
            sustained,
        ).len() == 0),
{
    let base = convert_to_model(mask);
    let ghost ev: Option<Seq<(Seq<SngMaskFlag>, i32, i32, bool)>> = match extras {
        Some(e) => Some(extras_views(e@)),
        None => None,
    };
    let mut notes: Vec<ModelNote> = Vec::new();
    match frets {
        Some(fs) => {
            for i in 0..6
                invariant
                    fs@.len() == 6,
                    extras matches Some(e) ==> e@.len() == 6,
                    ev == match extras {
                        Some(e) => Some(extras_views(e@)),
                        None => None,
                    },
                    model_note_views(notes@) == model_chord_upto(base@, fs@, ev, sustained, i as int),
            {
                if fs[i] >= 0 {
                    let note = match extras {
                        Some(es) => {
                            let e = &es[i];
                            let mut flags = base.clone();
                            let extra = convert_to_model(e.mask.as_slice());
                            let ghost before = flags@;
                            flags.append(&mut extra.clone());
                            assert(flags@ == before + extra@);
                            let checked = if e.has_bends {
                                flags
                            } else {
                                drop_kind(&flags, ParsedNoteType::BEND)
                            };
                            ModelNote {
                                string_num: i as i32,
                                fret_num: fs[i],
                                note_type: sorted_kinds(&checked),
                                slide: slide_for_model(e.slide_to, e.slide_unpitch_to, sustained),
                            }
                        },
                        None => ModelNote {
                            string_num: i as i32,
                            fret_num: fs[i],
                            note_type: sorted_kinds(&base),
                            slide: None,
                        },
                    };
                    proof {
                        match extras {
                            Some(es) => {
                                assert(extras_views(es@)[i as int] == es@[i as int]@);
                            },
                            None => {},
                        }
                    }
                    let ghost old_notes = notes@;
                    notes.push(note);
                    assert(model_note_views(notes@) =~= model_note_views(old_notes).push(note@));
                }
            }
        },
        None => {},
    }
    let placeholder = notes.len() == 0;
    if placeholder {
        notes.push(ModelNote { string_num: 0, fret_num: 0, note_type: Vec::new(), slide: None });
        assert(model_note_views(notes@) =~= seq![(0i32, 0i32, Seq::<ParsedNoteType>::empty(), None::<SingleSlide>)]);
    }
    let ghost nv = model_note_views(notes@);
    let mut muted = true;
    let n = notes.len();
    for i in 0..n
        invariant
            n == notes@.len(),
            nv == model_note_views(notes@),
            muted == forall|j: int|
                0 <= j < i ==> (#[trigger] nv[j]).2.contains(ParsedNoteType::MUTE) || nv[j].2.contains(
                    ParsedNoteType::FRETHANDMUTE,
                ),
    {
        assert(nv[i as int] == notes@[i as int]@);
        if !(contains_kind(&notes[i].note_type, ParsedNoteType::MUTE) || contains_kind(
            &notes[i].note_type,
            ParsedNoteType::FRETHANDMUTE,
        )) {
            muted = false;
        }
    }
    (notes, muted, placeholder)
}

// ---------------------------------------------------------------------------
// The player's model
// ---------------------------------------------------------------------------

/// A note of the player's model as the conversion builds it (its length and
/// bends are the caller's).
pub struct PlayerNote {
    pub string_num: i32,
    pub fret_num: i32,
    pub types: Vec<NoteType>,
    pub slide: Option<PlayerSlide>,
}

impl View for PlayerNote {
    type V = (i32, i32, Seq<NoteType>, Option<PlayerSlide>);

    open spec fn view(&self) -> Self::V {
        (self.string_num, self.fret_num, self.types@, self.slide)
    }
}

pub open spec fn player_note_views(ns: Seq<PlayerNote>) -> Seq<(i32, i32, Seq<NoteType>, Option<PlayerSlide>)> {
    ns.map_values(|n: PlayerNote| n@)
}

/// The player's slide of a note: a pitched slide wins over an unpitched one.
pub open spec fn player_base_slide(slide_to: i32, slide_unpitch_to: i32) -> Option<PlayerSlide> {
    if slide_to >= 0 {
        Some(PlayerSlide { to_fret: slide_to, slide_unpitched: false })
    } else if slide_unpitch_to >= 0 {
        Some(PlayerSlide { to_fret: slide_unpitch_to, slide_unpitched: true })
    } else {
        None
    }
}

/// A chord string's slide: the string's own slides replace the note's, an
/// unpitched one last.
pub open spec fn player_string_slide(base: Option<PlayerSlide>, e: (Seq<SngMaskFlag>, i32, i32, bool)) -> Option<
    PlayerSlide,
> {
    if e.2 >= 0 {
        Some(PlayerSlide { to_fret: e.2, slide_unpitched: true })
    } else if e.1 >= 0 {
        Some(PlayerSlide { to_fret: e.1, slide_unpitched: false })
    } else {
        base
    }
}

pub open spec fn keep_if(s: Option<PlayerSlide>, sustained: bool) -> Option<PlayerSlide> {
    if sustained {
        s
    } else {
        None
    }
}

/// The notes of the first `k` strings of a chord in the player's model.
pub open spec fn player_chord_upto(
    base: Seq<NoteType>,
    base_slide: Option<PlayerSlide>,
    frets: Seq<i32>,
    extras: Option<Seq<(Seq<SngMaskFlag>, i32, i32, bool)>>,
    sustained: bool,
    k: int,
) -> Seq<(i32, i32, Seq<NoteType>, Option<PlayerSlide>)>
    decreases k,
{
    if k <= 0 {
        Seq::empty()
    } else {
        let prev = player_chord_upto(base, base_slide, frets, extras, sustained, k - 1);
        if frets[k - 1] >= 0 {
            let i = k - 1;
            let (types, slide) = match extras {
                Some(es) => if i < es.len() {
                    (base + kinds_present(player_mask_order(), es[i].0), player_string_slide(base_slide, es[i]))
                } else {
                    (base, base_slide)
                },
                None => (base, base_slide),
            };
            prev.push((i as i32, frets[i], types, keep_if(slide, sustained)))
        } else {
            prev
        }
    }
}

/// The player's notes of a note whose mask has flags `mask`: for a chord,
/// one note per sounding string of `frets` (none when the chord is unknown),
/// with the string's extra kinds and slides from `extras`; otherwise the
/// single note on `string_index` at `fret`. A note without sustain keeps no
/// slide.
pub open spec fn player_block_spec(
    mask: Seq<SngMaskFlag>,
    string_index: i32,
    fret: i32,
    slide_to: i32,
    slide_unpitch_to: i32,
    sustained: bool,
    frets: Option<Seq<i32>>,
    extras: Option<Seq<(Seq<SngMaskFlag>, i32, i32, bool)>>,
) -> Seq<(i32, i32, Seq<NoteType>, Option<PlayerSlide>)> {
    let base = kinds_present(player_mask_order(), mask);
    let base_slide = player_base_slide(slide_to, slide_unpitch_to);
    if mask.contains(SngMaskFlag::Chord) {
        match frets {
            Some(fs) => player_chord_upto(base, base_slide, fs, extras, sustained, fs.len() as int),
            None => Seq::empty(),
        }
    } else {
        seq![(string_index, fret, base, keep_if(base_slide, sustained))]
    }
}

/// A chord block of the player is muted when the chord is known and each of
/// its notes is muted.
pub open spec fn player_block_muted(
    mask: Seq<SngMaskFlag>,
    frets: Option<Seq<i32>>,
    notes: Seq<(i32, i32, Seq<NoteType>, Option<PlayerSlide>)>,
) -> bool {
    &&& mask.contains(SngMaskFlag::Chord)
    &&& frets is Some
    &&& forall|i: int| 0 <= i < notes.len() ==> (#[trigger] notes[i]).2.contains(NoteType::Mute)
}

fn has_mask_flag(mask: &[SngMaskFlag], f: SngMaskFlag) -> (r: bool)
    ensures
        r == mask@.contains(f),
{
    let n = mask.len();
    for i in 0..n
        invariant
            n == mask@.len(),
            forall|j: int| 0 <= j < i ==> mask@[j] != f,
    {
        if mask[i] == f {
            assert(mask@[i as int] == f);
            return true;
        }
    }
    false
}

fn has_player_kind(types: &Vec<NoteType>, t: NoteType) -> (r: bool)
    ensures
        r == types@.contains(t),
{
    let n = types.len();
    for i in 0..n
        invariant
            n == types@.len(),
            forall|j: int| 0 <= j < i ==> types@[j] != t,
    {
        if types[i] == t {
            assert(types@[i as int] == t);
            return true;
        }
    }
    false
}

/// The player's notes of one note of the binary format, and whether its block
/// is muted, as `player_block_spec` and `player_block_muted` describe.
pub fn player_note_block(
    mask: &[SngMaskFlag],
    string_index: i32,
    fret: i32,
    slide_to: i32,
    slide_unpitch_to: i32,
    sustained: bool,
    frets: Option<&Vec<i32>>,
    extras: Option<&Vec<StringExtras>>,
) -> (r: (Vec<PlayerNote>, bool))
    ensures
        player_note_views(r.0@) == player_block_spec(
            mask@,
            string_index,
            fret,
            slide_to,
            slide_unpitch_to,
            sustained,
            match frets {
                Some(f) => Some(f@),
                None => None,
            },
            match extras {
                Some(e) => Some(extras_views(e@)),
                None => None,
            },
        ),
        r.1 == player_block_muted(
            mask@,
            match frets {
                Some(f) => Some(f@),
                None => None,
            },
            player_note_views(r.0@),
        ),
{
    let base = convert_note_mask(mask);
    let base_slide = if slide_to >= 0 {
        Some(PlayerSlide { to_fret: slide_to, slide_unpitched: false })
    } else if slide_unpitch_to >= 0 {
        Some(PlayerSlide { to_fret: slide_unpitch_to, slide_unpitched: true })
    } else {
        None
    };
    let ghost ev: Option<Seq<(Seq<SngMaskFlag>, i32, i32, bool)>> = match extras {
        Some(e) => Some(extras_views(e@)),
        None => None,
    };
    if !has_mask_flag(mask, SngMaskFlag::Chord) {
        let note = PlayerNote {
            string_num: string_index,
            fret_num: fret,
            types: base,
            slide: if sustained {
                base_slide
            } else {
                None
            },
        };
        let mut notes: Vec<PlayerNote> = Vec::new();
        notes.push(note);
        assert(player_note_views(notes@) =~= seq![note@]);
        return (notes, false);
    }
    let fs = match frets {
        Some(fs) => fs,
        None => {
            let notes: Vec<PlayerNote> = Vec::new();
            assert(player_note_views(notes@) =~= Seq::empty());
            return (notes, false);
        },
    };
    let mut notes: Vec<PlayerNote> = Vec::new();
    let n = fs.len();
    for i in 0..n
        invariant
            n == fs@.len(),
            ev == match extras {
                Some(e) => Some(extras_views(e@)),
                None => None,
            },
            base_slide == player_base_slide(slide_to, slide_unpitch_to),
            base@ == kinds_present(player_mask_order(), mask@),
            player_note_views(notes@) == player_chord_upto(base@, base_slide, fs@, ev, sustained, i as int),
    {
        if fs[i] >= 0 {
            let mut types = base.clone();
            let mut slide = base_slide;
            match extras {
                Some(es) => {
                    if i < es.len() {
                        let e = &es[i];
                        let extra = convert_note_mask(e.mask.as_slice());
                        let ghost before = types@;
                        types.append(&mut extra.clone());
                        assert(types@ == before + extra@);
                        if e.slide_to >= 0 {
                            slide = Some(PlayerSlide { to_fret: e.slide_to, slide_unpitched: false });
                        }
                        if e.slide_unpitch_to >= 0 {
                            slide = Some(PlayerSlide { to_fret: e.slide_unpitch_to, slide_unpitched: true });
                        }
                        assert(extras_views(es@)[i as int] == es@[i as int]@);
                    }
                },
                None => {},
            }
            let note = PlayerNote {
                string_num: i as i32,
                fret_num: fs[i],
                types,
                slide: if sustained {
                    slide
                } else {
                    None
                },
            };
            let ghost old_notes = notes@;
            notes.push(note);
            assert(player_note_views(notes@) =~= player_note_views(old_notes).push(note@));
        }
    }
    let ghost nv = player_note_views(notes@);
    let mut muted = true;
    let m = notes.len();
    for i in 0..m
        invariant
            m == notes@.len(),
            nv == player_note_views(notes@),
            muted == forall|j: int| 0 <= j < i ==> (#[trigger] nv[j]).2.contains(NoteType::Mute),
    {
        assert(nv[i as int] == notes@[i as int]@);
        if !has_player_kind(&notes[i].types, NoteType::Mute) {
            muted = false;
        }
    }
    (notes, muted)
}

// ---------------------------------------------------------------------------
// Block labels and fret windows
// ---------------------------------------------------------------------------

/// A chord's label: the text of its name field, or none when the chord is
/// unknown or its name is blank.
pub open spec fn chord_label(name: Option<Seq<u8>>) -> Option<Seq<char>> {
    match name {
        Some(n) => if zero_terminated_text(n).len() > 0 {
            Some(zero_terminated_text(n))
        } else {
            None
        },
        None => None,
    }
}

pub open spec fn label_view(label: Option<String>) -> Option<Seq<char>> {
    match label {
        Some(s) => Some(s@),
        None => None,
    }
}

pub open spec fn name_view(name: Option<&[u8]>) -> Option<Seq<u8>> {
    match name {
        Some(n) => Some(n@),
        None => None,
    }
}

fn chord_label_of(chord_name: Option<&[u8]>) -> (r: Option<String>)
    ensures
        label_view(r) == chord_label(name_view(chord_name)),
{
    match chord_name {
        Some(n) => decode_zero_terminated(n),
        None => None,
    }
}

/// The label and fret window of a block of the stored model: the label of the
/// note's chord (`chord_name` is the chord's name field, `None` when the note
/// has no known chord), and the anchor's fret and width, each raised to at
/// least 1.
pub fn model_block_frame(chord_name: Option<&[u8]>, anchor_fret: i32, anchor_width: i32) -> (r: (
    Option<String>,
    i32,
    i32,
))
    ensures
        label_view(r.0) == chord_label(name_view(chord_name)),
        r.1 == at_least_one(anchor_fret),
        r.2 == at_least_one(anchor_width),
{
    let start = if anchor_fret < 1 {
        1
    } else {
        anchor_fret
    };
    let width = if anchor_width < 1 {
        1
    } else {
        anchor_width
    };
    (chord_label_of(chord_name), start, width)
}

/// The player's fret-window width: a width below 1 stands for 4 frets.
pub open spec fn player_window_width(width: i32) -> i32 {
    if width < 1 {
        4
    } else {
        width
    }
}

/// The label and fret window of a block of the player: a chord note (its mask
/// has the chord flag) carries the label of its chord (`chord_name` is the
/// chord's name field, `None` when the chord is unknown), any other note none;
/// the window starts at the anchor's fret and spans the anchor's width, or 4
/// frets when that width is below 1.
pub fn player_block_frame(mask: &[SngMaskFlag], chord_name: Option<&[u8]>, anchor_fret: i32, anchor_width: i32) -> (r: (
    Option<String>,
    i32,
    i32,
))
    ensures
        label_view(r.0) == (if mask@.contains(SngMaskFlag::Chord) {
            chord_label(name_view(chord_name))
        } else {
            None
        }),
        r.1 == anchor_fret,
        r.2 == player_window_width(anchor_width),
{
    let label = if has_mask_flag(mask, SngMaskFlag::Chord) {
        chord_label_of(chord_name)
    } else {
        None
    };
    let width = if anchor_width < 1 {
        4
    } else {
        anchor_width
    };
    (label, anchor_fret, width)
}

// ---------------------------------------------------------------------------
// Arrangement levels
// ---------------------------------------------------------------------------

/// A fret-hand anchor of an arrangement level: from `time` (in milliseconds)
/// the hand covers `width` frets from `fret`.
#[derive(Debug, Clone, Copy, PartialEq, Eq, Structural)]
pub struct Anchor {
    pub time: i32,
    pub fret: i32,
    pub width: i32,
}

/// How many anchors at the start of `anchors` begin no later than `t`.
pub open spec fn leading_anchors(anchors: Seq<Anchor>, t: i32) -> nat
    decreases anchors.len(),
{
    if anchors.len() == 0 || anchors[0].time > t {
        0
    } else {
        1 + leading_anchors(anchors.drop_first(), t)
    }
}

pub open spec fn at_least_one(v: i32) -> i32 {
    if v < 1 {
        1
    } else {
        v
    }
}

/// The fret window at `t`: the last of the leading anchors that begin no
/// later than `t`, else the first anchor, else frets 1 to 4; start and width
/// are at least 1.
pub open spec fn window_for_time_spec(anchors: Seq<Anchor>, t: i32) -> (i32, i32) {
    let p = leading_anchors(anchors, t);
    if p > 0 {
        (at_least_one(anchors[p - 1].fret), at_least_one(anchors[p - 1].width))
    } else if anchors.len() > 0 {
        (at_least_one(anchors[0].fret), at_least_one(anchors[0].width))
    } else {
        (1, 4)
    }
}

proof fn lemma_leading_anchors(anchors: Seq<Anchor>, t: i32, p: int)
    requires
        0 <= p <= anchors.len(),
        forall|j: int| 0 <= j < p ==> (#[trigger] anchors[j]).time <= t,
        p == anchors.len() || anchors[p].time > t,
    ensures
        leading_anchors(anchors, t) == p,
    decreases anchors.len(),
{
    if anchors.len() > 0 && p > 0 {
        let d = anchors.drop_first();
        assert forall|j: int| 0 <= j < p - 1 implies (#[trigger] d[j]).time <= t by {
            assert(d[j] == anchors[j + 1]);
        }
        if p < anchors.len() {
            assert(d[p - 1] == anchors[p]);
        }
        lemma_leading_anchors(d, t, p - 1);
    }
}

/// The fret window (start, width) in force at `time_ms`.
/// The fret window at a time always starts at fret 1 or above and spans at
/// least one fret; with no anchors it is frets 1 to 4; otherwise it is the
/// window of an anchor, raised to at least 1: of the latest anchor among the
/// leading ones that begin no later than the time, or of the first anchor
/// when the first begins later.
pub proof fn window_comes_from_an_anchor(anchors: Seq<Anchor>, t: i32)
    ensures
        window_for_time_spec(anchors, t).0 >= 1,
        window_for_time_spec(anchors, t).1 >= 1,
        anchors.len() == 0 ==> window_for_time_spec(anchors, t) == (1i32, 4i32),
        anchors.len() > 0 ==> exists|k: int|
            0 <= k < anchors.len() && (k == 0 || anchors[k].time <= t) && (anchors[0].time <= t ==> anchors[k].time
                <= t) && #[trigger] window_for_time_spec(anchors, t) == (
                if anchors[k].fret < 1 {
                    1i32
                } else {
                    anchors[k].fret
                },
                if anchors[k].width < 1 {
                    1i32
                } else {
                    anchors[k].width
                },
            ),
{
    lemma_leading_prefix(anchors, t);
    let p = leading_anchors(anchors, t);
    if p > 0 {
        assert(window_for_time_spec(anchors, t) == (at_least_one(anchors[p - 1].fret), at_least_one(anchors[p - 1].width)));
    }
}

proof fn lemma_leading_prefix(anchors: Seq<Anchor>, t: i32)
    ensures
        leading_anchors(anchors, t) <= anchors.len(),
        forall|k: int| 0 <= k < leading_anchors(anchors, t) ==> #[trigger] anchors[k].time <= t,
        anchors.len() > 0 && anchors[0].time <= t ==> leading_anchors(anchors, t) > 0,
    decreases anchors.len(),
{
    if anchors.len() > 0 && anchors[0].time <= t {
        let rest = anchors.drop_first();
        lemma_leading_prefix(rest, t);
        assert forall|k: int| 0 <= k < leading_anchors(anchors, t) implies #[trigger] anchors[k].time <= t by {
            if k > 0 {
                assert(anchors[k] == rest[k - 1]);
            }
        }
    }
}

pub fn window_for_time(anchors: &[Anchor], time_ms: i32) -> (r: (i32, i32))
    ensures
        r == window_for_time_spec(anchors@, time_ms),
{
    let mut p: usize = 0;
    while p < anchors.len() && anchors[p].time <= time_ms
        invariant
            p <= anchors@.len(),
            forall|j: int| 0 <= j < p ==> (#[trigger] anchors@[j]).time <= time_ms,
        decreases anchors@.len() - p,
    {
        p = p + 1;
    }
    proof {
        lemma_leading_anchors(anchors@, time_ms, p as int);
    }
    let a = if p > 0 {
        anchors[p - 1]
    } else if anchors.len() > 0 {
        anchors[0]
    } else {
        return (1, 4);
    };
    (if a.fret < 1 {
        1
    } else {
        a.fret
    }, if a.width < 1 {
        1
    } else {
        a.width
    })
}

/// The notes of the first `k` strings of a chord template: one chord note
/// per string with a fret.
pub open spec fn template_upto(frets: Seq<i32>, k: int) -> Seq<(i32, i32, Seq<ParsedNoteType>, Option<SingleSlide>)>
    decreases k,
{
    if k <= 0 {
        Seq::empty()
    } else if frets[k - 1] >= 0 {
        template_upto(frets, k - 1).push(((k - 1) as i32, frets[k - 1], seq![ParsedNoteType::CHORD], None))
    } else {
        template_upto(frets, k - 1)
    }
}

/// The notes a chord template stands for: one chord note (kind `CHORD`, no
/// slide) per string whose fret is not negative.
pub fn template_notes(frets: &[i32]) -> (r: Vec<ModelNote>)
    requires
        frets@.len() <= i32::MAX,
    ensures
        model_note_views(r@) == template_upto(frets@, frets@.len() as int),
{
    let mut out: Vec<ModelNote> = Vec::new();
    let n = frets.len();
    for i in 0..n
        invariant
            n == frets@.len(),
            n <= i32::MAX,
            model_note_views(out@) == template_upto(frets@, i as int),
    {
        if frets[i] >= 0 {
            let note = ModelNote {
                string_num: i as i32,
                fret_num: frets[i],
                note_type: vec![ParsedNoteType::CHORD],
                slide: None,
            };
            let ghost old_out = out@;
            out.push(note);
            assert(note@.2 =~= seq![ParsedNoteType::CHORD]);
            assert(model_note_views(out@) =~= model_note_views(old_out).push(note@));
        }
    }
    out
}

// ---------------------------------------------------------------------------
// Choosing the notes of each phrase
// ---------------------------------------------------------------------------

/// `i` is the hardest level whose flag is set, the earliest of equally hard
/// ones.
pub open spec fn is_hardest_flagged(d: Seq<i32>, f: Seq<bool>, i: int) -> bool {
    &&& 0 <= i < d.len()
    &&& f[i]
    &&& forall|j: int| 0 <= j < d.len() && #[trigger] f[j] ==> d[j] < d[i] || (d[j] == d[i] && j >= i)
}

pub open spec fn hardest_flagged(d: Seq<i32>, f: Seq<bool>) -> Option<int> {
    if exists|i: int| 0 <= i < d.len() && f[i] {
        Some(choose|i: int| is_hardest_flagged(d, f, i))
    } else {
        None
    }
}

proof fn lemma_hardest_flagged(d: Seq<i32>, f: Seq<bool>, i: int)
    requires
        is_hardest_flagged(d, f, i),
    ensures
        hardest_flagged(d, f) == Some(i),
{
    let c = choose|c: int| is_hardest_flagged(d, f, c);
    assert(is_hardest_flagged(d, f, c));
    assert(f[c] && f[i]);
}

fn hardest_index(d: &[i32], f: &Vec<bool>) -> (r: Option<usize>)
    requires
        f@.len() == d@.len(),
    ensures
        match r {
            Some(i) => i < d@.len() && hardest_flagged(d@, f@) == Some(i as int),
            None => hardest_flagged(d@, f@) is None,
        },
{
    let mut best: Option<usize> = None;
    let n = d.len();
    for i in 0..n
        invariant
            n == d@.len(),
            f@.len() == n,
            match best {
                Some(b) => b < i && f@[b as int] && forall|j: int|
                    0 <= j < i && #[trigger] f@[j] ==> d@[j] < d@[b as int] || (d@[j] == d@[b as int] && j
                        >= b),
                None => forall|j: int| 0 <= j < i ==> !f@[j],
            },
    {
        if f[i] {
            match best {
                None => {
                    best = Some(i);
                },
                Some(b) => {
                    if d[i] > d[b] {
                        best = Some(i);
                    }
                },
            }
        }
    }
    proof {
        if let Some(b) = best {
            lemma_hardest_flagged(d@, f@, b as int);
        }
    }
    best
}

/// Whether level `l` has a note of phrase `p`.
pub open spec fn level_has_phrase(ids: Seq<Seq<i32>>, p: int) -> Seq<bool> {
    Seq::new(ids.len(), |l: int| exists|k: int| 0 <= k < ids[l].len() && ids[l][k] == p)
}

/// The notes (level `l`, note `k`) among the first `m` notes of level `l`
/// whose phrase is `p` (all of them when `p` is `None`), in order.
pub open spec fn notes_of_level(ids_l: Seq<i32>, l: int, p: Option<int>, m: int) -> Seq<(usize, usize)>
    decreases m,
{
    if m <= 0 {
        Seq::empty()
    } else {
        let prev = notes_of_level(ids_l, l, p, m - 1);
        if p is None || ids_l[m - 1] == p->0 {
            prev.push((l as usize, (m - 1) as usize))
        } else {
            prev
        }
    }
}

/// The notes shown for phrase `p`: those of the phrase in the hardest level
/// that has any.
pub open spec fn phrase_notes(d: Seq<i32>, ids: Seq<Seq<i32>>, p: int) -> Seq<(usize, usize)> {
    match hardest_flagged(d, level_has_phrase(ids, p)) {
        Some(l) => notes_of_level(ids[l], l, Some(p), ids[l].len() as int),
        None => Seq::empty(),
    }
}

pub open spec fn phrases_upto(d: Seq<i32>, ids: Seq<Seq<i32>>, count: int) -> Seq<(usize, usize)>
    decreases count,
{
    if count <= 0 {
        Seq::empty()
    } else {
        phrases_upto(d, ids, count - 1) + phrase_notes(d, ids, count - 1)
    }
}

/// The notes to show, as (level, note) positions: for each of the
/// `phrase_count` phrases in turn, its notes in the hardest level that has
/// any (the earliest of equally hard levels); without phrases, every note of
/// the hardest level.
pub open spec fn select_notes_spec(d: Seq<i32>, ids: Seq<Seq<i32>>, phrase_count: int) -> Seq<(usize, usize)> {
    if phrase_count == 0 {
        match hardest_flagged(d, Seq::new(d.len(), |l: int| true)) {
            Some(l) => notes_of_level(ids[l], l, None, ids[l].len() as int),
            None => Seq::empty(),
        }
    } else {
        phrases_upto(d, ids, phrase_count)
    }
}

fn push_level_notes(out: &mut Vec<(usize, usize)>, ids_l: &Vec<i32>, l: usize, p: Option<i32>)
    ensures
        final(out)@ == old(out)@ + notes_of_level(
            ids_l@,
            l as int,
            match p {
                Some(x) => Some(x as int),
                None => None,
            },
            ids_l@.len() as int,
        ),
{
    let ghost start = out@;
    let ghost pp: Option<int> = match p {
        Some(x) => Some(x as int),
        None => None,
    };
    let n = ids_l.len();
    for k in 0..n
        invariant
            n == ids_l@.len(),
            pp == match p {
                Some(x) => Some(x as int),
                None => None,
            },
            out@ == start + notes_of_level(ids_l@, l as int, pp, k as int),
    {
        let take = match p {
            Some(x) => ids_l[k] == x,
            None => true,
        };
        if take {
            out.push((l, k));
        }
        assert(out@ =~= start + notes_of_level(ids_l@, l as int, pp, k + 1));
    }
}

/// The notes to show of an arrangement whose levels have difficulties
/// `difficulties` and whose notes belong to the phrases `phrase_ids` (one list
/// per level), as `select_notes_spec` describes.
pub fn select_phrase_notes(difficulties: &[i32], phrase_ids: &Vec<Vec<i32>>, phrase_count: usize) -> (r: Vec<(usize, usize)>)
    requires
        phrase_ids@.len() == difficulties@.len(),
        phrase_count <= i32::MAX,
    ensures
        r@ == select_notes_spec(
            difficulties@,
            phrase_ids@.map_values(|v: Vec<i32>| v@),
            phrase_count as int,
        ),
{
    let ghost ids = phrase_ids@.map_values(|v: Vec<i32>| v@);
    let n = difficulties.len();
    let mut out: Vec<(usize, usize)> = Vec::new();
    if phrase_count == 0 {
        let mut all: Vec<bool> = Vec::new();
        for l in 0..n
            invariant
                n == difficulties@.len(),
                all@.len() == l,
                forall|j: int| 0 <= j < l ==> #[trigger] all@[j],
        {
            all.push(true);
        }
        assert(all@ =~= Seq::new(difficulties@.len(), |l: int| true));
        match hardest_index(difficulties, &all) {
            Some(l) => {
                assert(ids[l as int] == phrase_ids@[l as int]@);
                push_level_notes(&mut out, &phrase_ids[l], l, None);
                assert(out@ =~= notes_of_level(ids[l as int], l as int, None, ids[l as int].len() as int));
            },
            None => {},
        }
        return out;
    }
    for p in 0..phrase_count
        invariant
            n == difficulties@.len(),
            n == phrase_ids@.len(),
            phrase_count <= i32::MAX,
            ids == phrase_ids@.map_values(|v: Vec<i32>| v@),
            out@ == phrases_upto(difficulties@, ids, p as int),
    {
        let pi = p as i32;
        let mut has: Vec<bool> = Vec::new();
        for l in 0..n
            invariant
                n == difficulties@.len(),
                n == phrase_ids@.len(),
                pi == p as i32,
                p < phrase_count <= i32::MAX,
                ids == phrase_ids@.map_values(|v: Vec<i32>| v@),
                has@.len() == l,
                forall|j: int| 0 <= j < l ==> #[trigger] has@[j] == level_has_phrase(ids, p as int)[j],
        {
            let v = &phrase_ids[l];
            let mut found = false;
            let m = v.len();
            for k in 0..m
                invariant
                    m == v@.len(),
                    found == exists|q: int| 0 <= q < k && v@[q] == pi,
            {
                if v[k] == pi {
                    found = true;
                }
            }
            assert(ids[l as int] == v@);
            has.push(found);
        }
        assert(has@ =~= level_has_phrase(ids, p as int));
        let ghost before = out@;
        match hardest_index(difficulties, &has) {
            Some(l) => {
                assert(ids[l as int] == phrase_ids@[l as int]@);
                push_level_notes(&mut out, &phrase_ids[l], l, Some(pi));
            },
            None => {},
        }
        assert(out@ =~= before + phrase_notes(difficulties@, ids, p as int));
    }
    out
}

// ---------------------------------------------------------------------------
// Blocks that start together
// ---------------------------------------------------------------------------

/// `groups` lists block indices by key: one non-empty group per distinct key
/// of `keys`, groups in ascending key order, each holding every block with its
/// key in block order.
pub open spec fn is_grouping(keys: Seq<i64>, groups: Seq<Seq<usize>>) -> bool {
    &&& forall|g: int| 0 <= g < groups.len() ==> (#[trigger] groups[g]).len() > 0
    &&& forall|g: int, a: int|
        0 <= g < groups.len() && 0 <= a < groups[g].len() ==> (#[trigger] groups[g][a]) < keys.len() && keys[groups[g][a] as int]
            == keys[groups[g][0] as int]
    &&& forall|g: int, a: int, b: int|
        0 <= g < groups.len() && 0 <= a < b < groups[g].len() ==> #[trigger] groups[g][a] < #[trigger] groups[g][b]
    &&& forall|g: int, h: int|
        0 <= g < h < groups.len() ==> keys[(#[trigger] groups[g])[0] as int] < keys[(#[trigger] groups[h])[0] as int]
    &&& forall|i: int| 0 <= i < keys.len() ==> #[trigger] is_covered(groups, i)
}

/// Block `i` is in one of the groups.
pub open spec fn is_covered(groups: Seq<Seq<usize>>, i: int) -> bool {
    exists|g: int, a: int| 0 <= g < groups.len() && 0 <= a < groups[g].len() && #[trigger] groups[g][a] == i
}

spec fn covered_in(groups: Seq<Vec<usize>>, i: int) -> bool {
    exists|g: int, a: int| 0 <= g < groups.len() && 0 <= a < groups[g]@.len() && #[trigger] groups[g]@[a] == i
}

/// How many keys are above `l` (all of them when there is no `l`).
pub open spec fn count_above(keys: Seq<i64>, l: Option<i64>) -> nat
    decreases keys.len(),
{
    if keys.len() == 0 {
        0
    } else {
        count_above(keys.drop_last(), l) + if above(l, keys.last()) {
            1nat
        } else {
            0nat
        }
    }
}

proof fn lemma_count_above_drops(keys: Seq<i64>, l: Option<i64>, k: i64, w: int)
    requires
        above(l, k),
        0 <= w < keys.len(),
        keys[w] == k,
    ensures
        count_above(keys, Some(k)) < count_above(keys, l),
    decreases keys.len(),
{
    lemma_count_above_mono(keys.drop_last(), l, k);
    if w < keys.len() - 1 {
        lemma_count_above_drops(keys.drop_last(), l, k, w);
    }
}

proof fn lemma_count_above_mono(keys: Seq<i64>, l: Option<i64>, k: i64)
    requires
        above(l, k),
    ensures
        count_above(keys, Some(k)) <= count_above(keys, l),
    decreases keys.len(),
{
    if keys.len() > 0 {
        lemma_count_above_mono(keys.drop_last(), l, k);
    }
}

/// The blocks among the first `i` whose key is `k`, in order.
pub open spec fn indices_with(keys: Seq<i64>, k: i64, i: int) -> Seq<usize>
    decreases i,
{
    if i <= 0 {
        Seq::empty()
    } else if keys[i - 1] == k {
        indices_with(keys, k, i - 1).push((i - 1) as usize)
    } else {
        indices_with(keys, k, i - 1)
    }
}

proof fn lemma_indices_with(keys: Seq<i64>, k: i64, i: int)
    requires
        0 <= i <= keys.len(),
        keys.len() <= usize::MAX,
    ensures
        forall|a: int|
            0 <= a < indices_with(keys, k, i).len() ==> (#[trigger] indices_with(keys, k, i)[a]) < i
                && keys[indices_with(keys, k, i)[a] as int] == k,
        forall|a: int, b: int|
            0 <= a < b < indices_with(keys, k, i).len() ==> #[trigger] indices_with(keys, k, i)[a]
                < #[trigger] indices_with(keys, k, i)[b],
        forall|j: int| 0 <= j < i && keys[j] == k ==> #[trigger] indices_with(keys, k, i).contains(j as usize),
    decreases i,
{
    if i > 0 {
        lemma_indices_with(keys, k, i - 1);
        let prev = indices_with(keys, k, i - 1);
        let cur = indices_with(keys, k, i);
        if keys[i - 1] == k {
            assert(cur == prev.push((i - 1) as usize));
            assert forall|a: int| 0 <= a < cur.len() implies (#[trigger] cur[a]) < i && keys[cur[a] as int] == k by {
                if a < prev.len() {
                    assert(cur[a] == prev[a]);
                }
            }
            assert forall|a: int, b: int| 0 <= a < b < cur.len() implies #[trigger] cur[a] < #[trigger] cur[b] by {
                assert(cur[a] == prev[a]);
                if b < prev.len() {
                    assert(cur[b] == prev[b]);
                }
            }
            assert forall|j: int| 0 <= j < i && keys[j] == k implies #[trigger] cur.contains(j as usize) by {
                if j < i - 1 {
                    assert(prev.contains(j as usize));
                    let a = choose|a: int| 0 <= a < prev.len() && prev[a] == j as usize;
                    assert(cur[a] == j as usize);
                } else {
                    assert(cur[cur.len() - 1] == j as usize);
                }
            }
        } else {
            assert(cur == prev);
            assert forall|j: int| 0 <= j < i && keys[j] == k implies #[trigger] cur.contains(j as usize) by {
                assert(j < i - 1);
                assert(prev.contains(j as usize));
            }
        }
    }
}

fn indices_of_key(keys: &[i64], k: i64) -> (r: Vec<usize>)
    ensures
        r@ == indices_with(keys@, k, keys@.len() as int),
{
    let mut group: Vec<usize> = Vec::new();
    let n = keys.len();
    let mut i: usize = 0;
    while i < n
        invariant
            n == keys@.len(),
            i <= n,
            group@ == indices_with(keys@, k, i as int),
        decreases n - i,
    {
        if keys[i] == k {
            group.push(i);
        }
        i = i + 1;
    }
    group
}

pub open spec fn above(last: Option<i64>, v: i64) -> bool {
    match last {
        Some(l) => v > l,
        None => true,
    }
}

/// The smallest key above `last` (any key when there is no `last`), with a
/// block that has it.
fn next_key(keys: &[i64], last: Option<i64>) -> (r: Option<(i64, usize)>)
    ensures
        match r {
            Some((b, w)) => {
                &&& w < keys@.len()
                &&& keys@[w as int] == b
                &&& above(last, b)
                &&& forall|j: int| 0 <= j < keys@.len() && above(last, #[trigger] keys@[j]) ==> b <= keys@[j]
            },
            None => forall|j: int| 0 <= j < keys@.len() ==> !above(last, #[trigger] keys@[j]),
        },
{
    let mut found = false;
    let mut b: i64 = 0;
    let mut w: usize = 0;
    let n = keys.len();
    let mut i: usize = 0;
    while i < n
        invariant
            n == keys@.len(),
            i <= n,
            found ==> w < n && keys@[w as int] == b && above(last, b),
            found ==> forall|j: int| 0 <= j < i && above(last, #[trigger] keys@[j]) ==> b <= keys@[j],
            !found ==> forall|j: int| 0 <= j < i ==> !above(last, #[trigger] keys@[j]),
        decreases n - i,
    {
        let up = match last {
            Some(l) => keys[i] > l,
            None => true,
        };
        assert(up == above(last, keys@[i as int]));
        if up && (!found || keys[i] < b) {
            found = true;
            b = keys[i];
            w = i;
        }
        i = i + 1;
    }
    if found {
        Some((b, w))
    } else {
        None
    }
}

/// Groups block indices by their keys (start times in whole milliseconds), as
/// `is_grouping` describes.
pub fn group_by_key(keys: &[i64]) -> (r: Vec<Vec<usize>>)
    ensures
        is_grouping(keys@, r@.map_values(|g: Vec<usize>| g@)),
{
    let n = keys.len();
    let mut groups: Vec<Vec<usize>> = Vec::new();
    let mut last: Option<i64> = None;
    let mut more = true;
    while more
        invariant
            n == keys@.len(),
            last is None <==> groups@.len() == 0,
            forall|g: int| 0 <= g < groups@.len() ==> (#[trigger] groups@[g])@.len() > 0,
            forall|g: int, a: int|
                0 <= g < groups@.len() && 0 <= a < groups@[g]@.len() ==> (#[trigger] groups@[g]@[a]) < n
                    && keys@[groups@[g]@[a] as int] == keys@[groups@[g]@[0] as int],
            forall|g: int, a: int, b: int|
                0 <= g < groups@.len() && 0 <= a < b < groups@[g]@.len() ==> #[trigger] groups@[g]@[a]
                    < #[trigger] groups@[g]@[b],
            forall|g: int, h: int|
                0 <= g < h < groups@.len() ==> keys@[(#[trigger] groups@[g])@[0] as int] < keys@[(
                #[trigger] groups@[h])@[0] as int],
            last matches Some(l) ==> keys@[groups@[groups@.len() - 1]@[0] as int] == l,
            forall|i: int|
                0 <= i < n && (last matches Some(l) && keys@[i] <= l) ==> #[trigger] covered_in(groups@, i),
            !more ==> forall|i: int| 0 <= i < n ==> !above(last, #[trigger] keys@[i]),
        decreases count_above(keys@, last) + if more {
            1nat
        } else {
            0nat
        },
    {
        match next_key(keys, last) {
            None => {
                more = false;
            },
            Some((k, witness)) => {
                let group = indices_of_key(keys, k);
                proof {
                    lemma_indices_with(keys@, k, n as int);
                    assert(indices_with(keys@, k, n as int).contains((witness as int) as usize));
                    assert(group@.contains(witness));
                    lemma_count_above_drops(keys@, last, k, witness as int);
                }
                let ghost old_groups = groups@;
                let ghost old_last = last;
                groups.push(group);
                last = Some(k);
                proof {
                    let gs = groups@;
                    let t = gs.len() - 1;
                    assert(gs[t]@ == group@);
                    assert(group@[0] < n && keys@[group@[0] as int] == k);
                    assert forall|g: int| 0 <= g < gs.len() implies (#[trigger] gs[g])@.len() > 0 by {
                        if g < t {
                            assert(gs[g] == old_groups[g]);
                        }
                    }
                    assert forall|g: int, a: int| 0 <= g < gs.len() && 0 <= a < gs[g]@.len() implies (#[trigger] gs[g]@[a]) < n
                        && keys@[gs[g]@[a] as int] == keys@[gs[g]@[0] as int] by {
                        if g < t {
                            assert(gs[g] == old_groups[g]);
                        }
                    }
                    assert forall|g: int, a: int, b: int| 0 <= g < gs.len() && 0 <= a < b < gs[g]@.len() implies #[trigger] gs[g]@[a]
                        < #[trigger] gs[g]@[b] by {
                        if g < t {
                            assert(gs[g] == old_groups[g]);
                        }
                    }
                    assert forall|g: int, h: int| 0 <= g < h < gs.len() implies keys@[(#[trigger] gs[g])@[0] as int]
                        < keys@[(#[trigger] gs[h])@[0] as int] by {
                        assert(gs[g] == old_groups[g]);
                        if h == t {
                            let l = old_last->0;
                            assert(keys@[old_groups[old_groups.len() - 1]@[0] as int] == l);
                            if g < old_groups.len() - 1 {
                                assert(keys@[old_groups[g]@[0] as int] < keys@[old_groups[old_groups.len() - 1]@[0] as int]);
                            }
                        } else {
                            assert(gs[h] == old_groups[h]);
                        }
                    }
                    assert forall|i: int| 0 <= i < n && (last matches Some(l) && keys@[i] <= l) implies #[trigger] covered_in(gs, i) by {
                        if keys@[i] == k {
                            assert(group@.contains(i as usize));
                            let a = choose|a: int| 0 <= a < group@.len() && group@[a] == i as usize;
                            assert(gs[t]@[a] == i);
                        } else {
                            assert(keys@[i] < k);
                            if above(old_last, keys@[i]) {
                                assert(k <= keys@[i]);
                            }
                            assert(covered_in(old_groups, i));
                            let (g, a) = choose|g: int, a: int|
                                0 <= g < old_groups.len() && 0 <= a < old_groups[g]@.len() && #[trigger] old_groups[g]@[a] == i;
                            assert(gs[g] == old_groups[g]);
                            assert(gs[g]@[a] == i);
                        }
                    }
                }
            },
        }
    }
    proof {
        let gv = groups@.map_values(|g: Vec<usize>| g@);
        assert forall|i: int| 0 <= i < keys@.len() implies #[trigger] is_covered(gv, i) by {
            assert(!above(last, keys@[i]));
            assert(covered_in(groups@, i));
            let (g, a) = choose|g: int, a: int|
                0 <= g < groups@.len() && 0 <= a < groups@[g]@.len() && #[trigger] groups@[g]@[a] == i;
            assert(gv[g] == groups@[g]@);
            assert(gv[g][a] == i);
        }
        assert forall|g: int| 0 <= g < gv.len() implies (#[trigger] gv[g]).len() > 0 by {
            assert(gv[g] == groups@[g]@);
        }
        assert forall|g: int, h: int| 0 <= g < h < gv.len() implies keys@[(#[trigger] gv[g])[0] as int]
            < keys@[(#[trigger] gv[h])[0] as int] by {
            assert(gv[g] == groups@[g]@);
            assert(gv[h] == groups@[h]@);
        }
        assert forall|g: int, a: int| 0 <= g < gv.len() && 0 <= a < gv[g].len() implies (#[trigger] gv[g][a]) < keys@.len()
            && keys@[gv[g][a] as int] == keys@[gv[g][0] as int] by {
            assert(gv[g] == groups@[g]@);
        }
        assert forall|g: int, a: int, b: int| 0 <= g < gv.len() && 0 <= a < b < gv[g].len() implies #[trigger] gv[g][a]
            < #[trigger] gv[g][b] by {
            assert(gv[g] == groups@[g]@);
        }
    }
    groups
}

/// Whether the blocks of a group become one block: there are several and each
/// holds a single note (`note_counts` gives each block's number of notes).
pub fn merges_into_one(group: &[usize], note_counts: &[usize]) -> (r: bool)
    requires
        forall|a: int| 0 <= a < group@.len() ==> (#[trigger] group@[a]) < note_counts@.len(),
    ensures
        r == (group@.len() > 1 && forall|a: int|
            0 <= a < group@.len() ==> note_counts@[(#[trigger] group@[a]) as int] == 1),
{
    if group.len() <= 1 {
        return false;
    }
    let n = group.len();
    let mut i: usize = 0;
    while i < n
        invariant
            n == group@.len(),
            i <= n,
            forall|a: int| 0 <= a < group@.len() ==> (#[trigger] group@[a]) < note_counts@.len(),
            forall|a: int| 0 <= a < i ==> note_counts@[(#[trigger] group@[a]) as int] == 1,
        decreases n - i,
    {
        if note_counts[group[i]] != 1 {
            return false;
        }
        i = i + 1;
    }
    true
}

/// How many strings an instrument known only from its notes has: one more
/// than the highest string a note uses (6 without notes), kept between 4 and
/// 7.
pub open spec fn string_count_spec(string_nums: Seq<i32>) -> int {
    let highest = if string_nums.len() == 0 {
        6
    } else {
        max_string_plus_one(string_nums)
    };
    if highest < 4 {
        4
    } else if highest > 7 {
        7
    } else {
        highest
    }
}

/// The largest `max(s, 0) + 1` over the string numbers (0 when there are none).
pub open spec fn max_string_plus_one(string_nums: Seq<i32>) -> int
    decreases string_nums.len(),
{
    if string_nums.len() == 0 {
        0
    } else {
        let last = if string_nums.last() < 0 {
            1
        } else {
            string_nums.last() + 1
        };
        let rest = max_string_plus_one(string_nums.drop_last());
        if last > rest {
            last
        } else {
            rest
        }
    }
}

/// The number of strings of an instrument whose notes use the strings
/// `string_nums`.
pub fn tuning_string_count(string_nums: &[i32]) -> (r: usize)
    ensures
        r as int == string_count_spec(string_nums@),
{
    if string_nums.len() == 0 {
        return 6;
    }
    let mut highest: i64 = 0;
    let n = string_nums.len();
    for i in 0..n
        invariant
            n == string_nums@.len(),
            highest as int == max_string_plus_one(string_nums@.take(i as int)),
            0 <= highest <= i32::MAX as int + 1,
    {
        assert(string_nums@.take(i + 1).drop_last() == string_nums@.take(i as int));
        let s = string_nums[i];
        let v: i64 = if s < 0 {
            1
        } else {
            s as i64 + 1
        };
        if v > highest {
            highest = v;
        }
    }
    assert(string_nums@.take(n as int) == string_nums@);
    if highest < 4 {
        4
    } else if highest > 7 {
        7
    } else {
        highest as usize
    }
}

} // verus!
