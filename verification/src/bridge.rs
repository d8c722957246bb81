//! Song-pick and chart helpers of the Godot front end: tuning names of any
//! string count, the parts column, note symbols and chord identity on the
//! stored note model.
use vstd::prelude::*;
use crate::gd_models::{join_comma, named_tuning, note_names, string_offsets};
use crate::numbers::{decimal, decimal_chars, decimal_signed, decimal_chars_signed};
use crate::ordering::{stable_sort_by_text, stable_sorted_by_text, views_of, TextKeyed};
use crate::archive_paths::{dedup_adjacent, dedup_strings};
use crate::parser_models::{NoteBlockFlags, NoteType};
use crate::text::{chars_eq, chars_of, has_infix, has_infix_chars, lower_chars, lower_seq, lower_str, push_all, string_of, to_lowercase, unicode_lowercase};

verus! {

// ---------------------------------------------------------------------------
// Tuning names
// ---------------------------------------------------------------------------

/// The note of string `index` tuned `offset` semitones away; strings past the
/// sixth count from E, and the sixth is written in lowercase.
pub open spec fn string_note_spec(index: int, offset: int) -> Seq<char> {
    let base = if index < 6 {
        string_offsets()[index]
    } else {
        0
    };
    let n = note_names()[(base + offset) % 12];
    if index == 5 {
        lower_seq(n)
    } else {
        n
    }
}

/// A tuning's name for any number of strings: a common six-string name, or
/// the notes joined by `,`.
pub open spec fn tuning_name_any_spec(t: Seq<i16>) -> Seq<char> {
    match named_tuning(t) {
        Some(n) => n,
        None => join_comma(Seq::new(t.len(), |i: int| string_note_spec(i, t[i] as int))),
    }
}

fn note_text(k: usize) -> (r: &'static str)
    requires
        k < 12,
    ensures
        r@ == note_names()[k as int],
{
    match k {
        0 => "E",
        1 => "F",
        2 => "Gb",
        3 => "G",
        4 => "Ab",
        5 => "A",
        6 => "Bb",
        7 => "B",
        8 => "C",
        9 => "Db",
        10 => "D",
        _ => "Eb",
    }
}

fn string_note(index: usize, offset: i16) -> (r: Vec<char>)
    ensures
        r@ == string_note_spec(index as int, offset as int),
{
    let base: i32 = match index {
        0 => 0,
        1 => 5,
        2 => 10,
        3 => 3,
        4 => 7,
        _ => 0,
    };
    let pos: i32 = base + offset as i32;
    let rem = pos % 12;
    let k = (if rem < 0 {
        rem + 12
    } else {
        rem
    }) as usize;
    assert(k as int == pos as int % 12);
    let name = chars_of(note_text(k));
    if index == 5 {
        lower_chars(&name)
    } else {
        name
    }
}

fn pattern_is(t: &[i16], a: i16, b: i16) -> (r: bool)
    ensures
        r == crate::gd_models::is_pattern(t@, a as int, b as int),
{
    t.len() == 6 && t[0] == a && t[1] == b && t[2] == b && t[3] == b && t[4] == b && t[5] == b
}

/// The name of a tuning with any number of strings.
pub fn calc_tuning_name(tuning: &[i16]) -> (r: String)
    ensures
        r@ == tuning_name_any_spec(tuning@),
{
    if pattern_is(tuning, 1, 1) {
        return String::from_str("F Standard");
    }
    if pattern_is(tuning, 0, 0) {
        return String::from_str("E Standard");
    }
    if pattern_is(tuning, -2, 0) {
        return String::from_str("Drop D");
    }
    if pattern_is(tuning, -1, -1) {
        return String::from_str("Eb Standard");
    }
    if pattern_is(tuning, -3, -1) {
        return String::from_str("Eb Drop Db");
    }
    if pattern_is(tuning, -2, -2) {
        return String::from_str("D Standard");
    }
    if pattern_is(tuning, -4, -2) {
        return String::from_str("D Drop C");
    }
    if pattern_is(tuning, -3, -3) {
        return String::from_str("Db Standard");
    }
    if pattern_is(tuning, -5, -3) {
        return String::from_str("Db Drop B");
    }
    if pattern_is(tuning, -4, -4) {
        return String::from_str("C Standard");
    }
    if pattern_is(tuning, -6, -4) {
        return String::from_str("C Drop Bb");
    }
    if pattern_is(tuning, -5, -5) {
        return String::from_str("B Standard");
    }
    assert(named_tuning(tuning@) is None);
    let n = tuning.len();
    let ghost parts = Seq::new(n as nat, |i: int| string_note_spec(i, tuning@[i] as int));
    let mut out: Vec<char> = Vec::new();
    for i in 0..n
        invariant
            n == tuning@.len(),
            parts == Seq::new(n as nat, |i: int| string_note_spec(i, tuning@[i] as int)),
            out@ == join_comma(parts.take(i as int)),
    {
        let nc = string_note(i, tuning[i]);
        let ghost before = out@;
        if i > 0 {
            out.push(',');
        }
        push_all(&mut out, &nc);
        proof {
            let t = parts.take(i + 1);
            assert(t.drop_last() == parts.take(i as int));
            assert(t.last() == nc@);
            if i == 0 {
                assert(out@ =~= nc@);
                assert(t.len() == 1);
            } else {
                assert(out@ =~= before + seq![','] + nc@);
            }
        }
    }
    assert(parts.take(n as int) == parts);
    string_of(&out)
}

// ---------------------------------------------------------------------------
// Instrument names
// ---------------------------------------------------------------------------

/// Tracks that are not shown as playable parts.
pub open spec fn is_hidden_instrument_name_spec(name: Seq<char>) -> bool {
    lower_seq(name) == "showlights"@ || lower_seq(name) == "vocals"@
}

pub fn is_hidden_instrument_name(name: &str) -> (r: bool)
    ensures
        r == is_hidden_instrument_name_spec(name@),
{
    let l = lower_str(name);
    chars_eq(&l, &chars_of("showlights")) || chars_eq(&l, &chars_of("vocals"))
}

pub open spec fn is_lead(n: Seq<char>) -> bool {
    lower_seq(n) == "lead"@ || lower_seq(n) == "lead1"@ || lower_seq(n) == "lead2"@
}

pub open spec fn is_rhythm(n: Seq<char>) -> bool {
    lower_seq(n) == "rhythm"@ || lower_seq(n) == "rhythm1"@ || lower_seq(n) == "rhythm2"@
}

pub open spec fn is_bass(n: Seq<char>) -> bool {
    lower_seq(n) == "bass"@ || lower_seq(n) == "bass1"@ || lower_seq(n) == "bass2"@
}

pub open spec fn count_unlisted(names: Seq<Seq<char>>) -> nat
    decreases names.len(),
{
    if names.len() == 0 {
        0
    } else {
        count_unlisted(names.drop_last()) + if is_lead(names.last()) || is_rhythm(names.last()) || is_bass(
            names.last(),
        ) {
            0nat
        } else {
            1nat
        }
    }
}

/// The parts column of the song list: `L`, `R`, `B` for lead, rhythm and bass
/// parts (names compared in ASCII lowercase), `V` for lyrics with words, then
/// the first digit of the number of other parts.
pub open spec fn song_parts_spec(names: Seq<Seq<char>>, word_count: Option<usize>) -> Seq<char> {
    seq![
        if exists|i: int| 0 <= i < names.len() && is_lead(#[trigger] names[i]) { 'L' } else { ' ' },
        if exists|i: int| 0 <= i < names.len() && is_rhythm(#[trigger] names[i]) { 'R' } else { ' ' },
        if exists|i: int| 0 <= i < names.len() && is_bass(#[trigger] names[i]) { 'B' } else { ' ' },
        if word_count matches Some(w) && w > 0 { 'V' } else { ' ' },
        if count_unlisted(names) > 0 { decimal(count_unlisted(names))[0] } else { ' ' },
    ]
}

fn lower_in(l: &Vec<char>, a: &str, b: &str, c: &str) -> (r: bool)
    ensures
        r == (l@ == a@ || l@ == b@ || l@ == c@),
{
    chars_eq(l, &chars_of(a)) || chars_eq(l, &chars_of(b)) || chars_eq(l, &chars_of(c))
}

/// The parts column for a song whose instruments are named `names` and whose
/// lyrics have `word_count` words (`None` without lyrics).
pub fn song_parts_text(names: &[String], word_count: Option<usize>) -> (r: String)
    ensures
        r@ == song_parts_spec(views_of(names@), word_count),
{
    let ghost v = views_of(names@);
    let mut lead = false;
    let mut rhythm = false;
    let mut bass = false;
    let mut other: usize = 0;
    let n = names.len();
    for i in 0..n
        invariant
            n == names@.len(),
            v == views_of(names@),
            lead == exists|j: int| 0 <= j < i && is_lead(#[trigger] v[j]),
            rhythm == exists|j: int| 0 <= j < i && is_rhythm(#[trigger] v[j]),
            bass == exists|j: int| 0 <= j < i && is_bass(#[trigger] v[j]),
            other == count_unlisted(v.take(i as int)),
            other <= i,
    {
        let l = lower_str(names[i].as_str());
        assert(v[i as int] == names@[i as int]@);
        let a = lower_in(&l, "lead", "lead1", "lead2");
        let b = lower_in(&l, "rhythm", "rhythm1", "rhythm2");
        let c = lower_in(&l, "bass", "bass1", "bass2");
        if a {
            lead = true;
        }
        if b {
            rhythm = true;
        }
        if c {
            bass = true;
        }
        assert(v.take(i + 1).drop_last() == v.take(i as int));
        if !(a || b || c) {
            other = other + 1;
        }
    }
    assert(v.take(n as int) == v);
    let mut out: Vec<char> = Vec::new();
    out.push(if lead { 'L' } else { ' ' });
    out.push(if rhythm { 'R' } else { ' ' });
    out.push(if bass { 'B' } else { ' ' });
    let has_words = match word_count {
        Some(w) => w > 0,
        None => false,
    };
    out.push(if has_words { 'V' } else { ' ' });
    if other > 0 {
        let d = decimal_chars(other as u128);
        proof {
            crate::numbers::lemma_decimal_value(other as nat);
        }
        out.push(d[0]);
    } else {
        out.push(' ');
    }
    assert(out@ =~= song_parts_spec(v, word_count));
    string_of(&out)
}

// ---------------------------------------------------------------------------
// Note symbols
// ---------------------------------------------------------------------------

/// The largest of `steps`, 0 when there are none.
pub open spec fn max_or_zero(steps: Seq<i32>) -> int
    decreases steps.len(),
{
    if steps.len() == 0 {
        0
    } else if steps.len() == 1 {
        steps[0] as int
    } else {
        let m = max_or_zero(steps.drop_last());
        if steps.last() > m {
            steps.last() as int
        } else {
            m
        }
    }
}

pub open spec fn mark(present: bool, c: char) -> Seq<char> {
    if present {
        seq![c]
    } else {
        Seq::empty()
    }
}

/// The symbol text drawn next to a note: `h`, `p`, `b<largest step>` for a
/// bend, `L`, `x` (mute or palm mute), `T`, `H`, `o`, `.`.
pub open spec fn note_symbol_text_spec(types: Seq<NoteType>, bend_steps: Seq<i32>) -> Seq<char> {
    mark(types.contains(NoteType::HAMMERON), 'h') + mark(types.contains(NoteType::PULLOFF), 'p') + (
    if types.contains(NoteType::BEND) {
        seq!['b'] + decimal_signed(max_or_zero(bend_steps))
    } else {
        Seq::empty()
    }) + mark(types.contains(NoteType::LEFTHAND), 'L') + mark(
        types.contains(NoteType::MUTE) || types.contains(NoteType::PALMMUTE),
        'x',
    ) + mark(types.contains(NoteType::TAP), 'T') + mark(types.contains(NoteType::HARMONIC), 'H') + mark(
        types.contains(NoteType::PINCHHARMONIC),
        'o',
    ) + mark(types.contains(NoteType::FRETHANDMUTE), '.')
}

fn has_kind(types: &[NoteType], t: NoteType) -> (r: bool)
    ensures
        r == types@.contains(t),
{
    let n = types.len();
    for i in 0..n
        invariant
            n == types@.len(),
            forall|j: int| 0 <= j < i ==> types@[j] != t,
    {
        if types[i] == t {
            assert(types@[i as int] == t);
            return true;
        }
    }
    false
}

fn push_mark(out: &mut Vec<char>, present: bool, c: char)
    ensures
        final(out)@ == old(out)@ + mark(present, c),
{
    if present {
        out.push(c);
    }
    assert(final(out)@ =~= old(out)@ + mark(present, c));
}

fn largest_step(steps: &[i32]) -> (r: i32)
    ensures
        r as int == max_or_zero(steps@),
{
    let n = steps.len();
    if n == 0 {
        return 0;
    }
    let mut m = steps[0];
    assert(steps@.take(1).drop_last().len() == 0);
    for i in 1..n
        invariant
            n == steps@.len(),
            n >= 1,
            m as int == max_or_zero(steps@.take(i as int)),
    {
        assert(steps@.take(i + 1).drop_last() == steps@.take(i as int));
        if steps[i] > m {
            m = steps[i];
        }
    }
    assert(steps@.take(n as int) == steps@);
    m
}

/// The symbol text for a note with techniques `types` whose bends have the
/// (whole) steps `bend_steps`.
pub fn note_symbol_text(types: &[NoteType], bend_steps: &[i32]) -> (r: String)
    ensures
        r@ == note_symbol_text_spec(types@, bend_steps@),
{
    let mut out: Vec<char> = Vec::new();
    push_mark(&mut out, has_kind(types, NoteType::HAMMERON), 'h');
    push_mark(&mut out, has_kind(types, NoteType::PULLOFF), 'p');
    let ghost before = out@;
    if has_kind(types, NoteType::BEND) {
        out.push('b');
        let d = decimal_chars_signed(largest_step(bend_steps) as i64);
        push_all(&mut out, &d);
    }
    assert(out@ =~= before + if types@.contains(NoteType::BEND) {
        seq!['b'] + decimal_signed(max_or_zero(bend_steps@))
    } else {
        Seq::empty()
    });
    push_mark(&mut out, has_kind(types, NoteType::LEFTHAND), 'L');
    push_mark(&mut out, has_kind(types, NoteType::MUTE) || has_kind(types, NoteType::PALMMUTE), 'x');
    push_mark(&mut out, has_kind(types, NoteType::TAP), 'T');
    push_mark(&mut out, has_kind(types, NoteType::HARMONIC), 'H');
    push_mark(&mut out, has_kind(types, NoteType::PINCHHARMONIC), 'o');
    push_mark(&mut out, has_kind(types, NoteType::FRETHANDMUTE), '.');
    assert(out@ =~= note_symbol_text_spec(types@, bend_steps@));
    string_of(&out)
}

// ---------------------------------------------------------------------------
// The song list's filters
// ---------------------------------------------------------------------------

pub open spec fn is_first_main(names: Seq<Seq<char>>, is_main: Seq<bool>, i: int) -> bool {
    &&& 0 <= i < names.len()
    &&& !is_hidden_instrument_name_spec(names[i]) && is_main[i]
    &&& forall|j: int| 0 <= j < i ==> !(!is_hidden_instrument_name_spec(#[trigger] names[j]) && is_main[j])
}

pub open spec fn is_first_shown(names: Seq<Seq<char>>, i: int) -> bool {
    &&& 0 <= i < names.len()
    &&& !is_hidden_instrument_name_spec(names[i])
    &&& forall|j: int| 0 <= j < i ==> is_hidden_instrument_name_spec(#[trigger] names[j])
}

/// The part a song is shown by: the first shown part marked as main, else
/// the first shown part (none when every part is hidden).
pub open spec fn main_part_spec(names: Seq<Seq<char>>, is_main: Seq<bool>) -> Option<int> {
    if exists|i: int| is_first_main(names, is_main, i) {
        Some(choose|i: int| is_first_main(names, is_main, i))
    } else if exists|i: int| is_first_shown(names, i) {
        Some(choose|i: int| is_first_shown(names, i))
    } else {
        None
    }
}

/// The part a song with parts `names` (`is_main` marking the main one) is
/// shown by, as `main_part_spec` describes.
pub fn main_part_index(names: &[String], is_main: &[bool]) -> (r: Option<usize>)
    requires
        is_main@.len() == names@.len(),
    ensures
        match r {
            Some(i) => main_part_spec(views_of(names@), is_main@) == Some(i as int),
            None => main_part_spec(views_of(names@), is_main@) is None,
        },
{
    let ghost v = views_of(names@);
    let n = names.len();
    let mut first_shown: Option<usize> = None;
    for i in 0..n
        invariant
            n == names@.len(),
            n == is_main@.len(),
            v == views_of(names@),
            forall|j: int| 0 <= j < i ==> !(!is_hidden_instrument_name_spec(#[trigger] v[j]) && is_main@[j]),
            match first_shown {
                Some(f) => f < i && is_first_shown(v, f as int),
                None => forall|j: int| 0 <= j < i ==> is_hidden_instrument_name_spec(#[trigger] v[j]),
            },
    {
        assert(v[i as int] == names@[i as int]@);
        let hidden = is_hidden_instrument_name(names[i].as_str());
        if !hidden && is_main[i] {
            proof {
                assert(is_first_main(v, is_main@, i as int));
                let c = choose|c: int| is_first_main(v, is_main@, c);
                if c < i {
                    assert(!(!is_hidden_instrument_name_spec(v[c]) && is_main@[c]));
                } else if c > i {
                    assert(!(!is_hidden_instrument_name_spec(v[i as int]) && is_main@[i as int]));
                }
            }
            return Some(i);
        }
        if !hidden && first_shown.is_none() {
            first_shown = Some(i);
        }
    }
    proof {
        assert(!exists|i: int| is_first_main(v, is_main@, i));
    }
    match first_shown {
        Some(f) => {
            proof {
                let c = choose|c: int| is_first_shown(v, c);
                assert(is_first_shown(v, c));
                if c < f {
                    assert(is_hidden_instrument_name_spec(v[c]));
                } else if c > f {
                    assert(is_hidden_instrument_name_spec(v[f as int]));
                }
            }
            Some(f)
        },
        None => {
            proof {
                assert(!exists|i: int| is_first_shown(v, i)) by {
                    if exists|i: int| is_first_shown(v, i) {
                        let i = choose|i: int| is_first_shown(v, i);
                        assert(is_hidden_instrument_name_spec(v[i]));
                    }
                }
            }
            None
        },
    }
}

/// Whether the search text occurs, ignoring case, in the song's
/// "artist name album" line; every song matches an empty search.
pub open spec fn search_hit(search: Seq<char>, artist: Seq<char>, song_name: Seq<char>, album: Seq<char>) -> bool {
    search.len() == 0 || has_infix(
        unicode_lowercase(artist + seq![' '] + song_name + seq![' '] + album),
        unicode_lowercase(search),
    )
}

/// Whether a song shows in the song list: it matches the search, it has a
/// shown part, that part's tuning has the chosen name (when one is chosen),
/// and a part played with a capo shows only while capo songs are shown.
pub open spec fn song_visible_spec(
    search: Seq<char>,
    tuning_filter: Seq<char>,
    show_capo: bool,
    artist: Seq<char>,
    song_name: Seq<char>,
    album: Seq<char>,
    names: Seq<Seq<char>>,
    is_main: Seq<bool>,
    tunings: Seq<Seq<i16>>,
    has_capo: Seq<bool>,
) -> bool {
    &&& search_hit(search, artist, song_name, album)
    &&& match main_part_spec(names, is_main) {
        Some(i) => (tuning_filter.len() == 0 || tuning_name_any_spec(tunings[i]) == tuning_filter) && (show_capo
            || !has_capo[i]),
        None => false,
    }
}

/// The song list's "artist song album" line of a song.
pub open spec fn listing_line(artist: Seq<char>, song_name: Seq<char>, album: Seq<char>) -> Seq<char> {
    artist + seq![' '] + song_name + seq![' '] + album
}

/// What the filters do: a song whose lowercased "artist song album" line does
/// not contain the lowercased (non-empty) search text is hidden, whatever the
/// tuning filter and capo setting; a shown song has a shown part, whose tuning
/// has the chosen name when a tuning filter is chosen, and which is played
/// without capo unless capo songs are shown.
pub proof fn filters_hide_songs(
    search: Seq<char>,
    tuning_filter: Seq<char>,
    show_capo: bool,
    artist: Seq<char>,
    song_name: Seq<char>,
    album: Seq<char>,
    names: Seq<Seq<char>>,
    is_main: Seq<bool>,
    tunings: Seq<Seq<i16>>,
    has_capo: Seq<bool>,
)
    ensures
        search.len() > 0 && (forall|k: int|
            0 <= k && k + unicode_lowercase(search).len() <= unicode_lowercase(listing_line(artist, song_name, album)).len()
                ==> #[trigger] unicode_lowercase(listing_line(artist, song_name, album)).subrange(
                k,
                k + unicode_lowercase(search).len(),
            ) != unicode_lowercase(search)) ==> !song_visible_spec(
            search,
            tuning_filter,
            show_capo,
            artist,
            song_name,
            album,
            names,
            is_main,
            tunings,
            has_capo,
        ),
        song_visible_spec(search, tuning_filter, show_capo, artist, song_name, album, names, is_main, tunings, has_capo)
            ==> match main_part_spec(names, is_main) {
            Some(i) => (tuning_filter.len() > 0 ==> tuning_name_any_spec(tunings[i]) == tuning_filter) && (!show_capo
                ==> !has_capo[i]),
            None => false,
        },
{
    let h = unicode_lowercase(listing_line(artist, song_name, album));
    let q = unicode_lowercase(search);
    assert(h == unicode_lowercase(artist + seq![' '] + song_name + seq![' '] + album));
    if search.len() > 0 && has_infix(h, q) {
        let k = choose|k: int| crate::text::occurs_at(h, q, k);
        assert(h.subrange(k, k + q.len()) == q);
    }
}

/// Whether a song with the given texts and parts shows under the song list's
/// filters: `part_names`, `part_is_main`, `part_tunings` and `part_has_capo`
/// describe its parts, one entry each.
pub fn song_visible(
    search: &str,
    tuning_filter: &str,
    show_capo: bool,
    artist: &str,
    song_name: &str,
    album: &str,
    part_names: &[String],
    part_is_main: &[bool],
    part_tunings: &Vec<Vec<i16>>,
    part_has_capo: &[bool],
) -> (r: bool)
    requires
        part_is_main@.len() == part_names@.len(),
        part_tunings@.len() == part_names@.len(),
        part_has_capo@.len() == part_names@.len(),
    ensures
        r == song_visible_spec(
            search@,
            tuning_filter@,
            show_capo,
            artist@,
            song_name@,
            album@,
            views_of(part_names@),
            part_is_main@,
            part_tunings@.map_values(|t: Vec<i16>| t@),
            part_has_capo@,
        ),
{
    if !search.is_empty() {
        let mut line = chars_of(artist);
        line.push(' ');
        push_all(&mut line, &chars_of(song_name));
        line.push(' ');
        push_all(&mut line, &chars_of(album));
        assert(line@ =~= artist@ + seq![' '] + song_name@ + seq![' '] + album@);
        let hay = to_lowercase(string_of(&line).as_str());
        let query = to_lowercase(search);
        if !has_infix_chars(&chars_of(hay.as_str()), &chars_of(query.as_str())) {
            return false;
        }
    } else {
        assert(search@.len() == 0);
    }
    match main_part_index(part_names, part_is_main) {
        None => false,
        Some(i) => {
            assert(part_tunings@.map_values(|t: Vec<i16>| t@)[i as int] == part_tunings@[i as int]@);
            if !tuning_filter.is_empty() {
                let name = calc_tuning_name(part_tunings[i].as_slice());
                if !chars_eq(&chars_of(name.as_str()), &chars_of(tuning_filter)) {
                    return false;
                }
            } else {
                assert(tuning_filter@.len() == 0);
            }
            show_capo || !part_has_capo[i]
        },
    }
}

impl TextKeyed for String {
    open spec fn text_key(v: Seq<char>) -> Seq<char> {
        v
    }

    fn key_chars(&self) -> (r: Vec<char>) {
        chars_of(self.as_str())
    }
}

/// The tuning names offered by the tuning filter: the names of `tunings`, in
/// text order, each once.
pub fn tuning_choices(tunings: Vec<String>) -> (r: Vec<String>)
    ensures
        exists|sorted: Seq<Seq<char>>|
            stable_sorted_by_text::<String>(sorted, views_of(tunings@)) && views_of(r@) == dedup_adjacent(sorted),
{
    let sorted = stable_sort_by_text(tunings);
    dedup_strings(sorted)
}

proof fn lemma_dedup_members(s: Seq<Seq<char>>)
    ensures
        forall|k: int| 0 <= k < dedup_adjacent(s).len() ==> s.contains(#[trigger] dedup_adjacent(s)[k]),
        s.len() > 0 ==> dedup_adjacent(s).len() > 0 && dedup_adjacent(s).last() == s.last(),
    decreases s.len(),
{
    if s.len() > 0 {
        let d = s.drop_last();
        lemma_dedup_members(d);
        assert forall|k: int| 0 <= k < dedup_adjacent(s).len() implies s.contains(#[trigger] dedup_adjacent(s)[k]) by {
            if s.len() >= 2 && s[s.len() - 1] == s[s.len() - 2] {
                assert(d.contains(dedup_adjacent(d)[k]));
                let j = choose|j: int| 0 <= j < d.len() && d[j] == dedup_adjacent(d)[k];
                assert(s[j] == d[j]);
            } else if k < dedup_adjacent(d).len() {
                assert(dedup_adjacent(s)[k] == dedup_adjacent(d)[k]);
                assert(d.contains(dedup_adjacent(d)[k]));
                let j = choose|j: int| 0 <= j < d.len() && d[j] == dedup_adjacent(d)[k];
                assert(s[j] == d[j]);
            } else {
                assert(dedup_adjacent(s)[k] == s.last());
                assert(s[s.len() - 1] == s.last());
            }
        }
        if s.len() >= 2 && s[s.len() - 1] == s[s.len() - 2] {
            assert(d.last() == s[s.len() - 2]);
        }
    }
}

/// Each tuning name is offered once: after sorting, dropping repeats leaves
/// names in strictly ascending text order.
pub proof fn tuning_choices_are_distinct(sorted: Seq<Seq<char>>)
    requires
        crate::ordering::text_keys_sorted::<String>(sorted),
    ensures
        forall|i: int, j: int|
            0 <= i < j < dedup_adjacent(sorted).len() ==> #[trigger] dedup_adjacent(sorted)[i]
                != #[trigger] dedup_adjacent(sorted)[j] && crate::ordering::text_le(
                dedup_adjacent(sorted)[i],
                dedup_adjacent(sorted)[j],
            ),
    decreases sorted.len(),
{
    if sorted.len() > 0 {
        let d = sorted.drop_last();
        assert(crate::ordering::text_keys_sorted::<String>(d)) by {
            assert forall|i: int, j: int| 0 <= i < j < d.len() implies crate::ordering::text_le(
                #[trigger] d[i],
                #[trigger] d[j],
            ) by {
                assert(d[i] == sorted[i] && d[j] == sorted[j]);
                assert(String::text_key(sorted[i]) == sorted[i]);
            }
        }
        tuning_choices_are_distinct(d);
        lemma_dedup_members(d);
        let dd = dedup_adjacent(d);
        let ds = dedup_adjacent(sorted);
        if !(sorted.len() >= 2 && sorted[sorted.len() - 1] == sorted[sorted.len() - 2]) {
            let x = sorted.last();
            assert(ds == dd.push(x));
            assert forall|k: int| 0 <= k < dd.len() implies #[trigger] dd[k] != x && crate::ordering::text_le(dd[k], x) by {
                assert(d.contains(dd[k]));
                let j = choose|j: int| 0 <= j < d.len() && d[j] == dd[k];
                assert(sorted[j] == d[j]);
                assert(crate::ordering::text_le(String::text_key(sorted[j]), String::text_key(sorted[sorted.len() - 1])));
                if dd[k] == x {
                    let p = sorted[sorted.len() - 2];
                    assert(crate::ordering::text_le(String::text_key(sorted[j]), String::text_key(sorted[sorted.len() - 2]))
                        || j == sorted.len() - 2);
                    crate::ordering::lemma_text_le_refl(p);
                    assert(crate::ordering::text_le(String::text_key(sorted[sorted.len() - 2]), String::text_key(sorted[sorted.len() - 1])));
                    crate::ordering::lemma_text_le_antisym(p, x);
                }
            }
            assert forall|i: int, j: int| 0 <= i < j < ds.len() implies #[trigger] ds[i] != #[trigger] ds[j]
                && crate::ordering::text_le(ds[i], ds[j]) by {
                assert(ds[i] == dd[i]);
                if j < dd.len() {
                    assert(ds[j] == dd[j]);
                } else {
                    assert(ds[j] == x);
                }
            }
        }
    }
}

/// A song has a part to be shown by exactly when one of its parts is not a
/// hidden track.
pub proof fn main_part_exists(names: Seq<Seq<char>>, is_main: Seq<bool>)
    requires
        is_main.len() == names.len(),
    ensures
        main_part_spec(names, is_main) is Some <==> exists|i: int|
            0 <= i < names.len() && !is_hidden_instrument_name_spec(#[trigger] names[i]),
        main_part_spec(names, is_main) matches Some(i) ==> 0 <= i < names.len()
            && !is_hidden_instrument_name_spec(names[i]),
{
    if exists|i: int| 0 <= i < names.len() && !is_hidden_instrument_name_spec(#[trigger] names[i]) {
        let k = lemma_first_shown_exists(names, names.len() as int);
        assert(is_first_shown(names, k));
    }
    if exists|i: int| is_first_main(names, is_main, i) {
        let i = choose|i: int| is_first_main(names, is_main, i);
        assert(is_first_main(names, is_main, i));
    } else if exists|i: int| is_first_shown(names, i) {
        let i = choose|i: int| is_first_shown(names, i);
        assert(is_first_shown(names, i));
    }
}

proof fn lemma_first_shown_exists(names: Seq<Seq<char>>, m: int) -> (k: int)
    requires
        0 <= m <= names.len(),
        exists|i: int| 0 <= i < m && !is_hidden_instrument_name_spec(#[trigger] names[i]),
    ensures
        is_first_shown(names, k),
        k < m,
    decreases m,
{
    if exists|i: int| 0 <= i < m - 1 && !is_hidden_instrument_name_spec(#[trigger] names[i]) {
        lemma_first_shown_exists(names, m - 1)
    } else {
        let i = choose|i: int| 0 <= i < m && !is_hidden_instrument_name_spec(#[trigger] names[i]);
        assert(i == m - 1);
        assert forall|j: int| 0 <= j < m - 1 implies is_hidden_instrument_name_spec(#[trigger] names[j]) by {}
        m - 1
    }
}

/// Without a search, a tuning choice or hidden capo songs, the song list
/// shows every song that has a part to be shown by.
pub proof fn unfiltered_list_shows_every_song(
    artist: Seq<char>,
    song_name: Seq<char>,
    album: Seq<char>,
    names: Seq<Seq<char>>,
    is_main: Seq<bool>,
    tunings: Seq<Seq<i16>>,
    has_capo: Seq<bool>,
)
    ensures
        song_visible_spec(Seq::empty(), Seq::empty(), true, artist, song_name, album, names, is_main, tunings, has_capo)
            == (main_part_spec(names, is_main) is Some),
{
}

// ---------------------------------------------------------------------------
// Chord identity on the stored model
// ---------------------------------------------------------------------------

/// What chord comparison reads of one stored note.
pub struct StoredChordNote {
    pub string_num: i32,
    pub fret_num: i32,
    pub note_type: Vec<NoteType>,
    /// The note has bends.
    pub has_bends: bool,
    /// The note slides.
    pub has_slide: bool,
}

/// What chord comparison reads of a stored note block.
pub struct StoredChordShape {
    pub chord_flags: Vec<NoteBlockFlags>,
    pub notes: Vec<StoredChordNote>,
}

pub open spec fn is_ignored_kind(t: NoteType) -> bool {
    ||| t == NoteType::UNDEFINED
    ||| t == NoteType::MISSING
    ||| t == NoteType::CHORD
    ||| t == NoteType::OPEN
    ||| t == NoteType::IGNORE
    ||| t == NoteType::HIGHDENSITY
    ||| t == NoteType::SINGLE
    ||| t == NoteType::CHORDNOTES
    ||| t == NoteType::DOUBLESTOP
    ||| t == NoteType::MISSING2
    ||| t == NoteType::STRUM
    ||| t == NoteType::ACCENT
}

pub open spec fn all_kinds() -> Seq<NoteType> {
    seq![
        NoteType::UNDEFINED,
        NoteType::MISSING,
        NoteType::CHORD,
        NoteType::OPEN,
        NoteType::FRETHANDMUTE,
        NoteType::TREMOLO,
        NoteType::HARMONIC,
        NoteType::PALMMUTE,
        NoteType::SLAP,
        NoteType::PLUCK,
        NoteType::POP,
        NoteType::HAMMERON,
        NoteType::PULLOFF,
        NoteType::SLIDE,
        NoteType::BEND,
        NoteType::SUSTAIN,
        NoteType::TAP,
        NoteType::PINCHHARMONIC,
        NoteType::VIBRATO,
        NoteType::MUTE,
        NoteType::IGNORE,
        NoteType::LEFTHAND,
        NoteType::RIGHTHAND,
        NoteType::HIGHDENSITY,
        NoteType::SLIDEUNPITCHEDTO,
        NoteType::SINGLE,
        NoteType::CHORDNOTES,
        NoteType::DOUBLESTOP,
        NoteType::ACCENT,
        NoteType::PARENT,
        NoteType::CHILD,
        NoteType::ARPEGGIO,
        NoteType::MISSING2,
        NoteType::STRUM,
    ]
}

fn kind_at(k: usize) -> (r: NoteType)
    requires
        k < 34,
    ensures
        r == all_kinds()[k as int],
{
    match k {
        0 => NoteType::UNDEFINED,
        1 => NoteType::MISSING,
        2 => NoteType::CHORD,
        3 => NoteType::OPEN,
        4 => NoteType::FRETHANDMUTE,
        5 => NoteType::TREMOLO,
        6 => NoteType::HARMONIC,
        7 => NoteType::PALMMUTE,
        8 => NoteType::SLAP,
        9 => NoteType::PLUCK,
        10 => NoteType::POP,
        11 => NoteType::HAMMERON,
        12 => NoteType::PULLOFF,
        13 => NoteType::SLIDE,
        14 => NoteType::BEND,
        15 => NoteType::SUSTAIN,
        16 => NoteType::TAP,
        17 => NoteType::PINCHHARMONIC,
        18 => NoteType::VIBRATO,
        19 => NoteType::MUTE,
        20 => NoteType::IGNORE,
        21 => NoteType::LEFTHAND,
        22 => NoteType::RIGHTHAND,
        23 => NoteType::HIGHDENSITY,
        24 => NoteType::SLIDEUNPITCHEDTO,
        25 => NoteType::SINGLE,
        26 => NoteType::CHORDNOTES,
        27 => NoteType::DOUBLESTOP,
        28 => NoteType::ACCENT,
        29 => NoteType::PARENT,
        30 => NoteType::CHILD,
        31 => NoteType::ARPEGGIO,
        32 => NoteType::MISSING2,
        _ => NoteType::STRUM,
    }
}

fn ignored_kind(t: NoteType) -> (r: bool)
    ensures
        r == is_ignored_kind(t),
{
    match t {
        NoteType::UNDEFINED | NoteType::MISSING | NoteType::CHORD | NoteType::OPEN | NoteType::IGNORE | NoteType::HIGHDENSITY | NoteType::SINGLE | NoteType::CHORDNOTES | NoteType::DOUBLESTOP | NoteType::MISSING2 | NoteType::STRUM | NoteType::ACCENT => true,
        _ => false,
    }
}

proof fn lemma_all_kinds(t: NoteType)
    ensures
        all_kinds().contains(t),
{
    match t {
        NoteType::UNDEFINED => assert(all_kinds()[0] == t),
        NoteType::MISSING => assert(all_kinds()[1] == t),
        NoteType::CHORD => assert(all_kinds()[2] == t),
        NoteType::OPEN => assert(all_kinds()[3] == t),
        NoteType::FRETHANDMUTE => assert(all_kinds()[4] == t),
        NoteType::TREMOLO => assert(all_kinds()[5] == t),
        NoteType::HARMONIC => assert(all_kinds()[6] == t),
        NoteType::PALMMUTE => assert(all_kinds()[7] == t),
        NoteType::SLAP => assert(all_kinds()[8] == t),
        NoteType::PLUCK => assert(all_kinds()[9] == t),
        NoteType::POP => assert(all_kinds()[10] == t),
        NoteType::HAMMERON => assert(all_kinds()[11] == t),
        NoteType::PULLOFF => assert(all_kinds()[12] == t),
        NoteType::SLIDE => assert(all_kinds()[13] == t),
        NoteType::BEND => assert(all_kinds()[14] == t),
        NoteType::SUSTAIN => assert(all_kinds()[15] == t),
        NoteType::TAP => assert(all_kinds()[16] == t),
        NoteType::PINCHHARMONIC => assert(all_kinds()[17] == t),
        NoteType::VIBRATO => assert(all_kinds()[18] == t),
        NoteType::MUTE => assert(all_kinds()[19] == t),
        NoteType::IGNORE => assert(all_kinds()[20] == t),
        NoteType::LEFTHAND => assert(all_kinds()[21] == t),
        NoteType::RIGHTHAND => assert(all_kinds()[22] == t),
        NoteType::HIGHDENSITY => assert(all_kinds()[23] == t),
        NoteType::SLIDEUNPITCHEDTO => assert(all_kinds()[24] == t),
        NoteType::SINGLE => assert(all_kinds()[25] == t),
        NoteType::CHORDNOTES => assert(all_kinds()[26] == t),
        NoteType::DOUBLESTOP => assert(all_kinds()[27] == t),
        NoteType::ACCENT => assert(all_kinds()[28] == t),
        NoteType::PARENT => assert(all_kinds()[29] == t),
        NoteType::CHILD => assert(all_kinds()[30] == t),
        NoteType::ARPEGGIO => assert(all_kinds()[31] == t),
        NoteType::MISSING2 => assert(all_kinds()[32] == t),
        NoteType::STRUM => assert(all_kinds()[33] == t),
    }
}

/// How often kind `t` occurs in `ts`, leaving out ignored kinds.
pub open spec fn relevant_count(ts: Seq<NoteType>, t: NoteType) -> nat
    decreases ts.len(),
{
    if ts.len() == 0 {
        0
    } else {
        relevant_count(ts.drop_last(), t) + if ts.last() == t && !is_ignored_kind(t) {
            1nat
        } else {
            0nat
        }
    }
}

pub open spec fn stored_note_extras(n: StoredChordNote) -> bool {
    n.has_bends || n.has_slide
}

/// Two stored blocks show the same chord: same flags, same number of notes,
/// notes on the same strings and frets, no note of either bends or slides,
/// and each pair of notes carries the same techniques (in any order) once the
/// ignored kinds are left out.
pub open spec fn stored_same_chord_spec(a: &StoredChordShape, b: &StoredChordShape) -> bool {
    &&& a.notes@.len() == b.notes@.len()
    &&& a.chord_flags@ == b.chord_flags@
    &&& forall|i: int|
        0 <= i < a.notes@.len() ==> {
            &&& (#[trigger] a.notes@[i]).fret_num == b.notes@[i].fret_num
            &&& a.notes@[i].string_num == b.notes@[i].string_num
            &&& !stored_note_extras(a.notes@[i])
            &&& !stored_note_extras(b.notes@[i])
            &&& forall|t: NoteType| relevant_count(a.notes@[i].note_type@, t) == relevant_count(b.notes@[i].note_type@, t)
        }
}

/// What decides chord identity on the stored model: blocks whose notes at
/// some position lie on different strings or frets are never the same chord,
/// nor are blocks with a different number of notes or different flags, nor
/// any pair where a note bends or slides. Blocks without bending or sliding
/// notes, with the same flags and the same notes, kinds included, are the
/// same chord.
pub proof fn stored_same_chord_needs_same_notes(a: &StoredChordShape, b: &StoredChordShape, i: int)
    ensures
        0 <= i < a.notes@.len() && i < b.notes@.len() && (a.notes@[i].string_num != b.notes@[i].string_num
            || a.notes@[i].fret_num != b.notes@[i].fret_num) ==> !stored_same_chord_spec(a, b),
        a.notes@.len() != b.notes@.len() ==> !stored_same_chord_spec(a, b),
        a.chord_flags@ != b.chord_flags@ ==> !stored_same_chord_spec(a, b),
        0 <= i < a.notes@.len() && (a.notes@[i].has_bends || a.notes@[i].has_slide) ==> !stored_same_chord_spec(a, b),
        0 <= i < b.notes@.len() && (b.notes@[i].has_bends || b.notes@[i].has_slide) ==> !stored_same_chord_spec(a, b),
        ({
            &&& a.notes@.len() == b.notes@.len()
            &&& a.chord_flags@ == b.chord_flags@
            &&& forall|k: int|
                0 <= k < a.notes@.len() ==> {
                    &&& (#[trigger] a.notes@[k]).string_num == b.notes@[k].string_num
                    &&& a.notes@[k].fret_num == b.notes@[k].fret_num
                    &&& a.notes@[k].note_type@ == b.notes@[k].note_type@
                    &&& !a.notes@[k].has_bends && !a.notes@[k].has_slide
                    &&& !b.notes@[k].has_bends && !b.notes@[k].has_slide
                }
        }) ==> stored_same_chord_spec(a, b),
{
    if 0 <= i < b.notes@.len() && (b.notes@[i].has_bends || b.notes@[i].has_slide) && a.notes@.len()
        == b.notes@.len() {
        assert(stored_note_extras(b.notes@[i]));
    }
    if 0 <= i < a.notes@.len() && (a.notes@[i].has_bends || a.notes@[i].has_slide) {
        assert(stored_note_extras(a.notes@[i]));
    }
}

/// Showing the same chord is symmetric on the stored model.
pub proof fn stored_same_chord_is_symmetric(a: &StoredChordShape, b: &StoredChordShape)
    ensures
        stored_same_chord_spec(a, b) == stored_same_chord_spec(b, a),
{
    if stored_same_chord_spec(a, b) {
        assert forall|i: int| 0 <= i < b.notes@.len() implies {
            &&& (#[trigger] b.notes@[i]).fret_num == a.notes@[i].fret_num
            &&& b.notes@[i].string_num == a.notes@[i].string_num
            &&& !stored_note_extras(b.notes@[i])
            &&& !stored_note_extras(a.notes@[i])
            &&& forall|t: NoteType| relevant_count(b.notes@[i].note_type@, t) == relevant_count(a.notes@[i].note_type@, t)
        } by {
            assert(a.notes@[i].fret_num == b.notes@[i].fret_num);
        }
    }
    if stored_same_chord_spec(b, a) {
        assert forall|i: int| 0 <= i < a.notes@.len() implies {
            &&& (#[trigger] a.notes@[i]).fret_num == b.notes@[i].fret_num
            &&& a.notes@[i].string_num == b.notes@[i].string_num
            &&& !stored_note_extras(a.notes@[i])
            &&& !stored_note_extras(b.notes@[i])
            &&& forall|t: NoteType| relevant_count(a.notes@[i].note_type@, t) == relevant_count(b.notes@[i].note_type@, t)
        } by {
            assert(b.notes@[i].fret_num == a.notes@[i].fret_num);
        }
    }
}

fn count_kind(ts: &Vec<NoteType>, t: NoteType) -> (r: usize)
    ensures
        r as int == relevant_count(ts@, t),
{
    let mut c: usize = 0;
    let n = ts.len();
    let ign = ignored_kind(t);
    for i in 0..n
        invariant
            n == ts.len(),
            ign == is_ignored_kind(t),
            c as int == relevant_count(ts@.take(i as int), t),
            c <= i,
    {
        assert(ts@.take(i + 1).drop_last() == ts@.take(i as int));
        if ts[i] == t && !ign {
            c = c + 1;
        }
    }
    assert(ts@.take(n as int) == ts@);
    c
}

fn same_kinds(a: &Vec<NoteType>, b: &Vec<NoteType>) -> (r: bool)
    ensures
        r == forall|t: NoteType| relevant_count(a@, t) == relevant_count(b@, t),
{
    for k in 0..34
        invariant
            forall|j: int| 0 <= j < k ==> relevant_count(a@, #[trigger] all_kinds()[j]) == relevant_count(b@, all_kinds()[j]),
    {
        let t = kind_at(k);
        if count_kind(a, t) != count_kind(b, t) {
            return false;
        }
    }
    assert forall|t: NoteType| relevant_count(a@, t) == relevant_count(b@, t) by {
        lemma_all_kinds(t);
        let j = choose|j: int| 0 <= j < all_kinds().len() && all_kinds()[j] == t;
    }
    true
}

fn stored_flags_eq(a: &Vec<NoteBlockFlags>, b: &Vec<NoteBlockFlags>) -> (r: bool)
    ensures
        r == (a@ == b@),
{
    if a.len() != b.len() {
        return false;
    }
    let n = a.len();
    for i in 0..n
        invariant
            n == a.len(),
            n == b.len(),
            forall|j: int| 0 <= j < i ==> a@[j] == b@[j],
    {
        if a[i] != b[i] {
            return false;
        }
    }
    assert(a@ =~= b@);
    true
}

/// Whether two stored blocks show the same chord.
pub fn is_same_chord_as(a: &StoredChordShape, b: &StoredChordShape) -> (r: bool)
    ensures
        r == stored_same_chord_spec(a, b),
{
    if a.notes.len() != b.notes.len() {
        return false;
    }
    if !stored_flags_eq(&a.chord_flags, &b.chord_flags) {
        return false;
    }
    let n = a.notes.len();
    for i in 0..n
        invariant
            n == a.notes@.len(),
            n == b.notes@.len(),
            a.chord_flags@ == b.chord_flags@,
            forall|j: int|
                0 <= j < i ==> {
                    &&& (#[trigger] a.notes@[j]).fret_num == b.notes@[j].fret_num
                    &&& a.notes@[j].string_num == b.notes@[j].string_num
                    &&& !stored_note_extras(a.notes@[j])
                    &&& !stored_note_extras(b.notes@[j])
                    &&& forall|t: NoteType| relevant_count(a.notes@[j].note_type@, t) == relevant_count(b.notes@[j].note_type@, t)
                },
    {
        let na = &a.notes[i];
        let nb = &b.notes[i];
        assert(a.notes@[i as int] == *na);
        if na.fret_num != nb.fret_num || na.string_num != nb.string_num {
            return false;
        }
        if na.has_bends || na.has_slide || nb.has_bends || nb.has_slide {
            return false;
        }
        if !same_kinds(&na.note_type, &nb.note_type) {
            return false;
        }
    }
    true
}

} // verus!
