//! Reading a PSARC manifest: which entries are arrangements, soundbanks,
//! audio and album art, and what instrument an entry belongs to.
use vstd::prelude::*;
use crate::numbers::{parse_u32_seq, parse_u32_chars};
use crate::ordering::{IntKeyed, text_le, text_le_chars, views_of, stable_sorted_by_int, stable_sort_by_int, lemma_text_le_antisym, lemma_text_le_total};
use crate::text::{after_last, after_last_chars, char_is_ascii_alnum, char_is_whitespace, chars_eq, chars_of, has_infix, has_infix_chars, has_prefix, has_prefix_chars, has_suffix, has_suffix_chars, is_ascii_alnum, is_unicode_whitespace, lower_chars, lower_seq, lower_str, str_eq, string_of, strip_suffix_chars, strip_suffix_seq, to_lowercase, unicode_lowercase};
use crate::wav::u32_le;

verus! {

// ---------------------------------------------------------------------------
// Instrument names
// ---------------------------------------------------------------------------

pub open spec fn strip_or_keep(s: Seq<char>, suffix: Seq<char>) -> Seq<char> {
    match strip_suffix_seq(s, suffix) {
        Some(t) => t,
        None => s,
    }
}

/// The instrument an arrangement entry is for: the last `_`-separated part of
/// its file name without `.xml`, in ASCII lowercase.
pub open spec fn instrument_name_spec(path: Seq<char>) -> Seq<char> {
    lower_seq(after_last(strip_or_keep(after_last(path, '/'), ".xml"@), '_'))
}

/// The instrument a `.sng` entry is for, when its file name ends in `.sng`.
pub open spec fn sng_instrument_name_spec(path: Seq<char>) -> Option<Seq<char>> {
    match strip_suffix_seq(after_last(path, '/'), ".sng"@) {
        Some(stem) => Some(lower_seq(after_last(stem, '_'))),
        None => None,
    }
}

/// Where an instrument is listed: lead parts first, then rhythm, then bass,
/// then everything else.
pub open spec fn order_key_spec(name: Seq<char>) -> int {
    let l = lower_seq(name);
    if l == "lead"@ {
        0
    } else if l == "lead1"@ {
        1
    } else if l == "lead2"@ {
        2
    } else if l == "rhythm"@ {
        8
    } else if l == "rhythm1"@ {
        9
    } else if l == "rhythm2"@ {
        10
    } else if l == "bass"@ {
        11
    } else if l == "bass1"@ {
        12
    } else if l == "bass2"@ {
        13
    } else {
        999
    }
}

fn name_of_stem(stem: &Vec<char>) -> (r: String)
    ensures
        r@ == lower_seq(after_last(stem@, '_')),
{
    let part = after_last_chars(stem, '_');
    string_of(&lower_chars(&part))
}

/// The instrument name of an arrangement entry such as
/// `songs/arr/mysong_lead.xml`.
pub fn instrument_name_from_path(path: &str) -> (r: String)
    ensures
        r@ == instrument_name_spec(path@),
{
    let file = after_last_chars(&chars_of(path), '/');
    let stem = match strip_suffix_chars(&file, &chars_of(".xml")) {
        Some(t) => t,
        None => file,
    };
    name_of_stem(&stem)
}

/// The instrument name of a `.sng` entry, or `None` when the entry's file
/// name does not end in `.sng`.
pub fn instrument_name_from_sng_path(path: &str) -> (r: Option<String>)
    ensures
        match r {
            Some(n) => sng_instrument_name_spec(path@) == Some(n@),
            None => sng_instrument_name_spec(path@) is None,
        },
{
    let file = after_last_chars(&chars_of(path), '/');
    match strip_suffix_chars(&file, &chars_of(".sng")) {
        Some(stem) => Some(name_of_stem(&stem)),
        None => None,
    }
}

/// Sort key of an instrument name (compared in ASCII lowercase).
pub fn instrument_order_key(name: &str) -> (k: i32)
    ensures
        k as int == order_key_spec(name@),
{
    let l = lower_str(name);
    if chars_eq(&l, &chars_of("lead")) {
        0
    } else if chars_eq(&l, &chars_of("lead1")) {
        1
    } else if chars_eq(&l, &chars_of("lead2")) {
        2
    } else if chars_eq(&l, &chars_of("rhythm")) {
        8
    } else if chars_eq(&l, &chars_of("rhythm1")) {
        9
    } else if chars_eq(&l, &chars_of("rhythm2")) {
        10
    } else if chars_eq(&l, &chars_of("bass")) {
        11
    } else if chars_eq(&l, &chars_of("bass1")) {
        12
    } else if chars_eq(&l, &chars_of("bass2")) {
        13
    } else {
        999
    }
}

impl IntKeyed for String {
    open spec fn int_key(v: Seq<char>) -> int {
        order_key_spec(v)
    }

    fn key_value(&self) -> (r: i32) {
        instrument_order_key(self.as_str())
    }
}

/// An instrument name with its position in the archive's list.
pub struct RankedName {
    pub name: String,
    pub position: usize,
}

impl View for RankedName {
    type V = (Seq<char>, usize);

    open spec fn view(&self) -> Self::V {
        (self.name@, self.position)
    }
}

impl IntKeyed for RankedName {
    open spec fn int_key(v: (Seq<char>, usize)) -> int {
        order_key_spec(v.0)
    }

    fn key_value(&self) -> (r: i32) {
        instrument_order_key(self.name.as_str())
    }
}

pub open spec fn ranked(names: Seq<String>) -> Seq<(Seq<char>, usize)> {
    Seq::new(names.len(), |i: int| (names[i]@, i as usize))
}

/// The order in which instruments named `names` are listed, as positions into
/// `names`: by `instrument_order_key`, equal keys in their order.
pub fn instrument_order(names: &[String]) -> (r: Vec<usize>)
    ensures
        exists|sorted: Seq<(Seq<char>, usize)>|
            stable_sorted_by_int::<RankedName>(sorted, ranked(names@)) && r@ == sorted.map_values(
                |v: (Seq<char>, usize)| v.1,
            ),
{
    let mut items: Vec<RankedName> = Vec::new();
    let n = names.len();
    for i in 0..n
        invariant
            n == names@.len(),
            views_of(items@) == ranked(names@).take(i as int),
    {
        let item = RankedName { name: names[i].clone(), position: i };
        let ghost old_items = items@;
        items.push(item);
        assert(views_of(items@) =~= views_of(old_items).push(item@));
        assert(views_of(items@) =~= ranked(names@).take(i + 1));
    }
    assert(ranked(names@).take(n as int) =~= ranked(names@));
    let sorted = stable_sort_by_int(items);
    let mut out: Vec<usize> = Vec::new();
    let m = sorted.len();
    for j in 0..m
        invariant
            m == sorted@.len(),
            out@ == views_of(sorted@).take(j as int).map_values(|v: (Seq<char>, usize)| v.1),
    {
        out.push(sorted[j].position);
        assert(out@ =~= views_of(sorted@).take(j + 1).map_values(|v: (Seq<char>, usize)| v.1));
    }
    assert(views_of(sorted@).take(m as int) =~= views_of(sorted@));
    out
}

// ---------------------------------------------------------------------------
// Folder names
// ---------------------------------------------------------------------------

pub open spec fn folder_char(c: char) -> char {
    if is_ascii_alnum(c) || c == '-' || c == '_' {
        c
    } else if is_unicode_whitespace(c) {
        '-'
    } else {
        '_'
    }
}

/// A name that is safe as a folder name: ASCII letters, digits, `-` and `_`
/// stay, whitespace becomes `-`, anything else `_`.
pub open spec fn sanitize_folder_name_spec(s: Seq<char>) -> Seq<char> {
    s.map_values(|c: char| folder_char(c))
}

pub fn sanitize_folder_name(input: &str) -> (r: String)
    ensures
        r@ == sanitize_folder_name_spec(input@),
{
    let cs = chars_of(input);
    let mut out: Vec<char> = Vec::new();
    let n = cs.len();
    for i in 0..n
        invariant
            n == cs.len(),
            out@ == sanitize_folder_name_spec(cs@.take(i as int)),
    {
        let c = cs[i];
        let d = if char_is_ascii_alnum(c) || c == '-' || c == '_' {
            c
        } else if char_is_whitespace(c) {
            '-'
        } else {
            '_'
        };
        out.push(d);
        assert(sanitize_folder_name_spec(cs@.take(i + 1)) =~= sanitize_folder_name_spec(
            cs@.take(i as int),
        ).push(d));
    }
    assert(cs@.take(n as int) == cs@);
    string_of(&out)
}

// ---------------------------------------------------------------------------
// Kinds of manifest entries
// ---------------------------------------------------------------------------

pub open spec fn is_dds_path_spec(p: Seq<char>) -> bool {
    has_suffix(lower_seq(p), ".dds"@)
}

/// Whether an entry is a DDS image (extension compared case-insensitively).
pub fn is_dds_path(path: &str) -> (r: bool)
    ensures
        r == is_dds_path_spec(path@),
{
    has_suffix_chars(&lower_str(path), &chars_of(".dds"))
}

/// An instrument arrangement: under `songs/arr/`, ending in `.xml`, and not
/// the vocals or show-lights track.
pub open spec fn is_arrangement_path_spec(p: Seq<char>) -> bool {
    &&& has_prefix(p, "songs/arr/"@)
    &&& has_suffix(p, ".xml"@)
    &&& !has_infix(p, "vocals"@)
    &&& !has_infix(p, "showlights"@)
}

pub fn is_arrangement_path(path: &str) -> (r: bool)
    ensures
        r == is_arrangement_path_spec(path@),
{
    let p = chars_of(path);
    has_prefix_chars(&p, &chars_of("songs/arr/")) && has_suffix_chars(&p, &chars_of(".xml"))
        && !has_infix_chars(&p, &chars_of("vocals")) && !has_infix_chars(
        &p,
        &chars_of("showlights"),
    )
}

/// The arrangement entries of a manifest, in manifest order.
pub fn arrangement_paths(manifest: &[String]) -> (r: Vec<String>)
    ensures
        views_of(r@) == views_of(manifest@).filter(|p: Seq<char>| is_arrangement_path_spec(p)),
{
    let ghost m = views_of(manifest@);
    let ghost pr = |p: Seq<char>| is_arrangement_path_spec(p);
    let mut out: Vec<String> = Vec::new();
    let n = manifest.len();
    for i in 0..n
        invariant
            n == manifest@.len(),
            m == views_of(manifest@),
            pr == (|p: Seq<char>| is_arrangement_path_spec(p)),
            views_of(out@) == m.take(i as int).filter(pr),
    {
        proof {
            reveal(Seq::filter);
            assert(m.take(i + 1).drop_last() == m.take(i as int));
            assert(m.take(i + 1).last() == manifest@[i as int]@);
        }
        if is_arrangement_path(manifest[i].as_str()) {
            out.push(manifest[i].clone());
        }
        assert(views_of(out@) =~= m.take(i + 1).filter(pr));
    }
    assert(m.take(n as int) == m);
    out
}

/// Whether the manifest carries a vocals track.
pub open spec fn has_vocals_spec(m: Seq<Seq<char>>) -> bool {
    exists|i: int|
        0 <= i < m.len() && (has_suffix(lower_seq(#[trigger] m[i]), "_vocals.sng"@) || has_infix(
            lower_seq(m[i]),
            "vocals"@,
        ))
}

pub fn has_vocals(manifest: &[String]) -> (r: bool)
    ensures
        r == has_vocals_spec(views_of(manifest@)),
{
    let ghost m = views_of(manifest@);
    let n = manifest.len();
    for i in 0..n
        invariant
            n == manifest@.len(),
            m == views_of(manifest@),
            forall|j: int|
                0 <= j < i ==> !(has_suffix(lower_seq(#[trigger] m[j]), "_vocals.sng"@) || has_infix(
                    lower_seq(m[j]),
                    "vocals"@,
                )),
    {
        let l = lower_str(manifest[i].as_str());
        assert(m[i as int] == manifest@[i as int]@);
        if has_suffix_chars(&l, &chars_of("_vocals.sng")) || has_infix_chars(&l, &chars_of("vocals")) {
            return true;
        }
    }
    false
}

// ---------------------------------------------------------------------------
// Instruments known only from `.sng` entries
// ---------------------------------------------------------------------------

/// The instrument an entry contributes when the archive has no arrangements:
/// `.sng` entries (extension compared case-insensitively) name an instrument,
/// except the vocals and show-lights tracks.
pub open spec fn sng_entry_instrument(p: Seq<char>) -> Option<Seq<char>> {
    if has_suffix(lower_seq(p), ".sng"@) {
        match sng_instrument_name_spec(p) {
            Some(n) => if n != "vocals"@ && n != "showlights"@ {
                Some(n)
            } else {
                None
            },
            None => None,
        }
    } else {
        None
    }
}

pub open spec fn sng_names_in_order(m: Seq<Seq<char>>) -> Seq<Seq<char>>
    decreases m.len(),
{
    if m.len() == 0 {
        Seq::empty()
    } else {
        let prev = sng_names_in_order(m.drop_last());
        match sng_entry_instrument(m.last()) {
            Some(n) => prev.push(n),
            None => prev,
        }
    }
}

/// Adjacent repeats collapsed to one.
pub open spec fn dedup_adjacent(s: Seq<Seq<char>>) -> Seq<Seq<char>>
    decreases s.len(),
{
    if s.len() == 0 {
        s
    } else if s.len() >= 2 && s[s.len() - 1] == s[s.len() - 2] {
        dedup_adjacent(s.drop_last())
    } else {
        dedup_adjacent(s.drop_last()).push(s.last())
    }
}

pub(crate) fn dedup_strings(v: Vec<String>) -> (r: Vec<String>)
    ensures
        views_of(r@) == dedup_adjacent(views_of(v@)),
{
    let ghost s = views_of(v@);
    let mut r: Vec<String> = Vec::new();
    let n = v.len();
    for i in 0..n
        invariant
            n == v.len(),
            s == views_of(v@),
            views_of(r@) == dedup_adjacent(s.take(i as int)),
            i > 0 ==> r.len() > 0 && views_of(r@).last() == s[i - 1],
    {
        let ghost t = s.take(i + 1);
        assert(t.drop_last() == s.take(i as int));
        assert(t.last() == v@[i as int]@);
        let repeat = i > 0 && str_eq(v[i].as_str(), v[i - 1].as_str());
        if repeat {
            assert(t[t.len() - 2] == s[i - 1]);
        } else {
            if i > 0 {
                assert(t[t.len() - 2] == s[i - 1]);
            }
            r.push(v[i].clone());
        }
        assert(views_of(r@) =~= dedup_adjacent(t));
    }
    assert(s.take(n as int) == s);
    r
}

/// The instrument names of an archive without arrangements: one per `.sng`
/// entry, listed by `instrument_order_key` (ties in manifest order), with
/// adjacent repeats dropped.
pub fn sng_instrument_names(manifest: &[String]) -> (r: Vec<String>)
    ensures
        exists|sorted: Seq<Seq<char>>|
            stable_sorted_by_int::<String>(sorted, sng_names_in_order(views_of(manifest@)))
                && views_of(r@) == dedup_adjacent(sorted),
{
    let ghost m = views_of(manifest@);
    let mut names: Vec<String> = Vec::new();
    let n = manifest.len();
    for i in 0..n
        invariant
            n == manifest@.len(),
            m == views_of(manifest@),
            views_of(names@) == sng_names_in_order(m.take(i as int)),
    {
        let p = manifest[i].as_str();
        assert(m.take(i + 1).drop_last() == m.take(i as int));
        assert(m.take(i + 1).last() == p@);
        if has_suffix_chars(&lower_str(p), &chars_of(".sng")) {
            match instrument_name_from_sng_path(p) {
                Some(name) => {
                    let nv = chars_of(name.as_str());
                    if !chars_eq(&nv, &chars_of("vocals")) && !chars_eq(&nv, &chars_of("showlights")) {
                        names.push(name);
                    }
                },
                None => {},
            }
        }
        assert(views_of(names@) =~= sng_names_in_order(m.take(i + 1)));
    }
    assert(m.take(n as int) == m);
    let sorted = stable_sort_by_int(names);
    dedup_strings(sorted)
}

// ---------------------------------------------------------------------------
// Least entry in text order
// ---------------------------------------------------------------------------

pub open spec fn is_least_with(m: Seq<Seq<char>>, pred: spec_fn(Seq<char>) -> bool, x: Seq<char>) -> bool {
    &&& exists|i: int| 0 <= i < m.len() && pred(m[i]) && m[i] == x
    &&& forall|j: int| 0 <= j < m.len() && pred(#[trigger] m[j]) ==> text_le(x, m[j])
}

/// The first entry satisfying `pred` in sorted order, if any.
pub open spec fn least_with(m: Seq<Seq<char>>, pred: spec_fn(Seq<char>) -> bool) -> Option<Seq<char>> {
    if exists|i: int| 0 <= i < m.len() && pred(m[i]) {
        Some(choose|x: Seq<char>| is_least_with(m, pred, x))
    } else {
        None
    }
}

proof fn lemma_least_with(m: Seq<Seq<char>>, pred: spec_fn(Seq<char>) -> bool, x: Seq<char>)
    requires
        is_least_with(m, pred, x),
    ensures
        least_with(m, pred) == Some(x),
{
    let y = choose|y: Seq<char>| is_least_with(m, pred, y);
    assert(is_least_with(m, pred, y));
    let i = choose|i: int| 0 <= i < m.len() && pred(m[i]) && m[i] == x;
    let j = choose|j: int| 0 <= j < m.len() && pred(m[j]) && m[j] == y;
    assert(text_le(x, m[j]));
    assert(text_le(y, m[i]));
    lemma_text_le_antisym(x, y);
}

pub open spec fn is_least_flagged(m: Seq<Seq<char>>, f: Seq<bool>, x: Seq<char>) -> bool {
    &&& exists|i: int| 0 <= i < m.len() && f[i] && m[i] == x
    &&& forall|j: int| 0 <= j < m.len() && #[trigger] f[j] ==> text_le(x, m[j])
}

/// The first in sorted order of the entries `m[i]` whose flag `f[i]` is set.
pub open spec fn least_of_flagged(m: Seq<Seq<char>>, f: Seq<bool>) -> Option<Seq<char>> {
    if exists|i: int| 0 <= i < m.len() && f[i] {
        Some(choose|x: Seq<char>| is_least_flagged(m, f, x))
    } else {
        None
    }
}

proof fn lemma_least_flagged(m: Seq<Seq<char>>, f: Seq<bool>, x: Seq<char>)
    requires
        is_least_flagged(m, f, x),
    ensures
        least_of_flagged(m, f) == Some(x),
{
    let y = choose|y: Seq<char>| is_least_flagged(m, f, y);
    assert(is_least_flagged(m, f, y));
    let i = choose|i: int| 0 <= i < m.len() && f[i] && m[i] == x;
    let j = choose|j: int| 0 <= j < m.len() && f[j] && m[j] == y;
    assert(text_le(x, m[j]));
    assert(text_le(y, m[i]));
    lemma_text_le_antisym(x, y);
}

/// Flags that mark the entries satisfying `pred` pick the same entry as
/// `pred` does.
proof fn lemma_flags_for_pred(m: Seq<Seq<char>>, f: Seq<bool>, pred: spec_fn(Seq<char>) -> bool)
    requires
        f.len() == m.len(),
        forall|i: int| 0 <= i < m.len() ==> f[i] == pred(#[trigger] m[i]),
    ensures
        least_of_flagged(m, f) == least_with(m, pred),
{
    if exists|i: int| 0 <= i < m.len() && pred(m[i]) {
        let k = lemma_least_index(m, pred);
        assert(is_least_flagged(m, f, m[k])) by {
            assert forall|j: int| 0 <= j < m.len() && #[trigger] f[j] implies text_le(m[k], m[j]) by {
                assert(pred(m[j]));
            }
        }
        lemma_least_flagged(m, f, m[k]);
        lemma_least_with(m, pred, m[k]);
    } else {
        assert forall|i: int| 0 <= i < m.len() implies !f[i] by {
            assert(!pred(m[i]));
        }
    }
}

/// Index of the least `items[i]` with `flags[i]` set.
fn least_flagged(items: &[String], flags: &Vec<bool>) -> (r: Option<usize>)
    requires
        flags.len() == items@.len(),
    ensures
        match r {
            Some(i) => i < items@.len() && least_of_flagged(views_of(items@), flags@) == Some(items@[i as int]@),
            None => least_of_flagged(views_of(items@), flags@) is None,
        },
{
    let ghost m = views_of(items@);
    let mut best: Option<usize> = None;
    let n = items.len();
    for i in 0..n
        invariant
            n == items@.len(),
            flags.len() == n,
            m == views_of(items@),
            match best {
                Some(b) => b < i && flags@[b as int] && forall|j: int|
                    0 <= j < i && flags@[j] ==> text_le(items@[b as int]@, #[trigger] items@[j]@),
                None => forall|j: int| 0 <= j < i ==> !flags@[j],
            },
    {
        if flags[i] {
            match best {
                None => {
                    proof {
                        crate::ordering::lemma_text_le_refl(items@[i as int]@);
                    }
                    best = Some(i);
                },
                Some(b) => {
                    if !text_le_chars(&chars_of(items[b].as_str()), &chars_of(items[i].as_str())) {
                        proof {
                            lemma_text_le_total(items@[b as int]@, items@[i as int]@);
                            assert forall|j: int| 0 <= j <= i && flags@[j] implies text_le(
                                items@[i as int]@,
                                #[trigger] items@[j]@,
                            ) by {
                                if j < i {
                                    crate::ordering::lemma_text_le_trans(items@[i as int]@, items@[b as int]@, items@[j]@);
                                } else {
                                    crate::ordering::lemma_text_le_refl(items@[i as int]@);
                                }
                            }
                        }
                        best = Some(i);
                    }
                },
            }
        }
    }
    proof {
        match best {
            Some(b) => {
                assert(m[b as int] == items@[b as int]@);
                assert forall|j: int| 0 <= j < m.len() && #[trigger] flags@[j] implies text_le(items@[b as int]@, m[j]) by {
                    assert(m[j] == items@[j]@);
                }
                lemma_least_flagged(m, flags@, items@[b as int]@);
            },
            None => {},
        }
    }
    best
}

// ---------------------------------------------------------------------------
// Album art
// ---------------------------------------------------------------------------

/// The album art among `m` given each entry's lowercased name in `lowered`:
/// the first DDS entry in sorted order whose lowercased name contains
/// `album`, else the first DDS entry.
pub open spec fn album_art_choice(m: Seq<Seq<char>>, lowered: Seq<Seq<char>>) -> Option<Seq<char>> {
    let named = least_of_flagged(
        m,
        Seq::new(m.len(), |i: int| is_dds_path_spec(m[i]) && has_infix(lowered[i], "album"@)),
    );
    if named is Some {
        named
    } else {
        least_of_flagged(m, Seq::new(m.len(), |i: int| is_dds_path_spec(m[i])))
    }
}

/// Each name of `m` in Unicode lowercase.
pub open spec fn lowered_names(m: Seq<Seq<char>>) -> Seq<Seq<char>> {
    m.map_values(|p: Seq<char>| unicode_lowercase(p))
}

pub open spec fn album_art_spec(m: Seq<Seq<char>>) -> Option<Seq<char>> {
    album_art_choice(m, lowered_names(m))
}

/// The album art of an archive whose manifest is `manifest` and whose entry
/// names in lowercase are `lowered`, as `album_art_choice` describes.
pub fn pick_album_art_entry(manifest: &[String], lowered: &[String]) -> (r: Option<String>)
    requires
        lowered@.len() == manifest@.len(),
    ensures
        match r {
            Some(p) => album_art_choice(views_of(manifest@), views_of(lowered@)) == Some(p@),
            None => album_art_choice(views_of(manifest@), views_of(lowered@)) is None,
        },
{
    let ghost m = views_of(manifest@);
    let ghost ls = views_of(lowered@);
    let mut dds_flags: Vec<bool> = Vec::new();
    let mut album_flags: Vec<bool> = Vec::new();
    let album = chars_of("album");
    let n = manifest.len();
    for i in 0..n
        invariant
            n == manifest@.len(),
            n == lowered@.len(),
            m == views_of(manifest@),
            ls == views_of(lowered@),
            album@ == "album"@,
            dds_flags.len() == i,
            album_flags.len() == i,
            forall|k: int| 0 <= k < i ==> dds_flags@[k] == is_dds_path_spec(#[trigger] m[k]),
            forall|k: int| 0 <= k < i ==> #[trigger] album_flags@[k] == (is_dds_path_spec(m[k]) && has_infix(ls[k], "album"@)),
    {
        let d = is_dds_path(manifest[i].as_str());
        let l = chars_of(lowered[i].as_str());
        let h = has_infix_chars(&l, &album);
        let a = d && h;
        assert(m[i as int] == manifest@[i as int]@);
        assert(ls[i as int] == lowered@[i as int]@);
        assert(l@ == ls[i as int]);
        assert(h == has_infix(ls[i as int], "album"@));
        dds_flags.push(d);
        album_flags.push(a);
        assert(album_flags@[i as int] == (is_dds_path_spec(m[i as int]) && has_infix(ls[i as int], "album"@)));
    }
    assert(album_flags@ =~= Seq::new(m.len(), |i: int| is_dds_path_spec(m[i]) && has_infix(ls[i], "album"@)));
    assert(dds_flags@ =~= Seq::new(m.len(), |i: int| is_dds_path_spec(m[i])));
    match least_flagged(manifest, &album_flags) {
        Some(i) => Some(manifest[i].clone()),
        None => match least_flagged(manifest, &dds_flags) {
            Some(i) => Some(manifest[i].clone()),
            None => None,
        },
    }
}

/// The album art of an archive: the first DDS entry in sorted order whose
/// lowercased name contains `album`, else the first DDS entry.
pub fn pick_album_art_path(manifest: &[String]) -> (r: Option<String>)
    ensures
        match r {
            Some(p) => album_art_spec(views_of(manifest@)) == Some(p@),
            None => album_art_spec(views_of(manifest@)) is None,
        },
{
    let ghost m = views_of(manifest@);
    let mut lowered: Vec<String> = Vec::new();
    let n = manifest.len();
    for i in 0..n
        invariant
            n == manifest@.len(),
            m == views_of(manifest@),
            lowered.len() == i,
            forall|k: int| 0 <= k < i ==> (#[trigger] lowered@[k])@ == unicode_lowercase(m[k]),
    {
        assert(m[i as int] == manifest@[i as int]@);
        lowered.push(to_lowercase(manifest[i].as_str()));
    }
    assert(views_of(lowered@) =~= lowered_names(m));
    pick_album_art_entry(manifest, lowered.as_slice())
}

// ---------------------------------------------------------------------------
// Song audio
// ---------------------------------------------------------------------------

/// The numeric id in an audio entry's file name, as in `audio/windows/123.wem`.
pub open spec fn wem_id_spec(path: Seq<char>) -> Option<u32> {
    match strip_suffix_seq(after_last(path, '/'), ".wem"@) {
        Some(stem) => parse_u32_seq(stem),
        None => None,
    }
}

pub fn wem_id_from_path(path: &str) -> (r: Option<u32>)
    ensures
        r == wem_id_spec(path@),
{
    let file = after_last_chars(&chars_of(path), '/');
    match strip_suffix_chars(&file, &chars_of(".wem")) {
        Some(stem) => parse_u32_chars(&stem),
        None => None,
    }
}

pub open spec fn is_wem_path_spec(p: Seq<char>) -> bool {
    has_suffix(lower_seq(p), ".wem"@)
}

pub open spec fn is_bnk_path_spec(p: Seq<char>) -> bool {
    has_suffix(lower_seq(p), ".bnk"@)
}

pub open spec fn is_preview_spec(p: Seq<char>) -> bool {
    has_infix(lower_seq(p), "preview"@)
}

pub open spec fn preview_rank(p: Seq<char>) -> int {
    if is_preview_spec(p) {
        1
    } else {
        0
    }
}

/// A soundbank entry, ordered with full-song banks before preview banks.
pub struct BankPath {
    pub path: String,
}

impl View for BankPath {
    type V = Seq<char>;

    open spec fn view(&self) -> Seq<char> {
        self.path@
    }
}

impl IntKeyed for BankPath {
    open spec fn int_key(v: Seq<char>) -> int {
        preview_rank(v)
    }

    fn key_value(&self) -> (r: i32) {
        if has_infix_chars(&lower_str(self.path.as_str()), &chars_of("preview")) {
            1
        } else {
            0
        }
    }
}

fn filter_by_suffix(manifest: &[String], suffix: &str, pred: Ghost<spec_fn(Seq<char>) -> bool>) -> (r: Vec<String>)
    requires
        forall|p: Seq<char>| #[trigger] pred@(p) == has_suffix(lower_seq(p), suffix@),
    ensures
        views_of(r@) == views_of(manifest@).filter(pred@),
{
    let ghost m = views_of(manifest@);
    let sfx = chars_of(suffix);
    let mut out: Vec<String> = Vec::new();
    let n = manifest.len();
    for i in 0..n
        invariant
            n == manifest@.len(),
            m == views_of(manifest@),
            sfx@ == suffix@,
            forall|p: Seq<char>| #[trigger] pred@(p) == has_suffix(lower_seq(p), suffix@),
            views_of(out@) == m.take(i as int).filter(pred@),
    {
        proof {
            reveal(Seq::filter);
            assert(m.take(i + 1).drop_last() == m.take(i as int));
            assert(m.take(i + 1).last() == manifest@[i as int]@);
        }
        if has_suffix_chars(&lower_str(manifest[i].as_str()), &sfx) {
            out.push(manifest[i].clone());
        }
        assert(views_of(out@) =~= m.take(i + 1).filter(pred@));
    }
    assert(m.take(n as int) == m);
    out
}

/// The audio entries of a manifest, in manifest order.
pub fn audio_wem_candidates(manifest: &[String]) -> (r: Vec<String>)
    ensures
        views_of(r@) == views_of(manifest@).filter(|p: Seq<char>| is_wem_path_spec(p)),
{
    filter_by_suffix(manifest, ".wem", Ghost(|p: Seq<char>| is_wem_path_spec(p)))
}

/// The soundbank entries of a manifest, full-song banks before preview
/// banks, each group in manifest order.
pub fn soundbank_candidates(manifest: &[String]) -> (r: Vec<BankPath>)
    ensures
        stable_sorted_by_int::<BankPath>(
            views_of(r@),
            views_of(manifest@).filter(|p: Seq<char>| is_bnk_path_spec(p)),
        ),
{
    let names = filter_by_suffix(manifest, ".bnk", Ghost(|p: Seq<char>| is_bnk_path_spec(p)));
    let ghost nv = views_of(names@);
    let mut banks: Vec<BankPath> = Vec::new();
    let n = names.len();
    for i in 0..n
        invariant
            n == names.len(),
            nv == views_of(names@),
            views_of(banks@) == nv.take(i as int),
    {
        let bp = BankPath { path: names[i].clone() };
        assert(bp@ == nv[i as int]);
        let ghost old_banks = banks@;
        banks.push(bp);
        assert(views_of(banks@) =~= views_of(old_banks).push(nv[i as int]));
        assert(views_of(banks@) =~= nv.take(i + 1));
    }
    assert(nv.take(n as int) == nv);
    stable_sort_by_int(banks)
}

/// A soundbank and what inflating it gave (`None` when that failed).
pub struct SoundBank {
    pub path: String,
    pub contents: Option<Vec<u8>>,
}

pub open spec fn window_at(bytes: Seq<u8>, pat: Seq<u8>, i: int) -> bool {
    0 <= i && i + pat.len() <= bytes.len() && bytes.subrange(i, i + pat.len()) == pat
}

pub open spec fn has_window(bytes: Seq<u8>, pat: Seq<u8>) -> bool {
    exists|i: int| #[trigger] window_at(bytes, pat, i)
}

/// Whether the bank's bytes hold the entry's id as four little-endian bytes.
pub open spec fn bank_references(bytes: Seq<u8>, wem: Seq<char>) -> bool {
    match wem_id_spec(wem) {
        Some(id) => has_window(bytes, u32_le(id as nat)),
        None => false,
    }
}

/// The first audio entry in sorted order that `bank` refers to.
pub open spec fn bank_hit(wems: Seq<Seq<char>>, bank: (Seq<char>, Option<Seq<u8>>)) -> Option<Seq<char>> {
    match bank.1 {
        Some(bytes) => least_with(wems, |w: Seq<char>| bank_references(bytes, w)),
        None => None,
    }
}

pub open spec fn first_hit(
    wems: Seq<Seq<char>>,
    banks: Seq<(Seq<char>, Option<Seq<u8>>)>,
    preview: bool,
) -> Option<Seq<char>>
    decreases banks.len(),
{
    if banks.len() == 0 {
        None
    } else if is_preview_spec(banks[0].0) == preview && bank_hit(wems, banks[0]) is Some {
        bank_hit(wems, banks[0])
    } else {
        first_hit(wems, banks.drop_first(), preview)
    }
}

pub open spec fn bank_views(banks: Seq<SoundBank>) -> Seq<(Seq<char>, Option<Seq<u8>>)> {
    banks.map_values(
        |b: SoundBank|
            (
                b.path@,
                match b.contents {
                    Some(v) => Some(v@),
                    None => None,
                },
            ),
    )
}

/// The song's audio entry: with one audio entry, that one; otherwise the
/// entry that the first full-song bank referring to any entry names (the first
/// such entry in sorted order), else the same for preview banks, else the
/// first non-preview entry in sorted order, else the first entry.
pub open spec fn audio_choice_spec(
    wems: Seq<Seq<char>>,
    banks: Seq<(Seq<char>, Option<Seq<u8>>)>,
) -> Option<Seq<char>> {
    if wems.len() == 0 {
        None
    } else if wems.len() == 1 {
        Some(wems[0])
    } else if first_hit(wems, banks, false) is Some {
        first_hit(wems, banks, false)
    } else if first_hit(wems, banks, true) is Some {
        first_hit(wems, banks, true)
    } else if least_with(wems, |w: Seq<char>| !is_preview_spec(w)) is Some {
        least_with(wems, |w: Seq<char>| !is_preview_spec(w))
    } else {
        least_with(wems, |w: Seq<char>| true)
    }
}

fn contains_window(bytes: &Vec<u8>, pat: &Vec<u8>) -> (r: bool)
    ensures
        r == has_window(bytes@, pat@),
{
    if pat.len() > bytes.len() {
        assert forall|k: int| !#[trigger] window_at(bytes@, pat@, k) by {}
        return false;
    }
    let last = bytes.len() - pat.len();
    let m = pat.len();
    let mut i: usize = 0;
    while i <= last
        invariant
            last + m == bytes.len(),
            m == pat.len(),
            forall|k: int| 0 <= k < i ==> !#[trigger] window_at(bytes@, pat@, k),
        decreases last + 1 - i,
    {
        let mut same = true;
        let mut j: usize = 0;
        while j < m
            invariant
                i <= last,
                last + m == bytes.len(),
                m == pat.len(),
                j <= m,
                same == forall|q: int| 0 <= q < j ==> bytes@[i + q] == pat@[q],
            decreases m - j,
        {
            if bytes[i + j] != pat[j] {
                same = false;
            }
            j = j + 1;
        }
        if same {
            assert(bytes@.subrange(i as int, i + m) =~= pat@);
            assert(window_at(bytes@, pat@, i as int));
            return true;
        }
        assert(bytes@.subrange(i as int, i + m) != pat@) by {
            let q = choose|q: int| 0 <= q < m && bytes@[i + q] != pat@[q];
            assert(bytes@.subrange(i as int, i + m)[q] != pat@[q]);
        }
        if i == last {
            assert forall|k: int| !#[trigger] window_at(bytes@, pat@, k) by {}
            return false;
        }
        i = i + 1;
    }
    false
}

fn le_bytes(id: u32) -> (r: Vec<u8>)
    ensures
        r@ == u32_le(id as nat),
{
    let mut r = Vec::new();
    r.push((id % 256) as u8);
    r.push(((id / 256) % 256) as u8);
    r.push(((id / 65536) % 256) as u8);
    r.push(((id / 16777216) % 256) as u8);
    assert(r@ =~= u32_le(id as nat));
    r
}

fn bank_hit_index(wems: &Vec<String>, bank: &SoundBank) -> (r: Option<usize>)
    ensures
        match r {
            Some(i) => i < wems.len() && bank_hit(views_of(wems@), bank_views(seq![*bank])[0]) == Some(wems@[i as int]@),
            None => bank_hit(views_of(wems@), bank_views(seq![*bank])[0]) is None,
        },
{
    match &bank.contents {
        None => None,
        Some(bytes) => {
            let ghost pred = |w: Seq<char>| bank_references(bytes@, w);
            let mut flags: Vec<bool> = Vec::new();
            let n = wems.len();
            for i in 0..n
                invariant
                    n == wems.len(),
                    flags.len() == i,
                    pred == (|w: Seq<char>| bank_references(bytes@, w)),
                    forall|k: int| 0 <= k < i ==> flags@[k] == pred(#[trigger] wems@[k]@),
            {
                let f = match wem_id_from_path(wems[i].as_str()) {
                    Some(id) => contains_window(bytes, &le_bytes(id)),
                    None => false,
                };
                flags.push(f);
            }
            proof {
                lemma_flags_for_pred(views_of(wems@), flags@, pred);
            }
            least_flagged(wems.as_slice(), &flags)
        },
    }
}

/// Chooses the song's audio entry among `wems` (the manifest's audio entries)
/// using the soundbanks in `banks`, as `audio_choice_spec` describes.
pub fn choose_audio_wem(wems: &Vec<String>, banks: &Vec<SoundBank>) -> (r: Option<String>)
    ensures
        match r {
            Some(w) => audio_choice_spec(views_of(wems@), bank_views(banks@)) == Some(w@),
            None => audio_choice_spec(views_of(wems@), bank_views(banks@)) is None,
        },
{
    let ghost wv = views_of(wems@);
    let ghost bv = bank_views(banks@);
    if wems.len() == 0 {
        return None;
    }
    if wems.len() == 1 {
        return Some(wems[0].clone());
    }
    let mut full: Option<usize> = None;
    let mut preview: Option<usize> = None;
    let nb = banks.len();
    let mut b: usize = nb;
    // walk the banks from the last to the first, so that the hit of the
    // earliest bank of each kind is the one kept
    while b > 0
        invariant
            b <= nb,
            nb == banks.len(),
            wv == views_of(wems@),
            bv == bank_views(banks@),
            match full {
                Some(i) => i < wems.len() && first_hit(wv, bv.skip(b as int), false) == Some(wems@[i as int]@),
                None => first_hit(wv, bv.skip(b as int), false) is None,
            },
            match preview {
                Some(i) => i < wems.len() && first_hit(wv, bv.skip(b as int), true) == Some(wems@[i as int]@),
                None => first_hit(wv, bv.skip(b as int), true) is None,
            },
        decreases b,
    {
        b = b - 1;
        let bank = &banks[b];
        assert(bv.skip(b as int).drop_first() == bv.skip(b + 1));
        assert(bv.skip(b as int)[0] == bank_views(seq![*bank])[0]);
        let hit = bank_hit_index(wems, bank);
        let is_prev = has_infix_chars(&lower_str(bank.path.as_str()), &chars_of("preview"));
        if hit.is_some() {
            if is_prev {
                preview = hit;
            } else {
                full = hit;
            }
        }
    }
    assert(bv.skip(0) == bv);
    if let Some(i) = full {
        return Some(wems[i].clone());
    }
    if let Some(i) = preview {
        return Some(wems[i].clone());
    }
    let ghost not_prev = |w: Seq<char>| !is_preview_spec(w);
    let ghost any = |w: Seq<char>| true;
    let mut np_flags: Vec<bool> = Vec::new();
    let mut all_flags: Vec<bool> = Vec::new();
    let n = wems.len();
    for i in 0..n
        invariant
            n == wems.len(),
            np_flags.len() == i,
            all_flags.len() == i,
            not_prev == (|w: Seq<char>| !is_preview_spec(w)),
            any == (|w: Seq<char>| true),
            forall|k: int| 0 <= k < i ==> np_flags@[k] == not_prev(#[trigger] wems@[k]@),
            forall|k: int| 0 <= k < i ==> all_flags@[k] == any(#[trigger] wems@[k]@),
    {
        np_flags.push(!has_infix_chars(&lower_str(wems[i].as_str()), &chars_of("preview")));
        all_flags.push(true);
    }
    proof {
        lemma_flags_for_pred(views_of(wems@), np_flags@, not_prev);
        lemma_flags_for_pred(views_of(wems@), all_flags@, any);
    }
    match least_flagged(wems.as_slice(), &np_flags) {
        Some(i) => Some(wems[i].clone()),
        None => match least_flagged(wems.as_slice(), &all_flags) {
            Some(i) => Some(wems[i].clone()),
            None => None,
        },
    }
}


/// A folder name made by `sanitize_folder_name` has as many characters as
/// its input and only ASCII letters, digits, `-` and `_`.
pub proof fn sanitized_folder_names_are_safe(s: Seq<char>)
    ensures
        sanitize_folder_name_spec(s).len() == s.len(),
        forall|i: int|
            0 <= i < s.len() ==> {
                let c = #[trigger] sanitize_folder_name_spec(s)[i];
                is_ascii_alnum(c) || c == '-' || c == '_'
            },
{
}

/// The album art chosen for a manifest is one of its DDS entries, and no
/// entry is chosen when it has none.
pub proof fn album_art_is_a_dds_entry(m: Seq<Seq<char>>)
    ensures
        album_art_spec(m) matches Some(x) ==> exists|i: int| 0 <= i < m.len() && m[i] == x && is_dds_path_spec(m[i]),
        album_art_spec(m) is None <==> forall|i: int| 0 <= i < m.len() ==> !is_dds_path_spec(#[trigger] m[i]),
{
    let ls = lowered_names(m);
    let album = Seq::new(m.len(), |i: int| is_dds_path_spec(m[i]) && has_infix(ls[i], "album"@));
    let dds = Seq::new(m.len(), |i: int| is_dds_path_spec(m[i]));
    lemma_least_flagged_exists(m, album);
    lemma_least_flagged_exists(m, dds);
    assert forall|i: int| 0 <= i < m.len() && #[trigger] album[i] implies dds[i] by {}
    if exists|i: int| 0 <= i < m.len() && is_dds_path_spec(m[i]) {
        let i = choose|i: int| 0 <= i < m.len() && is_dds_path_spec(m[i]);
        assert(dds[i]);
    }
}

proof fn lemma_least_flagged_exists(m: Seq<Seq<char>>, f: Seq<bool>)
    requires
        f.len() == m.len(),
    ensures
        least_of_flagged(m, f) matches Some(x) ==> exists|i: int| 0 <= i < m.len() && f[i] && m[i] == x,
        least_of_flagged(m, f) is None <==> forall|i: int| 0 <= i < m.len() ==> !f[i],
{
    if exists|i: int| 0 <= i < m.len() && f[i] {
        let k = lemma_least_flagged_index(m, f);
        lemma_least_flagged(m, f, m[k]);
    }
}

proof fn lemma_least_flagged_index(m: Seq<Seq<char>>, f: Seq<bool>) -> (k: int)
    requires
        f.len() == m.len(),
        exists|i: int| 0 <= i < m.len() && f[i],
    ensures
        is_least_flagged(m, f, m[k]),
        0 <= k < m.len(),
        f[k],
    decreases m.len(),
{
    let d = m.drop_last();
    let g = f.drop_last();
    let last = m.len() - 1;
    if exists|i: int| 0 <= i < d.len() && g[i] {
        let k0 = lemma_least_flagged_index(d, g);
        assert(m[k0] == d[k0] && f[k0] == g[k0]);
        if f[last] && !text_le(d[k0], m[last]) {
            lemma_text_le_total(d[k0], m[last]);
            assert forall|j: int| 0 <= j < m.len() && #[trigger] f[j] implies text_le(m[last], m[j]) by {
                if j < last {
                    assert(m[j] == d[j] && f[j] == g[j]);
                    crate::ordering::lemma_text_le_trans(m[last], d[k0], d[j]);
                } else {
                    crate::ordering::lemma_text_le_refl(m[last]);
                }
            }
            last
        } else {
            assert forall|j: int| 0 <= j < m.len() && #[trigger] f[j] implies text_le(m[k0], m[j]) by {
                if j < last {
                    assert(m[j] == d[j] && f[j] == g[j]);
                }
            }
            k0
        }
    } else {
        assert(f[last]) by {
            let i = choose|i: int| 0 <= i < m.len() && f[i];
            if i < last {
                assert(g[i] == f[i]);
            }
        }
        assert forall|j: int| 0 <= j < m.len() && #[trigger] f[j] implies text_le(m[last], m[j]) by {
            if j < last {
                assert(g[j] == f[j]);
            } else {
                crate::ordering::lemma_text_le_refl(m[last]);
            }
        }
        last
    }
}

proof fn lemma_least_exists(m: Seq<Seq<char>>, pred: spec_fn(Seq<char>) -> bool)
    ensures
        least_with(m, pred) matches Some(x) ==> exists|i: int| 0 <= i < m.len() && pred(m[i]) && m[i] == x,
        least_with(m, pred) is None <==> forall|i: int| 0 <= i < m.len() ==> !pred(#[trigger] m[i]),
    decreases m.len(),
{
    if exists|i: int| 0 <= i < m.len() && pred(m[i]) {
        let k = lemma_least_index(m, pred);
        lemma_least_with(m, pred, m[k]);
    }
}

proof fn lemma_least_index(m: Seq<Seq<char>>, pred: spec_fn(Seq<char>) -> bool) -> (k: int)
    requires
        exists|i: int| 0 <= i < m.len() && pred(m[i]),
    ensures
        is_least_with(m, pred, m[k]),
        0 <= k < m.len(),
{
    let f = Seq::new(m.len(), |i: int| pred(m[i]));
    let i0 = choose|i: int| 0 <= i < m.len() && pred(m[i]);
    assert(f[i0]);
    let k = lemma_least_flagged_index(m, f);
    assert forall|j: int| 0 <= j < m.len() && pred(#[trigger] m[j]) implies text_le(m[k], m[j]) by {
        assert(f[j]);
    }
    k
}

/// The audio entry chosen for a song is one of its audio entries, and one is
/// chosen whenever there is any.
pub proof fn audio_choice_is_an_entry(wems: Seq<Seq<char>>, banks: Seq<(Seq<char>, Option<Seq<u8>>)>)
    ensures
        audio_choice_spec(wems, banks) is Some <==> wems.len() > 0,
        audio_choice_spec(wems, banks) matches Some(x) ==> wems.contains(x),
{
    lemma_first_hit_in(wems, banks, false);
    lemma_first_hit_in(wems, banks, true);
    lemma_least_exists(wems, |w: Seq<char>| !is_preview_spec(w));
    lemma_least_exists(wems, |w: Seq<char>| true);
    if wems.len() == 1 {
        assert(wems.contains(wems[0]));
    }
    if wems.len() > 1 {
        assert((|w: Seq<char>| true)(wems[0]));
    }
}

proof fn lemma_first_hit_in(wems: Seq<Seq<char>>, banks: Seq<(Seq<char>, Option<Seq<u8>>)>, preview: bool)
    ensures
        first_hit(wems, banks, preview) matches Some(x) ==> wems.contains(x),
    decreases banks.len(),
{
    if banks.len() > 0 {
        lemma_first_hit_in(wems, banks.drop_first(), preview);
        match banks[0].1 {
            Some(bytes) => lemma_least_exists(wems, |w: Seq<char>| bank_references(bytes, w)),
            None => {},
        }
    }
}

} // verus!
