//! Song titles, artists and albums: reading them from file names and raw
//! zero-terminated fields, and merging what several sources say.
use vstd::prelude::*;
use crate::text::{ascii_lower, chars_eq, chars_of, from_utf8_lossy, is_unicode_whitespace, trim_str, lower_seq, lower_str, replace_char_chars, replace_char_seq, string_of, trim_chars, trim_end_seq, trim_seq, trim_start_seq, utf8_lossy};

verus! {

// ---------------------------------------------------------------------------
// Zero-terminated text
// ---------------------------------------------------------------------------

/// The bytes before the first zero byte (all of them when there is none).
pub open spec fn before_zero(b: Seq<u8>) -> Seq<u8>
    decreases b.len(),
{
    if b.len() == 0 {
        b
    } else if b[0] == 0 {
        Seq::empty()
    } else {
        seq![b[0]] + before_zero(b.drop_first())
    }
}

/// The text of a zero-terminated field, decoded leniently and trimmed.
pub open spec fn zero_terminated_text(b: Seq<u8>) -> Seq<char> {
    trim_seq(utf8_lossy(before_zero(b)))
}

fn prefix_before_zero(bytes: &[u8]) -> (r: Vec<u8>)
    ensures
        r@ == before_zero(bytes@),
{
    let mut end: usize = 0;
    while end < bytes.len() && bytes[end] != 0
        invariant
            end <= bytes@.len(),
            forall|k: int| 0 <= k < end ==> bytes@[k] != 0,
        decreases bytes@.len() - end,
    {
        end = end + 1;
    }
    let mut r: Vec<u8> = Vec::new();
    for i in 0..end
        invariant
            end <= bytes@.len(),
            r@ == bytes@.take(i as int),
    {
        r.push(bytes[i]);
        assert(bytes@.take(i + 1) == bytes@.take(i as int).push(bytes@[i as int]));
    }
    proof {
        lemma_before_zero(bytes@, end as int);
    }
    r
}

proof fn lemma_before_zero(b: Seq<u8>, end: int)
    requires
        0 <= end <= b.len(),
        forall|k: int| 0 <= k < end ==> b[k] != 0,
        end == b.len() || b[end] == 0,
    ensures
        before_zero(b) == b.take(end),
    decreases b.len(),
{
    if b.len() == 0 {
        assert(b.take(end) =~= b);
    } else if end == 0 {
        assert(b.take(0) =~= Seq::<u8>::empty());
    } else {
        let t = b.drop_first();
        assert forall|k: int| 0 <= k < end - 1 implies t[k] != 0 by {
            assert(t[k] == b[k + 1]);
        }
        if end < b.len() {
            assert(t[end - 1] == b[end]);
        }
        lemma_before_zero(t, end - 1);
        assert(b.take(end) =~= seq![b[0]] + t.take(end - 1));
    }
}

/// The text of a zero-terminated field, or `None` when it is blank.
pub fn decode_zero_terminated(bytes: &[u8]) -> (r: Option<String>)
    ensures
        match r {
            Some(s) => s@ == zero_terminated_text(bytes@) && s@.len() > 0,
            None => zero_terminated_text(bytes@).len() == 0,
        },
{
    let text = bytes_to_string(bytes);
    if text.as_str().is_empty() {
        None
    } else {
        Some(text)
    }
}

/// The text of a zero-terminated field (possibly empty).
pub fn bytes_to_string(bytes: &[u8]) -> (r: String)
    ensures
        r@ == zero_terminated_text(bytes@),
{
    let prefix = prefix_before_zero(bytes);
    let decoded = from_utf8_lossy(prefix.as_slice());
    trim_str(decoded.as_str())
}

// ---------------------------------------------------------------------------
// Lyric words
// ---------------------------------------------------------------------------

/// `s` without the run of `c` at its end.
pub open spec fn trim_end_char(s: Seq<char>, c: char) -> Seq<char>
    decreases s.len(),
{
    if s.len() > 0 && s.last() == c {
        trim_end_char(s.drop_last(), c)
    } else {
        s
    }
}

/// A lyric word's field: its text (without the trailing `+` marks) and
/// whether a `+` marks it as the last word of a line.
pub fn lyric_word_text(raw: &[u8]) -> (r: (String, bool))
    ensures
        r.0@ == trim_end_char(zero_terminated_text(raw@), '+'),
        r.1 == (zero_terminated_text(raw@).len() > 0 && zero_terminated_text(raw@).last() == '+'),
{
    let text = bytes_to_string(raw);
    let cs = chars_of(text.as_str());
    let ends_line = cs.len() > 0 && cs[cs.len() - 1] == '+';
    let mut end = cs.len();
    assert(cs@.take(end as int) == cs@);
    while end > 0 && cs[end - 1] == '+'
        invariant
            end <= cs@.len(),
            trim_end_char(cs@.take(end as int), '+') == trim_end_char(cs@, '+'),
        decreases end,
    {
        assert(cs@.take(end - 1) == cs@.take(end as int).drop_last());
        end = end - 1;
    }
    let mut out: Vec<char> = Vec::new();
    for i in 0..end
        invariant
            end <= cs@.len(),
            out@ == cs@.take(i as int),
    {
        out.push(cs[i]);
        assert(cs@.take(i + 1) == cs@.take(i as int).push(cs@[i as int]));
    }
    proof {
        assert(cs@.take(cs@.len() as int) == cs@);
        if end > 0 {
            assert(cs@.take(end as int).last() != '+');
        }
        assert(trim_end_char(cs@.take(end as int), '+') == cs@.take(end as int));
    }
    (string_of(&out), ends_line)
}

/// The lines of words so far (word counts of finished lines) and the number
/// of words of the line still open.
pub open spec fn lyric_groups(ends: Seq<bool>) -> (Seq<usize>, usize)
    decreases ends.len(),
{
    if ends.len() == 0 {
        (Seq::empty(), 0)
    } else {
        let (lines, open) = lyric_groups(ends.drop_last());
        if ends.last() {
            (lines.push((open + 1) as usize), 0)
        } else {
            (lines, (open + 1) as usize)
        }
    }
}

/// The word counts of the lyric lines when a line ends after each word marked
/// in `ends`, and the words after the last mark form a final line.
pub open spec fn lyric_line_lengths_spec(ends: Seq<bool>) -> Seq<usize> {
    let (lines, open) = lyric_groups(ends);
    if open > 0 {
        lines.push(open)
    } else {
        lines
    }
}

proof fn lemma_open_bound(ends: Seq<bool>)
    ensures
        lyric_groups(ends).1 <= ends.len(),
    decreases ends.len(),
{
    if ends.len() > 0 {
        lemma_open_bound(ends.drop_last());
    }
}

pub fn lyric_line_lengths(ends: &[bool]) -> (r: Vec<usize>)
    ensures
        r@ == lyric_line_lengths_spec(ends@),
{
    let mut lines: Vec<usize> = Vec::new();
    let mut open: usize = 0;
    let n = ends.len();
    for i in 0..n
        invariant
            n == ends@.len(),
            (lines@, open) == lyric_groups(ends@.take(i as int)),
    {
        proof {
            assert(ends@.take(i + 1).drop_last() == ends@.take(i as int));
            lemma_open_bound(ends@.take(i as int));
        }
        if ends[i] {
            lines.push(open + 1);
            open = 0;
        } else {
            open = open + 1;
        }
    }
    assert(ends@.take(n as int) == ends@);
    if open > 0 {
        lines.push(open);
    }
    lines
}

// ---------------------------------------------------------------------------
// Titles and names
// ---------------------------------------------------------------------------

/// The textual part of a song's metadata.
pub struct SongText {
    pub name: String,
    pub artist: String,
    pub album: String,
    pub year: Option<i32>,
}

impl View for SongText {
    type V = (Seq<char>, Seq<char>, Seq<char>, Option<i32>);

    open spec fn view(&self) -> Self::V {
        (self.name@, self.artist@, self.album@, self.year)
    }
}

pub open spec fn unknown_song() -> Seq<char> {
    "Unknown Song"@
}

pub open spec fn unknown_artist() -> Seq<char> {
    "Unknown Artist"@
}

pub open spec fn unknown_album() -> Seq<char> {
    "Unknown Album"@
}

/// Index of the first `c` in `s`.
pub open spec fn first_index(s: Seq<char>, c: char) -> Option<int>
    decreases s.len(),
{
    if s.len() == 0 {
        None
    } else if s[0] == c {
        Some(0)
    } else {
        match first_index(s.drop_first(), c) {
            Some(i) => Some(i + 1),
            None => None,
        }
    }
}

/// Artist and title guessed from a file stem such as `Artist-Name_Song-Title`:
/// before the first `_` is the artist, after it the title, dashes (and in the
/// title underscores) read as spaces.
pub open spec fn stem_names(stem: Seq<char>) -> (Seq<char>, Seq<char>) {
    match first_index(stem, '_') {
        Some(i) => (
            trim_seq(replace_char_seq(stem.take(i), '-', ' ')),
            trim_seq(replace_char_seq(replace_char_seq(stem.skip(i + 1), '-', ' '), '_', ' ')),
        ),
        None => (
            unknown_artist(),
            trim_seq(replace_char_seq(replace_char_seq(stem, '_', ' '), '-', ' ')),
        ),
    }
}

pub open spec fn or_default(s: Seq<char>, d: Seq<char>) -> Seq<char> {
    if s.len() == 0 {
        d
    } else {
        s
    }
}

/// The metadata text read from a file stem alone.
pub open spec fn metadata_from_file_stem_spec(stem: Seq<char>) -> (Seq<char>, Seq<char>, Seq<char>, Option<i32>) {
    let (artist, name) = stem_names(stem);
    (or_default(name, unknown_song()), or_default(artist, unknown_artist()), unknown_album(), None)
}

fn find_char(s: &Vec<char>, c: char) -> (r: Option<usize>)
    ensures
        match r {
            Some(i) => first_index(s@, c) == Some(i as int) && i < s.len(),
            None => first_index(s@, c) is None,
        },
{
    let mut i: usize = 0;
    assert(s@.skip(0) =~= s@);
    while i < s.len() && s[i] != c
        invariant
            i <= s.len(),
            first_index(s@, c) == match first_index(s@.skip(i as int), c) {
                Some(j) => Some(j + i),
                None => None,
            },
        decreases s.len() - i,
    {
        assert(s@.skip(i as int).drop_first() == s@.skip(i + 1));
        i = i + 1;
    }
    if i < s.len() {
        Some(i)
    } else {
        assert(s@.skip(i as int).len() == 0);
        None
    }
}

fn sub_chars(s: &Vec<char>, lo: usize, hi: usize) -> (r: Vec<char>)
    requires
        lo <= hi <= s.len(),
    ensures
        r@ == s@.subrange(lo as int, hi as int),
{
    let mut r: Vec<char> = Vec::new();
    let mut i = lo;
    while i < hi
        invariant
            lo <= i <= hi <= s.len(),
            r@ == s@.subrange(lo as int, i as int),
        decreases hi - i,
    {
        r.push(s[i]);
        i = i + 1;
    }
    r
}

fn or_default_string(v: &Vec<char>, d: &str) -> (r: String)
    ensures
        r@ == or_default(v@, d@),
{
    if v.len() == 0 {
        d.to_owned()
    } else {
        string_of(v)
    }
}

/// Metadata text from a file stem alone (no album, no year).
pub fn metadata_from_file_stem(file_stem: &str) -> (r: SongText)
    ensures
        r@ == metadata_from_file_stem_spec(file_stem@),
{
    let stem = chars_of(file_stem);
    let (artist, name) = match find_char(&stem, '_') {
        Some(i) => {
            let before = sub_chars(&stem, 0, i);
            let after = sub_chars(&stem, i + 1, stem.len());
            assert(before@ == stem@.take(i as int));
            assert(after@ == stem@.skip(i + 1));
            (
                trim_chars(&replace_char_chars(&before, '-', ' ')),
                trim_chars(&replace_char_chars(&replace_char_chars(&after, '-', ' '), '_', ' ')),
            )
        },
        None => (
            chars_of("Unknown Artist"),
            trim_chars(&replace_char_chars(&replace_char_chars(&stem, '_', ' '), '-', ' ')),
        ),
    };
    SongText {
        name: or_default_string(&name, "Unknown Song"),
        artist: or_default_string(&artist, "Unknown Artist"),
        album: String::from_str("Unknown Album"),
        year: None,
    }
}

// ---------------------------------------------------------------------------
// Merging sources
// ---------------------------------------------------------------------------

/// A file stem with underscores read as spaces: the title a song has when
/// nothing better is known.
pub open spec fn default_name_spec(stem: Seq<char>) -> Seq<char> {
    replace_char_seq(stem, '_', ' ')
}

pub open spec fn name_is_placeholder(name: Seq<char>, default_name: Seq<char>) -> bool {
    name.len() == 0 || name == default_name || name == unknown_song()
}

/// The text after a second source (`source`) has been applied to `target`:
/// a real value from the source replaces a placeholder in the target, or any
/// target value when `strict` is set.
pub open spec fn applied_text(
    target: (Seq<char>, Seq<char>, Seq<char>, Option<i32>),
    source: (Seq<char>, Seq<char>, Seq<char>, Option<i32>),
    strict: bool,
    stem: Seq<char>,
) -> (Seq<char>, Seq<char>, Seq<char>, Option<i32>) {
    let name = if source.0.len() > 0 && source.0 != unknown_song() && (strict || name_is_placeholder(
        target.0,
        default_name_spec(stem),
    )) {
        source.0
    } else {
        target.0
    };
    let artist = if source.1.len() > 0 && source.1 != unknown_artist() && (strict || target.1.len()
        == 0 || target.1 == unknown_artist()) {
        source.1
    } else {
        target.1
    };
    let album = if source.2.len() > 0 && source.2 != unknown_album() && (strict || target.2.len() == 0
        || target.2 == unknown_album()) {
        source.2
    } else {
        target.2
    };
    let year = if source.3 is Some && (strict || target.3 is None) {
        source.3
    } else {
        target.3
    };
    (name, artist, album, year)
}

/// Applies the text of `source` to `target` (the song length is merged by the
/// caller under the same rule).
pub fn apply_song_metadata(target: &mut SongText, source: SongText, strict_override: bool, file_stem: &str)
    ensures
        final(target)@ == applied_text(old(target)@, source@, strict_override, file_stem@),
{
    let default_name = replace_char_chars(&chars_of(file_stem), '_', ' ');
    let src_name = chars_of(source.name.as_str());
    let tgt_name = chars_of(target.name.as_str());
    let unknown_song_c = chars_of("Unknown Song");
    let unknown_artist_c = chars_of("Unknown Artist");
    let unknown_album_c = chars_of("Unknown Album");
    let take_name = src_name.len() > 0 && !chars_eq(&src_name, &unknown_song_c) && (strict_override
        || tgt_name.len() == 0 || chars_eq(&tgt_name, &default_name) || chars_eq(
        &tgt_name,
        &unknown_song_c,
    ));
    let src_artist = chars_of(source.artist.as_str());
    let tgt_artist = chars_of(target.artist.as_str());
    let take_artist = src_artist.len() > 0 && !chars_eq(&src_artist, &unknown_artist_c) && (
    strict_override || tgt_artist.len() == 0 || chars_eq(&tgt_artist, &unknown_artist_c));
    let src_album = chars_of(source.album.as_str());
    let tgt_album = chars_of(target.album.as_str());
    let take_album = src_album.len() > 0 && !chars_eq(&src_album, &unknown_album_c) && (
    strict_override || tgt_album.len() == 0 || chars_eq(&tgt_album, &unknown_album_c));
    let take_year = source.year.is_some() && (strict_override || target.year.is_none());
    if take_name {
        target.name = source.name;
    }
    if take_artist {
        target.artist = source.artist;
    }
    if take_album {
        target.album = source.album;
    }
    if take_year {
        target.year = source.year;
    }
}

/// The text after one arrangement's header has been considered: its song,
/// artist and album names fill placeholders, its year (when positive) fills a
/// missing year.
pub open spec fn arrangement_filled(
    meta: (Seq<char>, Seq<char>, Seq<char>, Option<i32>),
    song_name: Seq<char>,
    artist_name: Seq<char>,
    album_name: Seq<char>,
    album_year: i32,
    default_name: Seq<char>,
) -> (Seq<char>, Seq<char>, Seq<char>, Option<i32>) {
    (
        if name_is_placeholder(meta.0, default_name) && song_name.len() > 0 {
            song_name
        } else {
            meta.0
        },
        if (meta.1.len() == 0 || meta.1 == unknown_artist()) && artist_name.len() > 0 {
            artist_name
        } else {
            meta.1
        },
        if (meta.2.len() == 0 || meta.2 == unknown_album()) && album_name.len() > 0 {
            album_name
        } else {
            meta.2
        },
        if meta.3 is None && album_year > 0 {
            Some(album_year)
        } else {
            meta.3
        },
    )
}

/// Fills placeholders of `meta` from one arrangement header.
pub fn fill_from_arrangement(
    meta: &mut SongText,
    song_name: &str,
    artist_name: &str,
    album_name: &str,
    album_year: i32,
    default_name: &str,
)
    ensures
        final(meta)@ == arrangement_filled(
            old(meta)@,
            song_name@,
            artist_name@,
            album_name@,
            album_year,
            default_name@,
        ),
{
    let name = chars_of(meta.name.as_str());
    if (name.len() == 0 || chars_eq(&name, &chars_of(default_name)) || chars_eq(
        &name,
        &chars_of("Unknown Song"),
    )) && !song_name.is_empty() {
        meta.name = song_name.to_owned();
    }
    let artist = chars_of(meta.artist.as_str());
    if (artist.len() == 0 || chars_eq(&artist, &chars_of("Unknown Artist"))) && !artist_name.is_empty() {
        meta.artist = artist_name.to_owned();
    }
    let album = chars_of(meta.album.as_str());
    if (album.len() == 0 || chars_eq(&album, &chars_of("Unknown Album"))) && !album_name.is_empty() {
        meta.album = album_name.to_owned();
    }
    if meta.year.is_none() && album_year > 0 {
        meta.year = Some(album_year);
    }
}

/// How much a metadata candidate tells beyond placeholders: 2 for a real
/// title, 2 for a real artist, 3 for a real album, 2 for a positive year and 2
/// when it has a positive length.
pub open spec fn metadata_score_spec(
    meta: (Seq<char>, Seq<char>, Seq<char>, Option<i32>),
    default_name: Seq<char>,
    default_artist: Seq<char>,
    has_length: bool,
) -> int {
    (if meta.0.len() > 0 && meta.0 != unknown_song() && meta.0 != default_name {
        2int
    } else {
        0int
    }) + (if meta.1.len() > 0 && meta.1 != unknown_artist() && meta.1 != default_artist {
        2int
    } else {
        0int
    }) + (if meta.2.len() > 0 && meta.2 != unknown_album() {
        3int
    } else {
        0int
    }) + (if meta.3 matches Some(y) && y > 0 {
        2int
    } else {
        0int
    }) + (if has_length {
        2int
    } else {
        0int
    })
}

/// Scores a metadata candidate; `has_length` tells whether its song length is
/// positive.
pub fn metadata_score(meta: &SongText, default_name: &str, default_artist: &str, has_length: bool) -> (r: i32)
    ensures
        r as int == metadata_score_spec(meta@, default_name@, default_artist@, has_length),
{
    let mut score: i32 = 0;
    let name = chars_of(meta.name.as_str());
    if name.len() > 0 && !chars_eq(&name, &chars_of("Unknown Song")) && !chars_eq(&name, &chars_of(default_name)) {
        score = score + 2;
    }
    let artist = chars_of(meta.artist.as_str());
    if artist.len() > 0 && !chars_eq(&artist, &chars_of("Unknown Artist")) && !chars_eq(
        &artist,
        &chars_of(default_artist),
    ) {
        score = score + 2;
    }
    let album = chars_of(meta.album.as_str());
    if album.len() > 0 && !chars_eq(&album, &chars_of("Unknown Album")) {
        score = score + 3;
    }
    match meta.year {
        Some(y) => {
            if y > 0 {
                score = score + 2;
            }
        },
        None => {},
    }
    if has_length {
        score = score + 2;
    }
    score
}

/// Index of the first candidate with the highest score, `None` when there
/// are no candidates.
pub fn best_candidate(scores: &[i32]) -> (r: Option<usize>)
    ensures
        match r {
            Some(i) => {
                &&& i < scores@.len()
                &&& forall|j: int| 0 <= j < scores@.len() ==> scores@[j] <= scores@[i as int]
                &&& forall|j: int| 0 <= j < i ==> scores@[j] < scores@[i as int]
            },
            None => scores@.len() == 0,
        },
{
    if scores.len() == 0 {
        return None;
    }
    let mut best: usize = 0;
    let n = scores.len();
    for i in 1..n
        invariant
            n == scores@.len(),
            best < i,
            forall|j: int| 0 <= j < i ==> scores@[j] <= scores@[best as int],
            forall|j: int| 0 <= j < best ==> scores@[j] < scores@[best as int],
    {
        if scores[i] > scores[best] {
            best = i;
        }
    }
    Some(best)
}

/// Whether a title or artist counts as missing: blank, or the given
/// placeholder in any ASCII case.
pub open spec fn is_missing(s: Seq<char>, placeholder_lower: Seq<char>) -> bool {
    trim_seq(s).len() == 0 || lower_seq(s) == placeholder_lower
}

/// The text of a catalog summary after filling its gaps from the full song
/// data: a missing title or artist is replaced, a placeholder album is
/// replaced by a non-blank one, a missing year is taken over.
pub open spec fn filled_from_song_data(
    file: (Seq<char>, Seq<char>, Seq<char>, Option<i32>),
    data: (Seq<char>, Seq<char>, Seq<char>, Option<i32>),
) -> (Seq<char>, Seq<char>, Seq<char>, Option<i32>) {
    (
        if is_missing(file.0, "unknown song"@) {
            data.0
        } else {
            file.0
        },
        if is_missing(file.1, "unknown artist"@) {
            data.1
        } else {
            file.1
        },
        if file.2 == unknown_album() && trim_seq(data.2).len() > 0 {
            data.2
        } else {
            file.2
        },
        if file.3 is None {
            data.3
        } else {
            file.3
        },
    )
}

/// Every character of `s` is white space (so is the empty text).
pub open spec fn all_blank(s: Seq<char>) -> bool {
    forall|i: int| 0 <= i < s.len() ==> is_unicode_whitespace(#[trigger] s[i])
}

/// `s` spells `lower` with each character as in `lower` or as in `upper`
/// (the same text in upper case).
pub open spec fn spelled_as(s: Seq<char>, lower: Seq<char>, upper: Seq<char>) -> bool {
    &&& s.len() == lower.len()
    &&& forall|i: int| 0 <= i < s.len() ==> #[trigger] s[i] == lower[i] || s[i] == upper[i]
}

proof fn lemma_trim_start_blank(s: Seq<char>)
    requires
        all_blank(s),
    ensures
        trim_start_seq(s).len() == 0,
    decreases s.len(),
{
    if s.len() > 0 {
        assert(is_unicode_whitespace(s[0]));
        let t = s.drop_first();
        assert forall|i: int| 0 <= i < t.len() implies is_unicode_whitespace(#[trigger] t[i]) by {
            assert(t[i] == s[i + 1]);
        }
        lemma_trim_start_blank(t);
    }
}

proof fn lemma_trim_start_keeps(s: Seq<char>, k: int) -> (d: int)
    requires
        0 <= k < s.len(),
        !is_unicode_whitespace(s[k]),
    ensures
        0 <= d <= k,
        trim_start_seq(s) == s.subrange(d, s.len() as int),
    decreases s.len(),
{
    if is_unicode_whitespace(s[0]) {
        let t = s.drop_first();
        assert(t[k - 1] == s[k]);
        let d1 = lemma_trim_start_keeps(t, k - 1);
        assert(t.subrange(d1, t.len() as int) =~= s.subrange(d1 + 1, s.len() as int));
        d1 + 1
    } else {
        assert(s.subrange(0, s.len() as int) =~= s);
        0
    }
}

proof fn lemma_trim_end_keeps(t: Seq<char>, p: int)
    requires
        0 <= p < t.len(),
        !is_unicode_whitespace(t[p]),
    ensures
        trim_end_seq(t).len() > p,
    decreases t.len(),
{
    if is_unicode_whitespace(t.last()) {
        let u = t.drop_last();
        assert(u[p] == t[p]);
        lemma_trim_end_keeps(u, p);
    }
}

/// A text trims to nothing exactly when it is all white space.
proof fn lemma_trim_blank(s: Seq<char>)
    ensures
        (trim_seq(s).len() == 0) == all_blank(s),
{
    if all_blank(s) {
        lemma_trim_start_blank(s);
    } else {
        let k = choose|k: int| 0 <= k < s.len() && !is_unicode_whitespace(#[trigger] s[k]);
        let d = lemma_trim_start_keeps(s, k);
        let t = trim_start_seq(s);
        assert(t[k - d] == s[k]);
        lemma_trim_end_keeps(t, k - d);
    }
}

proof fn lemma_ascii_lower_is(c: char, l: char, u: char)
    requires
        ('a' <= l <= 'z' && u as u32 + 32 == l as u32) || (!('a' <= l <= 'z') && !('A' <= l <= 'Z') && u == l),
    ensures
        (ascii_lower(c) == l) == (c == l || c == u),
{
}

proof fn lemma_lower_is_placeholder(s: Seq<char>, lower: Seq<char>, upper: Seq<char>)
    requires
        lower.len() == upper.len(),
        forall|i: int|
            0 <= i < lower.len() ==> ('a' <= #[trigger] lower[i] <= 'z' && upper[i] as u32 + 32 == lower[i] as u32)
                || (!('a' <= lower[i] <= 'z') && !('A' <= lower[i] <= 'Z') && upper[i] == lower[i]),
    ensures
        (lower_seq(s) == lower) == spelled_as(s, lower, upper),
{
    if lower_seq(s) == lower {
        assert forall|i: int| 0 <= i < s.len() implies #[trigger] s[i] == lower[i] || s[i] == upper[i] by {
            assert(lower_seq(s)[i] == ascii_lower(s[i]));
            lemma_ascii_lower_is(s[i], lower[i], upper[i]);
        }
    }
    if spelled_as(s, lower, upper) {
        assert forall|i: int| 0 <= i < s.len() implies lower_seq(s)[i] == lower[i] by {
            lemma_ascii_lower_is(s[i], lower[i], upper[i]);
        }
        assert(lower_seq(s) =~= lower);
    }
}

proof fn lemma_song_placeholder_cases()
    ensures
        "unknown song"@.len() == "UNKNOWN SONG"@.len(),
        forall|i: int|
            0 <= i < "unknown song"@.len() ==> ('a' <= #[trigger] "unknown song"@[i] <= 'z' && "UNKNOWN SONG"@[i] as u32
                + 32 == "unknown song"@[i] as u32) || (!('a' <= "unknown song"@[i] <= 'z') && !('A' <= "unknown song"@[i]
                <= 'Z') && "UNKNOWN SONG"@[i] == "unknown song"@[i]),
{
    reveal_strlit("unknown song");
    reveal_strlit("UNKNOWN SONG");
}

proof fn lemma_artist_placeholder_cases()
    ensures
        "unknown artist"@.len() == "UNKNOWN ARTIST"@.len(),
        forall|i: int|
            0 <= i < "unknown artist"@.len() ==> ('a' <= #[trigger] "unknown artist"@[i] <= 'z' && "UNKNOWN ARTIST"@[i]
                as u32 + 32 == "unknown artist"@[i] as u32) || (!('a' <= "unknown artist"@[i] <= 'z') && !('A'
                <= "unknown artist"@[i] <= 'Z') && "UNKNOWN ARTIST"@[i] == "unknown artist"@[i]),
{
    reveal_strlit("unknown artist");
    reveal_strlit("UNKNOWN ARTIST");
}

/// What completing a catalog summary from the song data does: a title that is
/// blank or reads "unknown song" in any ASCII case is replaced by the data's
/// title, and any other title is kept; the same for the artist and "unknown
/// artist"; the placeholder album "Unknown Album" is replaced by the data's
/// album unless that is blank; a missing year is taken from the data, a
/// present one kept.
pub proof fn filling_replaces_only_gaps(
    file: (Seq<char>, Seq<char>, Seq<char>, Option<i32>),
    data: (Seq<char>, Seq<char>, Seq<char>, Option<i32>),
)
    ensures
        filled_from_song_data(file, data).0 == (if all_blank(file.0) || spelled_as(
            file.0,
            "unknown song"@,
            "UNKNOWN SONG"@,
        ) {
            data.0
        } else {
            file.0
        }),
        filled_from_song_data(file, data).1 == (if all_blank(file.1) || spelled_as(
            file.1,
            "unknown artist"@,
            "UNKNOWN ARTIST"@,
        ) {
            data.1
        } else {
            file.1
        }),
        filled_from_song_data(file, data).2 == (if file.2 == "Unknown Album"@ && !all_blank(data.2) {
            data.2
        } else {
            file.2
        }),
        filled_from_song_data(file, data).3 == (match file.3 {
            Some(y) => Some(y),
            None => data.3,
        }),
{
    lemma_trim_blank(file.0);
    lemma_trim_blank(file.1);
    lemma_trim_blank(data.2);
    lemma_song_placeholder_cases();
    lemma_artist_placeholder_cases();
    lemma_lower_is_placeholder(file.0, "unknown song"@, "UNKNOWN SONG"@);
    lemma_lower_is_placeholder(file.1, "unknown artist"@, "UNKNOWN ARTIST"@);
}

fn is_missing_chars(s: &str, placeholder_lower: &str) -> (r: bool)
    ensures
        r == is_missing(s@, placeholder_lower@),
{
    let cs = chars_of(s);
    trim_chars(&cs).len() == 0 || chars_eq(&lower_str(s), &chars_of(placeholder_lower))
}

/// Fills the gaps of a catalog summary's text from the full song data (the
/// song length is filled by the caller when it is not positive).
pub fn fill_from_song_data(file: &mut SongText, data: SongText)
    ensures
        final(file)@ == filled_from_song_data(old(file)@, data@),
{
    if is_missing_chars(file.name.as_str(), "unknown song") {
        file.name = data.name;
    }
    if is_missing_chars(file.artist.as_str(), "unknown artist") {
        file.artist = data.artist;
    }
    if chars_eq(&chars_of(file.album.as_str()), &chars_of("Unknown Album")) && trim_chars(
        &chars_of(data.album.as_str()),
    ).len() > 0 {
        file.album = data.album;
    }
    if file.year.is_none() {
        file.year = data.year;
    }
}

/// Whether a catalog summary should be completed from the full song data:
/// its album is the placeholder, its year is missing, or its length (as
/// `has_length` tells) is not positive.
pub fn needs_song_data(file: &SongText, has_length: bool) -> (r: bool)
    ensures
        r == (file.album@ == unknown_album() || file.year is None || !has_length),
{
    chars_eq(&chars_of(file.album.as_str()), &chars_of("Unknown Album")) || file.year.is_none()
        || !has_length
}

} // verus!
