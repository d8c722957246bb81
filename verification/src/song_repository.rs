//! Song sources of the player: errors, ids, and picking the entries of a
//! song from an archive's manifest.
use vstd::prelude::*;
use crate::ordering::{TextKeyed, views_of};
use crate::text::{
    char_is_ascii_control, chars_of, has_infix, has_infix_chars, has_suffix, has_suffix_chars,
    is_ascii_control, push_all, remove_char_seq, replace_char_chars,
    remove_spaces, replace_char_seq, str_eq, string_of, to_lowercase, unicode_lowercase,
};

verus! {

/// Why loading a song source failed.
#[derive(Debug, Clone, Copy, PartialEq, Eq, Structural)]
pub enum SongRepositoryError {
    PsarcLoad,
    PsarcParse,
    XmlParse,
    SngParse,
    WemDecode,
    Unsupported,
}

pub open spec fn repository_error_message(e: SongRepositoryError) -> Seq<char> {
    match e {
        SongRepositoryError::PsarcLoad => "failed to load PSARC"@,
        SongRepositoryError::PsarcParse => "failed to parse PSARC file"@,
        SongRepositoryError::XmlParse => "failed to parse XML"@,
        SongRepositoryError::SngParse => "failed to parse SNG"@,
        SongRepositoryError::WemDecode => "failed to decode WEM audio"@,
        SongRepositoryError::Unsupported => "unsupported song contents"@,
    }
}

impl SongRepositoryError {
    /// The error's text.
    pub fn message(&self) -> (s: String)
        ensures
            s@ == repository_error_message(*self),
    {
        match self {
            SongRepositoryError::PsarcLoad => String::from_str("failed to load PSARC"),
            SongRepositoryError::PsarcParse => String::from_str("failed to parse PSARC file"),
            SongRepositoryError::XmlParse => String::from_str("failed to parse XML"),
            SongRepositoryError::SngParse => String::from_str("failed to parse SNG"),
            SongRepositoryError::WemDecode => String::from_str("failed to decode WEM audio"),
            SongRepositoryError::Unsupported => String::from_str("unsupported song contents"),
        }
    }
}

// ---------------------------------------------------------------------------
// Ids and names
// ---------------------------------------------------------------------------

/// Every ASCII control character removed.
pub open spec fn remove_controls(s: Seq<char>) -> Seq<char>
    decreases s.len(),
{
    if s.len() == 0 {
        s
    } else if is_ascii_control(s.last()) {
        remove_controls(s.drop_last())
    } else {
        remove_controls(s.drop_last()).push(s.last())
    }
}

/// A song's id: `artist_song` with `/` and spaces turned into `-` and ASCII
/// control characters dropped.
pub open spec fn sanitize_id_spec(artist: Seq<char>, song: Seq<char>) -> Seq<char> {
    remove_controls(replace_char_seq(replace_char_seq(artist + seq!['_'] + song, '/', '-'), ' ', '-'))
}

pub fn sanitize_id(artist: &str, song: &str) -> (r: String)
    ensures
        r@ == sanitize_id_spec(artist@, song@),
{
    let mut joined = chars_of(artist);
    joined.push('_');
    push_all(&mut joined, &chars_of(song));
    assert(joined@ =~= artist@ + seq!['_'] + song@);
    let replaced = replace_char_chars(&replace_char_chars(&joined, '/', '-'), ' ', '-');
    let mut out: Vec<char> = Vec::new();
    let n = replaced.len();
    for i in 0..n
        invariant
            n == replaced.len(),
            out@ == remove_controls(replaced@.take(i as int)),
    {
        assert(replaced@.take(i + 1).drop_last() == replaced@.take(i as int));
        if !char_is_ascii_control(replaced[i]) {
            out.push(replaced[i]);
        }
    }
    assert(replaced@.take(n as int) == replaced@);
    string_of(&out)
}

/// An arrangement name as the `.sng` entries spell it: lowercase, no spaces.
pub open spec fn normalize_arrangement_name_spec(name: Seq<char>) -> Seq<char> {
    remove_char_seq(unicode_lowercase(name), ' ')
}

proof fn lemma_removed_char_gone(s: Seq<char>, c: char)
    ensures
        !remove_char_seq(s, c).contains(c),
        !s.contains(c) ==> remove_char_seq(s, c) == s,
        forall|x: char| x != c && #[trigger] s.contains(x) ==> remove_char_seq(s, c).contains(x),
    decreases s.len(),
{
    if s.len() > 0 {
        let d = s.drop_last();
        lemma_removed_char_gone(d, c);
        let r = remove_char_seq(s, c);
        let rd = remove_char_seq(d, c);
        if s.last() != c {
            assert(r == rd.push(s.last()));
            assert forall|x: char| r.contains(x) implies x != c by {
                let i = choose|i: int| 0 <= i < r.len() && r[i] == x;
                if i < rd.len() {
                    assert(rd[i] == x);
                }
            }
        }
        assert forall|x: char| x != c && #[trigger] s.contains(x) implies r.contains(x) by {
            let i = choose|i: int| 0 <= i < s.len() && s[i] == x;
            if i < s.len() - 1 {
                assert(d[i] == x);
                assert(d.contains(x));
                let k = choose|k: int| 0 <= k < rd.len() && rd[k] == x;
                if s.last() != c {
                    assert(r[k] == x);
                }
            } else {
                assert(r[r.len() - 1] == x);
            }
        }
        if !s.contains(c) {
            assert(!d.contains(c)) by {
                if d.contains(c) {
                    let i = choose|i: int| 0 <= i < d.len() && d[i] == c;
                    assert(s[i] == c);
                }
            }
            assert(s.last() != c) by {
                assert(s[s.len() - 1] == s.last());
            }
            assert(d.push(s.last()) =~= s);
        }
    }
}

/// A normalized arrangement name holds no space and keeps every other
/// character of the lowercased name; a lowercased name without spaces is
/// kept as it is.
pub proof fn normalized_names_have_no_spaces(name: Seq<char>)
    ensures
        !normalize_arrangement_name_spec(name).contains(' '),
        forall|x: char|
            x != ' ' && #[trigger] unicode_lowercase(name).contains(x) ==> normalize_arrangement_name_spec(name).contains(x),
        !unicode_lowercase(name).contains(' ') ==> normalize_arrangement_name_spec(name) == unicode_lowercase(name),
{
    lemma_removed_char_gone(unicode_lowercase(name), ' ');
}

pub fn normalize_arrangement_name(name: &str) -> (r: String)
    ensures
        r@ == normalize_arrangement_name_spec(name@),
{
    let lowered = to_lowercase(name);
    remove_spaces(lowered.as_str())
}

// ---------------------------------------------------------------------------
// Manifest entries of a song
// ---------------------------------------------------------------------------

/// Each name of `m` in Unicode lowercase.
pub open spec fn lowercased(m: Seq<Seq<char>>) -> Seq<Seq<char>> {
    m.map_values(|n: Seq<char>| unicode_lowercase(n))
}

/// A lowercased entry name that is a `.sng` entry containing `key`.
pub open spec fn sng_match(lowered: Seq<char>, key: Seq<char>) -> bool {
    has_suffix(lowered, ".sng"@) && has_infix(lowered, key)
}

pub open spec fn is_first_sng(ls: Seq<Seq<char>>, key: Seq<char>, i: int) -> bool {
    &&& 0 <= i < ls.len()
    &&& sng_match(ls[i], key)
    &&& forall|j: int| 0 <= j < i ==> !sng_match(#[trigger] ls[j], key)
}

/// Index of the first lowercased name that is a `.sng` entry containing `key`.
pub open spec fn first_sng_index(ls: Seq<Seq<char>>, key: Seq<char>) -> Option<int> {
    if exists|i: int| 0 <= i < ls.len() && sng_match(ls[i], key) {
        Some(choose|i: int| is_first_sng(ls, key, i))
    } else {
        None
    }
}

proof fn lemma_first_sng(ls: Seq<Seq<char>>, key: Seq<char>, i: int)
    requires
        is_first_sng(ls, key, i),
    ensures
        first_sng_index(ls, key) == Some(i),
{
    let c = choose|c: int| is_first_sng(ls, key, c);
    assert(is_first_sng(ls, key, c));
    if c < i {
        assert(!sng_match(ls[c], key));
    } else if c > i {
        assert(!sng_match(ls[i], key));
    }
}

/// The `.sng` entry among `m` given the lowercased names `ls`: the first whose
/// lowercased name contains `exact`, else the first that contains `loose`.
pub open spec fn sng_choice(m: Seq<Seq<char>>, ls: Seq<Seq<char>>, exact: Seq<char>, loose: Seq<char>) -> Option<Seq<char>> {
    match first_sng_index(ls, exact) {
        Some(i) => Some(m[i]),
        None => match first_sng_index(ls, loose) {
            Some(i) => Some(m[i]),
            None => None,
        },
    }
}

/// The `.sng` entry of an arrangement: the first entry whose lowercased name
/// contains `internal_arrangement` (lowercased), else the first that contains
/// the lowercased internal name.
pub open spec fn find_sng_path_spec(m: Seq<Seq<char>>, internal: Seq<char>, arrangement: Seq<char>) -> Option<
    Seq<char>,
> {
    sng_choice(
        m,
        lowercased(m),
        unicode_lowercase(internal + seq!['_'] + arrangement),
        unicode_lowercase(internal),
    )
}

proof fn lemma_first_sng_exists(ls: Seq<Seq<char>>, key: Seq<char>, i: int)
    requires
        0 <= i < ls.len(),
        sng_match(ls[i], key),
    ensures
        exists|c: int| 0 <= c <= i && is_first_sng(ls, key, c),
    decreases i,
{
    if exists|j: int| 0 <= j < i && sng_match(#[trigger] ls[j], key) {
        let j = choose|j: int| 0 <= j < i && sng_match(#[trigger] ls[j], key);
        lemma_first_sng_exists(ls, key, j);
    } else {
        assert(is_first_sng(ls, key, i));
    }
}

/// `s` ends in `.sng`.
pub open spec fn ends_in_sng(s: Seq<char>) -> bool {
    s.len() >= 4 && s.subrange(s.len() - 4, s.len() as int) == seq!['.', 's', 'n', 'g']
}

/// `key` occurs in `s`.
pub open spec fn occurs_in(s: Seq<char>, key: Seq<char>) -> bool {
    exists|j: int| 0 <= j && j + key.len() <= s.len() && #[trigger] s.subrange(j, j + key.len()) == key
}

/// The chosen `.sng` entry is an entry of the manifest whose lowercased name
/// ends in `.sng` and contains one of the two keys; when some such entry
/// contains the exact key, the choice is the first of those; nothing is chosen
/// only when no such entry contains either key.
pub proof fn chosen_sng_is_an_sng_entry(m: Seq<Seq<char>>, ls: Seq<Seq<char>>, exact: Seq<char>, loose: Seq<char>)
    requires
        ls.len() == m.len(),
    ensures
        sng_choice(m, ls, exact, loose) is Some ==> exists|i: int|
            0 <= i < m.len() && #[trigger] m[i] == sng_choice(m, ls, exact, loose)->Some_0 && ends_in_sng(ls[i])
                && (occurs_in(ls[i], exact) || occurs_in(ls[i], loose)),
        forall|i: int|
            0 <= i < m.len() && ends_in_sng(#[trigger] ls[i]) && occurs_in(ls[i], exact) ==> exists|c: int|
                0 <= c <= i && sng_choice(m, ls, exact, loose) == Some(m[c]) && ends_in_sng(ls[c]) && occurs_in(
                    ls[c],
                    exact,
                ) && forall|j: int| 0 <= j < c ==> !(ends_in_sng(#[trigger] ls[j]) && occurs_in(ls[j], exact)),
        sng_choice(m, ls, exact, loose) is None ==> forall|i: int|
            0 <= i < m.len() && ends_in_sng(#[trigger] ls[i]) ==> !occurs_in(ls[i], exact) && !occurs_in(ls[i], loose),
{
    assert forall|s: Seq<char>, key: Seq<char>| #[trigger] sng_match(s, key) <==> ends_in_sng(s) && occurs_in(s, key) by {
        if has_infix(s, key) {
            let j = choose|j: int| crate::text::occurs_at(s, key, j);
            assert(s.subrange(j, j + key.len()) == key);
        }
        if occurs_in(s, key) {
            let j = choose|j: int| 0 <= j && j + key.len() <= s.len() && #[trigger] s.subrange(j, j + key.len()) == key;
            assert(crate::text::occurs_at(s, key, j));
        }
        assert(".sng"@ =~= seq!['.', 's', 'n', 'g']) by {
            reveal_strlit(".sng");
        }
    }
    match first_sng_index(ls, exact) {
        Some(i) => {
            let w = choose|w: int| 0 <= w < ls.len() && sng_match(ls[w], exact);
            lemma_first_sng_exists(ls, exact, w);
            assert(is_first_sng(ls, exact, i));
        },
        None => {
            match first_sng_index(ls, loose) {
                Some(i) => {
                    let w = choose|w: int| 0 <= w < ls.len() && sng_match(ls[w], loose);
                    lemma_first_sng_exists(ls, loose, w);
                    assert(is_first_sng(ls, loose, i));
                },
                None => {},
            }
        },
    }
}

/// The `.sng` entry found for an arrangement is an entry of the manifest whose
/// lowercased name ends in `.sng`.
pub proof fn found_sng_is_an_sng_entry(m: Seq<Seq<char>>, internal: Seq<char>, arrangement: Seq<char>)
    ensures
        find_sng_path_spec(m, internal, arrangement) is Some ==> exists|i: int|
            0 <= i < m.len() && #[trigger] m[i] == find_sng_path_spec(m, internal, arrangement)->Some_0 && ends_in_sng(
                unicode_lowercase(m[i]),
            ),
{
    chosen_sng_is_an_sng_entry(
        m,
        lowercased(m),
        unicode_lowercase(internal + seq!['_'] + arrangement),
        unicode_lowercase(internal),
    );
    if find_sng_path_spec(m, internal, arrangement) is Some {
        let i = choose|i: int|
            0 <= i < m.len() && #[trigger] m[i] == find_sng_path_spec(m, internal, arrangement)->Some_0
                && ends_in_sng(lowercased(m)[i]) && (occurs_in(lowercased(m)[i], unicode_lowercase(internal + seq!['_'] + arrangement))
                || occurs_in(lowercased(m)[i], unicode_lowercase(internal)));
        assert(lowercased(m)[i] == unicode_lowercase(m[i]));
    }
}

fn first_sng(lowered: &[String], key: &Vec<char>) -> (r: Option<usize>)
    ensures
        match r {
            Some(i) => i < lowered@.len() && first_sng_index(views_of(lowered@), key@) == Some(i as int),
            None => first_sng_index(views_of(lowered@), key@) is None,
        },
{
    let ghost ls = views_of(lowered@);
    let sng = chars_of(".sng");
    let n = lowered.len();
    for i in 0..n
        invariant
            n == lowered@.len(),
            ls == views_of(lowered@),
            sng@ == ".sng"@,
            forall|j: int| 0 <= j < i ==> !sng_match(#[trigger] ls[j], key@),
    {
        let lc = chars_of(lowered[i].as_str());
        assert(ls[i as int] == lowered@[i as int]@);
        if has_suffix_chars(&lc, &sng) && has_infix_chars(&lc, key) {
            proof {
                lemma_first_sng(ls, key@, i as int);
            }
            return Some(i);
        }
    }
    None
}

/// The `.sng` entry among `manifest` whose lowercased name (in `lowered`)
/// contains `exact_key`, else one that contains `loose_key`, as `sng_choice`
/// describes.
pub fn pick_sng_entry(manifest: &[String], lowered: &[String], exact_key: &str, loose_key: &str) -> (r: Option<String>)
    requires
        lowered@.len() == manifest@.len(),
    ensures
        match r {
            Some(p) => sng_choice(views_of(manifest@), views_of(lowered@), exact_key@, loose_key@) == Some(p@),
            None => sng_choice(views_of(manifest@), views_of(lowered@), exact_key@, loose_key@) is None,
        },
{
    match first_sng(lowered, &chars_of(exact_key)) {
        Some(i) => Some(manifest[i].clone()),
        None => match first_sng(lowered, &chars_of(loose_key)) {
            Some(i) => Some(manifest[i].clone()),
            None => None,
        },
    }
}

fn lowercase_all(names: &[String]) -> (r: Vec<String>)
    ensures
        r@.len() == names@.len(),
        views_of(r@) == lowercased(views_of(names@)),
{
    let ghost m = views_of(names@);
    let mut out: Vec<String> = Vec::new();
    let n = names.len();
    for i in 0..n
        invariant
            n == names@.len(),
            m == views_of(names@),
            out.len() == i,
            forall|k: int| 0 <= k < i ==> (#[trigger] out@[k])@ == unicode_lowercase(m[k]),
    {
        assert(m[i as int] == names@[i as int]@);
        out.push(to_lowercase(names[i].as_str()));
    }
    assert(views_of(out@) =~= lowercased(m));
    out
}

pub fn find_sng_path(manifest: &[String], internal_name: &str, arrangement: &str) -> (r: Option<String>)
    ensures
        match r {
            Some(p) => find_sng_path_spec(views_of(manifest@), internal_name@, arrangement@) == Some(p@),
            None => find_sng_path_spec(views_of(manifest@), internal_name@, arrangement@) is None,
        },
{
    let mut joined = chars_of(internal_name);
    joined.push('_');
    push_all(&mut joined, &chars_of(arrangement));
    assert(joined@ =~= internal_name@ + seq!['_'] + arrangement@);
    let joined_s = string_of(&joined);
    let exact = to_lowercase(joined_s.as_str());
    let loose = to_lowercase(internal_name);
    let lowered = lowercase_all(manifest);
    pick_sng_entry(manifest, lowered.as_slice(), exact.as_str(), loose.as_str())
}

/// `i` is the largest flagged entry, the earliest among equally large ones.
pub open spec fn is_largest_flagged(sizes: Seq<u64>, flags: Seq<bool>, i: int) -> bool {
    &&& 0 <= i < sizes.len()
    &&& flags[i]
    &&& forall|j: int|
        0 <= j < sizes.len() && #[trigger] flags[j] ==> sizes[j] < sizes[i] || (sizes[j] == sizes[i] && j >= i)
}

/// Index of the largest flagged entry (the earliest among equally large ones).
pub open spec fn largest_flagged_index(sizes: Seq<u64>, flags: Seq<bool>) -> Option<int> {
    if exists|i: int| 0 <= i < sizes.len() && flags[i] {
        Some(choose|i: int| is_largest_flagged(sizes, flags, i))
    } else {
        None
    }
}

proof fn lemma_largest_flagged(sizes: Seq<u64>, flags: Seq<bool>, i: int)
    requires
        is_largest_flagged(sizes, flags, i),
    ensures
        largest_flagged_index(sizes, flags) == Some(i),
{
    let c = choose|c: int| is_largest_flagged(sizes, flags, c);
    assert(is_largest_flagged(sizes, flags, c));
    assert(flags[c]);
    assert(flags[i]);
}

/// The audio entry among `names` with sizes `sizes` given their lowercased
/// names `lowered`: taken largest first (ties in order), the first whose
/// lowercased name contains `key`, else the largest entry.
pub open spec fn wem_choice(names: Seq<Seq<char>>, sizes: Seq<u64>, lowered: Seq<Seq<char>>, key: Seq<char>) -> Option<
    Seq<char>,
> {
    match largest_flagged_index(sizes, Seq::new(sizes.len(), |i: int| has_infix(lowered[i], key))) {
        Some(i) => Some(names[i]),
        None => match largest_flagged_index(sizes, Seq::new(sizes.len(), |i: int| true)) {
            Some(i) => Some(names[i]),
            None => None,
        },
    }
}

proof fn lemma_largest_upto(sizes: Seq<u64>, flags: Seq<bool>, n: int) -> (b: int)
    requires
        0 < n <= sizes.len(),
        flags.len() == sizes.len(),
        exists|j: int| 0 <= j < n && flags[j],
    ensures
        0 <= b < n,
        flags[b],
        forall|j: int| 0 <= j < n && #[trigger] flags[j] ==> sizes[j] < sizes[b] || (sizes[j] == sizes[b] && j >= b),
    decreases n,
{
    if exists|j: int| 0 <= j < n - 1 && flags[j] {
        let p = lemma_largest_upto(sizes, flags, n - 1);
        if flags[n - 1] && sizes[n - 1] > sizes[p] {
            n - 1
        } else {
            p
        }
    } else {
        n - 1
    }
}

/// The audio entry chosen among `(name, size)` entries: nothing only when
/// there are no entries; otherwise an entry of the list, which, when some
/// entry's lowercased name contains the key, is one of those and at least as
/// large as each of them, and else at least as large as every entry.
pub proof fn chosen_wem_is_largest(names: Seq<Seq<char>>, sizes: Seq<u64>, lowered: Seq<Seq<char>>, key: Seq<char>)
    requires
        names.len() == sizes.len(),
        lowered.len() == sizes.len(),
    ensures
        (wem_choice(names, sizes, lowered, key) is None) == (names.len() == 0),
        wem_choice(names, sizes, lowered, key) is Some ==> exists|i: int|
            0 <= i < names.len() && #[trigger] names[i] == wem_choice(names, sizes, lowered, key)->Some_0 && (if exists|j: int|
                0 <= j < names.len() && occurs_in(#[trigger] lowered[j], key) {
                occurs_in(lowered[i], key) && forall|j: int|
                    0 <= j < names.len() && occurs_in(#[trigger] lowered[j], key) ==> sizes[j] <= sizes[i]
            } else {
                forall|j: int| 0 <= j < names.len() ==> #[trigger] sizes[j] <= sizes[i]
            }),
{
    let named = Seq::new(sizes.len(), |i: int| has_infix(lowered[i], key));
    let all = Seq::new(sizes.len(), |i: int| true);
    assert forall|s: Seq<char>| #[trigger] has_infix(s, key) <==> occurs_in(s, key) by {
        if has_infix(s, key) {
            let j = choose|j: int| crate::text::occurs_at(s, key, j);
            assert(s.subrange(j, j + key.len()) == key);
        }
        if occurs_in(s, key) {
            let j = choose|j: int| 0 <= j && j + key.len() <= s.len() && #[trigger] s.subrange(j, j + key.len()) == key;
            assert(crate::text::occurs_at(s, key, j));
        }
    }
    if exists|j: int| 0 <= j < names.len() && occurs_in(#[trigger] lowered[j], key) {
        let j = choose|j: int| 0 <= j < names.len() && occurs_in(#[trigger] lowered[j], key);
        assert(named[j]);
        let b = lemma_largest_upto(sizes, named, sizes.len() as int);
        lemma_largest_flagged(sizes, named, b);
        assert(names[b] == wem_choice(names, sizes, lowered, key)->Some_0);
        assert forall|k: int| 0 <= k < names.len() && occurs_in(#[trigger] lowered[k], key) implies sizes[k] <= sizes[b] by {
            assert(named[k]);
        }
    } else if names.len() > 0 {
        assert(!exists|i: int| 0 <= i < sizes.len() && named[i]) by {
            if exists|i: int| 0 <= i < sizes.len() && named[i] {
                let i = choose|i: int| 0 <= i < sizes.len() && named[i];
                assert(has_infix(lowered[i], key));
            }
        }
        assert(all[0]);
        let b = lemma_largest_upto(sizes, all, sizes.len() as int);
        lemma_largest_flagged(sizes, all, b);
        assert forall|k: int| 0 <= k < names.len() implies #[trigger] sizes[k] <= sizes[b] by {
            assert(all[k]);
        }
    }
}

pub open spec fn entry_names(entries: Seq<(String, u64)>) -> Seq<Seq<char>> {
    entries.map_values(|e: (String, u64)| e.0@)
}

pub open spec fn entry_sizes(entries: Seq<(String, u64)>) -> Seq<u64> {
    entries.map_values(|e: (String, u64)| e.1)
}

/// The audio entry of a song: among `(name, size)` entries taken largest
/// first (ties in order), the first whose lowercased name contains the
/// lowercased internal name, else the largest entry.
pub open spec fn select_wem_path_spec(entries: Seq<(String, u64)>, internal: Seq<char>) -> Option<Seq<char>> {
    wem_choice(
        entry_names(entries),
        entry_sizes(entries),
        lowercased(entry_names(entries)),
        unicode_lowercase(internal),
    )
}

fn largest_flagged(entries: &[(String, u64)], flags: &Vec<bool>) -> (r: Option<usize>)
    requires
        flags.len() == entries@.len(),
    ensures
        match r {
            Some(i) => i < entries@.len() && largest_flagged_index(entry_sizes(entries@), flags@) == Some(i as int),
            None => largest_flagged_index(entry_sizes(entries@), flags@) is None,
        },
{
    let ghost sz = entry_sizes(entries@);
    let mut best: Option<usize> = None;
    let n = entries.len();
    for i in 0..n
        invariant
            n == entries@.len(),
            flags.len() == n,
            sz == entry_sizes(entries@),
            match best {
                Some(b) => b < i && flags@[b as int] && forall|j: int|
                    0 <= j < i && #[trigger] flags@[j] ==> sz[j] < sz[b as int] || (sz[j] == sz[b as int]
                        && j >= b),
                None => forall|j: int| 0 <= j < i ==> !flags@[j],
            },
    {
        assert(sz[i as int] == entries@[i as int].1);
        if flags[i] {
            match best {
                None => {
                    best = Some(i);
                },
                Some(b) => {
                    assert(sz[b as int] == entries@[b as int].1);
                    if entries[i].1 > entries[b].1 {
                        best = Some(i);
                    }
                },
            }
        }
    }
    proof {
        match best {
            Some(b) => {
                lemma_largest_flagged(sz, flags@, b as int);
            },
            None => {},
        }
    }
    best
}

/// The audio entry among `entries` given their lowercased names `lowered`
/// and the lowercased internal name `internal_key`, as `wem_choice`
/// describes.
pub fn pick_wem_entry(entries: &[(String, u64)], lowered: &[String], internal_key: &str) -> (r: Option<String>)
    requires
        lowered@.len() == entries@.len(),
    ensures
        match r {
            Some(p) => wem_choice(entry_names(entries@), entry_sizes(entries@), views_of(lowered@), internal_key@)
                == Some(p@),
            None => wem_choice(entry_names(entries@), entry_sizes(entries@), views_of(lowered@), internal_key@)
                is None,
        },
{
    let ghost ls = views_of(lowered@);
    let ghost sz = entry_sizes(entries@);
    let key = chars_of(internal_key);
    let mut named_flags: Vec<bool> = Vec::new();
    let mut all_flags: Vec<bool> = Vec::new();
    let n = entries.len();
    for i in 0..n
        invariant
            n == entries@.len(),
            n == lowered@.len(),
            ls == views_of(lowered@),
            key@ == internal_key@,
            named_flags.len() == i,
            all_flags.len() == i,
            forall|k: int| 0 <= k < i ==> #[trigger] named_flags@[k] == has_infix(ls[k], internal_key@),
            forall|k: int| 0 <= k < i ==> #[trigger] all_flags@[k],
    {
        let h = has_infix_chars(&chars_of(lowered[i].as_str()), &key);
        assert(ls[i as int] == lowered@[i as int]@);
        named_flags.push(h);
        all_flags.push(true);
        assert(named_flags@[i as int] == has_infix(ls[i as int], internal_key@));
    }
    assert(named_flags@ =~= Seq::new(sz.len(), |i: int| has_infix(ls[i], internal_key@)));
    assert(all_flags@ =~= Seq::new(sz.len(), |i: int| true));
    match largest_flagged(entries, &named_flags) {
        Some(i) => {
            assert(entry_names(entries@)[i as int] == entries@[i as int].0@);
            Some(entries[i].0.clone())
        },
        None => match largest_flagged(entries, &all_flags) {
            Some(i) => {
                assert(entry_names(entries@)[i as int] == entries@[i as int].0@);
                Some(entries[i].0.clone())
            },
            None => None,
        },
    }
}

pub fn select_wem_path(entries: &[(String, u64)], internal_name: &str) -> (r: Option<String>)
    ensures
        match r {
            Some(p) => select_wem_path_spec(entries@, internal_name@) == Some(p@),
            None => select_wem_path_spec(entries@, internal_name@) is None,
        },
{
    let ghost names = entry_names(entries@);
    let mut lowered: Vec<String> = Vec::new();
    let n = entries.len();
    for i in 0..n
        invariant
            n == entries@.len(),
            names == entry_names(entries@),
            lowered.len() == i,
            forall|k: int| 0 <= k < i ==> (#[trigger] lowered@[k])@ == unicode_lowercase(names[k]),
    {
        assert(names[i as int] == entries@[i as int].0@);
        lowered.push(to_lowercase(entries[i].0.as_str()));
    }
    assert(views_of(lowered@) =~= lowercased(names));
    let key = to_lowercase(internal_name);
    pick_wem_entry(entries, lowered.as_slice(), key.as_str())
}

// ---------------------------------------------------------------------------
// Keyed lists
// ---------------------------------------------------------------------------

/// An item stored under a text key (a song's folder name or id).
pub struct Keyed<T> {
    pub key: String,
    pub item: T,
}

impl<T> View for Keyed<T> {
    type V = (Seq<char>, T);

    open spec fn view(&self) -> (Seq<char>, T) {
        (self.key@, self.item)
    }
}

impl<T> TextKeyed for Keyed<T> {
    open spec fn text_key(v: (Seq<char>, T)) -> Seq<char> {
        v.0
    }

    fn key_chars(&self) -> (r: Vec<char>) {
        chars_of(self.key.as_str())
    }
}

pub open spec fn first_with_key<T>(list: Seq<(Seq<char>, T)>, k: Seq<char>) -> Option<int> {
    if exists|i: int| 0 <= i < list.len() && list[i].0 == k {
        Some(choose|i: int| 0 <= i < list.len() && list[i].0 == k && forall|j: int| 0 <= j < i ==> list[j].0 != k)
    } else {
        None
    }
}

fn find_key_index<T>(list: &Vec<Keyed<T>>, key: &str) -> (r: Option<usize>)
    ensures
        match r {
            Some(i) => i < list.len() && first_with_key(views_of(list@), key@) == Some(i as int),
            None => first_with_key(views_of(list@), key@) is None,
        },
{
    let ghost v = views_of(list@);
    let n = list.len();
    for i in 0..n
        invariant
            n == list.len(),
            v == views_of(list@),
            forall|j: int| 0 <= j < i ==> v[j].0 != key@,
    {
        if str_eq(list[i].key.as_str(), key) {
            proof {
                assert(v[i as int].0 == key@);
                let c = choose|c: int| 0 <= c < v.len() && v[c].0 == key@ && forall|j: int| 0 <= j < c ==> v[j].0 != key@;
                if c < i {
                } else if c > i {
                    assert(v[i as int].0 != key@);
                }
            }
            return Some(i);
        }
    }
    None
}

/// Replaces the first item with the same key as `entry`, or appends `entry`
/// when no item has that key.
pub fn upsert_by_key<T>(list: &mut Vec<Keyed<T>>, entry: Keyed<T>)
    ensures
        views_of(final(list)@) == match first_with_key(views_of(old(list)@), entry@.0) {
            Some(i) => views_of(old(list)@).update(i, entry@),
            None => views_of(old(list)@).push(entry@),
        },
{
    let ghost before = views_of(list@);
    match find_key_index(list, entry.key.as_str()) {
        Some(i) => {
            list.set(i, entry);
            assert(views_of(list@) =~= before.update(i as int, entry@));
        },
        None => {
            list.push(entry);
            assert(views_of(list@) =~= before.push(entry@));
        },
    }
}


/// A song id never holds `/`, a space or an ASCII control character.
pub proof fn sanitized_ids_are_clean(artist: Seq<char>, song: Seq<char>)
    ensures
        forall|i: int|
            0 <= i < sanitize_id_spec(artist, song).len() ==> {
                let c = #[trigger] sanitize_id_spec(artist, song)[i];
                c != '/' && c != ' ' && !is_ascii_control(c)
            },
{
    let r = replace_char_seq(replace_char_seq(artist + seq!['_'] + song, '/', '-'), ' ', '-');
    lemma_remove_controls_clean(r);
}

proof fn lemma_remove_controls_clean(s: Seq<char>)
    requires
        forall|i: int| 0 <= i < s.len() ==> s[i] != '/' && s[i] != ' ',
    ensures
        forall|i: int|
            0 <= i < remove_controls(s).len() ==> {
                let c = #[trigger] remove_controls(s)[i];
                c != '/' && c != ' ' && !is_ascii_control(c)
            },
    decreases s.len(),
{
    if s.len() > 0 {
        let d = s.drop_last();
        assert forall|i: int| 0 <= i < d.len() implies d[i] != '/' && d[i] != ' ' by {
            assert(d[i] == s[i]);
        }
        lemma_remove_controls_clean(d);
        let r = remove_controls(s);
        let rd = remove_controls(d);
        assert forall|i: int| 0 <= i < r.len() implies {
            let c = #[trigger] r[i];
            c != '/' && c != ' ' && !is_ascii_control(c)
        } by {
            if i < rd.len() {
                assert(r[i] == rd[i]);
            } else {
                assert(r[i] == s.last());
                assert(s[s.len() - 1] == s.last());
            }
        }
    }
}

/// Upserting keeps the keys of a list distinct: a list with distinct keys
/// still has distinct keys afterwards, and the new entry is in it.
pub proof fn upsert_keeps_keys_distinct<T>(list: Seq<(Seq<char>, T)>, entry: (Seq<char>, T))
    requires
        forall|i: int, j: int| 0 <= i < j < list.len() ==> #[trigger] list[i].0 != #[trigger] list[j].0,
    ensures
        ({
            let after = match first_with_key(list, entry.0) {
                Some(i) => list.update(i, entry),
                None => list.push(entry),
            };
            &&& after.contains(entry)
            &&& forall|i: int, j: int| 0 <= i < j < after.len() ==> #[trigger] after[i].0 != #[trigger] after[j].0
        }),
{
    match first_with_key(list, entry.0) {
        Some(i) => {
            let c = choose|c: int| 0 <= c < list.len() && list[c].0 == entry.0 && forall|j: int| 0 <= j < c ==> list[j].0 != entry.0;
            let after = list.update(i, entry);
            assert(after[i] == entry);
            assert forall|a: int, b: int| 0 <= a < b < after.len() implies #[trigger] after[a].0 != #[trigger] after[b].0 by {
                if a == i {
                    assert(after[b] == list[b]);
                } else if b == i {
                    assert(after[a] == list[a]);
                } else {
                    assert(after[a] == list[a] && after[b] == list[b]);
                }
            }
        },
        None => {
            let after = list.push(entry);
            assert(after[list.len() as int] == entry);
            assert forall|a: int, b: int| 0 <= a < b < after.len() implies #[trigger] after[a].0 != #[trigger] after[b].0 by {
                if b == list.len() {
                    assert(after[a] == list[a]);
                    assert(list[a].0 != entry.0);
                } else {
                    assert(after[a] == list[a] && after[b] == list[b]);
                }
            }
        },
    }
}

} // verus!
