//! The song catalog: songs found in a DLC folder, each under an id of its own,
//! listed by song name.
//!
//! The payload `S` is whatever summary the caller keeps per song; the catalog
//! never looks inside it, and puts a song's id into it through the caller's
//! `with_id` when the scan gives the song that id.
use vstd::prelude::*;
use crate::numbers::{decimal, decimal_chars};
use crate::ordering::{TextKeyed, views_of, stable_sorted_by_text, stable_sort_by_text};
use crate::text::{chars_of, chars_eq, push_all, string_of};

verus! {

// ---------------------------------------------------------------------------
// Unique ids
// ---------------------------------------------------------------------------

/// The id a song starts from: its folder name, or `song` when that is empty.
pub open spec fn base_id(folder_name: Seq<char>) -> Seq<char> {
    if folder_name.len() == 0 {
        seq!['s', 'o', 'n', 'g']
    } else {
        folder_name
    }
}

/// The `k`-th id tried for `base`: `base` itself, then `base_2`, `base_3`, ...
pub open spec fn id_candidate(base: Seq<char>, k: nat) -> Seq<char> {
    if k == 0 {
        base
    } else {
        base + seq!['_'] + decimal(k + 1)
    }
}

pub open spec fn is_first_free(used: Seq<Seq<char>>, base: Seq<char>, k: nat) -> bool {
    &&& !used.contains(id_candidate(base, k))
    &&& forall|j: nat| j < k ==> used.contains(#[trigger] id_candidate(base, j))
}

/// Index of the first candidate for `base` that `used` does not hold.
pub open spec fn first_free(used: Seq<Seq<char>>, base: Seq<char>) -> nat {
    choose|k: nat| is_first_free(used, base, k)
}

/// The ids given to songs whose base ids are `bases`, in scan order: each song
/// takes the first candidate that no earlier song has taken.
pub open spec fn assigned_ids(bases: Seq<Seq<char>>) -> Seq<Seq<char>>
    decreases bases.len(),
{
    if bases.len() == 0 {
        Seq::empty()
    } else {
        let prev = assigned_ids(bases.drop_last());
        prev.push(id_candidate(bases.last(), first_free(prev, bases.last())))
    }
}

proof fn lemma_candidate_injective(base: Seq<char>, a: nat, b: nat)
    requires
        id_candidate(base, a) == id_candidate(base, b),
    ensures
        a == b,
{
    if a != b {
        if a == 0 || b == 0 {
            crate::numbers::lemma_decimal_value(a + 1);
            crate::numbers::lemma_decimal_value(b + 1);
            assert(id_candidate(base, a).len() != id_candidate(base, b).len());
        } else {
            let n = base.len() + 1;
            assert(id_candidate(base, a).subrange(n as int, id_candidate(base, a).len() as int)
                =~= decimal(a + 1));
            assert(id_candidate(base, b).subrange(n as int, id_candidate(base, b).len() as int)
                =~= decimal(b + 1));
            crate::numbers::lemma_decimal_value(a + 1);
            crate::numbers::lemma_decimal_value(b + 1);
        }
    }
}

/// If the first `k` candidates of `base` are all taken, there are at least
/// `k` taken ids.
proof fn lemma_taken_candidates_bound(used: Seq<Seq<char>>, base: Seq<char>, k: nat)
    requires
        forall|j: nat| j < k ==> used.contains(#[trigger] id_candidate(base, j)),
    ensures
        k <= used.len(),
{
    let f = |j: int| id_candidate(base, j as nat);
    let dom = vstd::set_lib::set_int_range(0, k as int);
    vstd::set_lib::lemma_int_range(0, k as int);
    assert(vstd::relations::injective_on(f, dom)) by {
        assert forall|x: int, y: int| dom.contains(x) && dom.contains(y) && #[trigger] f(x) == #[trigger] f(y)
            implies x == y by {
            lemma_candidate_injective(base, x as nat, y as nat);
        }
    }
    let img = dom.map(f);
    vstd::set_lib::lemma_map_size(dom, img, f);
    let all = used.to_set();
    assert(img.subset_of(all)) by {
        assert forall|s: Seq<char>| img.contains(s) implies all.contains(s) by {
            let x = choose|x: int| dom.contains(x) && f(x) == s;
            assert(used.contains(id_candidate(base, x as nat)));
        }
    }
    used.lemma_cardinality_of_set();
    vstd::seq_lib::seq_to_set_is_finite(used);
    vstd::set_lib::lemma_len_subset(img, all);
}

proof fn lemma_free_from(used: Seq<Seq<char>>, base: Seq<char>, k: nat) -> (r: nat)
    requires
        forall|j: nat| j < k ==> used.contains(#[trigger] id_candidate(base, j)),
    ensures
        is_first_free(used, base, r),
        r <= used.len(),
    decreases used.len() + 1 - k,
{
    if k > used.len() {
        lemma_taken_candidates_bound(used, base, k);
        0
    } else if !used.contains(id_candidate(base, k)) {
        k
    } else {
        lemma_free_from(used, base, k + 1)
    }
}

proof fn lemma_first_free_exists(used: Seq<Seq<char>>, base: Seq<char>)
    ensures
        is_first_free(used, base, first_free(used, base)),
        first_free(used, base) <= used.len(),
{
    let k = lemma_free_from(used, base, 0);
    let c = first_free(used, base);
    assert(is_first_free(used, base, c));
    if c < k {
        assert(used.contains(id_candidate(base, c)));
    } else if c > k {
        assert(used.contains(id_candidate(base, k)));
    }
}

/// Every song gets an id of its own.
pub proof fn assigned_ids_are_distinct(bases: Seq<Seq<char>>)
    ensures
        assigned_ids(bases).len() == bases.len(),
        forall|i: int, j: int|
            0 <= i < j < bases.len() ==> #[trigger] assigned_ids(bases)[i]
                != #[trigger] assigned_ids(bases)[j],
    decreases bases.len(),
{
    if bases.len() > 0 {
        let pre = bases.drop_last();
        assigned_ids_are_distinct(pre);
        let prev = assigned_ids(pre);
        lemma_first_free_exists(prev, bases.last());
        let ids = assigned_ids(bases);
        assert forall|i: int, j: int| 0 <= i < j < bases.len() implies #[trigger] ids[i]
            != #[trigger] ids[j] by {
            if j == bases.len() - 1 {
                assert(prev[i] == ids[i]);
                assert(prev.contains(ids[i]));
            } else {
                assert(prev[i] == ids[i] && prev[j] == ids[j]);
            }
        }
    }
}

/// Each song's id is its base id, or its base id with a `_N` suffix (N >= 2);
/// a song keeps its base id when no earlier song took it.
pub proof fn assigned_id_shape(bases: Seq<Seq<char>>, i: int)
    requires
        0 <= i < bases.len(),
    ensures
        exists|k: nat| assigned_ids(bases)[i] == #[trigger] id_candidate(bases[i], k),
        !assigned_ids(bases.take(i)).contains(bases[i]) ==> assigned_ids(bases)[i] == bases[i],
    decreases bases.len(),
{
    let pre = bases.drop_last();
    assigned_ids_are_distinct(bases);
    assigned_ids_are_distinct(pre);
    if i < bases.len() - 1 {
        assigned_id_shape(pre, i);
        assert(pre.take(i) == bases.take(i));
        assert(assigned_ids(bases)[i] == assigned_ids(pre)[i]);
    } else {
        assert(pre == bases.take(i));
        let prev = assigned_ids(pre);
        lemma_first_free_exists(prev, bases.last());
        let k = first_free(prev, bases.last());
        assert(assigned_ids(bases)[i] == id_candidate(bases[i], k));
        if !prev.contains(bases[i]) {
            assert(id_candidate(bases[i], 0) == bases[i]);
            if k > 0 {
                assert(prev.contains(id_candidate(bases.last(), 0)));
            }
        }
    }
}

fn contains_text(used: &Vec<Vec<char>>, x: &Vec<char>) -> (r: bool)
    ensures
        r == views_of(used@).contains(x@),
{
    let n = used.len();
    for i in 0..n
        invariant
            n == used.len(),
            forall|j: int| 0 <= j < i ==> views_of(used@)[j] != x@,
    {
        if chars_eq(&used[i], x) {
            assert(views_of(used@)[i as int] == x@);
            return true;
        }
    }
    false
}

fn copy_chars(v: &Vec<char>) -> (r: Vec<char>)
    ensures
        r@ == v@,
{
    let mut r = Vec::new();
    push_all(&mut r, v);
    assert(r@ =~= v@);
    r
}

fn candidate_chars(base: &Vec<char>, k: usize) -> (r: Vec<char>)
    ensures
        r@ == id_candidate(base@, k as nat),
{
    let mut r = copy_chars(base);
    if k > 0 {
        r.push('_');
        let d = decimal_chars(k as u128 + 1);
        push_all(&mut r, &d);
    }
    r
}

/// The first of `base`, `base_2`, `base_3`, ... that `used` does not hold.
pub fn unique_id(used: &Vec<Vec<char>>, base: &Vec<char>) -> (r: Vec<char>)
    ensures
        r@ == id_candidate(base@, first_free(views_of(used@), base@)),
{
    let ghost u = views_of(used@);
    let m = used.len();
    let mut k: usize = 0;
    let mut cand = candidate_chars(base, 0);
    while contains_text(used, &cand)
        invariant
            u == views_of(used@),
            m == used@.len(),
            cand@ == id_candidate(base@, k as nat),
            k <= u.len(),
            forall|j: nat| j < k ==> u.contains(#[trigger] id_candidate(base@, j)),
        decreases u.len() - k,
    {
        proof {
            lemma_taken_candidates_bound(u, base@, (k + 1) as nat);
            assert(u.len() == m);
        }
        k = k + 1;
        cand = candidate_chars(base, k);
    }
    proof {
        lemma_first_free_exists(u, base@);
        let c = first_free(u, base@);
        if c < k {
            assert(u.contains(id_candidate(base@, c)));
        } else if c > k {
            assert(u.contains(id_candidate(base@, k as nat)));
        }
    }
    cand
}

// ---------------------------------------------------------------------------
// The catalog
// ---------------------------------------------------------------------------

/// A song as the scan found it, before it has an id.
pub struct ScannedSong<S> {
    pub psarc_path: String,
    pub folder_name: String,
    pub song_name: String,
    pub song_file: S,
}

/// A song in the catalog.
pub struct CatalogEntry<S> {
    pub song_id: String,
    pub psarc_path: String,
    pub song_name: String,
    pub song_file: S,
}

impl<S> View for CatalogEntry<S> {
    type V = (Seq<char>, Seq<char>, Seq<char>, S);

    open spec fn view(&self) -> Self::V {
        (self.song_id@, self.psarc_path@, self.song_name@, self.song_file)
    }
}

impl<S> TextKeyed for CatalogEntry<S> {
    open spec fn text_key(v: Self::V) -> Seq<char> {
        v.2
    }

    fn key_chars(&self) -> (r: Vec<char>) {
        chars_of(self.song_name.as_str())
    }
}

pub open spec fn scanned_bases<S>(scanned: Seq<ScannedSong<S>>) -> Seq<Seq<char>> {
    scanned.map_values(|s: ScannedSong<S>| base_id(s.folder_name@))
}

/// The catalog entries for `scanned`, in scan order, with their ids; `files`
/// holds the summary kept for each song.
pub open spec fn scanned_entries<S>(scanned: Seq<ScannedSong<S>>, files: Seq<S>) -> Seq<
    (Seq<char>, Seq<char>, Seq<char>, S),
> {
    let ids = assigned_ids(scanned_bases(scanned));
    Seq::new(scanned.len(), |i: int| (ids[i], scanned[i].psarc_path@, scanned[i].song_name@, files[i]))
}

/// `file` is what `with_id` may give back when handed the summary of song `i`
/// of `scanned` and the id the scan gave that song.
pub open spec fn id_given<S, T: Fn(S, String) -> S>(scanned: Seq<ScannedSong<S>>, with_id: T, i: int, file: S) -> bool {
    exists|id: String|
        id@ == assigned_ids(scanned_bases(scanned))[i] && #[trigger] call_ensures(
            with_id,
            (scanned[i].song_file, id),
            file,
        )
}

/// `files` are the summaries of `scanned`, each as `with_id` gave it back when
/// handed the song's summary and its id.
pub open spec fn tagged_with<S, T: Fn(S, String) -> S>(scanned: Seq<ScannedSong<S>>, with_id: T, files: Seq<S>) -> bool {
    &&& files.len() == scanned.len()
    &&& forall|i: int| 0 <= i < scanned.len() ==> #[trigger] id_given(scanned, with_id, i, files[i])
}

pub open spec fn ids_distinct<S>(entries: Seq<CatalogEntry<S>>) -> bool {
    forall|i: int, j: int|
        0 <= i < j < entries.len() ==> #[trigger] entries[i].song_id@ != #[trigger] entries[j].song_id@
}

/// Why a catalog lookup, or loading a song's files through it, failed.
#[derive(Debug)]
pub enum CatalogError {
    /// No song in the catalog has this id.
    SongNotFound(String),
    /// The song's archive holds no audio entry.
    AudioNotFound,
    /// Reading the song's archive failed, for the reason given.
    Load(String),
}

impl CatalogError {
    pub fn message(&self) -> (s: String)
        ensures
            s@ == catalog_error_message(self),
    {
        match self {
            CatalogError::SongNotFound(id) => {
                let mut s = String::from_str("song id not found: ");
                s.append(id.as_str());
                s
            },
            CatalogError::AudioNotFound => String::from_str("song audio wem not found"),
            CatalogError::Load(reason) => reason.clone(),
        }
    }
}

pub open spec fn catalog_error_message(e: &CatalogError) -> Seq<char> {
    match e {
        CatalogError::SongNotFound(id) => "song id not found: "@ + id@,
        CatalogError::AudioNotFound => "song audio wem not found"@,
        CatalogError::Load(reason) => reason@,
    }
}

/// The folder that the default scan reads.
pub open spec fn default_dlc_dir_spec() -> Seq<char> {
    "/home/csantz/Music/DLC"@
}

pub fn default_dlc_dir() -> (r: &'static str)
    ensures
        r@ == default_dlc_dir_spec(),
{
    "/home/csantz/Music/DLC"
}

/// What reading a song's file through the catalog gives: the song is missing
/// when no entry has its id; otherwise the result is what `load` may return
/// for the archive of the entry with that id (a failure carrying its reason).
pub open spec fn archive_result<S, G: FnOnce(&String) -> Result<Option<Vec<u8>>, String>>(
    entries: Seq<CatalogEntry<S>>,
    song_id: Seq<char>,
    load: G,
    r: Result<Option<Vec<u8>>, CatalogError>,
) -> bool {
    match r {
        Err(CatalogError::SongNotFound(id)) => id@ == song_id && forall|i: int|
            0 <= i < entries.len() ==> entries[i].song_id@ != song_id,
        Err(CatalogError::Load(reason)) => exists|i: int|
            0 <= i < entries.len() && #[trigger] entries[i].song_id@ == song_id && call_ensures(
                load,
                (&entries[i].psarc_path,),
                Err(reason),
            ),
        Ok(found) => exists|i: int|
            0 <= i < entries.len() && #[trigger] entries[i].song_id@ == song_id && call_ensures(
                load,
                (&entries[i].psarc_path,),
                Ok(found),
            ),
        Err(CatalogError::AudioNotFound) => false,
    }
}

/// The songs of the last scan, sorted by song name, with distinct ids.
pub struct SongCatalog<S> {
    entries: Vec<CatalogEntry<S>>,
    scan_root: String,
}

impl<S> SongCatalog<S> {
    #[verifier::type_invariant]
    spec fn inv(self) -> bool {
        ids_distinct(self.entries@)
    }

    pub closed spec fn entries_view(&self) -> Seq<CatalogEntry<S>> {
        self.entries@
    }

    pub closed spec fn root_view(&self) -> Seq<char> {
        self.scan_root@
    }

    /// An empty catalog that has not scanned anything.
    pub fn new() -> (c: Self)
        ensures
            c.entries_view().len() == 0,
            c.root_view().len() == 0,
    {
        SongCatalog { entries: Vec::new(), scan_root: String::new() }
    }

    pub fn entries(&self) -> (r: &Vec<CatalogEntry<S>>)
        ensures
            r@ == self.entries_view(),
            ids_distinct(r@),
    {
        proof {
            use_type_invariant(self);
        }
        &self.entries
    }

    pub fn scan_root(&self) -> (r: &String)
        ensures
            r@ == self.root_view(),
    {
        &self.scan_root
    }

    /// Whether the catalog has to be filled by a scan first (it is empty).
    pub fn needs_scan(&self) -> (r: bool)
        ensures
            r == (self.entries_view().len() == 0),
    {
        self.entries.len() == 0
    }

    /// Replaces the catalog by the songs of a scan of `root`: each song gets
    /// the first of its folder name (or `song`), `name_2`, `name_3`, ... that no
    /// earlier song took; its summary is kept as `with_id` gives it back when
    /// handed the summary and that id; and the songs are listed by song name,
    /// songs with the same name in scan order. Returns the number of songs.
    pub fn rescan_dlc_dir<T: Fn(S, String) -> S>(&mut self, root: String, scanned: Vec<ScannedSong<S>>, with_id: T) -> (count: usize)
        requires
            forall|s: S, id: String| call_requires(with_id, (s, id)),
        ensures
            count == scanned.len(),
            exists|files: Seq<S>|
                tagged_with(scanned@, with_id, files) && #[trigger] final(self).holds_scan(root@, scanned@, files),
    {
        let ghost sc = scanned@;
        let ghost bases = scanned_bases(sc);
        let ghost mut files: Seq<S> = Seq::empty();
        let mut used: Vec<Vec<char>> = Vec::new();
        let mut built: Vec<CatalogEntry<S>> = Vec::new();
        let n = scanned.len();
        let mut i: usize = 0;
        assert(views_of(used@) =~= assigned_ids(bases.take(0)));
        for s in it: scanned.into_iter()
            invariant
                n == sc.len(),
                it.seq() == sc,
                i == it.index(),
                i <= n,
                bases == scanned_bases(sc),
                forall|s: S, id: String| call_requires(with_id, (s, id)),
                views_of(used@) == assigned_ids(bases.take(i as int)),
                used.len() == i,
                files.len() == i,
                forall|k: int| 0 <= k < i ==> #[trigger] id_given(sc, with_id, k, files[k]),
                views_of(built@) == scanned_entries(sc, files).take(i as int),
        {
            assert(s == sc[i as int]);
            let folder = chars_of(s.folder_name.as_str());
            let base = if folder.len() == 0 {
                vec!['s', 'o', 'n', 'g']
            } else {
                folder
            };
            assert(base@ == bases[i as int]);
            let id = unique_id(&used, &base);
            proof {
                assert(bases.take(i + 1).drop_last() == bases.take(i as int));
                assert(bases.take(i + 1).last() == bases[i as int]);
                assert(assigned_ids(bases.take(i + 1)) =~= assigned_ids(bases.take(i as int)).push(id@));
            }
            let id_string = string_of(&id);
            let ghost idv = id@;
            proof {
                assigned_ids_are_distinct(bases.take(i as int));
                assigned_ids_prefix(bases, i + 1);
                assigned_ids_are_distinct(bases);
                assert(assigned_ids(bases.take(i + 1))[i as int] == idv);
                assert(assigned_ids(bases).take(i + 1)[i as int] == assigned_ids(bases)[i as int]);
                assert(assigned_ids(bases)[i as int] == idv);
            }
            used.push(id);
            let tag = id_string.clone();
            let file = with_id(s.song_file, tag);
            let ghost old_files = files;
            proof {
                files = files.push(file);
                assert(id_given(sc, with_id, i as int, file));
                assert forall|k: int| 0 <= k < i + 1 implies #[trigger] id_given(sc, with_id, k, files[k]) by {
                    if k < i {
                        assert(files[k] == old_files[k]);
                    }
                }
            }
            let entry = CatalogEntry {
                song_id: id_string,
                psarc_path: s.psarc_path,
                song_name: s.song_name,
                song_file: file,
            };
            let ghost ev = entry@;
            let ghost old_built = built@;
            assert(ev == (idv, sc[i as int].psarc_path@, sc[i as int].song_name@, file));
            built.push(entry);
            assert(views_of(built@) =~= views_of(old_built).push(ev));
            i = i + 1;
            proof {
                assigned_ids_are_distinct(bases);
                assert(assigned_ids(bases.take(i as int)) == assigned_ids(bases.take(i - 1)).push(idv));
                assert(assigned_ids(bases.take(i as int))[i - 1] == idv);
                assert(assigned_ids(bases)[i - 1] == idv);
                assert(scanned_entries(sc, files)[i - 1] == (idv, sc[i - 1].psarc_path@, sc[i - 1].song_name@, file));
                assert(views_of(used@) =~= assigned_ids(bases.take(i as int)));
                assert forall|k: int| 0 <= k < i - 1 implies scanned_entries(sc, files)[k] == scanned_entries(sc, old_files)[k] by {
                    assert(files[k] == old_files[k]);
                }
                assert(views_of(built@) =~= scanned_entries(sc, files).take(i as int));
            }
        }
        assert(scanned_entries(sc, files).take(n as int) =~= scanned_entries(sc, files));
        let sorted = stable_sort_by_text(built);
        proof {
            lemma_sorted_ids_distinct(sc, files, views_of(sorted@));
            assert forall|a: int, b: int| 0 <= a < b < sorted@.len() implies #[trigger] sorted@[a].song_id@
                != #[trigger] sorted@[b].song_id@ by {
                assert(views_of(sorted@)[a].0 == sorted@[a].song_id@);
                assert(views_of(sorted@)[b].0 == sorted@[b].song_id@);
            }
        }
        self.entries = sorted;
        self.scan_root = root;
        assert(tagged_with(sc, with_id, files));
        assert(self.holds_scan(root@, sc, files));
        n
    }

    /// The catalog holds the songs of a scan of `root` that found `scanned`,
    /// keeping the summaries `files`.
    pub open spec fn holds_scan(&self, root: Seq<char>, scanned: Seq<ScannedSong<S>>, files: Seq<S>) -> bool {
        &&& self.root_view() == root
        &&& stable_sorted_by_text::<CatalogEntry<S>>(views_of(self.entries_view()), scanned_entries(scanned, files))
    }

    /// `next` is `self` after making sure that something was scanned: an
    /// empty catalog is filled by a scan of the default folder, whose result
    /// is one that `scan` may return, with summaries given back by `with_id`;
    /// a filled one stays as it is.
    pub open spec fn loaded_by<F: FnOnce() -> Vec<ScannedSong<S>>, T: Fn(S, String) -> S>(
        &self,
        next: &Self,
        scan: F,
        with_id: T,
    ) -> bool {
        if self.entries_view().len() == 0 {
            exists|found: Vec<ScannedSong<S>>, files: Seq<S>|
                call_ensures(scan, (), found) && tagged_with(found@, with_id, files)
                    && #[trigger] next.holds_scan(default_dlc_dir_spec(), found@, files)
        } else {
            next.entries_view() == self.entries_view() && next.root_view() == self.root_view()
        }
    }

    /// Replaces the catalog by the songs of a scan of the default folder: the
    /// same as `rescan_dlc_dir` with `default_dlc_dir()` as root.
    pub fn rescan_default_dlc<T: Fn(S, String) -> S>(&mut self, scanned: Vec<ScannedSong<S>>, with_id: T) -> (count: usize)
        requires
            forall|s: S, id: String| call_requires(with_id, (s, id)),
        ensures
            count == scanned.len(),
            exists|files: Seq<S>|
                tagged_with(scanned@, with_id, files) && #[trigger] final(self).holds_scan(
                    default_dlc_dir_spec(),
                    scanned@,
                    files,
                ),
    {
        self.rescan_dlc_dir(default_dlc_dir().to_owned(), scanned, with_id)
    }

    /// Fills an empty catalog by a scan of the default folder (`scan` reads
    /// the folder, `with_id` puts a song's id into its summary); a filled
    /// catalog is left alone. Returns whether it scanned.
    pub fn ensure_default_loaded<F: FnOnce() -> Vec<ScannedSong<S>>, T: Fn(S, String) -> S>(
        &mut self,
        scan: F,
        with_id: T,
    ) -> (scanned: bool)
        requires
            call_requires(scan, ()),
            forall|s: S, id: String| call_requires(with_id, (s, id)),
        ensures
            scanned == (old(self).entries_view().len() == 0),
            old(self).loaded_by(final(self), scan, with_id),
    {
        if self.needs_scan() {
            let found = scan();
            self.rescan_default_dlc(found, with_id);
            true
        } else {
            false
        }
    }

    /// Reads a file of the song with id `song_id` through `load`, which is
    /// handed the song's archive; fills the catalog first when it is empty.
    fn load_from_archive<F, T, G>(&mut self, song_id: &str, scan: F, with_id: T, load: G) -> (r: Result<
        Option<Vec<u8>>,
        CatalogError,
    >)
        where
            F: FnOnce() -> Vec<ScannedSong<S>>,
            T: Fn(S, String) -> S,
            G: FnOnce(&String) -> Result<Option<Vec<u8>>, String>,
        requires
            call_requires(scan, ()),
            forall|s: S, id: String| call_requires(with_id, (s, id)),
            forall|p: &String| call_requires(load, (p,)),
        ensures
            old(self).loaded_by(final(self), scan, with_id),
            archive_result(final(self).entries_view(), song_id@, load, r),
    {
        self.ensure_default_loaded(scan, with_id);
        match self.find_index(song_id) {
            None => Err(CatalogError::SongNotFound(song_id.to_owned())),
            Some(i) => {
                let path = &self.entries[i].psarc_path;
                match load(path) {
                    Ok(found) => Ok(found),
                    Err(reason) => Err(CatalogError::Load(reason)),
                }
            },
        }
    }

    /// The WAVE audio of the song with id `song_id`: `load` reads it from the
    /// song's archive (`None` when the archive has no audio). Fills the
    /// catalog first when it is empty (see `ensure_default_loaded`).
    pub fn load_song_audio_wav<F, T, G>(&mut self, song_id: &str, scan: F, with_id: T, load: G) -> (r: Result<
        Vec<u8>,
        CatalogError,
    >)
        where
            F: FnOnce() -> Vec<ScannedSong<S>>,
            T: Fn(S, String) -> S,
            G: FnOnce(&String) -> Result<Option<Vec<u8>>, String>,
        requires
            call_requires(scan, ()),
            forall|s: S, id: String| call_requires(with_id, (s, id)),
            forall|p: &String| call_requires(load, (p,)),
        ensures
            old(self).loaded_by(final(self), scan, with_id),
            archive_result(
                final(self).entries_view(),
                song_id@,
                load,
                match r {
                    Ok(bytes) => Ok(Some(bytes)),
                    Err(CatalogError::AudioNotFound) => Ok(None),
                    Err(e) => Err(e),
                },
            ),
    {
        match self.load_from_archive(song_id, scan, with_id, load) {
            Ok(Some(bytes)) => Ok(bytes),
            Ok(None) => Err(CatalogError::AudioNotFound),
            Err(e) => Err(e),
        }
    }

    /// The album art of the song with id `song_id`, as `load` reads it from
    /// the song's archive (`None` when there is none). Fills the catalog
    /// first when it is empty (see `ensure_default_loaded`).
    pub fn load_song_album_art<F, T, G>(&mut self, song_id: &str, scan: F, with_id: T, load: G) -> (r: Result<
        Option<Vec<u8>>,
        CatalogError,
    >)
        where
            F: FnOnce() -> Vec<ScannedSong<S>>,
            T: Fn(S, String) -> S,
            G: FnOnce(&String) -> Result<Option<Vec<u8>>, String>,
        requires
            call_requires(scan, ()),
            forall|s: S, id: String| call_requires(with_id, (s, id)),
            forall|p: &String| call_requires(load, (p,)),
        ensures
            old(self).loaded_by(final(self), scan, with_id),
            archive_result(final(self).entries_view(), song_id@, load, r),
    {
        self.load_from_archive(song_id, scan, with_id, load)
    }

    /// The index of the song with id `song_id`, if the catalog holds it.
    pub fn find_index(&self, song_id: &str) -> (r: Option<usize>)
        ensures
            match r {
                Some(i) => i < self.entries_view().len() && self.entries_view()[i as int].song_id@
                    == song_id@,
                None => forall|i: int|
                    0 <= i < self.entries_view().len() ==> self.entries_view()[i].song_id@
                        != song_id@,
            },
    {
        let key = chars_of(song_id);
        let n = self.entries.len();
        for i in 0..n
            invariant
                n == self.entries@.len(),
                key@ == song_id@,
                forall|j: int| 0 <= j < i ==> self.entries@[j].song_id@ != song_id@,
        {
            let id = chars_of(self.entries[i].song_id.as_str());
            if chars_eq(&id, &key) {
                return Some(i);
            }
        }
        None
    }

    /// The archive that holds the song with id `song_id`.
    pub fn psarc_path_for(&self, song_id: &str) -> (r: Result<&String, CatalogError>)
        ensures
            match r {
                Ok(p) => exists|i: int|
                    0 <= i < self.entries_view().len() && #[trigger] self.entries_view()[i].song_id@
                        == song_id@ && self.entries_view()[i].psarc_path@ == p@,
                Err(CatalogError::SongNotFound(id)) => id@ == song_id@ && forall|i: int|
                    0 <= i < self.entries_view().len() ==> self.entries_view()[i].song_id@
                        != song_id@,
                Err(_) => false,
            },
    {
        match self.find_index(song_id) {
            Some(i) => Ok(&self.entries[i].psarc_path),
            None => Err(CatalogError::SongNotFound(song_id.to_owned())),
        }
    }
}

/// After a scan the catalog lists every scanned song, under the id the scan
/// gave it and with its archive, name and kept summary, and lists nothing
/// else.
pub proof fn scan_lists_every_song<S>(
    catalog: &SongCatalog<S>,
    root: Seq<char>,
    scanned: Seq<ScannedSong<S>>,
    files: Seq<S>,
)
    requires
        catalog.holds_scan(root, scanned, files),
    ensures
        catalog.entries_view().len() == scanned.len(),
        forall|i: int|
            0 <= i < scanned.len() ==> views_of(catalog.entries_view()).contains(
                #[trigger] scanned_entries(scanned, files)[i],
            ),
        forall|j: int|
            0 <= j < catalog.entries_view().len() ==> scanned_entries(scanned, files).contains(
                (#[trigger] catalog.entries_view()[j])@,
            ),
{
    let out = views_of(catalog.entries_view());
    let input = scanned_entries(scanned, files);
    crate::ordering::lemma_stable_sort_same_items::<CatalogEntry<S>>(out, input);
    assert forall|j: int| 0 <= j < catalog.entries_view().len() implies input.contains(
        (#[trigger] catalog.entries_view()[j])@,
    ) by {
        assert(out[j] == catalog.entries_view()[j]@);
    }
}

/// The summary of catalog entry `e` is what `with_id` gave back for the
/// summary of one of the scanned songs and the entry's own id.
pub open spec fn stored_with_id<S, T: Fn(S, String) -> S>(
    scanned: Seq<ScannedSong<S>>,
    with_id: T,
    e: CatalogEntry<S>,
) -> bool {
    exists|i: int, id: String|
        0 <= i < scanned.len() && id@ == e.song_id@ && #[trigger] call_ensures(
            with_id,
            (scanned[i].song_file, id),
            e.song_file,
        )
}

/// After a scan each entry keeps the summary that `with_id` made of a scanned
/// song's summary and the entry's id: the summary a listing shows carries the
/// song's catalog id.
pub proof fn stored_summary_carries_id<S, T: Fn(S, String) -> S>(
    catalog: &SongCatalog<S>,
    root: Seq<char>,
    scanned: Seq<ScannedSong<S>>,
    with_id: T,
    files: Seq<S>,
)
    requires
        catalog.holds_scan(root, scanned, files),
        tagged_with(scanned, with_id, files),
    ensures
        forall|j: int|
            0 <= j < catalog.entries_view().len() ==> #[trigger] stored_with_id(
                scanned,
                with_id,
                catalog.entries_view()[j],
            ),
{
    scan_lists_every_song(catalog, root, scanned, files);
    let input = scanned_entries(scanned, files);
    assert forall|j: int| 0 <= j < catalog.entries_view().len() implies #[trigger] stored_with_id(
        scanned,
        with_id,
        catalog.entries_view()[j],
    ) by {
        let e = catalog.entries_view()[j];
        assert(input.contains(e@));
        let i = choose|i: int| 0 <= i < input.len() && input[i] == e@;
        assert(id_given(scanned, with_id, i, files[i]));
        let id = choose|id: String|
            id@ == assigned_ids(scanned_bases(scanned))[i] && #[trigger] call_ensures(
                with_id,
                (scanned[i].song_file, id),
                files[i],
            );
        assert(e.song_file == files[i]);
        assert(call_ensures(with_id, (scanned[i].song_file, id), e.song_file));
    }
}

/// Once the catalog holds songs, making sure it is loaded again leaves it as
/// it is: the default folder is scanned at most once while songs are found.
pub proof fn loaded_catalog_stays_loaded<S, F: FnOnce() -> Vec<ScannedSong<S>>, T: Fn(S, String) -> S>(
    before: &SongCatalog<S>,
    after: &SongCatalog<S>,
    scan: F,
    with_id: T,
)
    requires
        before.entries_view().len() > 0,
        before.loaded_by(after, scan, with_id),
    ensures
        after.entries_view() == before.entries_view(),
        after.root_view() == before.root_view(),
{
}

proof fn assigned_ids_prefix(bases: Seq<Seq<char>>, m: int)
    requires
        0 <= m <= bases.len(),
    ensures
        assigned_ids(bases.take(m)) == assigned_ids(bases).take(m),
    decreases bases.len(),
{
    assigned_ids_are_distinct(bases);
    assigned_ids_are_distinct(bases.take(m));
    if m < bases.len() {
        assigned_ids_prefix(bases.drop_last(), m);
        assert(bases.drop_last().take(m) == bases.take(m));
        assert(assigned_ids(bases).take(m) =~= assigned_ids(bases.drop_last()).take(m));
    } else {
        assert(bases.take(m) == bases);
        assert(assigned_ids(bases).take(m) =~= assigned_ids(bases));
    }
}

proof fn lemma_sorted_ids_distinct<S>(
    sc: Seq<ScannedSong<S>>,
    files: Seq<S>,
    sorted: Seq<(Seq<char>, Seq<char>, Seq<char>, S)>,
)
    requires
        stable_sorted_by_text::<CatalogEntry<S>>(sorted, scanned_entries(sc, files)),
    ensures
        forall|i: int, j: int| 0 <= i < j < sorted.len() ==> #[trigger] sorted[i].0 != #[trigger] sorted[j].0,
{
    let input = scanned_entries(sc, files);
    let bases = scanned_bases(sc);
    assigned_ids_are_distinct(bases);
    let f = |v: (Seq<char>, Seq<char>, Seq<char>, S)| v.0;
    assert forall|i: int, j: int| 0 <= i < j < input.len() implies f(#[trigger] input[i]) != f(#[trigger] input[j]) by {
        assert(input[i].0 == assigned_ids(bases)[i]);
        assert(input[j].0 == assigned_ids(bases)[j]);
    }
    crate::ordering::lemma_stable_sort_keeps_distinct::<CatalogEntry<S>, Seq<char>>(sorted, input, f);
    assert forall|i: int, j: int| 0 <= i < j < sorted.len() implies #[trigger] sorted[i].0 != #[trigger] sorted[j].0 by {
        assert(f(sorted[i]) != f(sorted[j]));
    }
}

} // verus!
