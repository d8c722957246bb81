use tabplayer::song_repository::{
    find_sng_path, normalize_arrangement_name, sanitize_id, select_wem_path, upsert_by_key, Keyed,
    SongRepositoryError,
};
use tabplayer::song_text::{
    apply_song_metadata, bytes_to_string, decode_zero_terminated, fill_from_arrangement,
    fill_from_song_data, metadata_from_file_stem, metadata_score, needs_song_data, SongText,
};

fn text(name: &str, artist: &str, album: &str, year: Option<i32>) -> SongText {
    SongText { name: name.to_string(), artist: artist.to_string(), album: album.to_string(), year }
}

fn parts(t: &SongText) -> (&str, &str, &str, Option<i32>) {
    (t.name.as_str(), t.artist.as_str(), t.album.as_str(), t.year)
}

fn strings(items: &[&str]) -> Vec<String> {
    items.iter().map(|s| s.to_string()).collect()
}

#[test]
fn zero_terminated_fields() {
    assert_eq!(decode_zero_terminated(b"  Hello \0junk"), Some("Hello".to_string()));
    assert_eq!(decode_zero_terminated(b"\0abc"), None);
    assert_eq!(decode_zero_terminated(b"  \t "), None);
    assert_eq!(decode_zero_terminated(b""), None);
    assert_eq!(decode_zero_terminated(b"abc"), Some("abc".to_string()));
    assert_eq!(decode_zero_terminated(&[0xff, b'a', 0]), Some("\u{fffd}a".to_string()));
    assert_eq!(bytes_to_string(b"x\0y"), "x");
    assert_eq!(bytes_to_string(b"\0"), "");
    assert_eq!(bytes_to_string("Björk\u{3000}".as_bytes()), "Björk");
}

#[test]
fn file_stem_metadata() {
    let m = metadata_from_file_stem("Artist-Name_Song-Title_Live");
    assert_eq!(parts(&m), ("Song Title Live", "Artist Name", "Unknown Album", None));
    let m = metadata_from_file_stem("NoUnderscore-Here");
    assert_eq!(parts(&m), ("NoUnderscore Here", "Unknown Artist", "Unknown Album", None));
    let m = metadata_from_file_stem("_x");
    assert_eq!(parts(&m), ("x", "Unknown Artist", "Unknown Album", None));
    let m = metadata_from_file_stem("band_");
    assert_eq!(parts(&m), ("Unknown Song", "band", "Unknown Album", None));
    let m = metadata_from_file_stem("");
    assert_eq!(parts(&m), ("Unknown Song", "Unknown Artist", "Unknown Album", None));
}

#[test]
fn applying_metadata_fills_placeholders() {
    let mut t = text("my song", "Unknown Artist", "Unknown Album", None);
    apply_song_metadata(&mut t, text("Real Name", "Band", "Record", Some(1999)), false, "my_song");
    assert_eq!(parts(&t), ("Real Name", "Band", "Record", Some(1999)));
}

#[test]
fn applying_metadata_keeps_real_values_unless_strict() {
    let mut t = text("Kept", "Kept Artist", "Kept Album", Some(2001));
    apply_song_metadata(&mut t, text("Other", "Other Artist", "Other Album", Some(1990)), false, "stem");
    assert_eq!(parts(&t), ("Kept", "Kept Artist", "Kept Album", Some(2001)));
    apply_song_metadata(&mut t, text("Other", "Other Artist", "Other Album", Some(1990)), true, "stem");
    assert_eq!(parts(&t), ("Other", "Other Artist", "Other Album", Some(1990)));
}

#[test]
fn applying_metadata_never_takes_placeholders() {
    let mut t = text("", "", "", None);
    apply_song_metadata(&mut t, text("Unknown Song", "Unknown Artist", "Unknown Album", None), true, "s");
    assert_eq!(parts(&t), ("", "", "", None));
    apply_song_metadata(&mut t, text("", "", "", None), true, "s");
    assert_eq!(parts(&t), ("", "", "", None));
}

#[test]
fn arrangement_headers_fill_gaps() {
    let mut t = text("my song", "", "Unknown Album", None);
    fill_from_arrangement(&mut t, "Title", "Artist", "Album", 2010, "my song");
    assert_eq!(parts(&t), ("Title", "Artist", "Album", Some(2010)));
    fill_from_arrangement(&mut t, "Second", "Other", "Other", 1990, "my song");
    assert_eq!(parts(&t), ("Title", "Artist", "Album", Some(2010)));
    let mut u = text("Unknown Song", "Unknown Artist", "", None);
    fill_from_arrangement(&mut u, "", "", "", 0, "x");
    assert_eq!(parts(&u), ("Unknown Song", "Unknown Artist", "", None));
}

#[test]
fn metadata_scores() {
    assert_eq!(metadata_score(&text("T", "A", "B", Some(1)), "d", "da", true), 11);
    assert_eq!(metadata_score(&text("d", "da", "Unknown Album", Some(0)), "d", "da", false), 0);
    assert_eq!(metadata_score(&text("Unknown Song", "Unknown Artist", "", None), "d", "da", false), 0);
    assert_eq!(metadata_score(&text("", "x", "y", Some(-5)), "d", "da", true), 7);
}

#[test]
fn song_data_fills_catalog_summary() {
    let mut f = text("  ", "UNKNOWN artist", "Unknown Album", None);
    fill_from_song_data(&mut f, text("Name", "Artist", "Album", Some(2000)));
    assert_eq!(parts(&f), ("Name", "Artist", "Album", Some(2000)));
    let mut g = text("Keep", "Keep", "Unknown Album", Some(1));
    fill_from_song_data(&mut g, text("Name", "Artist", "   ", Some(2000)));
    assert_eq!(parts(&g), ("Keep", "Keep", "Unknown Album", Some(1)));
}

#[test]
fn when_song_data_is_needed() {
    assert!(needs_song_data(&text("a", "b", "Unknown Album", Some(1)), true));
    assert!(needs_song_data(&text("a", "b", "c", None), true));
    assert!(needs_song_data(&text("a", "b", "c", Some(1)), false));
    assert!(!needs_song_data(&text("a", "b", "c", Some(1)), true));
}

#[test]
fn song_ids_are_sanitized() {
    assert_eq!(sanitize_id("AC/DC", "Back In Black"), "AC-DC_Back-In-Black");
    assert_eq!(sanitize_id("a\tb", "c\u{7f}d\n"), "ab_cd");
    assert_eq!(sanitize_id("", ""), "_");
}

#[test]
fn sanitized_ids_hold_no_separators() {
    let id = sanitize_id("x / y\u{1}", " z\u{0} ");
    assert!(!id.contains('/') && !id.contains(' ') && !id.chars().any(|c| c.is_ascii_control()));
}

#[test]
fn arrangement_names_are_normalized() {
    assert_eq!(normalize_arrangement_name("Lead 2"), "lead2");
    assert_eq!(normalize_arrangement_name(" Bass "), "bass");
    assert_eq!(normalize_arrangement_name("ÉTUDE"), "étude");
}

#[test]
fn sng_paths_by_arrangement() {
    let m = strings(&[
        "songs/bin/generic/mysong_bass.sng",
        "songs/bin/generic/MySong_Lead.SNG",
        "songs/arr/mysong_lead.xml",
    ]);
    assert_eq!(
        find_sng_path(&m, "mysong", "lead"),
        Some("songs/bin/generic/MySong_Lead.SNG".to_string())
    );
    assert_eq!(
        find_sng_path(&m, "MYSONG", "rhythm"),
        Some("songs/bin/generic/mysong_bass.sng".to_string())
    );
    assert_eq!(find_sng_path(&m, "other", "lead"), None);
}

#[test]
fn wem_paths_by_size_and_name() {
    let entries = vec![
        ("audio/small_song.wem".to_string(), 10u64),
        ("audio/big.wem".to_string(), 100),
        ("audio/Song_preview.wem".to_string(), 50),
        ("audio/song_full.wem".to_string(), 50),
    ];
    assert_eq!(select_wem_path(&entries, "SONG"), Some("audio/Song_preview.wem".to_string()));
    assert_eq!(select_wem_path(&entries, "nothing"), Some("audio/big.wem".to_string()));
    assert_eq!(select_wem_path(&[], "x"), None);
    let ties = vec![("a.wem".to_string(), 5u64), ("b.wem".to_string(), 5)];
    assert_eq!(select_wem_path(&ties, "zzz"), Some("a.wem".to_string()));
}

#[test]
fn upsert_replaces_or_appends() {
    let mut list = vec![Keyed { key: "a".to_string(), item: 1 }, Keyed { key: "b".to_string(), item: 2 }];
    upsert_by_key(&mut list, Keyed { key: "b".to_string(), item: 20 });
    upsert_by_key(&mut list, Keyed { key: "c".to_string(), item: 3 });
    let view: Vec<(&str, i32)> = list.iter().map(|k| (k.key.as_str(), k.item)).collect();
    assert_eq!(view, vec![("a", 1), ("b", 20), ("c", 3)]);
}

#[test]
fn upsert_keeps_keys_distinct() {
    let mut list: Vec<Keyed<u8>> = Vec::new();
    for (i, k) in ["x", "y", "x", "z", "y", "x"].iter().enumerate() {
        upsert_by_key(&mut list, Keyed { key: k.to_string(), item: i as u8 });
    }
    let view: Vec<(&str, u8)> = list.iter().map(|k| (k.key.as_str(), k.item)).collect();
    assert_eq!(view, vec![("x", 5), ("y", 4), ("z", 3)]);
}

#[test]
fn repository_error_messages() {
    assert_eq!(SongRepositoryError::PsarcLoad.message(), "failed to load PSARC");
    assert_eq!(SongRepositoryError::PsarcParse.message(), "failed to parse PSARC file");
    assert_eq!(SongRepositoryError::XmlParse.message(), "failed to parse XML");
    assert_eq!(SongRepositoryError::SngParse.message(), "failed to parse SNG");
    assert_eq!(SongRepositoryError::WemDecode.message(), "failed to decode WEM audio");
    assert_eq!(SongRepositoryError::Unsupported.message(), "unsupported song contents");
}
