use std::cell::Cell;

use tabplayer::archive_paths::pick_album_art_entry;
use tabplayer::catalog::{default_dlc_dir, CatalogError, ScannedSong, SongCatalog};
use tabplayer::data_paths::{play_data_file, song_root_folder};
use tabplayer::display::fixed_width_string;
use tabplayer::song_text::best_candidate;
use tabplayer::song_repository::{pick_sng_entry, pick_wem_entry};
use tabplayer::text::{remove_spaces, trim_str};
use tabplayer::wav::{decode_wem_to_wav, DecodedAudio, WavError, WemError};

fn scanned(psarc: &str, folder: &str, name: &str) -> ScannedSong<()> {
    ScannedSong {
        psarc_path: psarc.to_string(),
        folder_name: folder.to_string(),
        song_name: name.to_string(),
        song_file: (),
    }
}

fn keep(file: (), _id: String) {
    file
}

fn strings(items: &[&str]) -> Vec<String> {
    items.iter().map(|s| s.to_string()).collect()
}

#[test]
fn song_root_follows_environment() {
    assert_eq!(song_root_folder(Some("C:/Users/a/AppData"), Some("/x"), Some("/h")), "C:/Users/a/AppData/murph9.TabPlayer");
    assert_eq!(song_root_folder(None, Some("/data/"), Some("/h")), "/data/murph9.TabPlayer");
    assert_eq!(song_root_folder(None, None, Some("/home/u")), "/home/u/.local/share/murph9.TabPlayer");
    assert_eq!(song_root_folder(None, None, None), ".");
    assert_eq!(song_root_folder(Some(""), None, None), "murph9.TabPlayer");
}

#[test]
fn play_data_file_is_in_song_root() {
    assert_eq!(play_data_file(None, None, Some("/home/u")), "/home/u/.local/share/murph9.TabPlayer/playData.json");
    assert_eq!(play_data_file(None, None, None), "./playData.json");
    assert_eq!(play_data_file(None, Some("/x"), None), "/x/murph9.TabPlayer/playData.json");
}

#[test]
fn default_scan_fills_only_an_empty_catalog() {
    let mut c: SongCatalog<()> = SongCatalog::new();
    let calls = Cell::new(0);
    let scanned_now = c.ensure_default_loaded(|| {
        calls.set(calls.get() + 1);
        vec![scanned("b.psarc", "b", "B"), scanned("a.psarc", "a", "A")]
    }, keep);
    assert!(scanned_now);
    assert_eq!(calls.get(), 1);
    assert_eq!(c.scan_root(), default_dlc_dir());
    assert_eq!(c.entries().len(), 2);
    let again = c.ensure_default_loaded(|| {
        calls.set(calls.get() + 1);
        vec![]
    }, keep);
    assert!(!again);
    assert_eq!(calls.get(), 1);
    assert_eq!(c.entries()[0].song_id, "a");
}

#[test]
fn rescanning_the_default_folder() {
    let mut c: SongCatalog<()> = SongCatalog::new();
    assert_eq!(c.rescan_default_dlc(vec![scanned("x", "", "n")], keep), 1);
    assert_eq!(c.scan_root(), "/home/csantz/Music/DLC");
    assert_eq!(c.entries()[0].song_id, "song");
}

#[test]
fn every_scanned_song_is_listed_once() {
    let mut c: SongCatalog<()> = SongCatalog::new();
    let songs = vec![scanned("1", "s", "c"), scanned("2", "s", "a"), scanned("3", "t", "b"), scanned("4", "s", "a")];
    c.rescan_dlc_dir("r".to_string(), songs, keep);
    let mut listed: Vec<(String, String)> =
        c.entries().iter().map(|e| (e.song_id.clone(), e.psarc_path.clone())).collect();
    listed.sort();
    assert_eq!(
        listed,
        vec![
            ("s".to_string(), "1".to_string()),
            ("s_2".to_string(), "2".to_string()),
            ("s_3".to_string(), "4".to_string()),
            ("t".to_string(), "3".to_string()),
        ]
    );
}

#[test]
fn song_audio_is_read_from_its_archive() {
    let mut c: SongCatalog<()> = SongCatalog::new();
    let r = c.load_song_audio_wav(
        "b",
        || vec![scanned("a.psarc", "a", "A"), scanned("b.psarc", "b", "B")],
        keep,
        |p: &String| Ok(Some(p.as_bytes().to_vec())),
    );
    assert_eq!(r.unwrap(), b"b.psarc".to_vec());
}

#[test]
fn song_audio_errors() {
    let mut c: SongCatalog<()> = SongCatalog::new();
    let missing = c.load_song_audio_wav("zz", || vec![scanned("a.psarc", "a", "A")], keep, |_: &String| Ok(None));
    match missing {
        Err(CatalogError::SongNotFound(id)) => assert_eq!(id, "zz"),
        _ => panic!("expected a missing song"),
    }
    let no_audio = c.load_song_audio_wav("a", Vec::new, keep, |_: &String| Ok(None));
    assert!(matches!(no_audio, Err(CatalogError::AudioNotFound)));
    let failed = c.load_song_audio_wav("a", Vec::new, keep, |_: &String| Err("bad archive".to_string()));
    match failed {
        Err(e @ CatalogError::Load(_)) => assert_eq!(e.message(), "bad archive"),
        _ => panic!("expected a load failure"),
    }
    assert_eq!(CatalogError::AudioNotFound.message(), "song audio wem not found");
}

#[test]
fn album_art_is_read_from_its_archive() {
    let mut c: SongCatalog<()> = SongCatalog::new();
    let none = c.load_song_album_art("a", || vec![scanned("a.psarc", "a", "A")], keep, |_: &String| Ok(None));
    assert_eq!(none.unwrap(), None);
    let some = c.load_song_album_art("a", Vec::new, keep, |p: &String| Ok(Some(vec![p.len() as u8])));
    assert_eq!(some.unwrap(), Some(vec![7]));
    assert!(matches!(
        c.load_song_album_art("b", Vec::new, keep, |_: &String| Ok(None)),
        Err(CatalogError::SongNotFound(_))
    ));
}

#[test]
fn wem_decoding_packs_samples() {
    let ok = decode_wem_to_wav("song.wem", |_: &str| {
        Ok(DecodedAudio { sample_rate: 8000, channels: 1, interleaved_i16: vec![1, -2] })
    })
    .unwrap();
    assert_eq!(ok.len(), 48);
    assert_eq!(&ok[44..], &[1, 0, 0xfe, 0xff]);
}

#[test]
fn wem_decoding_errors() {
    let e = decode_wem_to_wav("a/b.wem", |_: &str| Err("no decoder".to_string())).unwrap_err();
    assert_eq!(e.message(), "failed decoding wem 'a/b.wem'");
    match e {
        WemError::Decode { path, reason } => assert_eq!((path.as_str(), reason.as_str()), ("a/b.wem", "no decoder")),
        _ => panic!("expected a decoder failure"),
    }
    let w = decode_wem_to_wav("x.wem", |_: &str| {
        Ok(DecodedAudio { sample_rate: 0, channels: 1, interleaved_i16: vec![] })
    })
    .unwrap_err();
    assert!(matches!(w, WemError::Wav(WavError::InvalidMetadata)));
    assert_eq!(w.message(), "invalid pcm metadata");
}

#[test]
fn picking_entries_from_lowercased_names() {
    let m = strings(&["A.DDS", "ALBUM.DDS", "x.png"]);
    let l = strings(&["a.dds", "album.dds", "x.png"]);
    assert_eq!(pick_album_art_entry(&m, &l), Some("ALBUM.DDS".to_string()));
    let m = strings(&["Song_Lead.SNG", "Song_Bass.SNG"]);
    let l = strings(&["song_lead.sng", "song_bass.sng"]);
    assert_eq!(pick_sng_entry(&m, &l, "song_bass", "song"), Some("Song_Bass.SNG".to_string()));
    assert_eq!(pick_sng_entry(&m, &l, "song_combo", "song"), Some("Song_Lead.SNG".to_string()));
    assert_eq!(pick_sng_entry(&m, &l, "x", "y"), None);
    let e = vec![("A.wem".to_string(), 3u64), ("B.wem".to_string(), 9)];
    let l = strings(&["a.wem", "b.wem"]);
    assert_eq!(pick_wem_entry(&e, &l, "a"), Some("A.wem".to_string()));
    assert_eq!(pick_wem_entry(&e, &l, "zz"), Some("B.wem".to_string()));
}

#[test]
fn trimming_and_space_removal() {
    assert_eq!(trim_str("\u{a0} a b \n"), "a b");
    assert_eq!(trim_str(""), "");
    assert_eq!(remove_spaces(" a b  c "), "abc");
    assert_eq!(remove_spaces("a\tb"), "a\tb");
}

#[test]
fn fixed_width_columns() {
    assert_eq!(fixed_width_string("abc", 5), "abc  ");
    assert_eq!(fixed_width_string("abcdef", 3), "abc");
    assert_eq!(fixed_width_string("abc", 0), "");
    assert_eq!(fixed_width_string("éa", 2), "é");
    assert_eq!(fixed_width_string("ab日", 5), "ab日  ");
    assert_eq!(fixed_width_string("abc", 3), "abc");
}

#[test]
fn best_metadata_candidate() {
    assert_eq!(best_candidate(&[3, 5, 5, 1]), Some(1));
    assert_eq!(best_candidate(&[-1]), Some(0));
    assert_eq!(best_candidate(&[]), None);
    assert_eq!(best_candidate(&[0, 0, 0]), Some(0));
}
