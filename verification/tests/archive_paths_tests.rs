use tabplayer::archive_paths::{
    arrangement_paths, audio_wem_candidates, choose_audio_wem, has_vocals, instrument_name_from_path, instrument_order,
    instrument_name_from_sng_path, instrument_order_key, is_arrangement_path, is_dds_path,
    pick_album_art_path, sanitize_folder_name, sng_instrument_names, soundbank_candidates,
    wem_id_from_path, SoundBank,
};

fn strings(items: &[&str]) -> Vec<String> {
    items.iter().map(|s| s.to_string()).collect()
}

#[test]
fn instrument_name_is_last_part_of_arrangement_file() {
    assert_eq!(instrument_name_from_path("songs/arr/mysong_Lead.xml"), "lead");
    assert_eq!(instrument_name_from_path("songs/arr/my_song_rhythm2.xml"), "rhythm2");
    assert_eq!(instrument_name_from_path("noext"), "noext");
    assert_eq!(instrument_name_from_path("dir/plain.txt"), "plain.txt");
}

#[test]
fn sng_instrument_name_needs_sng_extension() {
    assert_eq!(
        instrument_name_from_sng_path("songs/bin/generic/mysong_BASS.sng"),
        Some("bass".to_string())
    );
    assert_eq!(instrument_name_from_sng_path("songs/bin/generic/mysong_bass.xml"), None);
    assert_eq!(instrument_name_from_sng_path("lead.sng"), Some("lead".to_string()));
}

#[test]
fn instrument_order_keys() {
    assert_eq!(instrument_order_key("Lead"), 0);
    assert_eq!(instrument_order_key("lead1"), 1);
    assert_eq!(instrument_order_key("lead2"), 2);
    assert_eq!(instrument_order_key("rhythm"), 8);
    assert_eq!(instrument_order_key("rhythm1"), 9);
    assert_eq!(instrument_order_key("RHYTHM2"), 10);
    assert_eq!(instrument_order_key("bass"), 11);
    assert_eq!(instrument_order_key("bass1"), 12);
    assert_eq!(instrument_order_key("bass2"), 13);
    assert_eq!(instrument_order_key("combo"), 999);
}

#[test]
fn folder_names_are_sanitized() {
    assert_eq!(sanitize_folder_name("My Song/1!"), "My-Song_1_");
    assert_eq!(sanitize_folder_name("a\tb_c-d"), "a-b_c-d");
    assert_eq!(sanitize_folder_name("Café"), "Caf_");
    assert_eq!(sanitize_folder_name(""), "");
}

#[test]
fn sanitized_folder_names_only_hold_safe_characters() {
    let out = sanitize_folder_name("we ird/ñame?*<>|:\"");
    assert_eq!(out.chars().count(), "we ird/ñame?*<>|:\"".chars().count());
    assert!(out.chars().all(|c| c.is_ascii_alphanumeric() || c == '-' || c == '_'));
}

#[test]
fn dds_paths_ignore_case() {
    assert!(is_dds_path("gfx/Album_256.DDS"));
    assert!(is_dds_path("x.dds"));
    assert!(!is_dds_path("x.png"));
    assert!(!is_dds_path("dds"));
}

#[test]
fn arrangement_paths_are_recognised() {
    assert!(is_arrangement_path("songs/arr/x_lead.xml"));
    assert!(!is_arrangement_path("songs/arr/x_vocals.xml"));
    assert!(!is_arrangement_path("songs/arr/x_showlights.xml"));
    assert!(!is_arrangement_path("songs/bin/x_lead.xml"));
    assert!(!is_arrangement_path("songs/arr/x_lead.sng"));
}

#[test]
fn arrangement_paths_keep_manifest_order() {
    let m = strings(&[
        "songs/arr/s_rhythm.xml",
        "songs/arr/s_vocals.xml",
        "gfx/a.dds",
        "songs/arr/s_lead.xml",
    ]);
    assert_eq!(
        arrangement_paths(&m),
        strings(&["songs/arr/s_rhythm.xml", "songs/arr/s_lead.xml"])
    );
    assert!(arrangement_paths(&[]).is_empty());
}

#[test]
fn vocals_are_detected() {
    assert!(has_vocals(&strings(&["a.xml", "songs/bin/generic/x_VOCALS.sng"])));
    assert!(has_vocals(&strings(&["songs/arr/x_vocals.xml"])));
    assert!(!has_vocals(&strings(&["songs/bin/generic/x_lead.sng"])));
    assert!(!has_vocals(&[]));
}

#[test]
fn sng_instruments_sorted_and_deduplicated() {
    let m = strings(&[
        "songs/bin/generic/s_bass.sng",
        "songs/bin/generic/s_lead.sng",
        "songs/bin/generic/s_vocals.sng",
        "songs/bin/generic/s_combo.sng",
        "songs/bin/macos/s_lead.sng",
        "songs/bin/macos/s_rhythm.SNG",
        "songs/bin/generic/s_showlights.sng",
        "songs/arr/s_rhythm.xml",
    ]);
    assert_eq!(sng_instrument_names(&m), strings(&["lead", "bass", "combo"]));
}

#[test]
fn album_art_prefers_album_named_entries() {
    let m = strings(&["gfx/b.dds", "gfx/album_a.dds", "gfx/Album_c.DDS", "x.png"]);
    assert_eq!(pick_album_art_path(&m), Some("gfx/Album_c.DDS".to_string()));
    let m = strings(&["z.dds", "a.dds", "album.png"]);
    assert_eq!(pick_album_art_path(&m), Some("a.dds".to_string()));
    assert_eq!(pick_album_art_path(&strings(&["x.png"])), None);
}

#[test]
fn album_art_is_a_dds_entry_of_the_manifest() {
    let m = strings(&["gfx/ALBUM_x.dds", "y.png", "gfx/other.dds"]);
    let pick = pick_album_art_path(&m).unwrap();
    assert!(m.contains(&pick));
    assert!(is_dds_path(&pick));
}

#[test]
fn album_art_lowercases_unicode_names() {
    // The album check lowercases the whole name, non-ASCII letters included.
    let m = strings(&["a.dds", "gfx/ÄLBUM_ALBUM.dds"]);
    assert_eq!(pick_album_art_path(&m), Some("gfx/ÄLBUM_ALBUM.dds".to_string()));
}

#[test]
fn wem_ids_are_parsed() {
    assert_eq!(wem_id_from_path("audio/windows/123.wem"), Some(123));
    assert_eq!(wem_id_from_path("+7.wem"), Some(7));
    assert_eq!(wem_id_from_path("a/4294967295.wem"), Some(4294967295));
    assert_eq!(wem_id_from_path("a/4294967296.wem"), None);
    assert_eq!(wem_id_from_path("12.WEM"), None);
    assert_eq!(wem_id_from_path("a/.wem"), None);
    assert_eq!(wem_id_from_path("a/-1.wem"), None);
}

#[test]
fn audio_and_bank_candidates() {
    let m = strings(&["a.WEM", "song_preview.bnk", "song.bnk", "c.wem", "x.xml"]);
    assert_eq!(audio_wem_candidates(&m), strings(&["a.WEM", "c.wem"]));
    let banks: Vec<String> = soundbank_candidates(&m).into_iter().map(|b| b.path).collect();
    assert_eq!(banks, strings(&["song.bnk", "song_preview.bnk"]));
}

#[test]
fn audio_choice_follows_soundbank_reference() {
    let wems = strings(&["audio/1.wem", "audio/2.wem"]);
    let banks = vec![SoundBank {
        path: "song.bnk".to_string(),
        contents: Some(vec![0, 0, 2, 0, 0, 0, 9]),
    }];
    assert_eq!(choose_audio_wem(&wems, &banks), Some("audio/2.wem".to_string()));
}

#[test]
fn audio_choice_prefers_full_song_bank() {
    let wems = strings(&["audio/1.wem", "audio/2.wem"]);
    let banks = vec![
        SoundBank { path: "song_preview.bnk".to_string(), contents: Some(vec![1, 0, 0, 0]) },
        SoundBank { path: "song.bnk".to_string(), contents: Some(vec![2, 0, 0, 0]) },
    ];
    assert_eq!(choose_audio_wem(&wems, &banks), Some("audio/2.wem".to_string()));
    let only_preview = vec![SoundBank {
        path: "song_preview.bnk".to_string(),
        contents: Some(vec![2, 0, 0, 0]),
    }];
    assert_eq!(choose_audio_wem(&wems, &only_preview), Some("audio/2.wem".to_string()));
}

#[test]
fn audio_choice_without_bank_hits() {
    let wems = strings(&["audio/c_preview.wem", "audio/d.wem", "audio/b.wem"]);
    let banks = vec![SoundBank { path: "song.bnk".to_string(), contents: None }];
    assert_eq!(choose_audio_wem(&wems, &banks), Some("audio/b.wem".to_string()));
    let previews = strings(&["audio/z_preview.wem", "audio/a_preview.wem"]);
    assert_eq!(choose_audio_wem(&previews, &vec![]), Some("audio/a_preview.wem".to_string()));
    let single = strings(&["audio/only_preview.wem"]);
    assert_eq!(choose_audio_wem(&single, &banks), Some("audio/only_preview.wem".to_string()));
    assert_eq!(choose_audio_wem(&vec![], &banks), None);
}

#[test]
fn audio_choice_is_one_of_the_entries() {
    let wems = strings(&["audio/9.wem", "audio/3.wem", "audio/x.wem"]);
    let banks = vec![SoundBank { path: "b.bnk".to_string(), contents: Some(vec![7, 7, 7]) }];
    let chosen = choose_audio_wem(&wems, &banks).unwrap();
    assert!(wems.contains(&chosen));
}

#[test]
fn instruments_listed_by_order_key() {
    let names = strings(&["combo", "Bass", "lead2", "rhythm", "lead2", "vocals"]);
    assert_eq!(instrument_order(&names), vec![2, 4, 3, 1, 0, 5]);
    assert!(instrument_order(&[]).is_empty());
}
