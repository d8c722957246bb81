use tabplayer::catalog::{unique_id, CatalogError, ScannedSong, SongCatalog};

fn scanned(psarc: &str, folder: &str, name: &str, file: u32) -> ScannedSong<u32> {
    ScannedSong {
        psarc_path: psarc.to_string(),
        folder_name: folder.to_string(),
        song_name: name.to_string(),
        song_file: file,
    }
}

fn keep(file: u32, _id: String) -> u32 {
    file
}

fn chars(s: &str) -> Vec<char> {
    s.chars().collect()
}

#[test]
fn new_catalog_needs_a_scan() {
    let c: SongCatalog<u32> = SongCatalog::new();
    assert!(c.needs_scan());
    assert!(c.entries().is_empty());
    assert_eq!(c.scan_root(), "");
}

#[test]
fn rescan_assigns_ids_and_sorts_by_name() {
    let mut c: SongCatalog<u32> = SongCatalog::new();
    let count = c.rescan_dlc_dir(
        "/dlc".to_string(),
        vec![
            scanned("a.psarc", "song", "Zed", 1),
            scanned("b.psarc", "", "Alpha", 2),
            scanned("c.psarc", "song", "Alpha", 3),
        ],
        keep,
    );
    assert_eq!(count, 3);
    assert!(!c.needs_scan());
    assert_eq!(c.scan_root(), "/dlc");
    let e = c.entries();
    let view: Vec<(&str, &str, &str, u32)> = e
        .iter()
        .map(|x| (x.song_id.as_str(), x.psarc_path.as_str(), x.song_name.as_str(), x.song_file))
        .collect();
    assert_eq!(
        view,
        vec![
            ("song_2", "b.psarc", "Alpha", 2),
            ("song_3", "c.psarc", "Alpha", 3),
            ("song", "a.psarc", "Zed", 1),
        ]
    );
}

#[test]
fn rescan_skips_ids_taken_by_folder_names() {
    let mut c: SongCatalog<u32> = SongCatalog::new();
    c.rescan_dlc_dir(
        "root".to_string(),
        vec![scanned("1", "x", "a", 1), scanned("2", "x_2", "b", 2), scanned("3", "x", "c", 3)],
        keep,
    );
    let ids: Vec<&str> = c.entries().iter().map(|x| x.song_id.as_str()).collect();
    assert_eq!(ids, vec!["x", "x_2", "x_3"]);
}

#[test]
fn catalog_ids_are_distinct() {
    let mut c: SongCatalog<u32> = SongCatalog::new();
    let songs = (0..12).map(|i| scanned("p", if i % 3 == 0 { "" } else { "dup" }, "n", i)).collect();
    c.rescan_dlc_dir("r".to_string(), songs, keep);
    let ids: Vec<&str> = c.entries().iter().map(|x| x.song_id.as_str()).collect();
    for i in 0..ids.len() {
        for j in (i + 1)..ids.len() {
            assert_ne!(ids[i], ids[j]);
        }
    }
    assert!(ids.contains(&"dup_8"));
    assert!(ids.contains(&"song_4"));
}

#[test]
fn rescan_replaces_previous_songs() {
    let mut c: SongCatalog<u32> = SongCatalog::new();
    c.rescan_dlc_dir("one".to_string(), vec![scanned("a", "a", "a", 1)], keep);
    let count = c.rescan_dlc_dir("two".to_string(), vec![], keep);
    assert_eq!(count, 0);
    assert!(c.needs_scan());
    assert_eq!(c.scan_root(), "two");
}

#[test]
fn lookups_by_id() {
    let mut c: SongCatalog<u32> = SongCatalog::new();
    c.rescan_dlc_dir(
        "/dlc".to_string(),
        vec![scanned("a.psarc", "song", "Zed", 1), scanned("c.psarc", "song", "Alpha", 3)],
        keep,
    );
    assert_eq!(c.find_index("song_2"), Some(0));
    assert_eq!(c.find_index("song"), Some(1));
    assert_eq!(c.find_index("missing"), None);
    assert_eq!(c.psarc_path_for("song").unwrap(), "a.psarc");
    match c.psarc_path_for("nope") {
        Err(CatalogError::SongNotFound(id)) => assert_eq!(id, "nope"),
        _ => panic!("expected a missing song"),
    }
}

#[test]
fn catalog_error_message() {
    let e = CatalogError::SongNotFound("abc".to_string());
    assert_eq!(e.message(), "song id not found: abc");
}

#[test]
fn unique_id_takes_first_free_candidate() {
    let used = vec![chars("song"), chars("song_2"), chars("other")];
    assert_eq!(unique_id(&used, &chars("song")), chars("song_3"));
    assert_eq!(unique_id(&used, &chars("other")), chars("other_2"));
    assert_eq!(unique_id(&used, &chars("fresh")), chars("fresh"));
    assert_eq!(unique_id(&vec![], &chars("")), chars(""));
}

#[test]
fn stored_summary_takes_song_id() {
    let mut c: SongCatalog<(u32, String)> = SongCatalog::new();
    let songs = vec![
        ScannedSong {
            psarc_path: "a.psarc".to_string(),
            folder_name: "x".to_string(),
            song_name: "B".to_string(),
            song_file: (1, "x".to_string()),
        },
        ScannedSong {
            psarc_path: "b.psarc".to_string(),
            folder_name: "x".to_string(),
            song_name: "A".to_string(),
            song_file: (2, "x".to_string()),
        },
    ];
    c.rescan_dlc_dir("r".to_string(), songs, |(n, _): (u32, String), id: String| (n, id));
    let listed: Vec<(String, (u32, String))> =
        c.entries().iter().map(|e| (e.song_id.clone(), e.song_file.clone())).collect();
    assert_eq!(
        listed,
        vec![("x_2".to_string(), (2, "x_2".to_string())), ("x".to_string(), (1, "x".to_string()))]
    );
}
