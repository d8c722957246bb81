use tabplayer::gd_models::{
    calc_control_data, calc_tuning_name_without_capo, find_main_instrument_index, instrument_chars,
    line_parts, line_text, note_for_index_and_offset, note_symbols, ChordNote, ChordShape, NoteBlockFlags,
    NoteType, SongFileLyrics, WindowAt,
};

fn strings(items: &[&str]) -> Vec<String> {
    items.iter().map(|s| s.to_string()).collect()
}

fn note(string_num: i32, fret_num: i32, types: Vec<NoteType>) -> ChordNote {
    ChordNote { string_num, fret_num, types, has_bends: false, has_slide: false }
}

#[test]
fn ignored_types_list() {
    assert_eq!(
        NoteType::ignored_types(),
        vec![
            NoteType::Undefined,
            NoteType::Missing,
            NoteType::Chord,
            NoteType::Open,
            NoteType::Ignore,
            NoteType::HighDensity,
            NoteType::Single,
            NoteType::ChordNotes,
            NoteType::DoubleStop,
            NoteType::Missing2,
            NoteType::Strum,
            NoteType::Accent,
        ]
    );
}

#[test]
fn string_notes() {
    assert_eq!(note_for_index_and_offset(0, 0), "E");
    assert_eq!(note_for_index_and_offset(1, 0), "A");
    assert_eq!(note_for_index_and_offset(2, 0), "D");
    assert_eq!(note_for_index_and_offset(3, 0), "G");
    assert_eq!(note_for_index_and_offset(4, 0), "B");
    assert_eq!(note_for_index_and_offset(5, 0), "e");
    assert_eq!(note_for_index_and_offset(0, -2), "D");
    assert_eq!(note_for_index_and_offset(1, -13), "Ab");
    assert_eq!(note_for_index_and_offset(5, -1), "eb");
    assert_eq!(note_for_index_and_offset(2, 14), "E");
    assert_eq!(note_for_index_and_offset(0, i16::MIN), "Ab");
}

#[test]
fn named_tunings() {
    assert_eq!(calc_tuning_name_without_capo([1; 6]), "F Standard");
    assert_eq!(calc_tuning_name_without_capo([0; 6]), "E Standard");
    assert_eq!(calc_tuning_name_without_capo([-2, 0, 0, 0, 0, 0]), "Drop D");
    assert_eq!(calc_tuning_name_without_capo([-1; 6]), "Eb Standard");
    assert_eq!(calc_tuning_name_without_capo([-3, -1, -1, -1, -1, -1]), "Eb Drop Db");
    assert_eq!(calc_tuning_name_without_capo([-2; 6]), "D Standard");
    assert_eq!(calc_tuning_name_without_capo([-4, -2, -2, -2, -2, -2]), "D Drop C");
    assert_eq!(calc_tuning_name_without_capo([-3; 6]), "Db Standard");
    assert_eq!(calc_tuning_name_without_capo([-5, -3, -3, -3, -3, -3]), "Db Drop B");
    assert_eq!(calc_tuning_name_without_capo([-4; 6]), "C Standard");
    assert_eq!(calc_tuning_name_without_capo([-6, -4, -4, -4, -4, -4]), "C Drop Bb");
    assert_eq!(calc_tuning_name_without_capo([-5; 6]), "B Standard");
}

#[test]
fn other_tunings_list_their_notes() {
    assert_eq!(calc_tuning_name_without_capo([2, 0, 0, 0, 0, 0]), "Gb,A,D,G,B,e");
    assert_eq!(calc_tuning_name_without_capo([0, 0, 0, -1, 0, 0]), "E,A,D,Gb,B,e");
    assert_eq!(calc_tuning_name_without_capo([-2, 0, 0, 0, 0, -2]), "D,A,D,G,B,d");
}

#[test]
fn instrument_chars_column() {
    let names = strings(&["lead", "rhythm1", "bass", "combo", "bonus"]);
    assert_eq!(instrument_chars(&names, Some(SongFileLyrics { word_count: 3 })), "LRBV3");
    assert_eq!(instrument_chars(&strings(&["lead2"]), Some(SongFileLyrics { word_count: 0 })), "L   1");
    assert_eq!(instrument_chars(&[], None), "     ");
    let many: Vec<String> = (0..12).map(|i| format!("part{}", i)).collect();
    assert_eq!(instrument_chars(&many, None), "    1");
    assert_eq!(instrument_chars(&strings(&["Lead", "bass2"]), None), "  B 2");
    assert_eq!(instrument_chars(&strings(&["lead", "rhythm", "bass"]), None), "LRB  ");
}

#[test]
fn main_instrument_follows_preference() {
    assert_eq!(find_main_instrument_index(&strings(&["combo", "bass", "lead2"])), 2);
    assert_eq!(find_main_instrument_index(&strings(&["rhythm", "bass", "rhythm"])), 0);
    assert_eq!(find_main_instrument_index(&strings(&["combo1", "combo"])), 1);
    assert_eq!(find_main_instrument_index(&strings(&["x", "y"])), 0);
    assert_eq!(find_main_instrument_index(&[]), 0);
}

#[test]
fn note_symbols_in_fixed_order() {
    let types = vec![
        NoteType::FretHandMute,
        NoteType::PinchHarmonic,
        NoteType::Harmonic,
        NoteType::Tap,
        NoteType::PalmMute,
        NoteType::LeftHand,
        NoteType::Bend,
        NoteType::PullOff,
        NoteType::HammerOn,
    ];
    assert_eq!(note_symbols(&types, Some(2)), strings(&["h", "p", "b2", "L", "x", "T", "H", "o", "."]));
    assert_eq!(note_symbols(&vec![NoteType::Bend], None), Vec::<String>::new());
    assert_eq!(note_symbols(&vec![NoteType::Bend, NoteType::Mute], Some(-1)), strings(&["b-1", "x"]));
    assert_eq!(note_symbols(&vec![NoteType::Sustain], Some(3)), Vec::<String>::new());
}

#[test]
fn fret_window_track() {
    let notes = vec![
        WindowAt { time: 0.5f32, fret_window_start: 1, fret_window_length: 4 },
        WindowAt { time: 1.0f32, fret_window_start: 1, fret_window_length: 4 },
        WindowAt { time: 2.0f32, fret_window_start: 3, fret_window_length: 4 },
        WindowAt { time: 3.0f32, fret_window_start: 3, fret_window_length: 5 },
    ];
    let track: Vec<(f32, i32, i32)> =
        calc_control_data(&notes).iter().map(|c| (c.time, c.fret, c.window_size)).collect();
    assert_eq!(track, vec![(0.5, 1, 4), (2.0, 3, 4), (3.0, 3, 5)]);
    let unset = vec![WindowAt { time: 0u32, fret_window_start: -1, fret_window_length: -1 }];
    assert!(calc_control_data(&unset).is_empty());
    assert!(calc_control_data::<u32>(&[]).is_empty());
}

#[test]
fn fret_window_track_never_repeats_a_window() {
    let frets = [0, 0, 2, 2, 2, 5, 0, 0, 7];
    let notes: Vec<WindowAt<u32>> = frets
        .iter()
        .enumerate()
        .map(|(i, f)| WindowAt { time: i as u32, fret_window_start: *f, fret_window_length: 4 })
        .collect();
    let track = calc_control_data(&notes);
    assert!(track.len() <= notes.len());
    for w in track.windows(2) {
        assert!(w[0].fret != w[1].fret || w[0].window_size != w[1].window_size);
    }
    assert_eq!(track.iter().map(|c| c.fret).collect::<Vec<_>>(), vec![0, 2, 5, 0, 7]);
}

#[test]
fn lyric_line_text() {
    assert_eq!(line_text(&strings(&["Hel-", "lo", "world"])), "Hel-lo world ");
    assert_eq!(line_text(&[]), "");
    assert_eq!(line_text(&strings(&["-"])), "-");
}

#[test]
fn same_chord_ignores_ignored_kinds() {
    let a = ChordShape {
        chord_flags: vec![NoteBlockFlags::Mute],
        notes: vec![
            note(0, 3, vec![NoteType::Chord, NoteType::PalmMute]),
            note(1, 5, vec![NoteType::Accent]),
        ],
    };
    let b = ChordShape {
        chord_flags: vec![NoteBlockFlags::Mute],
        notes: vec![note(0, 3, vec![NoteType::PalmMute, NoteType::Single]), note(1, 5, vec![])],
    };
    assert!(a.is_same_chord_as(Some(&b)));
    assert!(b.is_same_chord_as(Some(&a)));
    assert!(a.is_same_chord_as(Some(&a)));
    assert!(!a.is_same_chord_as(None));
}

#[test]
fn different_chords() {
    let base = || ChordShape { chord_flags: vec![], notes: vec![note(0, 3, vec![]), note(1, 5, vec![])] };
    let fret = ChordShape { chord_flags: vec![], notes: vec![note(0, 3, vec![]), note(1, 6, vec![])] };
    assert!(!base().is_same_chord_as(Some(&fret)));
    let flags = ChordShape { chord_flags: vec![NoteBlockFlags::Mute], notes: base().notes };
    assert!(!base().is_same_chord_as(Some(&flags)));
    let fewer = ChordShape { chord_flags: vec![], notes: vec![note(0, 3, vec![])] };
    assert!(!base().is_same_chord_as(Some(&fewer)));
    let kinds = ChordShape {
        chord_flags: vec![],
        notes: vec![note(0, 3, vec![NoteType::Vibrato]), note(1, 5, vec![])],
    };
    assert!(!base().is_same_chord_as(Some(&kinds)));
    let order = ChordShape {
        chord_flags: vec![],
        notes: vec![note(0, 3, vec![NoteType::Tap, NoteType::Vibrato]), note(1, 5, vec![])],
    };
    let order2 = ChordShape {
        chord_flags: vec![],
        notes: vec![note(0, 3, vec![NoteType::Vibrato, NoteType::Tap]), note(1, 5, vec![])],
    };
    assert!(!order.is_same_chord_as(Some(&order2)));
}

#[test]
fn bends_and_slides_never_repeat_a_chord() {
    let mut bent = ChordShape { chord_flags: vec![], notes: vec![note(0, 3, vec![])] };
    bent.notes[0].has_bends = true;
    let plain = ChordShape { chord_flags: vec![], notes: vec![note(0, 3, vec![])] };
    assert!(!bent.is_same_chord_as(Some(&bent)));
    assert!(!plain.is_same_chord_as(Some(&bent)));
    let mut slid = ChordShape { chord_flags: vec![], notes: vec![note(0, 3, vec![])] };
    slid.notes[0].has_slide = true;
    assert!(!slid.is_same_chord_as(Some(&plain)));
    assert!(plain.is_same_chord_as(Some(&plain)));
}

#[test]
fn lyric_line_parts() {
    let words = strings(&["Hel-", "lo", "big", "world"]);
    let (a, b) = line_parts(&words, &[true, true, false, false]);
    assert_eq!((a.as_str(), b.as_str()), ("Hel-lo ", "big world "));
    assert_eq!(format!("{}{}", a, b), line_text(&words));
    let (c, d) = line_parts(&words, &[false, true, false, true]);
    assert_eq!((c.as_str(), d.as_str()), ("lo world ", "Hel-big "));
    let (e, f) = line_parts(&[], &[]);
    assert_eq!((e.as_str(), f.as_str()), ("", ""));
}
