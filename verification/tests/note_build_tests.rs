use tabplayer::gd_models::{NoteType as PlayerType, SingleSlide as PlayerSlide};
use tabplayer::note_build::{
    group_by_key, merges_into_one, model_block_frame, model_chord_notes, model_single_note, player_block_frame,
    player_note_block, select_phrase_notes,
    template_notes, tuning_string_count, window_for_time, Anchor, StringExtras,
};
use tabplayer::song_text::{lyric_line_lengths, lyric_word_text};
use tabplayer::note_mask::SngMaskFlag;
use tabplayer::parser_models::{NoteType, SingleSlide};

fn extras(mask: Vec<SngMaskFlag>, slide_to: i32, slide_unpitch_to: i32, has_bends: bool) -> StringExtras {
    StringExtras { mask, slide_to, slide_unpitch_to, has_bends }
}

#[test]
fn stored_single_note() {
    let n = model_single_note(&[SngMaskFlag::Bend, SngMaskFlag::HammerOn], 2, 5, -1, 3, false, true);
    assert_eq!((n.string_num, n.fret_num), (2, 5));
    assert_eq!(n.note_type, vec![NoteType::HAMMERON]);
    assert_eq!(n.slide, Some(SingleSlide { to_fret: 3, slide_unpitched: true }));
    let m = model_single_note(&[SngMaskFlag::Bend], 0, 1, 4, 6, true, false);
    assert_eq!(m.note_type, vec![NoteType::BEND]);
    assert_eq!(m.slide, None);
    let p = model_single_note(&[], 0, 1, 4, -1, true, true);
    assert_eq!(p.slide, Some(SingleSlide { to_fret: 4, slide_unpitched: false }));
}

#[test]
fn stored_chord_notes_per_string() {
    let frets = vec![-1, 2, 2, -1, -1, 0];
    let ex = vec![
        extras(vec![], -1, -1, true),
        extras(vec![SngMaskFlag::PalmMute, SngMaskFlag::Chord], 4, -1, false),
        extras(vec![], -1, -1, true),
        extras(vec![], -1, -1, true),
        extras(vec![], -1, -1, true),
        extras(vec![SngMaskFlag::Mute], -1, 7, true),
    ];
    let (notes, muted, _) = model_chord_notes(&[SngMaskFlag::Chord, SngMaskFlag::Bend], Some(&frets), Some(&ex), true);
    let view: Vec<(i32, i32, Vec<NoteType>, Option<SingleSlide>)> =
        notes.into_iter().map(|n| (n.string_num, n.fret_num, n.note_type, n.slide)).collect();
    assert_eq!(
        view,
        vec![
            (1, 2, vec![NoteType::CHORD, NoteType::PALMMUTE], Some(SingleSlide { to_fret: 4, slide_unpitched: false })),
            (2, 2, vec![NoteType::CHORD, NoteType::BEND], None),
            (5, 0, vec![NoteType::CHORD, NoteType::BEND, NoteType::MUTE], Some(SingleSlide { to_fret: 7, slide_unpitched: true })),
        ]
    );
    assert!(!muted);
}

#[test]
fn stored_chord_without_strings_gets_a_placeholder() {
    let (notes, muted, _) = model_chord_notes(&[SngMaskFlag::Chord], None, None, true);
    assert_eq!(notes.len(), 1);
    assert_eq!((notes[0].string_num, notes[0].fret_num, notes[0].note_type.len()), (0, 0, 0));
    assert_eq!(notes[0].slide, None);
    assert!(!muted);
    let silent = vec![-1; 6];
    let (notes, _, _) = model_chord_notes(&[], Some(&silent), None, true);
    assert_eq!(notes.len(), 1);
}

#[test]
fn stored_chord_muted_when_every_string_is() {
    let frets = vec![0, 3, -1, -1, -1, -1];
    let (notes, muted, _) = model_chord_notes(&[SngMaskFlag::Mute, SngMaskFlag::Mute], Some(&frets), None, false);
    assert_eq!(notes.len(), 2);
    assert_eq!(notes[1].note_type, vec![NoteType::MUTE]);
    assert!(muted);
    let ex: Vec<StringExtras> = (0..6)
        .map(|i| extras(if i == 0 { vec![SngMaskFlag::FretHandMute] } else { vec![SngMaskFlag::Mute] }, -1, -1, true))
        .collect();
    let (_, muted2, _) = model_chord_notes(&[], Some(&frets), Some(&ex), true);
    assert!(muted2);
}

#[test]
fn player_single_note() {
    let (notes, muted) = player_note_block(&[SngMaskFlag::HammerOn], 3, 5, 2, -1, true, None, None);
    assert_eq!(notes.len(), 1);
    assert_eq!((notes[0].string_num, notes[0].fret_num), (3, 5));
    assert_eq!(notes[0].types, vec![PlayerType::HammerOn]);
    assert_eq!(notes[0].slide, Some(PlayerSlide { to_fret: 2, slide_unpitched: false }));
    assert!(!muted);
    let (short, _) = player_note_block(&[], 0, 0, 2, 4, false, None, None);
    assert_eq!(short[0].slide, None);
    let (pitched_first, _) = player_note_block(&[], 0, 0, 2, 4, true, None, None);
    assert_eq!(pitched_first[0].slide, Some(PlayerSlide { to_fret: 2, slide_unpitched: false }));
}

#[test]
fn player_chord_notes() {
    let frets = vec![1, -1, 3];
    let ex = vec![extras(vec![SngMaskFlag::Tap], -1, 4, false)];
    let (notes, muted) = player_note_block(
        &[SngMaskFlag::Mute, SngMaskFlag::Chord],
        0,
        0,
        -1,
        -1,
        true,
        Some(&frets),
        Some(&ex),
    );
    let view: Vec<(i32, i32, Vec<PlayerType>, Option<PlayerSlide>)> =
        notes.into_iter().map(|n| (n.string_num, n.fret_num, n.types, n.slide)).collect();
    assert_eq!(
        view,
        vec![
            (0, 1, vec![PlayerType::Chord, PlayerType::Mute, PlayerType::Tap], Some(PlayerSlide { to_fret: 4, slide_unpitched: true })),
            (2, 3, vec![PlayerType::Chord, PlayerType::Mute], None),
        ]
    );
    assert!(muted);
    let (none, muted_none) = player_note_block(&[SngMaskFlag::Chord], 0, 0, -1, -1, true, None, None);
    assert!(none.is_empty());
    assert!(!muted_none);
    let silent = vec![-1, -1];
    let (empty, muted_empty) = player_note_block(&[SngMaskFlag::Chord], 0, 0, -1, -1, true, Some(&silent), None);
    assert!(empty.is_empty());
    assert!(muted_empty);
}

#[test]
fn fret_window_for_time() {
    let anchors = vec![
        Anchor { time: 100, fret: 0, width: 4 },
        Anchor { time: 500, fret: 5, width: 0 },
        Anchor { time: 600, fret: 9, width: 3 },
    ];
    assert_eq!(window_for_time(&anchors, 50), (1, 4));
    assert_eq!(window_for_time(&anchors, 100), (1, 4));
    assert_eq!(window_for_time(&anchors, 499), (1, 4));
    assert_eq!(window_for_time(&anchors, 500), (5, 1));
    assert_eq!(window_for_time(&anchors, 10_000), (9, 3));
    assert_eq!(window_for_time(&[], 7), (1, 4));
}

#[test]
fn chord_template_notes() {
    let notes = template_notes(&[-1, 0, 2, -1, 3, 3]);
    let view: Vec<(i32, i32, Vec<NoteType>)> =
        notes.into_iter().map(|n| (n.string_num, n.fret_num, n.note_type)).collect();
    assert_eq!(
        view,
        vec![(1, 0, vec![NoteType::CHORD]), (2, 2, vec![NoteType::CHORD]), (4, 3, vec![NoteType::CHORD]), (5, 3, vec![NoteType::CHORD])]
    );
    assert!(template_notes(&[-1, -1]).is_empty());
}

#[test]
fn lyric_words_and_lines() {
    assert_eq!(lyric_word_text(b"hello+\0zz"), ("hello".to_string(), true));
    assert_eq!(lyric_word_text(b" wor- "), ("wor-".to_string(), false));
    assert_eq!(lyric_word_text(b"++"), ("".to_string(), true));
    assert_eq!(lyric_word_text(b""), ("".to_string(), false));
    assert_eq!(lyric_line_lengths(&[false, true, false, false, true]), vec![2, 3]);
    assert_eq!(lyric_line_lengths(&[false, true, false]), vec![2, 1]);
    assert_eq!(lyric_line_lengths(&[true, true]), vec![1, 1]);
    assert!(lyric_line_lengths(&[]).is_empty());
}

#[test]
fn notes_of_each_phrase_come_from_the_hardest_level() {
    let d = [0, 5, 5];
    let ids = vec![vec![0, 1, 0], vec![1, 1], vec![0, 2]];
    assert_eq!(select_phrase_notes(&d, &ids, 3), vec![(2, 0), (1, 0), (1, 1), (2, 1)]);
    assert_eq!(select_phrase_notes(&d, &ids, 4), vec![(2, 0), (1, 0), (1, 1), (2, 1)]);
    assert_eq!(select_phrase_notes(&d, &ids, 1), vec![(2, 0)]);
}

#[test]
fn without_phrases_the_hardest_level_is_shown() {
    let d = [0, 5, 5];
    let ids = vec![vec![0, 1, 0], vec![1, 1], vec![0, 2]];
    assert_eq!(select_phrase_notes(&d, &ids, 0), vec![(1, 0), (1, 1)]);
    assert_eq!(select_phrase_notes(&[], &vec![], 0), vec![]);
    assert_eq!(select_phrase_notes(&[-3, -7], &vec![vec![], vec![9]], 0), Vec::<(usize, usize)>::new());
}

#[test]
fn blocks_grouped_by_start() {
    let groups = group_by_key(&[30, 10, 30, -5, 10, 30]);
    assert_eq!(groups, vec![vec![3], vec![1, 4], vec![0, 2, 5]]);
    assert!(group_by_key(&[]).is_empty());
    assert_eq!(group_by_key(&[i64::MIN, i64::MAX, i64::MIN]), vec![vec![0, 2], vec![1]]);
}

#[test]
fn single_note_blocks_merge() {
    let counts = [1, 1, 2, 1];
    assert!(merges_into_one(&[0, 1], &counts));
    assert!(merges_into_one(&[0, 1, 3], &counts));
    assert!(!merges_into_one(&[0, 2], &counts));
    assert!(!merges_into_one(&[3], &counts));
    assert!(!merges_into_one(&[], &counts));
}

#[test]
fn strings_of_an_instrument_known_from_notes() {
    assert_eq!(tuning_string_count(&[]), 6);
    assert_eq!(tuning_string_count(&[0, 1]), 4);
    assert_eq!(tuning_string_count(&[0, 4, 2]), 5);
    assert_eq!(tuning_string_count(&[5, -3]), 6);
    assert_eq!(tuning_string_count(&[9]), 7);
    assert_eq!(tuning_string_count(&[i32::MAX]), 7);
    assert_eq!(tuning_string_count(&[-1]), 4);
}

#[test]
fn chord_placeholder_is_reported() {
    let (_, _, none) = model_chord_notes(&[], None, None, true);
    assert!(none);
    let frets = vec![-1, 0, -1, -1, -1, -1];
    let (_, _, sounding) = model_chord_notes(&[], Some(&frets), None, true);
    assert!(!sounding);
}

#[test]
fn stored_block_frame_names_chord_and_raises_window() {
    let (label, start, width) = model_block_frame(Some(&b"  Em7 \0junk"[..]), 0, -2);
    assert_eq!(label, Some("Em7".to_string()));
    assert_eq!((start, width), (1, 1));
    let (blank, start, width) = model_block_frame(Some(&b"   \0"[..]), 5, 4);
    assert_eq!(blank, None);
    assert_eq!((start, width), (5, 4));
    assert_eq!(model_block_frame(None, 3, 2), (None, 3, 2));
}

#[test]
fn player_block_frame_labels_chords_only() {
    let chord = [SngMaskFlag::Chord, SngMaskFlag::Sustain];
    let (label, start, width) = player_block_frame(&chord, Some(&b"G5\0"[..]), 3, 0);
    assert_eq!(label, Some("G5".to_string()));
    assert_eq!((start, width), (3, 4));
    assert_eq!(player_block_frame(&chord, Some(&b" \0"[..]), 0, -1), (None, 0, 4));
    assert_eq!(player_block_frame(&chord, None, 7, 5), (None, 7, 5));
    assert_eq!(player_block_frame(&[SngMaskFlag::Sustain], Some(&b"G5"[..]), 2, 3), (None, 2, 3));
}
