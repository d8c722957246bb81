use tabplayer::audio::{AudioBuffer, AudioClock, AudioManager};
use tabplayer::bridge::{
    calc_tuning_name, is_hidden_instrument_name, is_same_chord_as, main_part_index, note_symbol_text, song_parts_text,
    song_visible, tuning_choices,
    StoredChordNote, StoredChordShape,
};
use tabplayer::gd_models::NoteType as PlayerNoteType;
use tabplayer::note_mask::{convert_note_mask, convert_to_model, SngMaskFlag};
use tabplayer::parser_models::{
    ImportReport, NoteBlockFlags, NoteType, SingleSlide, SongFileLyrics,
};

fn strings(items: &[&str]) -> Vec<String> {
    items.iter().map(|s| s.to_string()).collect()
}

fn stored(fret: i32, kinds: Vec<NoteType>) -> StoredChordNote {
    StoredChordNote { string_num: 0, fret_num: fret, note_type: kinds, has_bends: false, has_slide: false }
}

#[test]
fn tuning_names_of_any_string_count() {
    assert_eq!(calc_tuning_name(&[0, 0, 0, 0, 0, 0]), "E Standard");
    assert_eq!(calc_tuning_name(&[-6, -4, -4, -4, -4, -4]), "C Drop Bb");
    assert_eq!(calc_tuning_name(&[0, 0, 0, 0]), "E,A,D,G");
    assert_eq!(calc_tuning_name(&[0, 0, 0, 0, 0, 0, 0]), "E,A,D,G,B,e,E");
    assert_eq!(calc_tuning_name(&[-1, -1, -1, -1, -1, -1, -1]), "Eb,Ab,Db,Gb,Bb,eb,Eb");
    assert_eq!(calc_tuning_name(&[-2, 0, 0, 0, 0]), "D,A,D,G,B");
    assert_eq!(calc_tuning_name(&[]), "");
}

#[test]
fn hidden_instruments() {
    assert!(is_hidden_instrument_name("ShowLights"));
    assert!(is_hidden_instrument_name("VOCALS"));
    assert!(!is_hidden_instrument_name("lead"));
    assert!(!is_hidden_instrument_name("vocals2"));
}

#[test]
fn song_parts_column() {
    assert_eq!(song_parts_text(&strings(&["Lead", "RHYTHM2", "Bass1", "combo"]), Some(4)), "LRBV1");
    assert_eq!(song_parts_text(&strings(&["x"]), Some(0)), "    1");
    assert_eq!(song_parts_text(&[], None), "     ");
    let many: Vec<String> = (0..25).map(|i| format!("p{}", i)).collect();
    assert_eq!(song_parts_text(&many, Some(1)), "   V2");
}

#[test]
fn note_symbol_texts() {
    assert_eq!(note_symbol_text(&[NoteType::BEND], &[]), "b0");
    assert_eq!(
        note_symbol_text(&[NoteType::PALMMUTE, NoteType::BEND, NoteType::HAMMERON], &[1, 3, 2]),
        "hb3x"
    );
    assert_eq!(note_symbol_text(&[NoteType::MUTE, NoteType::PALMMUTE], &[]), "x");
    assert_eq!(
        note_symbol_text(
            &[
                NoteType::FRETHANDMUTE,
                NoteType::PINCHHARMONIC,
                NoteType::HARMONIC,
                NoteType::TAP,
                NoteType::LEFTHAND,
                NoteType::PULLOFF,
            ],
            &[-4]
        ),
        "pLTHo."
    );
    assert_eq!(note_symbol_text(&[NoteType::BEND], &[-2, -5]), "b-2");
}

#[test]
fn stored_chords_compare_kinds_in_any_order() {
    let a = StoredChordShape {
        chord_flags: vec![NoteBlockFlags::UNDEFINED],
        notes: vec![stored(3, vec![NoteType::TAP, NoteType::VIBRATO, NoteType::CHORD])],
    };
    let b = StoredChordShape {
        chord_flags: vec![NoteBlockFlags::UNDEFINED],
        notes: vec![stored(3, vec![NoteType::VIBRATO, NoteType::SINGLE, NoteType::TAP])],
    };
    assert!(is_same_chord_as(&a, &b));
    assert!(is_same_chord_as(&b, &a));
    let c = StoredChordShape {
        chord_flags: vec![NoteBlockFlags::UNDEFINED],
        notes: vec![stored(3, vec![NoteType::VIBRATO, NoteType::TAP, NoteType::TAP])],
    };
    assert!(!is_same_chord_as(&a, &c));
    let d = StoredChordShape { chord_flags: vec![NoteBlockFlags::MUTE], notes: vec![stored(3, vec![])] };
    let e = StoredChordShape { chord_flags: vec![NoteBlockFlags::MUTE], notes: vec![stored(4, vec![])] };
    assert!(!is_same_chord_as(&d, &e));
    let mut f = StoredChordShape { chord_flags: vec![NoteBlockFlags::MUTE], notes: vec![stored(3, vec![])] };
    assert!(is_same_chord_as(&d, &f));
    f.notes[0].has_slide = true;
    assert!(!is_same_chord_as(&d, &f));
    let empty = StoredChordShape { chord_flags: vec![], notes: vec![] };
    assert!(is_same_chord_as(&empty, &empty));
}

#[test]
fn note_masks_in_player_order() {
    let present = [SngMaskFlag::HammerOn, SngMaskFlag::Arpeggio, SngMaskFlag::PullOff, SngMaskFlag::Chord];
    assert_eq!(
        convert_note_mask(&present),
        vec![PlayerNoteType::Chord, PlayerNoteType::PullOff, PlayerNoteType::HammerOn, PlayerNoteType::Arpeggio]
    );
    assert_eq!(convert_note_mask(&[SngMaskFlag::UnpitchedSlide]), vec![PlayerNoteType::SlideUnpitchedTo]);
    assert!(convert_note_mask(&[]).is_empty());
}

#[test]
fn note_masks_in_model_order() {
    let present = [SngMaskFlag::PullOff, SngMaskFlag::HammerOn, SngMaskFlag::Chord, SngMaskFlag::Chord];
    assert_eq!(convert_to_model(&present), vec![NoteType::CHORD, NoteType::HAMMERON, NoteType::PULLOFF]);
    assert_eq!(convert_to_model(&[SngMaskFlag::UnpitchedSlide]), vec![NoteType::SLIDEUNPITCHEDTO]);
}

#[test]
fn stored_model_defaults() {
    assert_eq!(NoteType::default(), NoteType::UNDEFINED);
    assert_eq!(NoteBlockFlags::default(), NoteBlockFlags::UNDEFINED);
    assert_eq!(SingleSlide::default(), SingleSlide { to_fret: 0, slide_unpitched: false });
    assert_eq!(SongFileLyrics::default().word_count, 0);
    let r = ImportReport::default();
    assert_eq!((r.completed, r.failed, r.entries.len()), (0, 0, 0));
}

#[test]
fn audio_state() {
    let b = AudioBuffer::new(2, 48000);
    assert_eq!((b.channels, b.sample_rate), (2, 48000));
    let c = AudioClock::new(44100);
    assert_eq!((c.current_sample, c.sample_rate), (0, 44100));
    let d = AudioClock::default();
    assert_eq!((d.current_sample, d.sample_rate), (0, 0));
    let mut m = AudioManager::new(22050);
    m.play();
    m.pause();
    assert!(m.load_wem_from_path("song.wem").is_ok());
    assert_eq!((m.clock.current_sample, m.clock.sample_rate), (0, 22050));
    let m2 = AudioManager::default();
    assert_eq!(m2.clock.sample_rate, 0);
}

#[test]
fn main_part_of_a_song() {
    let names = strings(&["vocals", "bass", "lead", "showlights"]);
    assert_eq!(main_part_index(&names, &[true, false, true, false]), Some(2));
    assert_eq!(main_part_index(&names, &[true, false, false, true]), Some(1));
    assert_eq!(main_part_index(&strings(&["Vocals", "SHOWLIGHTS"]), &[true, true]), None);
    assert_eq!(main_part_index(&[], &[]), None);
}

fn visible(search: &str, tuning: &str, show_capo: bool, capo: bool) -> bool {
    let names = strings(&["vocals", "lead"]);
    let tunings = vec![vec![0; 6], vec![-2, 0, 0, 0, 0, 0]];
    song_visible(search, tuning, show_capo, "Band Name", "Song Title", "Best Of", &names, &[false, true], &tunings, &[false, capo])
}

#[test]
fn song_list_filters() {
    assert!(visible("", "", true, true));
    assert!(visible("band name song", "", true, false));
    assert!(visible("TITLE best", "", true, false));
    assert!(!visible("titlebest", "", true, false));
    assert!(!visible("ÉTÉ", "", true, false));
    assert!(visible("", "Drop D", true, false));
    assert!(!visible("", "E Standard", true, false));
    assert!(!visible("", "", false, true));
    assert!(visible("", "", false, false));
    let hidden_only = strings(&["vocals"]);
    assert!(!song_visible("", "", true, "a", "b", "c", &hidden_only, &[true], &vec![vec![0; 6]], &[false]));
}

#[test]
fn search_ignores_unicode_case() {
    let names = strings(&["lead"]);
    let t = vec![vec![0; 6]];
    assert!(song_visible("été", "", true, "ÉTÉ", "x", "y", &names, &[true], &t, &[false]));
    assert!(!song_visible("hiver", "", true, "ÉTÉ", "x", "y", &names, &[true], &t, &[false]));
}

#[test]
fn tuning_filter_choices() {
    let names = strings(&["Drop D", "E Standard", "Drop D", "C Standard", "E Standard"]);
    assert_eq!(tuning_choices(names), strings(&["C Standard", "Drop D", "E Standard"]));
    assert!(tuning_choices(vec![]).is_empty());
    let odd = strings(&["b", "B", "a", "b"]);
    assert_eq!(tuning_choices(odd), strings(&["B", "a", "b"]));
}

#[test]
fn note_mask_kinds_once_per_flag() {
    let present = [SngMaskFlag::Mute, SngMaskFlag::Chord, SngMaskFlag::Mute, SngMaskFlag::PullOff, SngMaskFlag::HammerOn];
    let player = convert_note_mask(&present);
    assert_eq!(
        player,
        vec![PlayerNoteType::Chord, PlayerNoteType::PullOff, PlayerNoteType::HammerOn, PlayerNoteType::Mute]
    );
    let model = convert_to_model(&present);
    assert_eq!(model, vec![NoteType::CHORD, NoteType::HAMMERON, NoteType::PULLOFF, NoteType::MUTE]);
    assert_eq!(player.len(), 4);
    assert_eq!(model.len(), 4);
}
