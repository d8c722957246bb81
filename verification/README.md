# tabplayer

The logic of a Rocksmith-style practice player (songs from DLC `.psarc`
archives, browsed in a song list and played along a note chart), written in
Verus with its behaviour stated as contracts and proved.

## Layout

- `src/` — the verified library.
  - `text`, `numbers`, `ordering`: character-sequence helpers, decimal
    rendering and `u32` parsing, text order and stable sorts.
  - `archive_paths`: reading an archive's manifest (arrangements, instrument
    names, album art, the song's audio entry chosen through its soundbanks).
  - `song_text`: titles, artists and albums from file names, zero-terminated
    fields and several metadata sources; lyric words and lines.
  - `catalog`: the song catalog with distinct ids, sorted by song name, and
    loading a song's files through it.
  - `note_mask`, `note_build`: note kinds of the binary song format, chord and
    single notes of both note models, block labels and fret windows, phrase
    note selection.
  - `gd_models`, `bridge`, `parser_models`, `display`: the player's models
    (tuning names, parts column, note symbols, chord identity, fret-window
    track, lyric line text) and the stored model.
  - `song_repository`: ids, arrangement names, `.sng` and audio entry choice,
    keyed upserts.
  - `wav`: packing decoded PCM into a WAVE image.
  - `audio`, `data_paths`: playback state and where the player keeps its data.
- `tests/` — tests on concrete values, including one per law.
- `app/` — ordinary Rust around the library: archive reading (for the catalog
  and for the player's own song repository), audio decoding through vgmstream,
  the process-wide catalog, files on disk, float timing and Godot scene-node
  helpers.
