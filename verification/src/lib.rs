//! The verified logic of a Rocksmith-style practice player: reading song
//! archives, the song catalog, note conversion, song-list helpers and WAVE
//! packing.
pub mod text;
pub mod numbers;
pub mod ordering;
pub mod wav;
pub mod archive_paths;
pub mod song_text;
pub mod catalog;
pub mod data_paths;
pub mod note_mask;
pub mod note_build;
pub mod parser_models;
pub mod gd_models;
pub mod bridge;
pub mod display;
pub mod song_repository;
pub mod audio;
