//! A small music tracker for the WASM-4 fantasy console.
//!
//! A song is described as a catalog of tones, a set of named note
//! patterns, and a track that places those patterns at frame offsets.
//! The library resolves that description into an absolute-time,
//! frame-sorted sequence of notes and serializes it into the compact
//! little-endian byte layout that the playback engine consumes.

pub mod description;
pub mod tracker;

pub use description::NoteDescription;
pub use description::NotePitchString;
pub use description::ParseError;
pub use description::PatternFrameDescription;
pub use description::SongDescription;
pub use description::TrackFrameDescription;
pub use description::parse_note_pitch;
pub use description::parse_note_pitch_key;
pub use tracker::Note;
pub use tracker::NotePitch;
pub use tracker::NotePitchKey;
pub use tracker::Tone;
pub use tracker::Track;
