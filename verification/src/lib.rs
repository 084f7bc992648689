//! Drumentor core: drum-kit domain model, hit matching and scoring,
//! Standard MIDI File analysis, transport decisions and small device helpers.

pub mod domain;
pub mod hit_matcher;
pub mod smf;
pub mod tempo;
pub mod sorting;
pub mod text;
pub mod song;
pub mod playback;
pub mod transport;
pub mod audio_engine;
pub mod midi_input;
