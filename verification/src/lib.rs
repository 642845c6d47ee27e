//! Local transcription of recordings and meetings: the rules by which decoded
//! speech becomes a transcript, voices become speakers, a live input becomes
//! meetings, and meetings become files.
//!
//! Audio samples, voice fingerprints and model weights are opaque here; what is
//! computed from them outside comes in as integers that order as the values do.

use vstd::prelude::*;

pub use crate::assembly::{format_timestamp, SpeakerVoice, Transcript};
pub use crate::desk::Progress;
pub use crate::options::{DiarizeModels, Engine, Options};
pub use crate::paths::{SPEAKERS_FILE, VOCABULARY_FILE};
pub use crate::prompt::{build_prompt, prompt_with_vocabulary, vocabulary_terms, DEFAULT_PROMPT};
pub use crate::speakers::rename_speaker;

pub mod applog;
pub mod assembly;
pub mod calendar;
pub mod clusters;
pub mod desk;
pub mod diarize;
pub mod download;
pub mod filing;
pub mod gate;
pub mod listening;
pub mod numerals;
pub mod options;
pub mod panel;
pub mod paths;
pub mod prefixes;
pub mod prompt;
pub mod ranking;
pub mod recording;
pub mod segmenter;
pub mod segments;
pub mod spans;
pub mod session;
pub mod settings;
pub mod speakers;
pub mod summarize;
pub mod text;
pub mod transcripts;
pub mod turns;

verus! {

/// Sample rate of the audio that the speech models take.
pub const WHISPER_SAMPLE_RATE: usize = 16_000;

} // verus!
