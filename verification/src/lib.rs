//! Verified core of IureTranscribe: transcript formatting, vocabulary
//! corrections, the post-processing of whisper's segments, speaker
//! assignment, the model catalog and its downloads, the WebDAV connector,
//! and the decisions of the app around probes, settings, recordings and
//! output files.

pub mod text;
pub mod subtitles;
pub mod vocab;
pub mod transcribe;
pub mod diarize;
pub mod models;
pub mod iurefficient;
pub mod gpu;
pub mod settings;
pub mod llm;
pub mod recorder;
pub mod outputs;
