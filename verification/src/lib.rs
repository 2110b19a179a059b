//! Text logic of a local voice dictation tool: transcript cleanup, the
//! streaming commit protocol, application classification, configuration
//! and history rules.
pub mod text;
pub mod words;
pub mod streaming;
pub mod cleanup;
pub mod context;
pub mod config;
pub mod history;
pub mod insertion;
pub mod transcription;
pub mod audio;
