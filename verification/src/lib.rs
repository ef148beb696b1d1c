//! Local meeting recorder: the rules behind recording, transcribing, naming
//! and exporting a session, with no I/O in them.

pub mod api;
pub mod asr;
pub mod assignment;
pub mod attribution;
pub mod bench;
pub mod bleed;
pub mod capture;
pub mod claim;
pub mod config;
pub mod der;
pub mod diarize;
pub mod doctor;
pub mod export;
pub mod json;
pub mod live;
pub mod markdown;
pub mod mcp;
pub mod menubar;
pub mod meter;
pub mod queue;
pub mod recording;
pub mod roster;
pub mod session;
pub mod settings;
pub mod shelf;
pub mod state;
pub mod text;
pub mod transcript;
pub mod vad;
pub mod wer;
pub mod window;
