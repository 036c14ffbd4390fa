//! Reads WebVTT subtitle tracks, names a speaker for each, merges them in
//! order of start time, and writes the result back as one document.

pub mod cue;
pub mod error;
pub mod laws;
pub mod order;
pub mod text;
pub mod timerange;
pub mod timestamp;
pub mod track;
