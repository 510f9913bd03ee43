//! From an Apple Podcasts link to a transcript, verified.
//!
//! An episode is resolved through the iTunes Lookup API. Its transcript is the
//! one that its feed publishes, and failing that the transcript of its audio,
//! which is split into segments and transcribed one segment at a time.
//!
//! The library decides and computes. It makes no request and touches no file:
//! [`resolve`] and [`speech`] say what is to be done next, and take in what came
//! of it.

pub mod apple;
pub mod audio;
pub mod chunks;
pub mod feed;
pub mod json;
pub mod lookup;
pub mod patterns;
pub mod resolve;
pub mod speech;
pub mod text;
pub mod transcript;
pub mod xml_reader;
