//! Finds CTF-style flags (such as `flag{...}`) in binary data, even when the
//! flag has been encoded, reversed or spread out with a stride.
//!
//! The library turns each search pattern into many encoded patterns (one per
//! codec), looks for all of them in a pile of bytes, and decodes the text that
//! follows each hit back into a candidate flag.

pub mod text;
pub mod codecs;
pub mod searcher;
pub mod stride;
pub mod report;
