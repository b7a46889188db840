//! Deterministic archive flattening: a streaming content sanitizer that keeps
//! printable runs and collapses binary noise, a frame encoder that serializes
//! an ordered tree of archive entries into a length-framed byte stream, and
//! the compression wiring that turns that stream into a container blob.

pub mod container;
pub mod encode;
pub mod strings;
