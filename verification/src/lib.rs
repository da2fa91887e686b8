//! Core of a local media indexing and search assistant.
//!
//! The library covers the logic of the pipeline: resolving configured path
//! specifiers into scan roots, classifying files, generating bounded
//! thumbnails, deduplicating emissions, scheduling a cancellable discovery
//! run, and the line protocol spoken with the external search-engine
//! process. All file, process and event I/O stays outside; the functions
//! here work on plain values and state exactly what they compute.

pub mod cancel;
pub mod classify;
pub mod dedup;
pub mod discovery;
pub mod envpaths;
pub mod events;
pub mod expand;
pub mod json;
pub mod protocol;
pub mod supervisor;
pub mod text;
pub mod thumb;
