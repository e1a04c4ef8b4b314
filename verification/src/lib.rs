//! A verified core for a configurable quest (puzzle-hunt) engine.
//!
//! The crate validates a level configuration — a mapping from level
//! identifiers to level definitions with optional `next` edges — and turns it
//! into an immutable, traversable graph of levels, each carrying a pluggable
//! answer verifier. Construction is all-or-nothing: a configuration with a
//! `next` cycle or a dangling `next` target is rejected up front, so every
//! later lookup is on a graph known to be acyclic and fully resolved.

pub mod config;
pub mod key;
pub mod level;
