//! Core of a terminal typing trainer: bounded sampling of a word source,
//! punctuation/capitalization decoration, width-bounded line layout, and the
//! per-keystroke input state machine with its counters and undo operations.

pub mod laws;
pub mod layout;
pub mod numfmt;
pub mod punct;
pub mod reader;
mod rng;
pub mod sampler;
pub mod settings;
pub mod typing;
