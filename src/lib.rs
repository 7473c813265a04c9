//! An interactive picker over named scripts: a fuzzy-matching engine that
//! ranks and highlights items against a typed query, and a selection state
//! machine that drives it one input event at a time.

pub mod app;
pub mod document;
pub mod matching;
