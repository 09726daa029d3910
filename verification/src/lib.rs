//! A dictionary-driven text scanner built on a prefix tree ("trie").
//!
//! A [`trie::Trie`] is built from a set of words; it answers exact
//! membership queries (`search`) and rewrites text by replacing every
//! dictionary match found by a single left-to-right backtracking scan
//! (`filter`) with a fixed replacement token.

pub mod laws;
pub mod scan;
pub mod trie;
