//! Finds obsolete Nerd Font glyphs in text and picks their replacements.
//!
//! The crate holds the icon table, the substitution rules, the fuzzy and the
//! substring search over icon names, the sliding window over the lines of a
//! stream and the scanner that decides what each character becomes.

pub mod autocomplete;
pub mod automaton;
pub mod checker;
pub mod cli;
pub mod contain;
pub mod db;
pub mod error;
pub mod icon;
pub mod input;
pub mod ngram;
pub mod order;
pub mod parser;
pub mod prompt;
pub mod runtime;
pub mod table;
pub mod text;
