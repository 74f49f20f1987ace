//! A verified solver for the Prechelt phone-number encoding puzzle.
//!
//! A dictionary of words is indexed by the digit sequence each word spells
//! on a telephone keypad; a backtracking search then lists every way a
//! phone number can be written as dictionary words, with single digits as
//! fillers where no word fits (never two fillers in a row).

pub mod encoding;
pub mod dictionary;
pub mod search;
pub mod output;
pub mod laws;
