//! A coding dictionary for a shape- or sound-based input method.
//!
//! The dictionary files code sequences to the words they produce and keeps
//! both the order of the codes and the order of the words under each code.
//! From the codes of single characters the library also derives the code of
//! a longer word by fixed positional rules.

pub mod cli;
pub mod compose;
pub mod dictionary;
pub mod format;
pub mod index;
pub mod laws;
pub mod session;
pub mod text;
