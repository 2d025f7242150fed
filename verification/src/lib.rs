//! Builds Anki flashcard decks for the NVIDIA PTX ISA from its HTML documentation.
pub mod text;
pub mod module;
pub mod parse;
pub mod section;
pub mod dom;
mod hash;
pub mod deck;
pub mod deck_laws;
pub mod report;
pub mod parse_laws;
