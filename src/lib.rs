//! Substring-containment queries over a fixed corpus of entries, and a
//! boundary-corruption checker for candidate patterns against reference words.

pub mod boundary;
pub mod corpus;
pub mod error;
pub mod index;
pub mod laws;
pub mod text;
