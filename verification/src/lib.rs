//! Compiles a line-oriented CC-CEDICT lexicon into a queryable offline
//! dictionary: a primary record store plus four inverted indices keyed by
//! character form, romanization, and translated-gloss term.

pub mod cedict;
pub mod collab;
pub mod dictionary;
pub mod text;
