//! Vocabularies for tokenizers: the map from tokens to the ids that a model takes, its inverse,
//! and the reserved tokens among them.
//!
//! A vocabulary is built once, from the bytes of its file, and never changes afterwards. Looking
//! a token or an id up cannot fail: what the vocabulary does not hold resolves to the unknown
//! token, which every vocabulary holds.
//!
//! `vocab_view` states what a vocabulary is and what follows from it, `token_map` and
//! `base_vocab` hold what all vocabularies share, `albert_vocab` and `m2m100_vocab` the two
//! kinds of vocabulary, and `artifact` the decoding of their files.

pub mod albert_vocab;
pub mod artifact;
pub mod base_vocab;
pub mod error;
pub mod m2m100_vocab;
pub mod token_map;
pub mod vocab_view;
