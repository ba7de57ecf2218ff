//! Moderation-vocabulary matching engine: a token-sequence trie holding the
//! vocabulary, a text-normalization pipeline that turns raw text into candidate
//! phrases, and a store that lets a rebuilt vocabulary replace the live one
//! atomically under concurrent lookups.

pub mod normalize;
pub mod trie;
pub mod service;
pub mod laws;
