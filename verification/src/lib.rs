//! Shiritori, the Japanese word-chain game: a dictionary of words with their
//! phonetic readings and an engine that resolves one turn at a time.

pub mod game;
pub mod record;
pub mod word;
