//! Ranking guesses of a five-letter word game by the information they reveal:
//! packed encodings of words, feedback predicates and their index over a
//! dictionary, the enumeration of feedback patterns, and the sizes of the bins
//! into which a guess splits the dictionary.

pub mod ascii_bit_set;
pub mod fivegram;
pub mod bitmap;
pub mod predicate;
pub mod dictionary;
pub mod index;
pub mod patterns;
pub mod scorer;
pub mod ranker;
