//! Small text utilities: FizzBuzz labels, word frequencies, text statistics,
//! and the line matcher and dispatch rules of a keyword search over a directory.
pub mod text;
pub mod fizzbuzz;
pub mod search;
pub mod words;
pub mod stats;
pub mod download;
