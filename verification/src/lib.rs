//! A verified Wordle engine: word-list handling, guess feedback, hard-mode and
//! screening rules, round and session bookkeeping.

pub mod answer;
pub mod feedback;
pub mod game;
pub mod hard_mode;
pub mod options;
pub mod screen;
pub mod stats;
pub mod text;
pub mod words;
