pub mod chars;
pub mod seqs;
pub mod grid;
pub mod search;
pub mod words;
pub mod game;
pub mod timing;

pub use words::find_n_length_words;
