pub mod aggregate;
pub mod classify;
pub mod network;
pub mod parse;
pub mod seqs;
