//! Building the summary (table of contents) of a Markdown book from the paths
//! of its notes.
pub mod seqs;
pub mod text;
pub mod sort;
pub mod book;
pub mod summary;
pub mod header;
pub mod marker;
pub mod config;
