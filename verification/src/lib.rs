//! Byte-pair-encoding tokenizer: training a merge table on a corpus, encoding
//! and decoding text with it, and a binary file format for the table.

pub mod pair;
pub mod text;
pub mod bpe;
pub mod model;
pub mod chain;
pub mod round;
pub mod index;
pub mod queue;
pub mod train;
pub mod laws;
pub mod table;
pub mod render;
pub mod cli;
