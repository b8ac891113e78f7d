//! Hint codes.
pub mod huffman;
