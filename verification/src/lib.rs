//! A file compression engine: Huffman and Shannon-Fano coders, a Hamming block
//! codec, a bit container and the archive format that ties them together.

pub mod algorithms;
pub mod application;
pub mod bits;
pub mod code_table;
pub mod bit_container;
pub mod bit_map;
pub mod statistic;
pub mod types;
pub mod utils;
