//! Huffman coding: builds a prefix-free binary code for the symbols of an
//! input text and packs the encoded text into a byte sequence.

pub mod bits;
pub mod freq;
pub mod tree;
pub mod codes;
pub mod encode;
