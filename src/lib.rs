//! A verified decoder for the DEFLATE compressed-data format (RFC 1951).
//!
//! `inflate::new` starts a decode session over a compressed input and
//! `DeflateStream::inflate` decodes it; each step is proved to compute the
//! result that the spec functions of `inflate` describe. All three block
//! types are decoded: stored, fixed Huffman and dynamic Huffman.
pub mod bitstream;
pub mod huffman;
pub mod inflate;
pub mod truncation;
