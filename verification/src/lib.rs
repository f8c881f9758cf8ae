//! Bit-level codecs and container framing for still images and simple video:
//! a zlib/DEFLATE decompressor, PNG scanline reconstruction, BMP pixel
//! normalisation, and RIFF/AVI chunk trees.

pub mod error;
pub mod bit;
pub mod bytes;
pub mod huffman_table;
pub mod huffman_proofs;
pub mod deflate;
pub mod deflate_proofs;
pub mod zlib;
pub mod bmp;
pub mod riff;
pub mod riff_proofs;
pub mod png;
pub mod avi;
