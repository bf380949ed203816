//! Static Huffman coding of byte buffers: frequency counting, tree
//! construction, prefix codes, and the bit-packed container that makes
//! compression and decompression exact inverses.
//!
//! A container holds, in this order: one byte with the number of padding bits
//! (0 to 7) at the end of the bit stream; the byte length of the serialized
//! frequency table as 32 bits in little-endian order; the frequency table,
//! five bytes for each symbol that occurs (the symbol, then its count as 32
//! bits in little-endian order), ascending by symbol; and the bit stream, the
//! codes of the buffer's bytes one behind the other, the first bit in the most
//! significant place of each byte.  The tree is not stored: the decoder builds
//! it again from the frequency table, by the same steps as the encoder.
//!
//! [`compressor::huff_compress`] and [`decompressor::huff_decompress`] are the
//! two ends; [`laws`] states what holds of them together.
use vstd::prelude::*;

pub mod bits;
pub mod codes;
pub mod compressor;
pub mod decompressor;
pub mod error;
pub mod forest;
pub mod huff;
pub mod laws;
pub mod min_heap;
pub mod packing;
pub mod table;
pub mod tree;
