//! A verified Huffman coder.
//!
//! The crate compresses a byte stream with a frequency-driven binary prefix
//! code and packs the result into a self-describing container: an 8-byte
//! original-length field, an 8-byte tree-length field, the serialized prefix
//! tree, and the encoded body. Every step is specified and proved, up to the
//! round trip: decoding a container produced by the encoder yields the
//! original bytes.

pub mod base64;
pub mod bits;
pub mod codec;
pub mod container;
pub mod tree;
