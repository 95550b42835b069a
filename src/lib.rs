//! Sliding-window dictionaries of the LZMA family and the LZMA2 chunk reader.

pub mod error;
pub mod input;
pub mod lz_decoder;
pub mod lz_encoder;
pub mod lzma2_reader;
