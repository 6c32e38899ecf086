//! A lossless LZO1X-1 codec: a fast greedy compressor and a bounds-checked
//! decompressor that share one token grammar.
pub mod decoder;
pub mod encoder;
pub mod error;
pub mod round_trip;

pub use decoder::decompress;
pub use encoder::compress;
pub use error::Error;
