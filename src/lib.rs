//! Lempel–Ziv–Storer–Szymanski compression: a sliding-window coder that
//! replaces repeated byte runs by back references, packed into a headerless
//! bit stream.
//!
//! The format: a literal is a set flag bit and the byte; a match is a clear flag
//! bit, the window offset in `ei` bits and the length less `P + 1` in `ej` bits;
//! the stream is padded with zero bits to a whole byte. The parameters are not
//! stored in the stream.
use vstd::prelude::*;

pub mod bits;
pub mod compress;
pub mod decompress;
pub mod dynamic;
pub mod error;
pub mod generic;
pub mod in_place;
pub mod laws;
pub mod model;
pub mod number;
pub mod params;
pub mod search;
pub mod stream;
pub mod unwrap;

pub use error::LzssError;
pub use generic::Lzss;
pub use number::parse_dec_or_hex_u8;
pub use params::{LzssDyn, LzssDynError};
pub use stream::{
    Read, SliceReader, SliceWriteError, SliceWriter, SliceWriterExact, VecWriter, Write,
};
pub use unwrap::{
    ResultLzssErrorVoidExt, ResultLzssErrorVoidReadExt, ResultLzssErrorVoidWriteExt,
    UnwrapReadExt, UnwrapReadWriteExt, UnwrapWriteExt,
};
