//! Hash-dictionary archives: coordinates into chains of BLAKE3 digests,
//! packed with Golomb-Rice codes and an adaptive order-1 range coder.

pub mod app;
pub mod archive;
pub mod archive_laws;
pub mod archive_text;
pub mod bits;
pub mod bytes;
pub mod codec;
pub mod command;
pub mod crypto;
pub mod digits;
pub mod entries;
pub mod hex;
pub mod model;
pub mod number;
pub mod range_coder;
pub mod range_laws;
pub mod range_tables;
pub mod rice;
pub mod rice_laws;
pub mod scanner;
pub mod sizes;
pub mod text;
pub mod view;
