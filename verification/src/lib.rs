//! Inspect the structure of model weight files: a byte-exact decoder for the
//! GGUF container format (header, typed key/value metadata, tensor descriptor
//! records) and a namespace tree that turns flat dot-delimited tensor names
//! into an expandable hierarchy with aggregated counts and sizes.

use vstd::prelude::*;

pub mod bytes;
pub mod encode;
pub mod explorer;
pub mod ggml;
pub mod gguf;
pub mod natsort;
pub mod render;
pub mod text;
pub mod tree;
pub mod utils;

verus! {

/// The four ASCII bytes `G`,`G`,`U`,`F` read as a little-endian 32-bit integer.
pub const GGUF_MAGIC: u32 = 0x46554747;

} // verus!
