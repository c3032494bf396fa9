//! Converter from raw Xbox disc images (ISO9660/XDVDFS) to the CISO
//! compressed, randomly-seekable container format.
//!
//! The library locates the filesystem payload inside a raw image, splits it
//! into fixed-size blocks, compresses each block with an independent-block,
//! checksum-free LZ4 frame, and packs the results into one or more output
//! files with a block index that lets a reader locate any block without
//! decoding the whole archive.

pub mod bytes;
pub mod codec;
pub mod driver;
pub mod container;
pub mod scan;
pub mod writer;

use vstd::prelude::*;

verus! {

/// Size of one source block: the atomic unit of compression and indexing.
pub const CISO_BLOCK_SIZE: usize = 0x800;

/// Magic constant at the start of every output file ("CISO" in little endian).
pub const CISO_MAGIC: u32 = 0x4F534943;

/// Size in bytes of the fixed header at the start of every output file.
pub const CISO_HEADER_SIZE: u32 = 0x18;

/// Largest file size the target filesystem accepts; output is split into
/// numbered files so that no data region grows past this by more than one
/// block.
pub const FATX_MAX_SIZE: u64 = 4290732032;

} // verus!
