//! Reader and writer for Traveller's Tales Nu engine DAT archives.
//!
//! Versions -3 (MkDat) and -5 (PakDat, including OBB wrappers) are supported. Rewrites retain the
//! original wrapper and copy unchanged stored payloads byte for byte.

pub mod archive;
pub mod bits;
pub mod bytes;
pub mod cli;
pub mod dflt;
pub mod edit;
pub mod entry;
pub mod error;
pub mod huffman;
pub mod index;
pub mod laws;
pub mod listing;
pub mod lz2k;
pub mod order;
pub mod outline;
pub mod pack;
pub mod payload;
pub mod pending;
pub mod progress;
pub mod size;
pub mod text;
pub mod transfer;
pub mod tree;
pub mod unpack;
pub mod walk;
pub mod writer;

pub use archive::Archive;
pub use entry::{Compression, Entry, Format};
pub use error::{NudatError, Result};
pub use pack::{pack, SourceFile};
pub use progress::{pack_with_progress, PackEvent, PackPhase};

use vstd::prelude::*;

verus! {

/// A file record as the index holds it.
///
/// It is made of four little-endian numbers of 32 bits, one behind the other:
///
/// - `offset` tells where the payload starts, in units of 256 bytes.
/// - `stored_size` tells how many bytes are stored.
/// - `size` tells how many bytes they decode to.
/// - `compression` tells how they are encoded: 0 as they are, 2 as LZ2K, 3 as DFLT.
///
/// None of the first three may be below zero.
///
/// The error for a record that is cut short names the first field that is missing, and the line
/// of this file on which that field is declared: the fields keep their lines.
#[derive(Clone, Copy, Debug)]
pub struct RawFileInfo {
    pub offset: i32,
    pub stored_size: i32,
    pub size: i32,
    pub compression: i32,
}

} // verus!
