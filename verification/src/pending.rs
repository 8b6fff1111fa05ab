//! Files that wait to be written to an archive.

use crate::entry::Compression;
use vstd::prelude::*;
use vstd::utf8::encode_utf8;

verus! {

/// Where the stored bytes of a file come from.
#[derive(Clone, Copy, Debug)]
pub enum Source {
    /// From the archive that is rewritten.
    Stored { offset: u64, size: u32 },
    /// From the file with this number.
    Disk(usize),
}

/// A file that waits to be written.
#[derive(Clone, Debug)]
pub struct Pending {
    pub path: String,
    pub source: Source,
    pub size: u32,
    pub stored_size: u32,
    pub compression: Compression,
}

/// A file that waits to be written, with its path as bytes.
pub ghost struct PendingView {
    pub path: Seq<u8>,
    pub source: Source,
    pub size: int,
    pub stored_size: int,
    pub compression: Compression,
}

impl View for Pending {
    type V = PendingView;

    open spec fn view(&self) -> PendingView {
        PendingView {
            path: encode_utf8(self.path@),
            source: self.source,
            size: self.size as int,
            stored_size: self.stored_size as int,
            compression: self.compression,
        }
    }
}

/// The files of a list.
pub open spec fn pending_views(v: Seq<Pending>) -> Seq<PendingView> {
    Seq::new(v.len(), |i: int| v[i]@)
}

/// The paths of a list.
pub open spec fn paths_of(items: Seq<PendingView>) -> Seq<Seq<u8>> {
    Seq::new(items.len(), |i: int| items[i].path)
}

} // verus!
