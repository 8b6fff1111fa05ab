//! Entries, payload encodings and archive formats.

use crate::bytes::holds_at;
use crate::error::{fails, invalid, ErrorView, Result};
use crate::text::{decimal, decimal_of, eq_bytes};
use vstd::prelude::*;
use vstd::utf8::encode_utf8;

verus! {

/// Payloads begin at multiples of this offset.
pub const ALIGN: u64 = 256;

/// The payload encoding used by an entry.
#[derive(Clone, Copy, Debug, Eq, PartialEq, Structural)]
pub enum Compression {
    /// The payload is the file itself.
    Plain,
    Lz2k,
    Deflate,
}

/// The encoding that a number in the index stands for.
pub open spec fn compression_from(raw: int) -> core::result::Result<Compression, ErrorView> {
    if raw == 0 {
        Ok(Compression::Plain)
    } else if raw == 2 {
        Ok(Compression::Lz2k)
    } else if raw == 3 {
        Ok(Compression::Deflate)
    } else {
        Err(ErrorView::InvalidArchive("unsupported compression mode "@ + decimal(raw)))
    }
}

/// The number that stands for an encoding in the index.
pub open spec fn compression_raw(compression: Compression) -> int {
    match compression {
        Compression::Plain => 0,
        Compression::Lz2k => 2,
        Compression::Deflate => 3,
    }
}

/// Every encoding is read back from its number.
pub proof fn lemma_compression_read_back(compression: Compression)
    ensures
        compression_from(compression_raw(compression)) == core::result::Result::<
            Compression,
            ErrorView,
        >::Ok(compression),
{
}

impl Compression {
    pub fn from_raw(raw: i32) -> (res: Result<Self>)
        ensures
            match compression_from(raw as int) {
                Ok(c) => res matches Ok(found) && found == c,
                Err(e) => fails(res, e),
            },
    {
        if raw == 0 {
            Ok(Compression::Plain)
        } else if raw == 2 {
            Ok(Compression::Lz2k)
        } else if raw == 3 {
            Ok(Compression::Deflate)
        } else {
            let text: String = "unsupported compression mode ".to_owned().concat(
                decimal_of(raw).as_str(),
            );
            Err(invalid(text.as_str()))
        }
    }

    pub fn raw(self) -> (res: i32)
        ensures
            res == compression_raw(self),
    {
        match self {
            Compression::Plain => 0,
            Compression::Lz2k => 2,
            Compression::Deflate => 3,
        }
    }
}

/// The wrapper around an archive.
#[derive(Clone, Copy, Debug, Eq, PartialEq, Structural)]
pub enum Format {
    Pc,
    Android,
    Obb,
}

pub open spec fn format_version(format: Format) -> int {
    match format {
        Format::Pc => -3,
        _ => -5,
    }
}

/// The text by which a wrapper is told.
pub open spec fn marker_text(format: Format) -> Seq<char> {
    match format {
        Format::Pc => "MkDat v4.0"@,
        Format::Android => "PakDat (TechRound) v1.1"@,
        Format::Obb => "PakDat v1.01"@,
    }
}

pub open spec fn format_marker(format: Format) -> Seq<u8> {
    encode_utf8(marker_text(format))
}

pub open spec fn format_prefix_len(format: Format) -> int {
    match format {
        Format::Pc => 1024,
        _ => 512,
    }
}

/// The byte string occurs in `s`.
pub open spec fn occurs(s: Seq<u8>, part: Seq<u8>) -> bool {
    exists|at: int| #[trigger] holds_at(s, at, part)
}

/// The format whose marker a wrapper holds.
pub open spec fn format_of(prefix: Seq<u8>) -> Option<Format> {
    if occurs(prefix, format_marker(Format::Pc)) {
        Some(Format::Pc)
    } else if occurs(prefix, format_marker(Format::Android)) {
        Some(Format::Android)
    } else if occurs(prefix, format_marker(Format::Obb)) {
        Some(Format::Obb)
    } else {
        None
    }
}

impl Format {
    pub fn version(self) -> (res: i32)
        ensures
            res == format_version(self),
    {
        match self {
            Format::Pc => -3,
            _ => -5,
        }
    }

    pub fn marker(self) -> (res: &'static [u8])
        ensures
            res@ == format_marker(self),
    {
        let text: &'static str = match self {
            Format::Pc => "MkDat v4.0",
            Format::Android => "PakDat (TechRound) v1.1",
            Format::Obb => "PakDat v1.01",
        };
        text.as_bytes()
    }

    pub fn prefix_len(self) -> (res: usize)
        ensures
            res == format_prefix_len(self),
    {
        match self {
            Format::Pc => 1024,
            _ => 512,
        }
    }
}

/// Whether the byte string occurs in `s`.
pub fn find(s: &[u8], part: &[u8]) -> (res: bool)
    ensures
        res == occurs(s@, part@),
{
    if part.len() > s.len() {
        return false;
    }
    let mut at: usize = 0;
    while at <= s.len() - part.len()
        invariant
            part@.len() <= s@.len(),
            at <= s@.len() - part@.len() + 1,
            forall|i: int| 0 <= i < at ==> !#[trigger] holds_at(s@, i, part@),
        decreases s@.len() + 1 - at,
    {
        if eq_bytes(vstd::slice::slice_subrange(s, at, at + part.len()), part) {
            assert(holds_at(s@, at as int, part@));
            return true;
        }
        if at == s.len() {
            return false;
        }
        at = at + 1;
    }
    false
}

/// The format whose marker a wrapper holds.
pub fn detect_format(prefix: &[u8]) -> (res: Option<Format>)
    ensures
        res == format_of(prefix@),
{
    if find(prefix, Format::Pc.marker()) {
        Some(Format::Pc)
    } else if find(prefix, Format::Android.marker()) {
        Some(Format::Android)
    } else if find(prefix, Format::Obb.marker()) {
        Some(Format::Obb)
    } else {
        None
    }
}

/// One file in the archive. Paths use backslashes, matching the Nu engine.
#[derive(Clone, Debug)]
pub struct Entry {
    pub path: String,
    pub offset: u64,
    pub stored_size: u32,
    pub size: u32,
    pub compression: Compression,
}

/// An entry, with its path as bytes.
pub ghost struct EntryView {
    pub path: Seq<u8>,
    pub offset: int,
    pub stored_size: int,
    pub size: int,
    pub compression: Compression,
}

impl View for Entry {
    type V = EntryView;

    open spec fn view(&self) -> EntryView {
        EntryView {
            path: encode_utf8(self.path@),
            offset: self.offset as int,
            stored_size: self.stored_size as int,
            size: self.size as int,
            compression: self.compression,
        }
    }
}

} // verus!
