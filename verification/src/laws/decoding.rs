//! What comes out of stored payloads, and what verifying and unpacking tell of it.

use super::layout::{stands, word};
use crate::archive::{
    entry_bytes, entry_number, entry_result, first_failure, lemma_entry_from, ArchiveView,
};
use crate::bytes::u32_at;
use crate::dflt::{inflated, retagged, Inflated};
use crate::entry::{Compression, EntryView};
use crate::error::ErrorView;
use crate::lz2k;
use crate::payload::{block_bytes, blocks_from, header_lengths, lemma_payload_size, payload_bytes};
use crate::text::{normalized, same_name};
use crate::unpack::{unpack_error, unpacked};
use vstd::prelude::*;
use vstd::utf8::{decode_utf8, encode_utf8};

verus! {

/// The bytes of an entry come out of its own stored bytes, by its own encoding, and as many are due
/// as it tells.
pub proof fn lemma_entry_decoding(image: Seq<u8>, entry: EntryView)
    ensures
        entry_bytes(image, entry) == payload_bytes(
            entry.compression,
            image.subrange(entry.offset, entry.offset + entry.stored_size),
            entry.size,
        ),
        entry_bytes(image, entry).1 is None ==> entry_bytes(image, entry).0.len() == entry.size
            && entry_result(image, entry) == Ok::<Seq<u8>, ErrorView>(entry_bytes(image, entry).0),
        entry_bytes(image, entry).1 matches Some(e) ==> entry_result(image, entry) == Err::<
            Seq<u8>,
            ErrorView,
        >(e),
{
    if entry_bytes(image, entry).1 is None {
        lemma_payload_size(
            entry.compression,
            image.subrange(entry.offset, entry.offset + entry.stored_size),
            entry.size,
        );
    }
}

/// A payload that is stored as it is comes out as it is, and has to have the size that is due. An
/// encoded payload without blocks comes out empty.
pub proof fn lemma_plain_decoding(stored: Seq<u8>, size: int)
    ensures
        stored.len() == size ==> payload_bytes(Compression::Plain, stored, size) == (
            stored,
            None::<ErrorView>,
        ),
        stored.len() != size ==> payload_bytes(Compression::Plain, stored, size) == (
            Seq::<u8>::empty(),
            Some(ErrorView::InvalidArchive("uncompressed size mismatch"@)),
        ),
        payload_bytes(Compression::Lz2k, Seq::empty(), 0) == (Seq::<u8>::empty(), None::<ErrorView>),
        payload_bytes(Compression::Deflate, Seq::empty(), 0) == (
            Seq::<u8>::empty(),
            None::<ErrorView>,
        ),
        payload_bytes(Compression::Lz2k, stored, size) == blocks_from(
            Compression::Lz2k,
            stored,
            0,
            Seq::empty(),
            size,
        ),
        payload_bytes(Compression::Deflate, stored, size) == blocks_from(
            Compression::Deflate,
            stored,
            0,
            Seq::empty(),
            size,
        ),
{
}

/// The four letters by which a block begins: `LZ2K` or `DFLT`.
pub open spec fn letters(compression: Compression) -> Seq<u8> {
    if compression == Compression::Lz2k {
        seq![0x4cu8, 0x5a, 0x32, 0x4b]
    } else {
        seq![0x44u8, 0x46, 0x4c, 0x54]
    }
}

/// How many bytes come out of the block at a position: an LZ2K block tells it first, a DFLT block
/// last.
pub open spec fn told_decoded(compression: Compression, stored: Seq<u8>, at: int) -> int {
    if compression == Compression::Lz2k {
        word(stored, at + 4)
    } else {
        word(stored, at + 8)
    }
}

/// How many bytes the block at a position holds behind its twelve bytes of header.
pub open spec fn told_stored(compression: Compression, stored: Seq<u8>, at: int) -> int {
    if compression == Compression::Lz2k {
        word(stored, at + 8)
    } else {
        word(stored, at + 4)
    }
}

/// A stream whose first block has the tag that stands for stored blocks elsewhere, and for dynamic
/// ones here, with the tag that stands for those elsewhere.
pub open spec fn dynamic(data: Seq<u8>) -> Seq<u8> {
    if data.len() > 0 && data[0] & 6 == 0 {
        data.update(0, data[0] | 4)
    } else {
        data
    }
}

/// The bytes of a block stand for others: they are these where there are as many of them, else they
/// decode to them.
pub open spec fn stands_for(compression: Compression, data: Seq<u8>, block: Seq<u8>) -> bool {
    if data.len() == block.len() {
        data == block
    } else if compression == Compression::Lz2k {
        lz2k::decoded(data, block.len() as int) == Ok::<Seq<u8>, Seq<char>>(block)
    } else {
        inflated(dynamic(data), block.len() + 1) == Inflated::Ok(block)
    }
}

/// A block stands in a payload at a position: its letters, two numbers of four bytes and its
/// bytes, which stand for as many as it tells. Bytes come only out of bytes, and no more than are
/// due.
pub open spec fn block_stands(
    compression: Compression,
    stored: Seq<u8>,
    at: int,
    out: int,
    size: int,
    block: Seq<u8>,
) -> bool {
    let held = told_stored(compression, stored, at);
    &&& 0 <= at
    &&& at + 12 <= stored.len()
    &&& stands(stored, at, letters(compression))
    &&& told_decoded(compression, stored, at) == block.len()
    &&& at + 12 + held <= stored.len()
    &&& held == 0 ==> block.len() == 0
    &&& out + block.len() <= size
    &&& stands_for(compression, stored.subrange(at + 12, at + 12 + held), block)
}

proof fn lemma_header_numbers(compression: Compression, stored: Seq<u8>, at: int)
    requires
        0 <= at,
        at + 12 <= stored.len(),
    ensures
        ({
            let header = stored.subrange(at, at + 12);
            &&& u32_at(header, 4) == word(stored, at + 4)
            &&& u32_at(header, 8) == word(stored, at + 8)
            &&& header.subrange(0, 4) == stored.subrange(at, at + 4)
            &&& 0 <= word(stored, at + 4)
            &&& 0 <= word(stored, at + 8)
        }),
{
    let header = stored.subrange(at, at + 12);
    assert(header.subrange(0, 4) =~= stored.subrange(at, at + 4));
}

/// A payload is decoded block by block: a block that stands adds its bytes, and decoding goes on
/// behind it. At the end as many bytes have to have come out as are due.
pub proof fn lemma_block_decoded(
    compression: Compression,
    stored: Seq<u8>,
    at: int,
    out: Seq<u8>,
    size: int,
    block: Seq<u8>,
)
    requires
        compression != Compression::Plain,
    ensures
        at < stored.len() && block_stands(compression, stored, at, out.len() as int, size, block)
            ==> blocks_from(compression, stored, at, out, size) == blocks_from(
            compression,
            stored,
            at + 12 + told_stored(compression, stored, at),
            out + block,
            size,
        ),
        at >= stored.len() && out.len() == size ==> blocks_from(compression, stored, at, out, size)
            == (out, None::<ErrorView>),
        at >= stored.len() && out.len() != size ==> blocks_from(compression, stored, at, out, size)
            == (out, Some(ErrorView::InvalidArchive("decoded entry size mismatch"@))),
{
    if at < stored.len() && block_stands(compression, stored, at, out.len() as int, size, block) {
        lemma_header_numbers(compression, stored, at);
        let held = told_stored(compression, stored, at);
        let data = stored.subrange(at + 12, at + 12 + held);
        assert(retagged(data) == dynamic(data));
        assert(block_bytes(compression, data, block.len() as int) == Ok::<Seq<u8>, ErrorView>(
            block,
        ));
        assert(header_lengths(
            compression,
            stored.subrange(at, at + 12),
            stored.len() - at - 12,
            out.len() as int,
            size,
        ) == Ok::<(int, int), ErrorView>((block.len() as int, held)));
    }
}

/// Where decoding goes through, a block stands wherever something is left.
pub proof fn lemma_block_needed(
    compression: Compression,
    stored: Seq<u8>,
    at: int,
    out: Seq<u8>,
    size: int,
) -> (block: Seq<u8>)
    requires
        compression != Compression::Plain,
        0 <= at < stored.len(),
        blocks_from(compression, stored, at, out, size).1 is None,
    ensures
        block_stands(compression, stored, at, out.len() as int, size, block),
        blocks_from(compression, stored, at, out, size) == blocks_from(
            compression,
            stored,
            at + 12 + told_stored(compression, stored, at),
            out + block,
            size,
        ),
{
    lemma_header_numbers(compression, stored, at);
    let held = told_stored(compression, stored, at);
    let data = stored.subrange(at + 12, at + 12 + held);
    let due = told_decoded(compression, stored, at);
    assert(retagged(data) == dynamic(data));
    let block = block_bytes(compression, data, due)->Ok_0;
    block
}

/// Which error stops decoding at a block: too few bytes for a header, other letters, more bytes
/// than the entry holds, bytes out of none, or more than are due.
pub proof fn lemma_block_refused(
    compression: Compression,
    stored: Seq<u8>,
    at: int,
    out: Seq<u8>,
    size: int,
)
    requires
        compression != Compression::Plain,
        0 <= at < stored.len(),
    ensures
        ({
            let outcome = blocks_from(compression, stored, at, out, size);
            let held = told_stored(compression, stored, at);
            let due = told_decoded(compression, stored, at);
            let refused = |text: Seq<char>|
                outcome == (out, Some(ErrorView::InvalidArchive(text)));
            &&& stored.len() - at < 12 ==> refused("truncated compressed block header"@)
            &&& stored.len() - at >= 12 ==> if stored.subrange(at, at + 4) != letters(compression) {
                if compression == Compression::Lz2k {
                    refused("invalid LZ2K block magic"@)
                } else {
                    refused("invalid DFLT block magic"@)
                }
            } else if held > stored.len() - at - 12 {
                refused("compressed block exceeds entry"@)
            } else if held == 0 && due != 0 {
                refused("empty compressed block"@)
            } else if out.len() + due > size {
                refused("decoded entry exceeds declared size"@)
            } else {
                true
            }
        }),
{
    if stored.len() - at >= 12 {
        lemma_header_numbers(compression, stored, at);
    }
}

/// Verifying succeeds only if every entry decodes, and then every entry has the size that it tells.
/// Where it fails, the first entry that does not decode is named with its error.
pub proof fn lemma_verified(archive: ArchiveView)
    ensures
        first_failure(archive, 0) is None <==> forall|i: int|
            0 <= i < archive.entries.len() ==> entry_bytes(
                archive.image,
                #[trigger] archive.entries[i],
            ).1 is None,
        first_failure(archive, 0) is None ==> forall|i: int|
            0 <= i < archive.entries.len() ==> entry_bytes(
                archive.image,
                #[trigger] archive.entries[i],
            ).0.len() == archive.entries[i].size,
        first_failure(archive, 0) matches Some(e) ==> exists|i: int|
            fails_first(archive, i) && e == (ErrorView::Entry {
                path: decode_utf8((#[trigger] archive.entries[i]).path),
                source: Box::new(entry_bytes(archive.image, archive.entries[i]).1->0),
            }),
{
    lemma_failure_from(archive, 0);
    if first_failure(archive, 0) is None {
        assert forall|i: int| 0 <= i < archive.entries.len() implies entry_bytes(
            archive.image,
            #[trigger] archive.entries[i],
        ).0.len() == archive.entries[i].size by {
            lemma_entry_decoding(archive.image, archive.entries[i]);
        }
    }
}

/// The entry is the first that does not decode.
pub open spec fn fails_first(archive: ArchiveView, i: int) -> bool {
    &&& 0 <= i < archive.entries.len()
    &&& entry_bytes(archive.image, archive.entries[i]).1 is Some
    &&& forall|k: int|
        0 <= k < i ==> entry_bytes(archive.image, #[trigger] archive.entries[k]).1 is None
}

proof fn lemma_failure_from(archive: ArchiveView, from: int)
    requires
        0 <= from <= archive.entries.len(),
        forall|k: int|
            0 <= k < from ==> entry_bytes(archive.image, #[trigger] archive.entries[k]).1 is None,
    ensures
        first_failure(archive, from) is None <==> forall|i: int|
            0 <= i < archive.entries.len() ==> entry_bytes(
                archive.image,
                #[trigger] archive.entries[i],
            ).1 is None,
        first_failure(archive, from) matches Some(e) ==> exists|i: int|
            fails_first(archive, i) && e == (ErrorView::Entry {
                path: decode_utf8((#[trigger] archive.entries[i]).path),
                source: Box::new(entry_bytes(archive.image, archive.entries[i]).1->0),
            }),
    decreases archive.entries.len() - from,
{
    if from < archive.entries.len() {
        let entry = archive.entries[from];
        if entry_bytes(archive.image, entry).1 is None {
            lemma_failure_from(archive, from + 1);
        } else {
            assert(fails_first(archive, from));
        }
    }
}

/// Unpacking succeeds where every entry decodes, and then every file is what comes out of its
/// entry, under its path with slashes. Where it fails, it fails with the error of the first entry
/// that does not decode.
pub proof fn lemma_unpacked(archive: ArchiveView, n: int)
    requires
        0 <= n <= archive.entries.len(),
    ensures
        unpack_error(archive, n) is None <==> forall|i: int|
            0 <= i < n ==> entry_bytes(archive.image, #[trigger] archive.entries[i]).1 is None,
        unpack_error(archive, n) matches Some(e) ==> exists|i: int|
            i < n && #[trigger] fails_first(archive, i) && entry_bytes(
                archive.image,
                archive.entries[i],
            ).1 == Some(e),
        unpacked(archive, n).len() == n,
        forall|i: int|
            0 <= i < n ==> {
                let file = #[trigger] unpacked(archive, n)[i];
                let path = archive.entries[i].path;
                &&& file.data == entry_bytes(archive.image, archive.entries[i]).0
                &&& file.path.len() == path.len()
                &&& forall|k: int|
                    0 <= k < path.len() ==> #[trigger] file.path[k] == if path[k] == 0x5c {
                        0x2fu8
                    } else {
                        path[k]
                    }
            },
    decreases n,
{
    if n > 0 {
        lemma_unpacked(archive, n - 1);
        if unpack_error(archive, n - 1) is None && unpack_error(archive, n) is Some {
            assert(fails_first(archive, n - 1));
        }
    }
}

/// A path finds the entry that has it, in any case and with slashes or backslashes, and no other.
pub proof fn lemma_looked_up(archive: ArchiveView, query: Seq<char>, key: Seq<u8>)
    requires
        archive.sound(),
        normalized(encode_utf8(query)) == Ok::<Seq<u8>, ErrorView>(key),
    ensures
        forall|i: int|
            0 <= i < archive.entries.len() && same_name((#[trigger] archive.entries[i]).path, key)
                ==> entry_number(archive.entries, encode_utf8(query)) == Some(i)
                && archive.contents(query) == entry_result(archive.image, archive.entries[i]),
        (forall|i: int|
            0 <= i < archive.entries.len() ==> !same_name(
                (#[trigger] archive.entries[i]).path,
                key,
            )) ==> entry_number(archive.entries, encode_utf8(query)) is None && archive.contents(
            query,
        ) == Err::<Seq<u8>, ErrorView>(ErrorView::MissingEntry(query)),
{
    assert forall|i: int|
        0 <= i < archive.entries.len() && same_name(
            (#[trigger] archive.entries[i]).path,
            key,
        ) implies entry_number(archive.entries, encode_utf8(query)) == Some(i)
        && archive.contents(query) == entry_result(archive.image, archive.entries[i]) by {
        super::contents::lemma_unique_entry(archive.entries, i, key);
    }
    lemma_entry_from(archive.entries, key, 0);
}

} // verus!
