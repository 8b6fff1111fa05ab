//! Decoding of stored payloads.

use crate::bytes::{read_u32, u32_at};
use crate::dflt;
use crate::entry::Compression;
use crate::error::{fails, invalid, ErrorView, IoFault, NudatError, Result};
use crate::lz2k;
use crate::text::eq_bytes;
use vstd::prelude::*;

verus! {

/// The bytes in front of every compressed block.
pub const HEADER_SIZE: usize = 12;

/// The first four bytes of a block's header.
pub open spec fn magic(compression: Compression) -> Seq<u8> {
    if compression == Compression::Lz2k {
        seq![0x4cu8, 0x5a, 0x32, 0x4b]
    } else {
        seq![0x44u8, 0x46, 0x4c, 0x54]
    }
}

pub open spec fn bad_archive<T>(message: Seq<char>) -> core::result::Result<T, ErrorView> {
    Err(ErrorView::InvalidArchive(message))
}

/// The decoded and the stored length that a block's header gives, where `remaining` bytes of
/// the entry follow it, `written` bytes are decoded already and `size` are due.
pub open spec fn header_lengths(
    compression: Compression,
    header: Seq<u8>,
    remaining: int,
    written: int,
    size: int,
) -> core::result::Result<(int, int), ErrorView> {
    let first = u32_at(header, 4);
    let second = u32_at(header, 8);
    // DFLT stores the compressed size before the decoded size.
    let (decoded, compressed) = if compression == Compression::Lz2k {
        (first, second)
    } else {
        (second, first)
    };
    if header.subrange(0, 4) != magic(compression) {
        if compression == Compression::Lz2k {
            bad_archive("invalid LZ2K block magic"@)
        } else {
            bad_archive("invalid DFLT block magic"@)
        }
    } else if compressed > remaining {
        bad_archive("compressed block exceeds entry"@)
    } else if compressed == 0 && decoded != 0 {
        bad_archive("empty compressed block"@)
    } else if written + decoded > size {
        bad_archive("decoded entry exceeds declared size"@)
    } else {
        Ok((decoded, compressed))
    }
}

/// A decoded block has to have the length that its header gives.
pub open spec fn checked_block(out: Seq<u8>, decoded: int) -> core::result::Result<
    Seq<u8>,
    ErrorView,
> {
    if out.len() == decoded {
        Ok(out)
    } else {
        bad_archive("compressed block decoded size mismatch"@)
    }
}

/// What a DFLT block decodes to, given what its stream decoded to.
pub open spec fn inflated_block(
    outcome: dflt::Inflated,
    decoded: int,
) -> core::result::Result<Seq<u8>, ErrorView> {
    match outcome {
        Ok(out) => checked_block(out, decoded),
        Err(true) => Err(ErrorView::Io(IoFault::IncompleteStream)),
        Err(false) => Err(ErrorView::Io(IoFault::CorruptStream)),
    }
}

/// What a block decodes to.
pub open spec fn block_bytes(
    compression: Compression,
    data: Seq<u8>,
    decoded: int,
) -> core::result::Result<Seq<u8>, ErrorView> {
    if data.len() == decoded {
        Ok(data)
    } else if compression == Compression::Lz2k {
        match lz2k::decoded(data, decoded) {
            Ok(out) => checked_block(out, decoded),
            Err(message) => bad_archive(message),
        }
    } else {
        inflated_block(dflt::unblocked(data, decoded as nat), decoded)
    }
}

/// What comes out of the blocks from a position on, behind what is decoded already, and the
/// error that stops it, if one does.
pub open spec fn blocks_from(
    compression: Compression,
    stored: Seq<u8>,
    at: int,
    out: Seq<u8>,
    size: int,
) -> (Seq<u8>, Option<ErrorView>)
    decreases stored.len() - at,
{
    if at >= stored.len() {
        if out.len() != size {
            (out, Some(ErrorView::InvalidArchive("decoded entry size mismatch"@)))
        } else {
            (out, None)
        }
    } else if stored.len() - at < HEADER_SIZE {
        (out, Some(ErrorView::InvalidArchive("truncated compressed block header"@)))
    } else {
        let body = at + HEADER_SIZE;
        match header_lengths(
            compression,
            stored.subrange(at, body),
            stored.len() - body,
            out.len() as int,
            size,
        ) {
            Err(e) => (out, Some(e)),
            Ok((decoded, compressed)) => match block_bytes(
                compression,
                stored.subrange(body, body + compressed),
                decoded,
            ) {
                Err(e) => (out, Some(e)),
                Ok(block) => if compressed < 0 {
                    (out, None)
                } else {
                    blocks_from(compression, stored, body + compressed, out + block, size)
                },
            },
        }
    }
}

/// What comes out of a stored payload of which `size` bytes are due, and the error that stops
/// it, if one does.
pub open spec fn payload_bytes(
    compression: Compression,
    stored: Seq<u8>,
    size: int,
) -> (Seq<u8>, Option<ErrorView>) {
    if compression == Compression::Plain {
        if stored.len() != size {
            (Seq::empty(), Some(ErrorView::InvalidArchive("uncompressed size mismatch"@)))
        } else {
            (stored, None)
        }
    } else {
        blocks_from(compression, stored, 0, Seq::empty(), size)
    }
}

/// Uncompressed files are copied in pieces of this size.
pub const COPY_SIZE: u64 = 0x2000;

/// The lengths that the output reaches as an uncompressed payload of `len` bytes is copied from a
/// position on.
pub open spec fn piece_marks(len: int, from: int) -> Seq<u64>
    decreases len - from,
{
    if from >= len {
        Seq::empty()
    } else {
        let end = if len - from < COPY_SIZE {
            len
        } else {
            from + COPY_SIZE
        };
        seq![end as u64] + piece_marks(len, end)
    }
}

/// The lengths that the output reaches with the blocks from a position on, where `written` bytes
/// are decoded already. Empty blocks do not count.
pub open spec fn block_marks(
    compression: Compression,
    stored: Seq<u8>,
    at: int,
    written: int,
    size: int,
) -> Seq<u64>
    decreases stored.len() - at,
{
    let body = at + HEADER_SIZE;
    if body > stored.len() {
        Seq::empty()
    } else {
        match header_lengths(
            compression,
            stored.subrange(at, body),
            stored.len() - body,
            written,
            size,
        ) {
            Err(_) => Seq::empty(),
            Ok((decoded, compressed)) => if compressed < 0 || block_bytes(
                compression,
                stored.subrange(body, body + compressed),
                decoded,
            ) is Err {
                Seq::empty()
            } else {
                let rest = block_marks(
                    compression,
                    stored,
                    body + compressed,
                    written + decoded,
                    size,
                );
                if decoded == 0 {
                    rest
                } else {
                    seq![(written + decoded) as u64] + rest
                }
            },
        }
    }
}

/// The lengths that the output reaches, write by write, as a stored payload is decoded.
pub open spec fn payload_marks(compression: Compression, stored: Seq<u8>, size: int) -> Seq<u64> {
    if compression != Compression::Plain {
        block_marks(compression, stored, 0, 0, size)
    } else if stored.len() != size {
        Seq::empty()
    } else {
        piece_marks(size, 0)
    }
}

/// The output never reaches more than is due.
pub proof fn lemma_marks_bound(compression: Compression, stored: Seq<u8>, size: int)
    requires
        0 <= size <= u32::MAX,
    ensures
        forall|k: int|
            0 <= k < payload_marks(compression, stored, size).len() ==> #[trigger] payload_marks(
                compression,
                stored,
                size,
            )[k] <= size,
{
    if compression != Compression::Plain {
        lemma_block_marks_bound(compression, stored, 0, 0, size);
    } else {
        lemma_piece_marks_bound(size, 0);
    }
}

proof fn lemma_piece_marks_bound(len: int, from: int)
    requires
        0 <= from,
        len <= u32::MAX,
    ensures
        forall|k: int|
            0 <= k < piece_marks(len, from).len() ==> #[trigger] piece_marks(len, from)[k] <= len,
    decreases len - from,
{
    if from < len {
        let end = if len - from < COPY_SIZE {
            len
        } else {
            from + COPY_SIZE
        };
        lemma_piece_marks_bound(len, end);
        let rest = piece_marks(len, end);
        assert forall|k: int| 0 <= k < piece_marks(len, from).len() implies #[trigger] piece_marks(
            len,
            from,
        )[k] <= len by {
            if k > 0 {
                assert(piece_marks(len, from)[k] == rest[k - 1]);
            }
        }
    }
}

proof fn lemma_block_marks_bound(
    compression: Compression,
    stored: Seq<u8>,
    at: int,
    written: int,
    size: int,
)
    requires
        0 <= at,
        0 <= written,
        size <= u32::MAX,
    ensures
        forall|k: int|
            0 <= k < block_marks(compression, stored, at, written, size).len()
                ==> #[trigger] block_marks(compression, stored, at, written, size)[k] <= size,
    decreases stored.len() - at,
{
    let body = at + HEADER_SIZE;
    if body <= stored.len() {
        if let Ok((decoded, compressed)) = header_lengths(
            compression,
            stored.subrange(at, body),
            stored.len() - body,
            written,
            size,
        ) {
            let rest = block_marks(compression, stored, body + compressed, written + decoded, size);
            lemma_block_marks_bound(compression, stored, body + compressed, written + decoded, size);
            let all = block_marks(compression, stored, at, written, size);
            assert forall|k: int| 0 <= k < all.len() implies #[trigger] all[k] <= size by {
                if decoded == 0 {
                    assert(all[k] == rest[k]);
                } else if k > 0 {
                    assert(all[k] == rest[k - 1]);
                }
            }
        }
    }
}

/// A payload that decodes without an error has the size that is due.
pub proof fn lemma_payload_size(compression: Compression, stored: Seq<u8>, size: int)
    requires
        payload_bytes(compression, stored, size).1 is None,
    ensures
        payload_bytes(compression, stored, size).0.len() == size,
{
    if compression != Compression::Plain {
        lemma_blocks_size(compression, stored, 0, Seq::empty(), size);
    }
}

proof fn lemma_blocks_size(
    compression: Compression,
    stored: Seq<u8>,
    at: int,
    out: Seq<u8>,
    size: int,
)
    requires
        0 <= at,
        blocks_from(compression, stored, at, out, size).1 is None,
    ensures
        blocks_from(compression, stored, at, out, size).0.len() == size,
    decreases stored.len() - at,
{
    if at < stored.len() && stored.len() - at >= HEADER_SIZE {
        let body = at + HEADER_SIZE;
        if let Ok((decoded, compressed)) = header_lengths(
            compression,
            stored.subrange(at, body),
            stored.len() - body,
            out.len() as int,
            size,
        ) {
            if let Ok(block) = block_bytes(
                compression,
                stored.subrange(body, body + compressed),
                decoded,
            ) {
                lemma_blocks_size(compression, stored, body + compressed, out + block, size);
            }
        }
    }
}

/// A payload decodes to no more than is due.
pub proof fn lemma_payload_bound(compression: Compression, stored: Seq<u8>, size: int)
    requires
        0 <= size,
    ensures
        payload_bytes(compression, stored, size).0.len() <= size,
{
    if compression != Compression::Plain {
        lemma_blocks_bound(compression, stored, 0, Seq::empty(), size);
    }
}

proof fn lemma_blocks_bound(
    compression: Compression,
    stored: Seq<u8>,
    at: int,
    out: Seq<u8>,
    size: int,
)
    requires
        0 <= at,
        out.len() <= size,
    ensures
        blocks_from(compression, stored, at, out, size).0.len() <= size,
    decreases stored.len() - at,
{
    if at < stored.len() && stored.len() - at >= HEADER_SIZE {
        let body = at + HEADER_SIZE;
        if let Ok((decoded, compressed)) = header_lengths(
            compression,
            stored.subrange(at, body),
            stored.len() - body,
            out.len() as int,
            size,
        ) {
            if let Ok(block) = block_bytes(
                compression,
                stored.subrange(body, body + compressed),
                decoded,
            ) {
                lemma_blocks_bound(compression, stored, body + compressed, out + block, size);
            }
        }
    }
}

/// Checks that an uncompressed payload has the size that is due.
pub fn check_plain(stored: u64, size: u32) -> (res: Result<()>)
    ensures
        if stored == size {
            res is Ok
        } else {
            fails(res, ErrorView::InvalidArchive("uncompressed size mismatch"@))
        },
{
    if stored != size as u64 {
        return Err(invalid("uncompressed size mismatch"));
    }
    Ok(())
}

/// Checks that what remains of an entry has room for a block's header.
pub fn check_room(remaining: u64) -> (res: Result<()>)
    ensures
        if remaining >= HEADER_SIZE {
            res is Ok
        } else {
            fails(res, ErrorView::InvalidArchive("truncated compressed block header"@))
        },
{
    if remaining < HEADER_SIZE as u64 {
        return Err(invalid("truncated compressed block header"));
    }
    Ok(())
}

/// Checks that as many bytes came out as were due.
pub fn check_written(written: u64, size: u32) -> (res: Result<()>)
    ensures
        if written == size {
            res is Ok
        } else {
            fails(res, ErrorView::InvalidArchive("decoded entry size mismatch"@))
        },
{
    if written != size as u64 {
        return Err(invalid("decoded entry size mismatch"));
    }
    Ok(())
}

/// The decoded and the stored length that a block's header gives.
pub fn read_header(
    compression: Compression,
    header: &[u8],
    remaining: u64,
    written: u64,
    size: u32,
) -> (res: Result<(u32, u32)>)
    requires
        header@.len() == HEADER_SIZE,
        compression != Compression::Plain,
        written <= size,
    ensures
        match header_lengths(compression, header@, remaining as int, written as int, size as int) {
            Ok((decoded, compressed)) => res matches Ok(found) && found.0 == decoded && found.1
                == compressed,
            Err(e) => fails(res, e),
        },
{
    let first: u32 = read_u32(header, 4);
    let second: u32 = read_u32(header, 8);
    let start: &[u8] = vstd::slice::slice_subrange(header, 0, 4);
    let (decoded, compressed): (u32, u32) = if let Compression::Lz2k = compression {
        let name: [u8; 4] = [0x4c, 0x5a, 0x32, 0x4b];
        assert(name@ =~= magic(compression));
        if !eq_bytes(start, name.as_slice()) {
            return Err(invalid("invalid LZ2K block magic"));
        }
        (first, second)
    } else {
        let name: [u8; 4] = [0x44, 0x46, 0x4c, 0x54];
        assert(name@ =~= magic(compression));
        if !eq_bytes(start, name.as_slice()) {
            return Err(invalid("invalid DFLT block magic"));
        }
        (second, first)
    };
    if compressed as u64 > remaining {
        return Err(invalid("compressed block exceeds entry"));
    }
    if compressed == 0 && decoded != 0 {
        return Err(invalid("empty compressed block"));
    }
    if written + decoded as u64 > size as u64 {
        return Err(invalid("decoded entry exceeds declared size"));
    }
    Ok((decoded, compressed))
}

/// Takes a decoded block that has the length that its header gives.
pub fn check_block(out: Vec<u8>, decoded: u32) -> (res: Result<Vec<u8>>)
    ensures
        match checked_block(out@, decoded as int) {
            Ok(block) => res matches Ok(found) && found@ == block,
            Err(e) => fails(res, e),
        },
{
    if out.len() != decoded as usize {
        return Err(invalid("compressed block decoded size mismatch"));
    }
    Ok(out)
}

/// Takes what the stream of a DFLT block decoded to, or tells how that failed.
pub fn take_inflated(
    outcome: core::result::Result<Vec<u8>, bool>,
    decoded: u32,
) -> (res: Result<Vec<u8>>)
    ensures
        match outcome {
            Ok(out) => match checked_block(out@, decoded as int) {
                Ok(block) => res matches Ok(found) && found@ == block,
                Err(e) => fails(res, e),
            },
            Err(true) => fails(res, ErrorView::Io(IoFault::IncompleteStream)),
            Err(false) => fails(res, ErrorView::Io(IoFault::CorruptStream)),
        },
{
    match outcome {
        Ok(out) => check_block(out, decoded),
        Err(true) => Err(NudatError::Io(IoFault::IncompleteStream)),
        Err(false) => Err(NudatError::Io(IoFault::CorruptStream)),
    }
}

/// Decodes one block.
pub fn decode_block(compression: Compression, data: &[u8], decoded: u32) -> (res: Result<Vec<u8>>)
    requires
        data@.len() <= u32::MAX,
        compression != Compression::Plain,
    ensures
        match block_bytes(compression, data@, decoded as int) {
            Ok(out) => res matches Ok(found) && found@ == out,
            Err(e) => fails(res, e),
        },
{
    if data.len() == decoded as usize {
        Ok(vstd::slice::slice_to_vec(data))
    } else if let Compression::Lz2k = compression {
        match lz2k::decode(data, decoded as usize) {
            Ok(out) => check_block(out, decoded),
            Err(e) => Err(invalid(e.message)),
        }
    } else {
        take_inflated(dflt::decode_block(data, decoded), decoded)
    }
}

/// `res` and what was appended to a buffer are what decoding gives.
pub open spec fn decoded_to(
    res: Result<u64>,
    before: Seq<u8>,
    after: Seq<u8>,
    expected: (Seq<u8>, Option<ErrorView>),
) -> bool {
    &&& after == before + expected.0
    &&& match expected.1 {
        None => res matches Ok(n) && n == expected.0.len(),
        Some(e) => fails(res, e),
    }
}

/// Decodes a stored payload of which `size` bytes are due, appending what comes out, and returns
/// how much that is. Where an error stops it, what was decoded before stays appended.
pub fn decode_payload(compression: Compression, stored: &[u8], size: u32, out: &mut Vec<u8>) -> (res:
    Result<u64>)
    requires
        stored@.len() <= u32::MAX,
    ensures
        decoded_to(res, old(out)@, final(out)@, payload_bytes(compression, stored@, size as int)),
{
    let mut marks: Vec<u64> = Vec::new();
    decode_marked(compression, stored, size, out, &mut marks)
}

/// Appends the lengths that the output reaches as an uncompressed payload is copied.
fn mark_pieces(len: u64, marks: &mut Vec<u64>)
    ensures
        final(marks)@ == old(marks)@ + piece_marks(len as int, 0),
{
    let ghost start = marks@;
    let ghost all = piece_marks(len as int, 0);
    let mut from: u64 = 0;
    while from < len
        invariant
            from <= len,
            all == piece_marks(len as int, 0),
            marks@ + piece_marks(len as int, from as int) == start + all,
        decreases len - from,
    {
        let end: u64 = if len - from < COPY_SIZE {
            len
        } else {
            from + COPY_SIZE
        };
        let ghost held = marks@;
        marks.push(end);
        assert(marks@ + piece_marks(len as int, end as int) =~= held + piece_marks(
            len as int,
            from as int,
        ));
        from = end;
    }
    assert(marks@ + Seq::<u64>::empty() =~= marks@);
}

/// Decodes a stored payload as `decode_payload` does, and appends the lengths that the output
/// reaches to `marks`.
pub fn decode_marked(
    compression: Compression,
    stored: &[u8],
    size: u32,
    out: &mut Vec<u8>,
    marks: &mut Vec<u64>,
) -> (res: Result<u64>)
    requires
        stored@.len() <= u32::MAX,
    ensures
        decoded_to(res, old(out)@, final(out)@, payload_bytes(compression, stored@, size as int)),
        final(marks)@ == old(marks)@ + payload_marks(compression, stored@, size as int),
{
    let ghost held = marks@;
    assert(held + Seq::<u64>::empty() =~= held);
    if let Compression::Plain = compression {
        assert(out@ + Seq::<u8>::empty() =~= out@);
        if let Err(e) = check_plain(stored.len() as u64, size) {
            return Err(e);
        }
        crate::bytes::append(out, stored);
        mark_pieces(stored.len() as u64, marks);
        return Ok(stored.len() as u64);
    }
    let ghost start = out@;
    let ghost expected = payload_bytes(compression, stored@, size as int);
    let ghost expected_marks = payload_marks(compression, stored@, size as int);
    let ghost mut done: Seq<u8> = Seq::empty();
    let mut at: usize = 0;
    let mut written: u64 = 0;
    assert(out@ =~= start + done);
    while at < stored.len()
        invariant
            compression != Compression::Plain,
            start == old(out)@,
            held == old(marks)@,
            expected == payload_bytes(compression, stored@, size as int),
            expected_marks == payload_marks(compression, stored@, size as int),
            stored@.len() <= u32::MAX,
            at <= stored@.len(),
            out@ == start + done,
            written == done.len(),
            written <= size,
            blocks_from(compression, stored@, at as int, done, size as int) == expected,
            marks@ + block_marks(compression, stored@, at as int, written as int, size as int)
                == held + expected_marks,
        decreases stored@.len() - at,
    {
        let ghost reached = marks@;
        assert(reached + Seq::<u64>::empty() =~= reached);
        if let Err(e) = check_room((stored.len() - at) as u64) {
            return Err(e);
        }
        let body: usize = at + HEADER_SIZE;
        let header: &[u8] = vstd::slice::slice_subrange(stored, at, body);
        match read_header(compression, header, (stored.len() - body) as u64, written, size) {
            Err(e) => {
                return Err(e);
            },
            Ok((decoded, compressed)) => {
                let end: usize = body + compressed as usize;
                let data: &[u8] = vstd::slice::slice_subrange(stored, body, end);
                match decode_block(compression, data, decoded) {
                    Err(e) => {
                        return Err(e);
                    },
                    Ok(block) => {
                        crate::bytes::append(out, block.as_slice());
                        proof {
                            assert(start + done + block@ =~= start + (done + block@));
                            done = done + block@;
                        }
                        let ghost front = written as int;
                        written = written + decoded as u64;
                        if decoded > 0 {
                            marks.push(written);
                        }
                        assert(marks@ + block_marks(
                            compression,
                            stored@,
                            end as int,
                            written as int,
                            size as int,
                        ) =~= reached + block_marks(
                            compression,
                            stored@,
                            at as int,
                            front,
                            size as int,
                        ));
                        at = end;
                    },
                }
            },
        }
    }
    assert(marks@ + Seq::<u64>::empty() =~= marks@);
    match check_written(written, size) {
        Err(e) => Err(e),
        Ok(_) => Ok(written),
    }
}

} // verus!
