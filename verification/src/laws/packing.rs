//! How new archives are made: what is encoded, in which blocks, and behind which wrapper.

use super::layout::{four, stands};
use crate::dflt::{block_flags, block_of, chunk_len, deflated, encoded_from, extensions, framed};
use crate::entry::{format_of, format_version, occurs, Compression, Format};
use crate::lz2k::encoder;
use crate::pack::{app_id, lemma_app_id_len, new_prefix, stored_data, stored_item};
use crate::pending::PendingView;
use crate::text::{extension, has_extension, lemma_extension_none, lemma_extension_some, same_name};
use crate::writer::{body, end_of, offset_of, zeros};
use vstd::prelude::*;
use vstd::utf8::encode_utf8;

verus! {

/// Neither a dot nor a backslash is among the bytes.
pub open spec fn undotted(e: Seq<u8>) -> bool {
    forall|i: int| 0 <= i < e.len() ==> (#[trigger] e[i]) != 0x2e && e[i] != 0x5c
}

/// What stands behind the last dot of the last component is the extension of a path. Without such
/// a dot there is none.
pub proof fn lemma_extension(front: Seq<u8>, e: Seq<u8>, known: Seq<Seq<char>>)
    requires
        undotted(e),
    ensures
        extension(front + seq![0x2eu8] + e) == Some(e),
        extension(front + seq![0x5cu8] + e) is None,
        extension(e) is None,
        has_extension(front + seq![0x2eu8] + e, known) <==> exists|i: int|
            0 <= i < known.len() && same_name(e, encode_utf8(#[trigger] known[i])),
        !has_extension(front + seq![0x5cu8] + e, known),
        !has_extension(e, known),
{
    let n = front.len() + 1 as int;
    let dotted = front + seq![0x2eu8] + e;
    let below = front + seq![0x5cu8] + e;
    assert forall|i: int| n <= i < dotted.len() implies dotted[i] != 0x2e && dotted[i] != 0x5c by {
        assert(e[i - n] != 0x2e && e[i - n] != 0x5c);
    }
    lemma_extension_some(dotted, n as int);
    assert(dotted.subrange(n as int, dotted.len() as int) =~= e);
    assert forall|i: int| n <= i < below.len() implies below[i] != 0x2e && below[i] != 0x5c by {
        assert(e[i - n] != 0x2e && e[i - n] != 0x5c);
    }
    lemma_extension_none(below, n as int);
    lemma_extension_none(e, 0);
}

/// The types of files that Android archives hold compressed, and those that PC archives do.
pub proof fn lemma_compressed_types(front: Seq<u8>, e: Seq<u8>)
    requires
        undotted(e),
    ensures
        has_extension(front + seq![0x2eu8] + e, extensions()) <==> {
            ||| same_name(e, encode_utf8("android_etc1_tex"@))
            ||| same_name(e, encode_utf8("bsa"@))
            ||| same_name(e, encode_utf8("cu2"@))
            ||| same_name(e, encode_utf8("etc1"@))
            ||| same_name(e, encode_utf8("fpk"@))
            ||| same_name(e, encode_utf8("ghg"@))
            ||| same_name(e, encode_utf8("gsc"@))
            ||| same_name(e, encode_utf8("ios_pcode"@))
            ||| same_name(e, encode_utf8("ios_vcode"@))
            ||| same_name(e, encode_utf8("pak"@))
            ||| same_name(e, encode_utf8("pvrnc"@))
            ||| same_name(e, encode_utf8("ter"@))
            ||| same_name(e, encode_utf8("tex"@))
        },
        has_extension(front + seq![0x2eu8] + e, encoder::extensions()) <==> {
            ||| same_name(e, encode_utf8("an3"@))
            ||| same_name(e, encode_utf8("bsa"@))
            ||| same_name(e, encode_utf8("dds"@))
            ||| same_name(e, encode_utf8("fpk"@))
            ||| same_name(e, encode_utf8("ghg"@))
            ||| same_name(e, encode_utf8("gsc"@))
            ||| same_name(e, encode_utf8("pak"@))
            ||| same_name(e, encode_utf8("ter"@))
        },
{
    lemma_extension(front, e, extensions());
    lemma_extension(front, e, encoder::extensions());
    let a = extensions();
    let b = encoder::extensions();
    assert(a.len() == 13 && b.len() == 8);
    assert(a[0] == "android_etc1_tex"@ && a[1] == "bsa"@ && a[2] == "cu2"@ && a[3] == "etc1"@
        && a[4] == "fpk"@ && a[5] == "ghg"@ && a[6] == "gsc"@ && a[7] == "ios_pcode"@ && a[8]
        == "ios_vcode"@ && a[9] == "pak"@ && a[10] == "pvrnc"@ && a[11] == "ter"@ && a[12]
        == "tex"@);
    assert(b[0] == "an3"@ && b[1] == "bsa"@ && b[2] == "dds"@ && b[3] == "fpk"@ && b[4] == "ghg"@
        && b[5] == "gsc"@ && b[6] == "pak"@ && b[7] == "ter"@);
}

/// A file is stored encoded where the archive is not one of the PC, the file is not empty and of a
/// type that is held compressed, and its blocks together are shorter than it. Otherwise it is
/// stored as it is.
pub proof fn lemma_stored(item: PendingView, data: Seq<u8>, format: Format)
    requires
        item.size == data.len(),
        item.stored_size == data.len(),
        item.compression == Compression::Plain,
    ensures
        ({
            let stored = stored_item(item, data, format);
            let encode = format != Format::Pc && data.len() != 0 && has_extension(
                item.path,
                extensions(),
            ) && encoded_from(data, 0).len() < data.len();
            &&& stored.path == item.path
            &&& stored.source == item.source
            &&& stored.size == data.len()
            &&& stored.stored_size == stored_data(item, data, format).len()
            &&& stored.compression == if encode {
                Compression::Deflate
            } else {
                Compression::Plain
            }
            &&& stored_data(item, data, format) == if encode {
                encoded_from(data, 0)
            } else {
                data
            }
        }),
{
}

/// The compressor is asked for level six, a raw stream and fixed blocks. Its stream stands for a
/// chunk where it has ended, has taken the whole chunk, is one final fixed block, and is shorter
/// than the chunk. Otherwise the chunk stands for itself.
pub proof fn lemma_block_chosen(chunk: Seq<u8>)
    ensures
        ({
            let (status, taken, made) = deflated(0x4_0080, chunk);
            block_of(chunk) == if status == 1 && taken == chunk.len() && made.len() > 0 && made[0]
                & 7 == 3 && made.len() < chunk.len() {
                made
            } else {
                chunk
            }
        }),
        block_of(chunk).len() <= chunk.len(),
{
    assert(128u32 | 0 | 0 | 0x4_0000 == 0x4_0080) by (bit_vector);
    assert(block_flags() == 0x4_0080u32);
}

/// A file is encoded in chunks of 16384 bytes, the last one shorter. Each is a block: the letters
/// `DFLT`, the length of what is stored, the length of the chunk, and what is stored.
pub proof fn lemma_encoded(data: Seq<u8>, from: int)
    requires
        0 <= from <= data.len(),
    ensures
        from == data.len() ==> encoded_from(data, from).len() == 0,
        from < data.len() ==> {
            let size = if data.len() - from < 0x4000 {
                data.len() - from
            } else {
                0x4000
            };
            let block = block_of(data.subrange(from, from + size));
            encoded_from(data, from) == seq![0x44u8, 0x46, 0x4c, 0x54] + four(block.len() as int)
                + four(size) + block + encoded_from(data, from + size)
        },
{
    if from < data.len() {
        let size = chunk_len(data, from);
        let block = block_of(data.subrange(from, from + size));
        assert(framed(block, size) =~= seq![0x44u8, 0x46, 0x4c, 0x54] + four(block.len() as int)
            + four(size) + block);
    }
}

/// The wrapper of a new archive: 1024 bytes for the PC and 512 for Android, all zero but for the
/// texts that tell the format, from the ninth byte on.
pub proof fn lemma_wrapper(format: Format)
    ensures
        ({
            let prefix = new_prefix(format);
            let id = encode_utf8("BEGIN_APP_ID_STRING"@) + encode_utf8(
                match format {
                    Format::Pc => "MkDat v4.0"@,
                    Format::Android => "PakDat (TechRound) v1.1"@,
                    Format::Obb => "PakDat v1.01"@,
                },
            ) + encode_utf8("END_APP_ID_STRING"@) + seq![0u8];
            &&& prefix.len() == if format == Format::Pc {
                1024int
            } else {
                512
            }
            &&& stands(prefix, 8, id)
            &&& forall|k: int|
                0 <= k < prefix.len() && (k < 8 || k >= 8 + id.len()) ==> #[trigger] prefix[k] == 0
            &&& format_version(format) == if format == Format::Pc {
                -3int
            } else {
                -5
            }
        }),
{
    lemma_app_id_len(format);
    let prefix = new_prefix(format);
    let id = app_id(format);
    assert(prefix.subrange(8, 8 + id.len() as int) =~= id);
}

/// The format of an archive is told by the text that its wrapper holds, wherever it stands: that of
/// the PC first, then that of Android, then that of an expansion file.
pub proof fn lemma_format(prefix: Seq<u8>, at: int)
    ensures
        stands(prefix, at, encode_utf8("MkDat v4.0"@)) ==> format_of(prefix) == Some(Format::Pc),
        stands(prefix, at, encode_utf8("PakDat (TechRound) v1.1"@)) ==> format_of(prefix) == Some(
            Format::Pc,
        ) || format_of(prefix) == Some(Format::Android),
        stands(prefix, at, encode_utf8("PakDat v1.01"@)) ==> format_of(prefix) is Some,
        format_of(prefix) == Some(Format::Pc) ==> exists|k: int| #[trigger]
            stands(prefix, k, encode_utf8("MkDat v4.0"@)),
        format_of(prefix) == Some(Format::Android) ==> exists|k: int| #[trigger]
            stands(prefix, k, encode_utf8("PakDat (TechRound) v1.1"@)),
        format_of(prefix) == Some(Format::Obb) ==> exists|k: int| #[trigger]
            stands(prefix, k, encode_utf8("PakDat v1.01"@)),
{
    lemma_occurs(prefix, encode_utf8("MkDat v4.0"@), at);
    lemma_occurs(prefix, encode_utf8("PakDat (TechRound) v1.1"@), at);
    lemma_occurs(prefix, encode_utf8("PakDat v1.01"@), at);
}

proof fn lemma_occurs(s: Seq<u8>, part: Seq<u8>, at: int)
    ensures
        stands(s, at, part) ==> occurs(s, part),
        occurs(s, part) ==> exists|k: int| #[trigger] stands(s, k, part),
{
    if stands(s, at, part) {
        assert(crate::bytes::holds_at(s, at, part));
    }
    if occurs(s, part) {
        let k = choose|k: int| #[trigger] crate::bytes::holds_at(s, k, part);
        assert(stands(s, k, part));
    }
}

/// The bytes between one payload and the next, and between the wrapper and the first, are zero.
pub proof fn lemma_gaps(
    prefix: Seq<u8>,
    items: Seq<PendingView>,
    original: Seq<u8>,
    files: Seq<Seq<u8>>,
    n: int,
    i: int,
    k: int,
)
    requires
        0 <= i < n <= items.len(),
        0 <= k,
        crate::writer::all_at_hand(items, original, files),
        end_of(items, prefix.len() as int, i) <= k < offset_of(items, prefix.len() as int, i),
    ensures
        k < body(prefix, items, original, files, n).len(),
        body(prefix, items, original, files, n)[k] == 0,
    decreases n,
{
    let before = body(prefix, items, original, files, n - 1);
    let gap = zeros(offset_of(items, prefix.len() as int, n - 1) - before.len());
    let payload = crate::writer::payload_of(items[n - 1], original, files);
    let all = body(prefix, items, original, files, n);
    crate::writer::lemma_body_len(prefix, items, original, files, n - 1);
    assert(all == before + gap + payload);
    if i < n - 1 {
        lemma_gaps(prefix, items, original, files, n - 1, i, k);
        assert(all[k] == before[k]);
    } else {
        assert(before.len() <= k < before.len() + gap.len());
        assert(all[k] == gap[k - before.len()]);
    }
}

} // verus!
