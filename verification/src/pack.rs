//! Packing files into a new archive.

use crate::bytes::{append, lemma_u32_read_back, le32};
use crate::dflt;
use crate::entry::{format_marker, format_prefix_len, format_version, Compression, Format};
use crate::error::{fails, input, ErrorView, Result};
use crate::payload::{block_bytes, blocks_from, header_lengths, magic, payload_bytes, HEADER_SIZE};
use crate::pending::{pending_views, Pending, PendingView, Source};
use crate::text::{
    eq_ignore_case, has_extension, normalize, normalized, path_hash, same_name, views,
};
use crate::writer::{all_at_hand, at_hand, write_archive, written, zeros};
use vstd::prelude::*;
use vstd::utf8::{decode_utf8, encode_utf8};

verus! {

/// A file to be packed, or one that was unpacked.
pub struct SourceFile {
    pub path: String,
    pub data: Vec<u8>,
}

/// A file to be packed, or one that was unpacked, with its path as bytes.
pub ghost struct FileView {
    pub path: Seq<u8>,
    pub data: Seq<u8>,
}

impl View for SourceFile {
    type V = FileView;

    open spec fn view(&self) -> FileView {
        FileView { path: encode_utf8(self.path@), data: self.data@ }
    }
}

/// The files of a list.
pub open spec fn file_views(v: Seq<SourceFile>) -> Seq<FileView> {
    Seq::new(v.len(), |i: int| v[i]@)
}

/// A file of the given size to be stored as it is.
pub open spec fn plain_item(path: Seq<u8>, size: int, number: int) -> PendingView {
    PendingView {
        path,
        source: Source::Disk(number as usize),
        size,
        stored_size: size,
        compression: Compression::Plain,
    }
}

/// The file to be packed under a path below the input directory, the one with this number.
pub open spec fn collected_item(path: Seq<u8>, size: int, number: int) -> core::result::Result<
    PendingView,
    ErrorView,
> {
    match normalized(path) {
        Err(e) => Err(e),
        Ok(found) => if size > i32::MAX {
            Err(ErrorView::InvalidInput("file exceeds DAT entry size limit"@))
        } else {
            Ok(plain_item(found, size, number))
        },
    }
}

/// The first `n` files to be packed.
pub open spec fn collected(files: Seq<FileView>, n: int) -> core::result::Result<
    Seq<PendingView>,
    ErrorView,
>
    decreases n,
{
    if n <= 0 {
        Ok(Seq::empty())
    } else {
        match collected(files, n - 1) {
            Err(e) => Err(e),
            Ok(items) => match collected_item(
                files[n - 1].path,
                files[n - 1].data.len() as int,
                n - 1,
            ) {
                Err(e) => Err(e),
                Ok(item) => Ok(items.push(item)),
            },
        }
    }
}

/// The error for the first file from the `i`th on that has the path of an earlier one.
pub open spec fn repeated(items: Seq<PendingView>, i: int) -> Option<ErrorView>
    decreases items.len() - i,
{
    if i >= items.len() {
        None
    } else if exists|j: int| 0 <= j < i && same_name(#[trigger] items[j].path, items[i].path) {
        Some(
            ErrorView::InvalidInput(
                "duplicate case-insensitive input path: "@ + decode_utf8(items[i].path),
            ),
        )
    } else {
        repeated(items, i + 1)
    }
}

/// The file is one that may be stored encoded.
pub open spec fn may_encode(path: Seq<u8>, size: int, format: Format) -> bool {
    format != Format::Pc && size != 0 && has_extension(path, dflt::extensions())
}

/// The file is stored encoded: it may be, and that makes it smaller.
pub open spec fn is_encoded(item: PendingView, data: Seq<u8>, format: Format) -> bool {
    may_encode(item.path, item.size, format) && dflt::encoded_from(data, 0).len() < data.len()
}

/// The file as it is stored.
pub open spec fn stored_item(item: PendingView, data: Seq<u8>, format: Format) -> PendingView {
    if is_encoded(item, data, format) {
        PendingView {
            stored_size: dflt::encoded_from(data, 0).len() as int,
            compression: Compression::Deflate,
            ..item
        }
    } else {
        item
    }
}

/// The bytes that are stored for the file.
pub open spec fn stored_data(item: PendingView, data: Seq<u8>, format: Format) -> Seq<u8> {
    if is_encoded(item, data, format) {
        dflt::encoded_from(data, 0)
    } else {
        data
    }
}

/// The files as they are stored.
pub open spec fn stored_items(
    items: Seq<PendingView>,
    files: Seq<FileView>,
    format: Format,
) -> Seq<PendingView> {
    Seq::new(items.len(), |i: int| stored_item(items[i], files[i].data, format))
}

/// The bytes that are stored for the files.
pub open spec fn stored_datas(
    items: Seq<PendingView>,
    files: Seq<FileView>,
    format: Format,
) -> Seq<Seq<u8>> {
    Seq::new(items.len(), |i: int| stored_data(items[i], files[i].data, format))
}

/// The bytes by which a wrapper of a new archive is told.
pub open spec fn app_id(format: Format) -> Seq<u8> {
    encode_utf8("BEGIN_APP_ID_STRING"@) + format_marker(format) + encode_utf8(
        "END_APP_ID_STRING"@,
    ) + seq![0u8]
}

/// The wrapper of a new archive.
pub open spec fn new_prefix(format: Format) -> Seq<u8> {
    zeros(8) + app_id(format) + zeros(format_prefix_len(format) - 8 - app_id(format).len())
}

/// The archive that files make.
pub open spec fn packed(files: Seq<FileView>, format: Format) -> core::result::Result<
    Seq<u8>,
    ErrorView,
> {
    match collected(files, files.len() as int) {
        Err(e) => Err(e),
        Ok(items) => if repeated(items, 0) is Some {
            Err(repeated(items, 0)->0)
        } else {
            written(
                format_version(format),
                new_prefix(format),
                stored_items(items, files, format),
                Seq::empty(),
                stored_datas(items, files, format),
            )
        },
    }
}

/// Every block of the chunks from a position on stands for its chunk.
pub open spec fn chunks_readable(data: Seq<u8>, from: int) -> bool
    decreases data.len() - from,
{
    if from < 0 || from >= data.len() {
        true
    } else {
        let n = dflt::chunk_len(data, from);
        let chunk = data.subrange(from, from + n);
        dflt::readable(dflt::block_of(chunk), chunk) && dflt::block_of(chunk).len()
            <= chunk.len() && chunks_readable(data, from + n)
    }
}

/// Reading back the encoded chunks gives the file.
proof fn lemma_chunks_read_back(data: Seq<u8>, from: int, stored: Seq<u8>, at: int)
    requires
        0 <= from <= data.len() <= i32::MAX,
        0 <= at <= stored.len(),
        stored.subrange(at, stored.len() as int) == dflt::encoded_from(data, from),
        chunks_readable(data, from),
    ensures
        blocks_from(Compression::Deflate, stored, at, data.take(from), data.len() as int) == (
            data,
            None::<ErrorView>,
        ),
    decreases data.len() - from,
{
    let rest = stored.subrange(at, stored.len() as int);
    if from == data.len() {
        assert(rest.len() == 0);
        assert(data.take(from) =~= data);
    } else {
        let n = dflt::chunk_len(data, from);
        let chunk = data.subrange(from, from + n);
        let block = dflt::block_of(chunk);
        let frame = dflt::framed(block, n);
        let more = dflt::encoded_from(data, from + n);
        assert(rest == frame + more);
        let body = at + HEADER_SIZE;
        let header = stored.subrange(at, body);
        assert(header =~= frame.take(12)) by {
            assert forall|i: int| 0 <= i < 12 implies header[i] == frame[i] by {
                assert(header[i] == rest[i]);
            }
        }
        assert(header.subrange(0, 4) =~= magic(Compression::Deflate));
        assert(header.subrange(4, 8) =~= le32(block.len() as int));
        assert(header.subrange(8, 12) =~= le32(n));
        lemma_u32_read_back(header, 4, block.len() as int);
        lemma_u32_read_back(header, 8, n);
        assert(stored.subrange(body, body + block.len()) =~= block) by {
            assert forall|i: int| 0 <= i < block.len() implies stored[body + i] == block[i] by {
                assert(rest[12 + i] == frame[12 + i]);
            }
        }
        assert(header_lengths(
            Compression::Deflate,
            header,
            stored.len() - body,
            from,
            data.len() as int,
        ) == Ok::<(int, int), ErrorView>((n, block.len() as int)));
        assert(block_bytes(Compression::Deflate, block, n) == Ok::<Seq<u8>, ErrorView>(chunk));
        assert(data.take(from) + chunk =~= data.take(from + n));
        assert(stored.subrange(body + block.len(), stored.len() as int) =~= more) by {
            assert(rest.skip(frame.len() as int) =~= more);
            assert(stored.subrange(body + block.len(), stored.len() as int) =~= rest.skip(
                frame.len() as int,
            ));
        }
        lemma_chunks_read_back(data, from + n, stored, body + block.len());
    }
}

/// A payload that decodes to a file.
pub open spec fn decodes_to(item: PendingView, payload: Seq<u8>, data: Seq<u8>) -> bool {
    payload_bytes(item.compression, payload, item.size) == (data, None::<ErrorView>)
}

/// The file that waits to be packed under a path, the one with this number.
pub fn collect_file(path: &str, size: u64, number: usize) -> (res: Result<Pending>)
    ensures
        match collected_item(encode_utf8(path@), size as int, number as int) {
            Ok(item) => res matches Ok(found) && found@ == item,
            Err(e) => fails(res, e),
        },
{
    match normalize(path) {
        Err(e) => Err(e),
        Ok(found) => {
            if size > i32::MAX as u64 {
                return Err(input("file exceeds DAT entry size limit"));
            }
            Ok(
                Pending {
                    path: found,
                    source: Source::Disk(number),
                    size: size as u32,
                    stored_size: size as u32,
                    compression: Compression::Plain,
                },
            )
        },
    }
}

proof fn lemma_collected_error(files: Seq<FileView>, n: int, m: int)
    requires
        collected(files, n) is Err,
        n <= m,
    ensures
        collected(files, m) == collected(files, n),
    decreases m - n,
{
    if n < m {
        lemma_collected_error(files, n, m - 1);
    }
}

/// What holds of the files that were collected.
pub proof fn lemma_collected(files: Seq<FileView>, n: int)
    requires
        0 <= n <= files.len(),
    ensures
        collected(files, n) matches Ok(items) ==> items.len() == n && forall|i: int|
            0 <= i < n ==> normalized(files[i].path) is Ok && (#[trigger] items[i]) == plain_item(
                normalized(files[i].path)->Ok_0,
                files[i].data.len() as int,
                i,
            ) && files[i].data.len() <= i32::MAX,
    decreases n,
{
    if n > 0 {
        lemma_collected(files, n - 1);
    }
}

/// The files that wait to be packed.
pub fn collect_files(files: &Vec<SourceFile>) -> (res: Result<Vec<Pending>>)
    ensures
        match collected(file_views(files@), files@.len() as int) {
            Ok(items) => res matches Ok(found) && pending_views(found@) == items,
            Err(e) => fails(res, e),
        },
{
    let ghost all = file_views(files@);
    let mut items: Vec<Pending> = Vec::with_capacity(files.len());
    assert(pending_views(items@) =~= Seq::<PendingView>::empty());
    while items.len() < files.len()
        invariant
            items@.len() <= files@.len(),
            all == file_views(files@),
            collected(all, items@.len() as int) == Ok::<Seq<PendingView>, ErrorView>(
                pending_views(items@),
            ),
        decreases files@.len() - items@.len(),
    {
        let n: usize = items.len();
        let ghost before = pending_views(items@);
        assert(all[n as int] == files@[n as int]@);
        match collect_file(files[n].path.as_str(), files[n].data.len() as u64, n) {
            Err(e) => {
                proof {
                    lemma_collected_error(all, n + 1, files@.len() as int);
                }
                return Err(e);
            },
            Ok(item) => {
                items.push(item);
                assert(pending_views(items@) =~= before.push(item@));
            },
        }
    }
    Ok(items)
}

/// Checks that no two paths differ only in case.
pub fn check_unique(items: &Vec<Pending>) -> (res: Result<()>)
    ensures
        match repeated(pending_views(items@), 0) {
            None => res is Ok,
            Some(e) => fails(res, e),
        },
{
    let ghost all = pending_views(items@);
    let hashes: Vec<u32> = crate::order::hashes_of(items);
    let mut i: usize = 0;
    while i < items.len()
        invariant
            i <= items@.len(),
            all == pending_views(items@),
            hashes@.len() == items@.len(),
            forall|k: int|
                0 <= k < hashes@.len() ==> #[trigger] hashes@[k] == path_hash(items@[k]@.path),
            repeated(all, 0) == repeated(all, i as int),
        decreases items@.len() - i,
    {
        let ghost path = all[i as int].path;
        let mut j: usize = 0;
        while j < i
            invariant
                j <= i < items@.len(),
                all == pending_views(items@),
                path == all[i as int].path,
                hashes@.len() == items@.len(),
                forall|k: int|
                    0 <= k < hashes@.len() ==> #[trigger] hashes@[k] == path_hash(
                        items@[k]@.path,
                    ),
                repeated(all, 0) == repeated(all, i as int),
                forall|k: int| 0 <= k < j ==> !same_name(#[trigger] all[k].path, path),
            decreases i - j,
        {
            proof {
                if hashes@[j as int] != hashes@[i as int] && same_name(all[j as int].path, path) {
                    crate::text::lemma_same_name_hash(all[j as int].path, path);
                }
            }
            if hashes[j] == hashes[i] && eq_ignore_case(
                items[j].path.as_str().as_bytes(),
                items[i].path.as_str().as_bytes(),
            ) {
                proof {
                    broadcast use vstd::utf8::encode_utf8_decode_utf8;

                    assert(same_name(all[j as int].path, path));
                    assert(decode_utf8(path) == items@[i as int].path@);
                }
                let text: String = "duplicate case-insensitive input path: ".to_owned().concat(
                    items[i].path.as_str(),
                );
                return Err(input(text.as_str()));
            }
            j = j + 1;
        }
        i = i + 1;
    }
    Ok(())
}

/// Whether a file may be stored encoded.
pub fn is_encodable(path: &str, size: u32, format: Format) -> (res: bool)
    ensures
        res == may_encode(encode_utf8(path@), size as int, format),
{
    format != Format::Pc && size != 0 && dflt::should_compress(path)
}

/// The encoded chunks of a file.
pub fn encode_file(data: &[u8]) -> (res: Vec<u8>)
    ensures
        res@ == dflt::encoded_from(data@, 0),
        chunks_readable(data@, 0),
{
    let mut out: Vec<u8> = Vec::new();
    let ghost all = dflt::encoded_from(data@, 0);
    let ghost whole = chunks_readable(data@, 0);
    let mut from: usize = 0;
    assert(out@ + all =~= all);
    while from < data.len()
        invariant
            from <= data@.len(),
            all == dflt::encoded_from(data@, 0),
            whole == chunks_readable(data@, 0),
            whole == chunks_readable(data@, from as int),
            out@ + dflt::encoded_from(data@, from as int) == all,
        decreases data@.len() - from,
    {
        let n: usize = if data.len() - from < dflt::BLOCK_SIZE {
            data.len() - from
        } else {
            dflt::BLOCK_SIZE
        };
        let ghost before = out@;
        let chunk: &[u8] = vstd::slice::slice_subrange(data, from, from + n);
        dflt::encode_chunk(&mut out, chunk);
        assert(before + (dflt::framed(dflt::block_of(chunk@), n as int) + dflt::encoded_from(
            data@,
            from + n,
        )) =~= out@ + dflt::encoded_from(data@, from + n));
        from = from + n;
    }
    assert(out@ =~= all);
    out
}

/// The wrapper of a new archive.
pub fn make_prefix(format: Format) -> (res: Vec<u8>)
    ensures
        res@ == new_prefix(format),
        res@.len() == format_prefix_len(format),
{
    let size: usize = format.prefix_len();
    let mut res: Vec<u8> = Vec::with_capacity(size);
    res.push(0);
    res.push(0);
    res.push(0);
    res.push(0);
    res.push(0);
    res.push(0);
    res.push(0);
    res.push(0);
    assert(res@ =~= zeros(8));
    append(&mut res, "BEGIN_APP_ID_STRING".as_bytes());
    append(&mut res, format.marker());
    append(&mut res, "END_APP_ID_STRING".as_bytes());
    res.push(0);
    assert(res@ =~= zeros(8) + app_id(format));
    proof {
        lemma_app_id_len(format);
    }
    crate::writer::pad_to(&mut res, size as u64);
    res
}

/// The marker fits the wrapper.
pub proof fn lemma_app_id_len(format: Format)
    ensures
        app_id(format).len() <= 60,
{
    reveal_strlit("BEGIN_APP_ID_STRING");
    reveal_strlit("END_APP_ID_STRING");
    reveal_strlit("MkDat v4.0");
    reveal_strlit("PakDat (TechRound) v1.1");
    reveal_strlit("PakDat v1.01");
    vstd::utf8::is_ascii_chars_encode_utf8("BEGIN_APP_ID_STRING"@);
    vstd::utf8::is_ascii_chars_encode_utf8("END_APP_ID_STRING"@);
    vstd::utf8::is_ascii_chars_encode_utf8(crate::entry::marker_text(format));
}

/// Every stored payload decodes to its file.
pub open spec fn all_decode(files: Seq<FileView>, format: Format) -> bool {
    let items = collected(files, files.len() as int)->Ok_0;
    forall|i: int|
        0 <= i < files.len() ==> #[trigger] decodes_to(
            stored_item(items[i], files[i].data, format),
            stored_data(items[i], files[i].data, format),
            files[i].data,
        )
}

/// Collects and checks files, and encodes those that get smaller by it.
pub fn prepare(files: &Vec<SourceFile>, format: Format) -> (res: Result<
    (Vec<Pending>, Vec<Vec<u8>>),
>)
    ensures
        ({
            let all = file_views(files@);
            match collected(all, all.len() as int) {
                Err(e) => fails(res, e),
                Ok(plain) => match repeated(plain, 0) {
                    Some(e) => fails(res, e),
                    None => {
                        &&& res matches Ok(found)
                        &&& pending_views(found.0@) == stored_items(plain, all, format)
                        &&& views(found.1@) == stored_datas(plain, all, format)
                        &&& all_at_hand(
                            pending_views(found.0@),
                            Seq::empty(),
                            views(found.1@),
                        )
                        &&& all_decode(all, format)
                    },
                },
            }
        }),
{
    let ghost all = file_views(files@);
    let mut items: Vec<Pending> = match collect_files(files) {
        Err(e) => {
            return Err(e);
        },
        Ok(items) => items,
    };
    match check_unique(&items) {
        Err(e) => {
            return Err(e);
        },
        Ok(_) => {},
    }
    let ghost plain = pending_views(items@);
    proof {
        lemma_collected(all, files@.len() as int);
        assert(plain.len() == items@.len());
    }
    let mut datas: Vec<Vec<u8>> = Vec::with_capacity(files.len());
    while datas.len() < files.len()
        invariant
            datas@.len() <= files@.len(),
            items@.len() == files@.len(),
            plain.len() == files@.len(),
            all == file_views(files@),
            forall|i: int|
                0 <= i < plain.len() ==> normalized(all[i].path) is Ok && (#[trigger] plain[i])
                    == plain_item(
                    normalized(all[i].path)->Ok_0,
                    all[i].data.len() as int,
                    i,
                ) && all[i].data.len() <= i32::MAX,
            forall|i: int| datas@.len() <= i < items@.len() ==> (#[trigger] items@[i])@ == plain[i],
            forall|i: int|
                0 <= i < datas@.len() ==> (#[trigger] items@[i])@ == stored_item(
                    plain[i],
                    all[i].data,
                    format,
                ),
            forall|i: int|
                0 <= i < datas@.len() ==> (#[trigger] datas@[i])@ == stored_data(
                    plain[i],
                    all[i].data,
                    format,
                ),
            forall|i: int|
                0 <= i < datas@.len() ==> #[trigger] decodes_to(
                    stored_item(plain[i], all[i].data, format),
                    stored_data(plain[i], all[i].data, format),
                    all[i].data,
                ),
        decreases files@.len() - datas@.len(),
    {
        let n: usize = datas.len();
        assert(items@[n as int]@ == plain[n as int]);
        assert(plain[n as int] == plain_item(
            normalized(all[n as int].path)->Ok_0,
            all[n as int].data.len() as int,
            n as int,
        ));
        assert(all[n as int] == files@[n as int]@);
        let (encoded, data) = store_file(&items[n], files[n].data.as_slice(), format);
        items.set(n, encoded);
        datas.push(data);
    }
    proof {
        let datas_view = views(datas@);
        assert(pending_views(items@) =~= stored_items(plain, all, format));
        assert(datas_view =~= stored_datas(plain, all, format));
        assert forall|i: int| 0 <= i < items@.len() implies #[trigger] at_hand(
            pending_views(items@)[i],
            Seq::<u8>::empty(),
            datas_view,
        ) by {
            assert(items@[i]@ == stored_item(plain[i], all[i].data, format));
            assert(plain[i] == plain_item(
                normalized(all[i].path)->Ok_0,
                all[i].data.len() as int,
                i,
            ));
            assert(datas@[i]@ == stored_data(plain[i], all[i].data, format));
        }
    }
    Ok((items, datas))
}

/// Writes prepared files as a new archive.
pub fn finish(items: &Vec<Pending>, datas: &Vec<Vec<u8>>, format: Format) -> (res: Result<Vec<u8>>)
    requires
        all_at_hand(pending_views(items@), Seq::empty(), views(datas@)),
    ensures
        match written(
            format_version(format),
            new_prefix(format),
            pending_views(items@),
            Seq::empty(),
            views(datas@),
        ) {
            Ok(image) => res matches Ok(found) && found@ == image,
            Err(e) => fails(res, e),
        },
{
    let prefix: Vec<u8> = make_prefix(format);
    let nothing: Vec<u8> = Vec::new();
    assert(nothing@ =~= Seq::<u8>::empty());
    write_archive(format.version(), prefix.as_slice(), items, nothing.as_slice(), datas)
}

/// Packs files. Android DAT and OBB entries use game-compatible fixed-Huffman DFLT blocks when
/// that reduces their stored size. Every stored payload decodes to its file.
pub fn pack(files: &Vec<SourceFile>, format: Format) -> (res: Result<Vec<u8>>)
    ensures
        match packed(file_views(files@), format) {
            Ok(image) => res matches Ok(found) && found@ == image && all_decode(
                file_views(files@),
                format,
            ),
            Err(e) => fails(res, e),
        },
{
    match prepare(files, format) {
        Err(e) => Err(e),
        Ok((items, datas)) => finish(&items, &datas, format),
    }
}

/// Has a file stored encoded, in so many bytes, if that makes it smaller.
pub fn adopt_encoded(item: &mut Pending, encoded: u64) -> (res: bool)
    ensures
        res == (encoded < old(item).size),
        final(item)@ == (if res {
            PendingView {
                stored_size: encoded as int,
                compression: Compression::Deflate,
                ..old(item)@
            }
        } else {
            old(item)@
        }),
{
    if encoded < item.size as u64 {
        item.stored_size = encoded as u32;
        item.compression = Compression::Deflate;
        true
    } else {
        false
    }
}

/// A file as it is stored, and the bytes that are stored for it.
fn store_file(item: &Pending, data: &[u8], format: Format) -> (res: (Pending, Vec<u8>))
    requires
        item@.compression == Compression::Plain,
        item@.size == data@.len(),
        item@.stored_size == data@.len(),
        data@.len() <= i32::MAX,
    ensures
        res.0@ == stored_item(item@, data@, format),
        res.1@ == stored_data(item@, data@, format),
        decodes_to(res.0@, res.1@, data@),
{
    let mut stored: Pending = crate::order::copy_of(item);
    if is_encodable(item.path.as_str(), item.size, format) {
        let encoded: Vec<u8> = encode_file(data);
        if adopt_encoded(&mut stored, encoded.len() as u64) {
            proof {
                assert(encoded@.subrange(0, encoded@.len() as int) =~= encoded@);
                assert(data@.take(0) =~= Seq::<u8>::empty());
                lemma_chunks_read_back(data@, 0, encoded@, 0);
            }
            return (stored, encoded);
        }
    }
    (stored, vstd::slice::slice_to_vec(data))
}

} // verus!
