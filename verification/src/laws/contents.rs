//! What is packed is read back.

use super::paths::{clean, lemma_normalized};
use super::reopen::{
    acceptable, acceptable_item, entry_is, holds_files, lemma_reopen, lemma_reopened_fits, tree_fits,
};
use crate::archive::{
    entry_bytes, entry_from, entry_number, lemma_entry_from, first_failure, lemma_opened_sound,
    opened, ArchiveView,
};
use crate::entry::{
    format_marker, format_of, format_version, marker_text, occurs, EntryView, Format,
};
use crate::error::ErrorView;
use crate::index::by_hash;
use crate::order::{lemma_ordered, lemma_ordered_same, ordered};
use crate::pack::{
    all_decode, app_id, collected, decodes_to, lemma_app_id_len, lemma_collected, new_prefix,
    packed, plain_item, stored_data, stored_datas, stored_item, stored_items, FileView,
};
use crate::payload::payload_bytes;
use crate::pending::{paths_of, PendingView};
use crate::text::{
    backslashed, lemma_ascii_map_valid, lemma_same_name_hash, normalized, path_hash, same_name,
};
use crate::unpack::unpack_error;
use crate::writer::{all_at_hand, at_hand, payload_of, written};
use vstd::prelude::*;
use vstd::utf8::{encode_utf8, is_ascii_chars_encode_utf8, valid_utf8};

verus! {

/// A path as a user writes it names the file with this path.
pub open spec fn names_path(query: Seq<char>, path: Seq<u8>) -> bool {
    normalized(encode_utf8(query)) matches Ok(key) && same_name(key, path)
}

/// What decoding a payload gives, or the error that stops it.
pub open spec fn decoded_payload(item: PendingView, payload: Seq<u8>) -> core::result::Result<
    Seq<u8>,
    ErrorView,
> {
    match payload_bytes(item.compression, payload, item.size).1 {
        None => Ok(payload_bytes(item.compression, payload, item.size).0),
        Some(e) => Err(e),
    }
}

/// A file of an archive that was written is found under its path, and what is read is what its
/// payload decodes to.
pub proof fn lemma_file_contents(
    view: ArchiveView,
    version: int,
    prefix: Seq<u8>,
    items: Seq<PendingView>,
    original: Seq<u8>,
    files: Seq<Seq<u8>>,
    j: int,
    query: Seq<char>,
)
    requires
        view.sound(),
        holds_files(view, version, prefix, items, original, files),
        0 <= j < items.len(),
        names_path(query, items[j].path),
    ensures
        entry_number(view.entries, encode_utf8(query)) == Some(j),
        view.contents(query) == decoded_payload(
            items[j],
            payload_of(items[j], original, files),
        ),
{
    let key = normalized(encode_utf8(query))->Ok_0;
    let payload = payload_of(items[j], original, files);
    assert(entry_is(view.image, view.entries[j], items[j], payload));
    lemma_unique_entry(view.entries, j, key);
}

/// An entry is found under its path.
pub proof fn lemma_unique_entry(entries: Seq<EntryView>, j: int, key: Seq<u8>)
    requires
        by_hash(entries),
        0 <= j < entries.len(),
        same_name(entries[j].path, key),
    ensures
        entry_from(entries, key, 0) == Some(j),
{
    lemma_entry_from(entries, key, 0);
    let found = entry_from(entries, key, 0);
    assert(found is Some) by {
        if found is None {
            assert(!same_name(entries[j].path, key));
        }
    }
    let k = found->0;
    lemma_same_name_hash(entries[k].path, key);
    lemma_same_name_hash(entries[j].path, key);
    if k < j {
        assert(path_hash(entries[k].path) < path_hash(entries[j].path));
    } else if j < k {
        assert(path_hash(entries[j].path) < path_hash(entries[k].path));
    }
}

/// A path that none of the written files has is missing.
pub proof fn lemma_file_missing(
    view: ArchiveView,
    version: int,
    prefix: Seq<u8>,
    items: Seq<PendingView>,
    original: Seq<u8>,
    files: Seq<Seq<u8>>,
    query: Seq<char>,
)
    requires
        holds_files(view, version, prefix, items, original, files),
        forall|j: int| 0 <= j < items.len() ==> !names_path(query, (#[trigger] items[j]).path),
    ensures
        view.contents(query) == Err::<Seq<u8>, ErrorView>(ErrorView::MissingEntry(query)),
{
    if let Ok(key) = normalized(encode_utf8(query)) {
        lemma_entry_from(view.entries, key, 0);
        if let Some(k) = entry_from(view.entries, key, 0) {
            assert(entry_is(
                view.image,
                view.entries[k],
                items[k],
                payload_of(items[k], original, files),
            ));
            assert(!names_path(query, items[k].path));
        }
    }
}

/// A file is among those in order.
pub proof fn lemma_in_ordered(items: Seq<PendingView>, i: int) -> (j: int)
    requires
        0 <= i < items.len(),
    ensures
        0 <= j < ordered(items, items.len() as int).len(),
        ordered(items, items.len() as int)[j] == items[i],
{
    let n = items.len() as int;
    let sorted = ordered(items, n);
    lemma_ordered_same(items, n);
    assert(items.take(n) =~= items);
    items.to_multiset_ensures();
    sorted.to_multiset_ensures();
    assert(items.contains(items[i]));
    assert(sorted.to_multiset().count(items[i]) > 0);
    assert(sorted.contains(items[i]));
    let j = choose|j: int| 0 <= j < sorted.len() && sorted[j] == items[i];
    j
}

/// A file in order is one of those given.
pub proof fn lemma_from_ordered(items: Seq<PendingView>, j: int) -> (i: int)
    requires
        0 <= j < ordered(items, items.len() as int).len(),
    ensures
        0 <= i < items.len(),
        ordered(items, items.len() as int)[j] == items[i],
{
    let n = items.len() as int;
    let sorted = ordered(items, n);
    lemma_ordered_same(items, n);
    assert(items.take(n) =~= items);
    items.to_multiset_ensures();
    sorted.to_multiset_ensures();
    assert(sorted.contains(sorted[j]));
    assert(items.to_multiset().count(sorted[j]) > 0);
    assert(items.contains(sorted[j]));
    let i = choose|i: int| 0 <= i < items.len() && items[i] == sorted[j];
    i
}

/// The paths are texts.
pub open spec fn all_paths_texts(files: Seq<FileView>) -> bool {
    forall|i: int| 0 <= i < files.len() ==> valid_utf8(#[trigger] files[i].path)
}

/// A path that was made normal is a text without slashes.
pub proof fn lemma_normalized_clean(path: Seq<u8>)
    requires
        valid_utf8(path),
        normalized(path) is Ok,
    ensures
        clean(normalized(path)->Ok_0),
{
    lemma_normalized(path);
    lemma_ascii_map_valid(path, backslashed(path));
}

/// The files that are packed, as they are stored.
pub open spec fn packed_items(files: Seq<FileView>, format: Format) -> Seq<PendingView> {
    stored_items(collected(files, files.len() as int)->Ok_0, files, format)
}

/// The tree of the packed files can be read.
pub open spec fn packed_tree_fits(files: Seq<FileView>, format: Format) -> bool {
    tree_fits(paths_of(ordered(packed_items(files, format), files.len() as int)))
}

/// What the files that are packed are.
pub proof fn lemma_packed_items(files: Seq<FileView>, format: Format)
    requires
        all_paths_texts(files),
        files.len() <= usize::MAX,
        packed(files, format) is Ok,
    ensures
        ({
            let items = packed_items(files, format);
            let datas = stored_datas(
                collected(files, files.len() as int)->Ok_0,
                files,
                format,
            );
            &&& items.len() == files.len()
            &&& acceptable(items)
            &&& all_at_hand(items, Seq::empty(), datas)
            &&& packed(files, format) == written(
                format_version(format),
                new_prefix(format),
                items,
                Seq::empty(),
                datas,
            )
            &&& forall|i: int|
                0 <= i < files.len() ==> (#[trigger] items[i]).path == normalized(
                    files[i].path,
                )->Ok_0 && normalized(files[i].path) is Ok && payload_of(
                    items[i],
                    Seq::empty(),
                    datas,
                ) == stored_data(
                    collected(files, files.len() as int)->Ok_0[i],
                    files[i].data,
                    format,
                )
        }),
{
    let n = files.len() as int;
    lemma_collected(files, n);
    let plain = collected(files, n)->Ok_0;
    let items = packed_items(files, format);
    let datas = stored_datas(plain, files, format);
    assert forall|i: int| 0 <= i < items.len() implies acceptable_item(#[trigger] items[i])
        && at_hand(items[i], Seq::<u8>::empty(), datas) && items[i].path == normalized(
        files[i].path,
    )->Ok_0 by {
        assert(plain[i] == plain_item(
            normalized(files[i].path)->Ok_0,
            files[i].data.len() as int,
            i,
        ));
        assert(valid_utf8(files[i].path));
        lemma_normalized_clean(files[i].path);
    }
    assert forall|i: int| 0 <= i < items.len() implies #[trigger] at_hand(
        items[i],
        Seq::<u8>::empty(),
        datas,
    ) by {
        assert(acceptable_item(items[i]));
    }
    assert forall|i: int| 0 <= i < files.len() implies (#[trigger] items[i]).path == normalized(
        files[i].path,
    )->Ok_0 && normalized(files[i].path) is Ok && payload_of(items[i], Seq::empty(), datas)
        == stored_data(plain[i], files[i].data, format) by {
        assert(acceptable_item(items[i]));
        assert(plain[i] == plain_item(
            normalized(files[i].path)->Ok_0,
            files[i].data.len() as int,
            i,
        ));
    }
}

/// What is packed can be opened, is of the version and the format it was packed for, and has an
/// entry for every file.
pub proof fn lemma_packed_opens(files: Seq<FileView>, format: Format)
    requires
        all_paths_texts(files),
        files.len() <= usize::MAX,
        packed(files, format) is Ok,
        packed_tree_fits(files, format),
    ensures
        ({
            let image = packed(files, format)->Ok_0;
            &&& opened(image) is Ok
            &&& opened(image)->Ok_0.version == format_version(format)
            &&& opened(image)->Ok_0.entries.len() == files.len()
            &&& format_of(opened(image)->Ok_0.prefix) == Some(format)
        }),
{
    let items = packed_items(files, format);
    let datas = stored_datas(collected(files, files.len() as int)->Ok_0, files, format);
    let prefix = new_prefix(format);
    lemma_packed_items(files, format);
    lemma_app_id_len(format);
    lemma_reopen(format_version(format), prefix, items, Seq::empty(), datas);
    lemma_ordered(items, items.len() as int);
    let view = opened(packed(files, format)->Ok_0)->Ok_0;
    assert(view.prefix.len() == prefix.len());
    lemma_format_told(view.prefix, format);
}

/// What is packed is read back: every file is found under its path, in any case and with slashes
/// or backslashes, and its contents are those that were packed.
pub proof fn lemma_packed_reads_back(
    files: Seq<FileView>,
    format: Format,
    i: int,
    query: Seq<char>,
)
    requires
        all_paths_texts(files),
        files.len() <= usize::MAX,
        packed(files, format) is Ok,
        packed_tree_fits(files, format),
        all_decode(files, format),
        0 <= i < files.len(),
        normalized(files[i].path) matches Ok(path) && names_path(query, path),
    ensures
        opened(packed(files, format)->Ok_0)->Ok_0.contents(query) == Ok::<Seq<u8>, ErrorView>(
            files[i].data,
        ),
{
    let plain = collected(files, files.len() as int)->Ok_0;
    let items = packed_items(files, format);
    let datas = stored_datas(plain, files, format);
    let prefix = new_prefix(format);
    let image = packed(files, format)->Ok_0;
    lemma_packed_items(files, format);
    lemma_app_id_len(format);
    lemma_reopen(format_version(format), prefix, items, Seq::empty(), datas);
    lemma_opened_sound(image);
    let j = lemma_in_ordered(items, i);
    assert(items[i].path == normalized(files[i].path)->Ok_0);
    lemma_file_contents(
        opened(image)->Ok_0,
        format_version(format),
        prefix,
        ordered(items, items.len() as int),
        Seq::empty(),
        datas,
        j,
        query,
    );
    assert(decodes_to(
        stored_item(plain[i], files[i].data, format),
        stored_data(plain[i], files[i].data, format),
        files[i].data,
    ));
}

/// A path that was not packed is missing.
pub proof fn lemma_packed_missing(files: Seq<FileView>, format: Format, query: Seq<char>)
    requires
        all_paths_texts(files),
        files.len() <= usize::MAX,
        packed(files, format) is Ok,
        packed_tree_fits(files, format),
        forall|i: int|
            0 <= i < files.len() ==> !(normalized(#[trigger] files[i].path) matches Ok(path)
                && names_path(query, path)),
    ensures
        opened(packed(files, format)->Ok_0)->Ok_0.contents(query) == Err::<Seq<u8>, ErrorView>(
            ErrorView::MissingEntry(query),
        ),
{
    let items = packed_items(files, format);
    let datas = stored_datas(collected(files, files.len() as int)->Ok_0, files, format);
    let prefix = new_prefix(format);
    let sorted = ordered(items, items.len() as int);
    lemma_packed_items(files, format);
    lemma_app_id_len(format);
    lemma_reopen(format_version(format), prefix, items, Seq::empty(), datas);
    assert forall|j: int| 0 <= j < sorted.len() implies !names_path(
        query,
        (#[trigger] sorted[j]).path,
    ) by {
        let i = lemma_from_ordered(items, j);
        assert(items[i].path == normalized(files[i].path)->Ok_0);
        assert(!(normalized(files[i].path) matches Ok(path) && names_path(query, path)));
    }
    lemma_file_missing(
        opened(packed(files, format)->Ok_0)->Ok_0,
        format_version(format),
        prefix,
        sorted,
        Seq::empty(),
        datas,
        query,
    );
}

/// The format of a new wrapper is told from it, whatever its first eight bytes hold.
pub proof fn lemma_format_told(prefix: Seq<u8>, format: Format)
    requires
        prefix.len() == new_prefix(format).len(),
        prefix.subrange(8, prefix.len() as int) == new_prefix(format).subrange(
            8,
            prefix.len() as int,
        ),
    ensures
        format_of(prefix) == Some(format),
{
    reveal_strlit("BEGIN_APP_ID_STRING");
    reveal_strlit("END_APP_ID_STRING");
    reveal_strlit("MkDat v4.0");
    reveal_strlit("PakDat (TechRound) v1.1");
    reveal_strlit("PakDat v1.01");
    let start = "BEGIN_APP_ID_STRING"@;
    let end = "END_APP_ID_STRING"@;
    is_ascii_chars_encode_utf8(start);
    is_ascii_chars_encode_utf8(end);
    is_ascii_chars_encode_utf8(marker_text(Format::Pc));
    is_ascii_chars_encode_utf8(marker_text(Format::Android));
    is_ascii_chars_encode_utf8(marker_text(Format::Obb));
    lemma_app_id_len(format);
    let whole = new_prefix(format);
    let id = app_id(format);
    assert forall|k: int| 8 <= k < prefix.len() implies prefix[k] == whole[k] by {
        assert(prefix.subrange(8, prefix.len() as int)[k - 8] == whole.subrange(
            8,
            prefix.len() as int,
        )[k - 8]);
    }
    let marker = format_marker(format);
    assert(crate::bytes::holds_at(prefix, 27, marker)) by {
        assert forall|k: int| 0 <= k < marker.len() implies prefix[27 + k] == marker[k] by {
            assert(whole[27 + k] == id[19 + k]);
        }
        assert(prefix.subrange(27, 27int + marker.len()) =~= marker);
    }
    assert(occurs(prefix, marker));
    assert forall|k: int| 8 <= k < prefix.len() implies prefix[k] == (if k < 8 + id.len() {
        id[k - 8]
    } else {
        0u8
    }) by {}
    if format != Format::Pc {
        let other = format_marker(Format::Pc);
        assert forall|at: int| !#[trigger] crate::bytes::holds_at(prefix, at, other) by {
            if crate::bytes::holds_at(prefix, at, other) {
                let part = prefix.subrange(at, at + other.len());
                assert(part[0] == other[0]);
                if at < 8 {
                    assert(part[8 - at] == other[8 - at]);
                    assert(prefix[8] == id[0]);
                } else {
                    lemma_no_byte(format, at - 8);
                }
            }
        }
    }
    if format == Format::Obb {
        let other = format_marker(Format::Android);
        assert forall|at: int| !#[trigger] crate::bytes::holds_at(prefix, at, other) by {
            if crate::bytes::holds_at(prefix, at, other) {
                let part = prefix.subrange(at, at + other.len());
                if at < 8 {
                    assert(part[8 - at] == other[8 - at]);
                    assert(prefix[8] == id[0]);
                } else {
                    assert(part[7] == other[7]);
                    lemma_no_byte(format, at - 8 + 7);
                }
            }
        }
    }
}

/// A new Android or OBB wrapper holds no `M` behind its first eight bytes, and an OBB wrapper no
/// parenthesis.
proof fn lemma_no_byte(format: Format, k: int)
    requires
        format != Format::Pc,
        0 <= k < app_id(format).len(),
    ensures
        app_id(format)[k] != 0x4d,
        format == Format::Obb ==> app_id(format)[k] != 0x28,
{
    reveal_strlit("BEGIN_APP_ID_STRING");
    reveal_strlit("END_APP_ID_STRING");
    reveal_strlit("PakDat (TechRound) v1.1");
    reveal_strlit("PakDat v1.01");
    let start = "BEGIN_APP_ID_STRING"@;
    let end = "END_APP_ID_STRING"@;
    let text = marker_text(format);
    is_ascii_chars_encode_utf8(start);
    is_ascii_chars_encode_utf8(end);
    is_ascii_chars_encode_utf8(text);
    let id = app_id(format);
    if k < 19 {
        assert(id[k] == encode_utf8(start)[k]);
    } else if k < 19 + text.len() {
        assert(id[k] == encode_utf8(text)[k - 19]);
    } else if k < 19 + text.len() + 17 {
        assert(id[k] == encode_utf8(end)[k - 19 - text.len()]);
    }
}

/// Every entry of a packed archive is that of one of the files, which it decodes to.
pub proof fn lemma_packed_entry(files: Seq<FileView>, format: Format, j: int) -> (i: int)
    requires
        all_paths_texts(files),
        files.len() <= usize::MAX,
        packed(files, format) is Ok,
        packed_tree_fits(files, format),
        all_decode(files, format),
        0 <= j < opened(packed(files, format)->Ok_0)->Ok_0.entries.len(),
    ensures
        0 <= i < files.len(),
        ({
            let view = opened(packed(files, format)->Ok_0)->Ok_0;
            let plain = collected(files, files.len() as int)->Ok_0;
            &&& plain.len() == files.len()
            &&& plain[i] == plain_item(plain[i].path, files[i].data.len() as int, i)
            &&& entry_is(
                view.image,
                view.entries[j],
                stored_item(plain[i], files[i].data, format),
                stored_data(plain[i], files[i].data, format),
            )
            &&& entry_bytes(view.image, view.entries[j]) == (files[i].data, None::<ErrorView>)
        }),
{
    let plain = collected(files, files.len() as int)->Ok_0;
    let items = packed_items(files, format);
    let datas = stored_datas(plain, files, format);
    let prefix = new_prefix(format);
    let image = packed(files, format)->Ok_0;
    let sorted = ordered(items, items.len() as int);
    lemma_packed_items(files, format);
    lemma_collected(files, files.len() as int);
    lemma_app_id_len(format);
    lemma_reopen(format_version(format), prefix, items, Seq::empty(), datas);
    let view = opened(image)->Ok_0;
    let i = lemma_from_ordered(items, j);
    assert(plain[i] == plain_item(plain[i].path, files[i].data.len() as int, i));
    assert(entry_is(
        view.image,
        view.entries[j],
        sorted[j],
        payload_of(sorted[j], Seq::empty(), datas),
    ));
    assert(payload_of(items[i], Seq::empty(), datas) == datas[i]);
    assert(decodes_to(
        stored_item(plain[i], files[i].data, format),
        stored_data(plain[i], files[i].data, format),
        files[i].data,
    ));
    i
}

/// What is packed passes verification, and can be unpacked.
pub proof fn lemma_packed_verifies(files: Seq<FileView>, format: Format, n: int)
    requires
        all_paths_texts(files),
        files.len() <= usize::MAX,
        packed(files, format) is Ok,
        packed_tree_fits(files, format),
        all_decode(files, format),
        0 <= n <= files.len(),
    ensures
        first_failure(opened(packed(files, format)->Ok_0)->Ok_0, n) is None,
        unpack_error(
            opened(packed(files, format)->Ok_0)->Ok_0,
            files.len() as int - n,
        ) is None,
    decreases files.len() - n,
{
    let view = opened(packed(files, format)->Ok_0)->Ok_0;
    lemma_packed_opens(files, format);
    if n < files.len() {
        lemma_packed_verifies(files, format, n + 1);
        let i = lemma_packed_entry(files, format, n);
        let k = lemma_packed_entry(files, format, files.len() - n - 1);
    }
}

/// A packed archive that can be opened has a tree that can be read.
pub proof fn lemma_packed_fits(files: Seq<FileView>, format: Format)
    requires
        files.len() <= usize::MAX,
        packed(files, format) is Ok,
        opened(packed(files, format)->Ok_0) is Ok,
    ensures
        packed_tree_fits(files, format),
{
    let plain = collected(files, files.len() as int)->Ok_0;
    let items = packed_items(files, format);
    let datas = stored_datas(plain, files, format);
    lemma_collected(files, files.len() as int);
    lemma_app_id_len(format);
    assert(all_at_hand(items, Seq::empty(), datas)) by {
        assert forall|i: int| 0 <= i < items.len() implies #[trigger] at_hand(
            items[i],
            Seq::empty(),
            datas,
        ) by {
            assert(plain[i] == plain_item(plain[i].path, files[i].data.len() as int, i));
            assert((i as usize) as int == i);
        }
    }
    lemma_reopened_fits(
        format_version(format),
        new_prefix(format),
        items,
        Seq::empty(),
        datas,
    );
}

} // verus!
