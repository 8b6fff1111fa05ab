//! An archive that is rebuilt from what was unpacked stays as it is.

use super::clean::lemma_opened_clean;
use super::contents::{
    all_paths_texts, lemma_from_ordered, lemma_in_ordered, lemma_packed_entry, lemma_packed_items,
    lemma_packed_opens, lemma_packed_verifies, lemma_unique_entry, packed_items, packed_tree_fits,
};
use super::identity::{
    all_unchanged, lemma_kept_all, lemma_ordered_already, lemma_packed_unchanged,
    lemma_same_layout, same_record,
};
use super::paths::{clean, lemma_clean_normalized};
use super::reopen::{entry_is, lemma_no_bad_item, lemma_reopen};
use super::tail::item_hashes;
use crate::archive::{
    entry_bytes, entry_number, in_image, lemma_opened_sound, opened, stored_bytes, ArchiveView,
};
use crate::dflt::extensions;
use crate::edit::{datas_of, edited, rebuilt_items, repacked, rewritten, unchanged};
use crate::entry::{format_version, EntryView, Format};
use crate::error::ErrorView;
use crate::index::ascending;
use crate::order::ordered;
use crate::pack::{
    all_decode, collected, lemma_app_id_len, new_prefix, packed, plain_item, repeated,
    stored_data, stored_datas, stored_item, stored_items, FileView,
};
use crate::payload::lemma_payload_size;
use crate::pending::{paths_of, PendingView};
use crate::text::{
    backslashed, extension, has_extension, lemma_same_name_hash, normalized, path_hash, same_name,
    slashed, upper, upper_byte, BACKSLASH, DOT, SLASH,
};
use crate::tree::forest_of;
use crate::unpack::{unpack_error, unpacked};
use crate::writer::{
    aligned, archive_bytes, bad_item, body, collision, offset_of, payload_of, planned, written,
    zeros,
};
use vstd::prelude::*;
use vstd::utf8::encode_utf8;

verus! {

/// Slashes are turned into backslashes again.
proof fn lemma_slashed_normalized(path: Seq<u8>)
    requires
        !path.contains(SLASH),
    ensures
        normalized(slashed(path)) == normalized(path),
{
    assert(backslashed(slashed(path)) =~= backslashed(path)) by {
        assert forall|i: int| 0 <= i < path.len() implies backslashed(slashed(path))[i]
            == backslashed(path)[i] by {
            assert(path.contains(path[i]));
        }
    }
}

/// Where all entries decode, each of them does.
proof fn lemma_each_decodes(archive: ArchiveView, n: int, i: int)
    requires
        unpack_error(archive, n) is None,
        0 <= i < n,
    ensures
        entry_bytes(archive.image, archive.entries[i]).1 is None,
    decreases n,
{
    if i < n - 1 {
        lemma_each_decodes(archive, n - 1, i);
    }
}

/// Payloads of an archive do not depend on other files.
proof fn lemma_body_files(
    prefix: Seq<u8>,
    items: Seq<PendingView>,
    original: Seq<u8>,
    a: Seq<Seq<u8>>,
    b: Seq<Seq<u8>>,
    n: int,
)
    requires
        0 <= n <= items.len(),
        forall|i: int| 0 <= i < items.len() ==> (#[trigger] items[i]).source is Stored,
    ensures
        body(prefix, items, original, a, n) == body(prefix, items, original, b, n),
    decreases n,
{
    if n > 0 {
        lemma_body_files(prefix, items, original, a, b, n - 1);
        assert(items[n - 1].source is Stored);
    }
}

/// An archive of unchanged entries does not depend on other files.
proof fn lemma_written_files(
    version: int,
    prefix: Seq<u8>,
    items: Seq<PendingView>,
    original: Seq<u8>,
    a: Seq<Seq<u8>>,
    b: Seq<Seq<u8>>,
)
    requires
        forall|i: int| 0 <= i < items.len() ==> (#[trigger] items[i]).source is Stored,
    ensures
        written(version, prefix, items, original, a) == written(
            version,
            prefix,
            items,
            original,
            b,
        ),
{
    reveal(written);
    reveal(archive_bytes);
    let sorted = ordered(items, items.len() as int);
    assert forall|j: int| 0 <= j < sorted.len() implies (#[trigger] sorted[j]).source is Stored by {
        let i = lemma_from_ordered(items, j);
        assert(items[i].source is Stored);
    }
    if planned(version, prefix.len() as int, items) is Ok {
        lemma_body_files(prefix, sorted, original, a, b, sorted.len() as int);
    }
}

/// The unpacked files are collected under the paths of their entries.
proof fn lemma_collect_unpacked(archive: ArchiveView, n: int)
    requires
        0 <= n <= archive.entries.len(),
        forall|i: int|
            0 <= i < n ==> normalized(slashed((#[trigger] archive.entries[i]).path)) == Ok::<
                Seq<u8>,
                ErrorView,
            >(archive.entries[i].path),
        forall|i: int|
            0 <= i < n ==> entry_bytes(archive.image, #[trigger] archive.entries[i]).0.len()
                <= i32::MAX,
    ensures
        collected(unpacked(archive, archive.entries.len() as int), n) == Ok::<
            Seq<PendingView>,
            ErrorView,
        >(
            Seq::new(
                n as nat,
                |i: int|
                    plain_item(
                        archive.entries[i].path,
                        entry_bytes(archive.image, archive.entries[i]).0.len() as int,
                        i,
                    ),
            ),
        ),
    decreases n,
{
    let all = unpacked(archive, archive.entries.len() as int);
    if n > 0 {
        lemma_collect_unpacked(archive, n - 1);
        assert(all[n - 1].path == slashed(archive.entries[n - 1].path));
        assert(collected(all, n)->Ok_0 =~= Seq::new(
            n as nat,
            |i: int|
                plain_item(
                    archive.entries[i].path,
                    entry_bytes(archive.image, archive.entries[i]).0.len() as int,
                    i,
                ),
        ));
    } else {
        assert(collected(all, n)->Ok_0 =~= Seq::new(
            0,
            |i: int|
                plain_item(
                    archive.entries[i].path,
                    entry_bytes(archive.image, archive.entries[i]).0.len() as int,
                    i,
                ),
        ));
    }
}

/// Entries with different hashes have different paths.
proof fn lemma_none_repeated(archive: ArchiveView, items: Seq<PendingView>, i: int)
    requires
        archive.sound(),
        items.len() == archive.entries.len(),
        forall|k: int|
            0 <= k < items.len() ==> (#[trigger] items[k]).path == archive.entries[k].path,
        0 <= i,
    ensures
        repeated(items, i) is None,
    decreases items.len() - i,
{
    if i < items.len() {
        lemma_none_repeated(archive, items, i + 1);
        assert forall|j: int| 0 <= j < i implies !same_name(
            #[trigger] items[j].path,
            items[i].path,
        ) by {
            let a = archive.entries[j].path;
            let b = archive.entries[i].path;
            assert(items[j].path == a && items[i].path == b);
            assert(path_hash(archive.entries[j].path) < path_hash(archive.entries[i].path));
            if same_name(a, b) {
                lemma_same_name_hash(a, b);
            }
        }
    }
}

/// Files that are as they were keep the payloads of their entries.
proof fn lemma_rebuild_unpacked(archive: ArchiveView, items: Seq<PendingView>, n: int)
    requires
        archive.sound(),
        items.len() == archive.entries.len(),
        forall|k: int|
            0 <= k < items.len() ==> (#[trigger] items[k]).path == archive.entries[k].path,
        forall|k: int|
            0 <= k < items.len() ==> entry_number(
                archive.entries,
                (#[trigger] archive.entries[k]).path,
            ) == Some(k),
        unpack_error(archive, archive.entries.len() as int) is None,
        0 <= n <= items.len(),
    ensures
        rebuilt_items(archive, items, unpacked(archive, archive.entries.len() as int), n) == Ok::<
            Seq<PendingView>,
            ErrorView,
        >(all_unchanged(archive.entries).take(n)),
    decreases n,
{
    let all = all_unchanged(archive.entries);
    if n > 0 {
        lemma_rebuild_unpacked(archive, items, n - 1);
        let entry = archive.entries[n - 1];
        assert(items[n - 1].path == entry.path);
        lemma_each_decodes(archive, archive.entries.len() as int, n - 1);
        lemma_payload_size(entry.compression, stored_bytes(archive.image, entry), entry.size);
        assert(all.take(n) =~= all.take(n - 1).push(all[n - 1]));
    } else {
        assert(all.take(0) =~= Seq::<PendingView>::empty());
    }
}

/// The files that are unpacked from an archive that can be rewritten can be packed.
proof fn lemma_unpacked_collected(image: Seq<u8>)
    requires
        opened(image) is Ok,
        unpack_error(opened(image)->Ok_0, opened(image)->Ok_0.entries.len() as int) is None,
        rewritten(opened(image)->Ok_0, Seq::empty(), Seq::empty()) is Ok,
    ensures
        ({
            let view = opened(image)->Ok_0;
            let n = view.entries.len() as int;
            let items = collected(unpacked(view, n), n);
            &&& items is Ok
            &&& items->Ok_0.len() == n
            &&& forall|k: int|
                0 <= k < n ==> (#[trigger] items->Ok_0[k]) == plain_item(
                    view.entries[k].path,
                    entry_bytes(view.image, view.entries[k]).0.len() as int,
                    k,
                )
            &&& forall|k: int|
                0 <= k < n ==> normalized((#[trigger] view.entries[k]).path) == Ok::<
                    Seq<u8>,
                    ErrorView,
                >(view.entries[k].path)
        }),
{
    let view = opened(image)->Ok_0;
    let entries = view.entries;
    let n = entries.len() as int;
    let files = unpacked(view, n);
    let nothing = Seq::<FileView>::empty();
    let again = all_unchanged(entries);
    lemma_opened_sound(image);
    lemma_opened_clean(image);
    lemma_kept_all(entries, n);
    assert(again.take(n) =~= again);
    assert(edited(entries, nothing, Seq::empty()) == Ok::<Seq<PendingView>, ErrorView>(again));
    let sorted = ordered(again, n);
    assert(bad_item(sorted, 0) is None) by {
        reveal(written);
    }
    lemma_no_bad_item(sorted, 0);
    assert forall|i: int| 0 <= i < n implies normalized((#[trigger] entries[i]).path) == Ok::<
        Seq<u8>,
        ErrorView,
    >(entries[i].path) by {
        let j = lemma_in_ordered(again, i);
        assert(sorted[j].path == again[i].path);
        assert(clean(entries[i].path));
        lemma_clean_normalized(entries[i].path);
    }
    assert forall|i: int| 0 <= i < n implies normalized(slashed((#[trigger] entries[i]).path))
        == Ok::<Seq<u8>, ErrorView>(entries[i].path) by {
        assert(clean(entries[i].path));
        lemma_slashed_normalized(entries[i].path);
        assert(normalized(entries[i].path) is Ok);
    }
    assert forall|i: int| 0 <= i < n implies entry_bytes(view.image, #[trigger] entries[i]).0.len()
        <= i32::MAX by {
        let entry = entries[i];
        assert(in_image(entry, view.image));
        lemma_each_decodes(view, n, i);
        lemma_payload_size(entry.compression, stored_bytes(view.image, entry), entry.size);
    }
    lemma_collect_unpacked(view, n);
}

/// Rebuilding an archive from what was unpacked is rewriting it without a change.
pub proof fn lemma_repacked_unpacked(image: Seq<u8>)
    requires
        opened(image) is Ok,
        unpack_error(opened(image)->Ok_0, opened(image)->Ok_0.entries.len() as int) is None,
        rewritten(opened(image)->Ok_0, Seq::empty(), Seq::empty()) is Ok,
    ensures
        repacked(
            opened(image)->Ok_0,
            unpacked(opened(image)->Ok_0, opened(image)->Ok_0.entries.len() as int),
        ) == rewritten(opened(image)->Ok_0, Seq::empty(), Seq::empty()),
{
    let view = opened(image)->Ok_0;
    let entries = view.entries;
    let n = entries.len() as int;
    let files = unpacked(view, n);
    let nothing = Seq::<FileView>::empty();
    let again = all_unchanged(entries);
    lemma_opened_sound(image);
    lemma_opened_clean(image);
    lemma_kept_all(entries, n);
    assert(again.take(n) =~= again);
    assert(edited(entries, nothing, Seq::empty()) == Ok::<Seq<PendingView>, ErrorView>(again));
    lemma_unpacked_collected(image);
    let items = collected(files, n)->Ok_0;
    lemma_none_repeated(view, items, 0);
    assert forall|k: int| 0 <= k < items.len() implies entry_number(
        entries,
        (#[trigger] entries[k]).path,
    ) == Some(k) by {
        assert(normalized(entries[k].path) is Ok);
        lemma_unique_entry(entries, k, entries[k].path);
    }
    lemma_rebuild_unpacked(view, items, n);
    assert forall|i: int| 0 <= i < again.len() implies (#[trigger] again[i]).source is Stored by {}
    lemma_written_files(
        view.version,
        view.prefix,
        again,
        view.image,
        datas_of(files),
        datas_of(nothing),
    );
}

/// Unpacking a packed archive and rebuilding it from the files gives the same bytes.
pub proof fn lemma_packed_rebuilt(files: Seq<FileView>, format: Format)
    requires
        all_paths_texts(files),
        files.len() <= usize::MAX,
        packed(files, format) is Ok,
        packed_tree_fits(files, format),
        all_decode(files, format),
    ensures
        repacked(
            opened(packed(files, format)->Ok_0)->Ok_0,
            unpacked(
                opened(packed(files, format)->Ok_0)->Ok_0,
                opened(packed(files, format)->Ok_0)->Ok_0.entries.len() as int,
            ),
        ) == packed(files, format),
{
    lemma_packed_opens(files, format);
    lemma_packed_verifies(files, format, 0);
    lemma_packed_unchanged(files, format);
    lemma_repacked_unpacked(packed(files, format)->Ok_0);
}

/// Whether a file may be stored encoded does not depend on the case of its path.
proof fn lemma_same_extension(a: Seq<u8>, b: Seq<u8>, known: Seq<Seq<char>>)
    requires
        same_name(a, b),
    ensures
        has_extension(a, known) == has_extension(b, known),
{
    lemma_extension_same(a, b);
    if extension(a) is Some {
        let x = extension(a)->0;
        let y = extension(b)->0;
        assert forall|i: int| 0 <= i < known.len() implies same_name(
            x,
            encode_utf8(#[trigger] known[i]),
        ) == same_name(y, encode_utf8(known[i])) by {}
    }
}

proof fn lemma_extension_same(a: Seq<u8>, b: Seq<u8>)
    requires
        same_name(a, b),
    ensures
        match (extension(a), extension(b)) {
            (Some(x), Some(y)) => same_name(x, y),
            (None, None) => true,
            _ => false,
        },
    decreases a.len(),
{
    assert(upper(a).len() == upper(b).len());
    if a.len() > 0 {
        let x = a.last();
        let y = b.last();
        assert(upper(a)[a.len() - 1] == upper(b)[a.len() - 1]);
        assert(upper_byte(x) == upper_byte(y));
        assert((x == BACKSLASH) == (y == BACKSLASH));
        assert((x == DOT) == (y == DOT));
        assert(upper(a.drop_last()) =~= upper(a).drop_last());
        assert(upper(b.drop_last()) =~= upper(b).drop_last());
        lemma_extension_same(a.drop_last(), b.drop_last());
        if x != BACKSLASH && x != DOT && extension(a.drop_last()) is Some {
            let v = extension(a.drop_last())->0;
            let w = extension(b.drop_last())->0;
            assert(upper(v.push(x)) =~= upper(v).push(upper_byte(x)));
            assert(upper(w.push(y)) =~= upper(w).push(upper_byte(y)));
        }
    }
}

/// Two files have the same path and the same record.
spec fn twins(a: PendingView, b: PendingView) -> bool {
    a.path == b.path && same_record(a, b)
}

proof fn lemma_bad_item_twins(a: Seq<PendingView>, b: Seq<PendingView>, i: int)
    requires
        a.len() == b.len(),
        forall|k: int| 0 <= k < a.len() ==> twins(#[trigger] a[k], b[k]),
        0 <= i,
    ensures
        bad_item(a, i) == bad_item(b, i),
        collision(a, i) == collision(b, i),
    decreases a.len() - i,
{
    if i < a.len() {
        lemma_bad_item_twins(a, b, i + 1);
        assert(twins(a[i], b[i]));
        if exists|j: int| 0 <= j < i && same_name(#[trigger] a[j].path, a[i].path) {
            let j = choose|j: int| 0 <= j < i && same_name(#[trigger] a[j].path, a[i].path);
            assert(twins(a[j], b[j]));
            assert(same_name(b[j].path, b[i].path));
        }
        if exists|j: int| 0 <= j < i && same_name(#[trigger] b[j].path, b[i].path) {
            let j = choose|j: int| 0 <= j < i && same_name(#[trigger] b[j].path, b[i].path);
            assert(twins(a[j], b[j]));
            assert(same_name(a[j].path, a[i].path));
        }
        if i + 1 < a.len() {
            assert(twins(a[i + 1], b[i + 1]));
        }
    }
}

/// Files with the same records and payloads make the same archive.
proof fn lemma_body_twins(
    first: Seq<u8>,
    second: Seq<u8>,
    a: Seq<PendingView>,
    b: Seq<PendingView>,
    image: Seq<u8>,
    datas: Seq<Seq<u8>>,
    n: int,
)
    requires
        a.len() == b.len(),
        forall|k: int| 0 <= k < a.len() ==> twins(#[trigger] a[k], b[k]),
        forall|k: int|
            0 <= k < a.len() ==> payload_of(#[trigger] a[k], image, Seq::empty()) == payload_of(
                b[k],
                Seq::empty(),
                datas,
            ),
        first.len() == second.len(),
        8 <= first.len(),
        first.skip(8) == second.skip(8),
        0 <= n <= a.len(),
    ensures
        body(first, a, image, Seq::empty(), n).len() == body(
            second,
            b,
            Seq::empty(),
            datas,
            n,
        ).len(),
        body(first, a, image, Seq::empty(), n).len() >= 8,
        body(first, a, image, Seq::empty(), n).skip(8) == body(
            second,
            b,
            Seq::empty(),
            datas,
            n,
        ).skip(8),
    decreases n,
{
    if n > 0 {
        lemma_body_twins(first, second, a, b, image, datas, n - 1);
        lemma_offsets_twins(a, b, first.len() as int, n - 1);
        let x = body(first, a, image, Seq::empty(), n - 1);
        let y = body(second, b, Seq::empty(), datas, n - 1);
        let gap = zeros(offset_of(a, first.len() as int, n - 1) - x.len());
        let payload = payload_of(a[n - 1], image, Seq::empty());
        assert((x + gap + payload).skip(8) =~= x.skip(8) + gap + payload);
        assert((y + gap + payload).skip(8) =~= y.skip(8) + gap + payload);
    }
}

proof fn lemma_offsets_twins(
    a: Seq<PendingView>,
    b: Seq<PendingView>,
    prefix_len: int,
    i: int,
)
    requires
        a.len() == b.len(),
        forall|k: int| 0 <= k < a.len() ==> twins(#[trigger] a[k], b[k]),
        0 <= i < a.len(),
    ensures
        offset_of(a, prefix_len, i) == offset_of(b, prefix_len, i),
    decreases i,
{
    if i > 0 {
        lemma_offsets_twins(a, b, prefix_len, i - 1);
        assert(twins(a[i - 1], b[i - 1]));
    }
}

/// Files with the same records and payloads make the same archive.
proof fn lemma_written_twins(
    version: int,
    first: Seq<u8>,
    second: Seq<u8>,
    a: Seq<PendingView>,
    b: Seq<PendingView>,
    image: Seq<u8>,
    datas: Seq<Seq<u8>>,
)
    requires
        a.len() == b.len(),
        ascending(item_hashes(a)),
        forall|k: int| 0 <= k < a.len() ==> twins(#[trigger] a[k], b[k]),
        forall|k: int|
            0 <= k < a.len() ==> payload_of(#[trigger] a[k], image, Seq::empty()) == payload_of(
                b[k],
                Seq::empty(),
                datas,
            ),
        first.len() == second.len(),
        8 <= first.len(),
        aligned(first.len() as int) == first.len(),
        first.skip(8) == second.skip(8),
        written(version, first, a, image, Seq::empty()) is Ok,
    ensures
        written(version, second, b, Seq::empty(), datas) == written(
            version,
            first,
            a,
            image,
            Seq::empty(),
        ),
{
    reveal(written);
    reveal(archive_bytes);
    let n = a.len() as int;
    let prefix_len = first.len() as int;
    assert(item_hashes(a) =~= item_hashes(b)) by {
        assert forall|k: int| 0 <= k < n implies item_hashes(a)[k] == item_hashes(b)[k] by {
            assert(twins(a[k], b[k]));
        }
    }
    lemma_ordered_already(a, n);
    lemma_ordered_already(b, n);
    assert(a.take(n) =~= a);
    assert(b.take(n) =~= b);
    lemma_bad_item_twins(a, b, 0);
    assert(paths_of(a) =~= paths_of(b)) by {
        assert forall|k: int| 0 <= k < n implies paths_of(a)[k] == paths_of(b)[k] by {
            assert(twins(a[k], b[k]));
        }
    }
    let f = forest_of(paths_of(a), n)->0;
    assert forall|i: int| 0 <= i < a.len() implies same_record(#[trigger] a[i], b[i]) by {
        assert(twins(a[i], b[i]));
    }
    lemma_same_layout(version, prefix_len, prefix_len, a, b, f);
    lemma_body_twins(first, second, a, b, image, datas, n);
}

/// A file that is unpacked is stored again as it was.
proof fn lemma_stored_again(
    image: Seq<u8>,
    entry: EntryView,
    plain: PendingView,
    data: Seq<u8>,
    format: Format,
    i: int,
    j: int,
)
    requires
        in_image(entry, image),
        entry_is(
            image,
            entry,
            stored_item(plain, data, format),
            stored_data(plain, data, format),
        ),
        plain == plain_item(plain.path, data.len() as int, i),
    ensures
        ({
            let item = plain_item(entry.path, data.len() as int, j);
            &&& twins(unchanged(entry), stored_item(item, data, format))
            &&& payload_of(unchanged(entry), image, Seq::empty()) == stored_data(
                item,
                data,
                format,
            )
        }),
{
    lemma_same_extension(entry.path, plain.path, extensions());
}

/// Packing what was unpacked from a packed archive gives the same bytes.
pub proof fn lemma_packed_again(files: Seq<FileView>, format: Format)
    requires
        all_paths_texts(files),
        files.len() <= usize::MAX,
        packed(files, format) is Ok,
        packed_tree_fits(files, format),
        all_decode(files, format),
    ensures
        packed(
            unpacked(
                opened(packed(files, format)->Ok_0)->Ok_0,
                opened(packed(files, format)->Ok_0)->Ok_0.entries.len() as int,
            ),
            format,
        ) == packed(files, format),
{
    let image = packed(files, format)->Ok_0;
    let view = opened(image)->Ok_0;
    let n = view.entries.len() as int;
    let found = unpacked(view, n);
    let again = all_unchanged(view.entries);
    lemma_packed_opens(files, format);
    lemma_packed_verifies(files, format, 0);
    lemma_packed_unchanged(files, format);
    lemma_opened_sound(image);
    lemma_unpacked_collected(image);
    lemma_kept_all(view.entries, n);
    assert(again.take(n) =~= again);
    assert(datas_of(Seq::<FileView>::empty()) =~= Seq::<Seq<u8>>::empty());
    assert(written(view.version, view.prefix, again, image, Seq::empty()) == packed(
        files,
        format,
    ));
    let items = collected(found, n)->Ok_0;
    let stored = stored_items(items, found, format);
    let datas = stored_datas(items, found, format);
    lemma_none_repeated(view, items, 0);
    assert forall|j: int| 0 <= j < n implies twins(#[trigger] again[j], stored[j]) && payload_of(
        again[j],
        image,
        Seq::empty(),
    ) == payload_of(stored[j], Seq::empty(), datas) by {
        let i = lemma_packed_entry(files, format, j);
        let plain = collected(files, files.len() as int)->Ok_0;
        let entry = view.entries[j];
        assert(in_image(entry, image));
        lemma_stored_again(image, entry, plain[i], files[i].data, format, i, j);
        assert(found[j].data == files[i].data);
        assert(items[j] == plain_item(entry.path, files[i].data.len() as int, j));
        assert(stored[j] == stored_item(items[j], found[j].data, format));
        assert(datas[j] == stored_data(items[j], found[j].data, format));
        assert((j as usize) as int == j);
    }
    lemma_packed_wrapper(files, format);
    assert(ascending(item_hashes(again))) by {
        assert forall|i: int, j: int|
            #![trigger item_hashes(again)[i], item_hashes(again)[j]]
            0 <= i < j < n implies item_hashes(again)[i] < item_hashes(again)[j] by {
            assert(path_hash(view.entries[i].path) < path_hash(view.entries[j].path));
        }
    }
    lemma_written_twins(
        view.version,
        view.prefix,
        new_prefix(format),
        again,
        stored,
        image,
        datas,
    );
}

/// The wrapper of a packed archive is that of its format.
proof fn lemma_packed_wrapper(files: Seq<FileView>, format: Format)
    requires
        all_paths_texts(files),
        files.len() <= usize::MAX,
        packed(files, format) is Ok,
        packed_tree_fits(files, format),
    ensures
        ({
            let view = opened(packed(files, format)->Ok_0)->Ok_0;
            &&& view.version == format_version(format)
            &&& view.prefix.len() == new_prefix(format).len()
            &&& view.prefix.skip(8) == new_prefix(format).skip(8)
            &&& 8 <= view.prefix.len()
            &&& aligned(view.prefix.len() as int) == view.prefix.len()
        }),
{
    let items = packed_items(files, format);
    let datas = stored_datas(collected(files, files.len() as int)->Ok_0, files, format);
    let prefix = new_prefix(format);
    lemma_packed_items(files, format);
    lemma_app_id_len(format);
    lemma_reopen(format_version(format), prefix, items, Seq::empty(), datas);
    let view = opened(packed(files, format)->Ok_0)->Ok_0;
    assert(aligned(prefix.len() as int) == prefix.len());
    assert(view.prefix.skip(8) =~= view.prefix.subrange(8, prefix.len() as int));
    assert(prefix.skip(8) =~= prefix.subrange(8, prefix.len() as int));
}

} // verus!
