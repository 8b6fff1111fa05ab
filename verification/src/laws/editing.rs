//! What changing an archive changes, and what it keeps.

use super::clean::lemma_opened_clean;
use super::contents::{
    all_paths_texts, lemma_file_contents, lemma_file_missing, lemma_format_told,
    lemma_from_ordered, lemma_in_ordered, lemma_normalized_clean, lemma_unique_entry, names_path,
};
use super::paths::{clean, lemma_normalized};
use super::reopen::{
    acceptable, acceptable_item, entry_is, holds_files, lemma_reopen, lemma_reopened_fits,
    reopened_prefix_len, tree_fits,
};
use crate::archive::{
    entry_from, entry_number, entry_result, in_image, lemma_entry_from, lemma_opened_sound, opened,
    stored_bytes, ArchiveView,
};
use crate::edit::{
    datas_of, edited, has_name, item_from, kept, lemma_item_from, lemma_kept_at_hand,
    lemma_rebuilt_at_hand, lemma_with_files_at_hand, rebuilt_item, rebuilt_items, removed_paths,
    repacked, rewritten, stored_path, unchanged, with_files, with_item,
};
use crate::entry::{format_of, Compression, EntryView, Format};
use crate::error::ErrorView;
use crate::index::by_hash;
use crate::order::{lemma_ordered, ordered};
use crate::pack::{
    collected, lemma_app_id_len, lemma_collected, new_prefix, plain_item, FileView,
};
use crate::pending::{paths_of, PendingView};
use crate::text::{normalized, same_name};
use crate::writer::payload_of;
use vstd::prelude::*;
use vstd::utf8::{encode_utf8, valid_utf8};

verus! {

/// The number of the last of the first `n` files with this name.
pub open spec fn last_named(files: Seq<FileView>, key: Seq<u8>, n: int) -> Option<int>
    decreases n,
{
    if n <= 0 {
        None
    } else if normalized(files[n - 1].path) matches Ok(path) && same_name(path, key) {
        Some(n - 1)
    } else {
        last_named(files, key, n - 1)
    }
}

/// The item with a name, if there is one.
pub open spec fn named_item(items: Seq<PendingView>, key: Seq<u8>) -> Option<PendingView> {
    match item_from(items, key, 0) {
        Some(i) => Some(items[i]),
        None => None,
    }
}

/// Putting an item changes what is found under its name and nothing else.
proof fn lemma_with_item(items: Seq<PendingView>, item: PendingView, key: Seq<u8>)
    ensures
        named_item(with_item(items, item), key) == if same_name(item.path, key) {
            Some(item)
        } else {
            named_item(items, key)
        },
{
    let after = with_item(items, item);
    lemma_item_from(items, item.path, 0);
    lemma_item_from(items, key, 0);
    lemma_item_from(after, key, 0);
    lemma_first_item(items, item.path, 0);
    lemma_first_item(items, key, 0);
    lemma_first_item(after, key, 0);
    match item_from(items, item.path, 0) {
        Some(i) => {
            assert(after == items.update(i, item));
            if same_name(item.path, key) {
                assert(after[i] == item);
                assert forall|k: int| 0 <= k < i implies !same_name(
                    #[trigger] after[k].path,
                    key,
                ) by {
                    assert(after[k] == items[k]);
                    assert(!same_name(items[k].path, item.path));
                }
            } else {
                assert(forall|k: int|
                    0 <= k < items.len() && k != i ==> #[trigger] after[k] == items[k]);
                assert(!same_name(after[i].path, key));
                assert(!same_name(items[i].path, key));
                match item_from(items, key, 0) {
                    Some(k) => {
                        assert(after[k] == items[k]);
                        let m = item_from(after, key, 0);
                        if m is None {
                            assert(!same_name(after[k].path, key));
                        } else {
                            if m->0 < k {
                                assert(items[m->0] == after[m->0]);
                            }
                            if k < m->0 {
                                assert(!same_name(after[k].path, key));
                            }
                        }
                    },
                    None => {
                        if let Some(m) = item_from(after, key, 0) {
                            assert(after[m] == items[m]);
                        }
                    },
                }
            }
        },
        None => {
            assert(after == items.push(item));
            assert(forall|k: int| 0 <= k < items.len() ==> #[trigger] after[k] == items[k]);
            if same_name(item.path, key) {
                assert(after[items.len() as int] == item);
                assert forall|k: int| 0 <= k < items.len() implies !same_name(
                    #[trigger] after[k].path,
                    key,
                ) by {
                    assert(!same_name(items[k].path, item.path));
                }
            } else {
                match item_from(items, key, 0) {
                    Some(k) => {
                        assert(after[k] == items[k]);
                        if let Some(m) = item_from(after, key, 0) {
                            if m < k {
                                assert(items[m] == after[m]);
                            }
                        }
                    },
                    None => {
                        if let Some(m) = item_from(after, key, 0) {
                            assert(m < items.len());
                        }
                    },
                }
            }
        },
    }
}

/// What is found first has no match in front of it.
proof fn lemma_first_item(items: Seq<PendingView>, key: Seq<u8>, i: int)
    requires
        0 <= i,
    ensures
        item_from(items, key, i) matches Some(k) ==> forall|m: int|
            i <= m < k ==> !same_name(#[trigger] items[m].path, key),
    decreases items.len() - i,
{
    if i < items.len() && !same_name(items[i].path, key) {
        lemma_first_item(items, key, i + 1);
    }
}

/// An item that is found alone under its name is the one.
proof fn lemma_named_item(items: Seq<PendingView>, key: Seq<u8>, k: int)
    requires
        0 <= k < items.len(),
        same_name(items[k].path, key),
        forall|m: int| 0 <= m < k ==> !same_name(#[trigger] items[m].path, key),
    ensures
        named_item(items, key) == Some(items[k]),
{
    lemma_item_from(items, key, 0);
    lemma_first_item(items, key, 0);
}

/// What the entries that are kept hold under a name.
proof fn lemma_kept(entries: Seq<EntryView>, removals: Seq<Seq<u8>>, n: int, key: Seq<u8>)
    requires
        by_hash(entries),
        0 <= n <= entries.len(),
    ensures
        named_item(kept(entries, removals, n), key) == match entry_from(entries, key, 0) {
            Some(k) => if k < n && !has_name(removals, key) {
                Some(unchanged(entries[k]))
            } else {
                None
            },
            None => None,
        },
    decreases n,
{
    lemma_entry_from(entries, key, 0);
    let items = kept(entries, removals, n);
    lemma_item_from(items, key, 0);
    if n > 0 {
        lemma_kept(entries, removals, n - 1, key);
        let before = kept(entries, removals, n - 1);
        let entry = entries[n - 1];
        lemma_item_from(before, key, 0);
        lemma_first_item(before, key, 0);
        lemma_first_item(items, key, 0);
        if same_name(entry.path, key) {
            lemma_unique_entry(entries, n - 1, key);
            assert(has_name(removals, entry.path) == has_name(removals, key)) by {
                if has_name(removals, entry.path) {
                    let i = choose|i: int|
                        0 <= i < removals.len() && same_name(#[trigger] removals[i], entry.path);
                    assert(same_name(removals[i], key));
                }
                if has_name(removals, key) {
                    let i = choose|i: int|
                        0 <= i < removals.len() && same_name(#[trigger] removals[i], key);
                    assert(same_name(removals[i], entry.path));
                }
            }
            if !has_name(removals, key) {
                assert(item_from(before, key, 0) is None);
                assert forall|m: int| 0 <= m < before.len() implies !same_name(
                    #[trigger] items[m].path,
                    key,
                ) by {
                    assert(items[m] == before[m]);
                    assert(!same_name(before[m].path, key));
                }
                lemma_named_item(items, key, before.len() as int);
            }
        } else {
            if !has_name(removals, entry.path) {
                assert(forall|m: int| 0 <= m < before.len() ==> #[trigger] items[m] == before[m]);
                match item_from(before, key, 0) {
                    Some(k) => {
                        assert forall|m: int| 0 <= m < k implies !same_name(
                            #[trigger] items[m].path,
                            key,
                        ) by {
                            assert(items[m] == before[m]);
                        }
                        lemma_named_item(items, key, k);
                    },
                    None => {
                        if let Some(m) = item_from(items, key, 0) {
                            assert(m < before.len());
                            assert(items[m] == before[m]);
                        }
                    },
                }
            }
        }
    }
}

/// The path under which a file is stored differs from the given one at most in case.
proof fn lemma_stored_path(entries: Seq<EntryView>, path: Seq<u8>)
    requires
        normalized(path) == Ok::<Seq<u8>, ErrorView>(path),
    ensures
        same_name(stored_path(entries, path), path),
{
    lemma_entry_from(entries, path, 0);
}

/// What is found under a name after files have been put.
proof fn lemma_with_files(
    entries: Seq<EntryView>,
    items: Seq<PendingView>,
    files: Seq<FileView>,
    n: int,
    key: Seq<u8>,
)
    requires
        0 <= n <= files.len(),
        with_files(entries, items, files, n) is Ok,
    ensures
        named_item(with_files(entries, items, files, n)->Ok_0, key) == match last_named(
            files,
            key,
            n,
        ) {
            Some(r) => Some(
                plain_item(
                    stored_path(entries, normalized(files[r].path)->Ok_0),
                    files[r].data.len() as int,
                    r,
                ),
            ),
            None => named_item(items, key),
        },
    decreases n,
{
    if n > 0 {
        lemma_with_files(entries, items, files, n - 1, key);
        let before = with_files(entries, items, files, n - 1)->Ok_0;
        let path = normalized(files[n - 1].path)->Ok_0;
        let item = plain_item(
            stored_path(entries, path),
            files[n - 1].data.len() as int,
            n - 1,
        );
        lemma_normalized(files[n - 1].path);
        lemma_stored_path(entries, path);
        lemma_with_item(before, item, key);
    }
}

/// The files of the changed archive can be stored.
proof fn lemma_edited_acceptable(
    image: Seq<u8>,
    files: Seq<FileView>,
    removals: Seq<Seq<u8>>,
    n: int,
)
    requires
        opened(image) is Ok,
        all_paths_texts(files),
        0 <= n <= files.len(),
    ensures
        ({
            let entries = opened(image)->Ok_0.entries;
            with_files(entries, kept(entries, removals, entries.len() as int), files, n) matches Ok(
                items,
            ) ==> acceptable(items)
        }),
    decreases n,
{
    let entries = opened(image)->Ok_0.entries;
    let start = kept(entries, removals, entries.len() as int);
    lemma_opened_clean(image);
    lemma_opened_sound(image);
    if n == 0 {
        lemma_kept_acceptable(image, removals, entries.len() as int);
    } else {
        lemma_edited_acceptable(image, files, removals, n - 1);
        if let Ok(items) = with_files(entries, start, files, n) {
            let before = with_files(entries, start, files, n - 1)->Ok_0;
            let path = normalized(files[n - 1].path)->Ok_0;
            let stored = stored_path(entries, path);
            let item = plain_item(stored, files[n - 1].data.len() as int, n - 1);
            assert(valid_utf8(files[n - 1].path));
            lemma_normalized_clean(files[n - 1].path);
            lemma_normalized(files[n - 1].path);
            lemma_entry_from(entries, path, 0);
            assert(acceptable_item(item));
            lemma_item_from(before, stored, 0);
            assert forall|k: int| 0 <= k < items.len() implies acceptable_item(
                #[trigger] items[k],
            ) by {
                if k < before.len() {
                    assert(acceptable_item(before[k]));
                }
            }
        }
    }
}

proof fn lemma_kept_acceptable(image: Seq<u8>, removals: Seq<Seq<u8>>, n: int)
    requires
        opened(image) is Ok,
        0 <= n <= opened(image)->Ok_0.entries.len(),
    ensures
        acceptable(kept(opened(image)->Ok_0.entries, removals, n)),
    decreases n,
{
    if n > 0 {
        let archive = opened(image)->Ok_0;
        lemma_kept_acceptable(image, removals, n - 1);
        lemma_opened_clean(image);
        lemma_opened_sound(image);
        assert(in_image(archive.entries[n - 1], archive.image));
        assert(clean(archive.entries[n - 1].path));
    }
}

/// What a changed archive holds under a path: the last file that was put there; nothing, where
/// it was removed; else what the archive held before.
pub open spec fn changed_contents(
    archive: ArchiveView,
    files: Seq<FileView>,
    removals: Seq<Seq<u8>>,
    query: Seq<char>,
) -> core::result::Result<Seq<u8>, ErrorView> {
    match normalized(encode_utf8(query)) {
        Err(_) => Err(ErrorView::MissingEntry(query)),
        Ok(key) => match last_named(files, key, files.len() as int) {
            Some(r) => Ok(files[r].data),
            None => if has_name(
                removed_paths(removals, removals.len() as int)->Ok_0,
                key,
            ) {
                Err(ErrorView::MissingEntry(query))
            } else {
                archive.contents(query)
            },
        },
    }
}

/// The files of the changed archive.
pub open spec fn edited_items(
    archive: ArchiveView,
    files: Seq<FileView>,
    removals: Seq<Seq<u8>>,
) -> Seq<PendingView> {
    edited(archive.entries, files, removals)->Ok_0
}

/// The tree of the changed archive's files can be read.
pub open spec fn edited_tree_fits(
    archive: ArchiveView,
    files: Seq<FileView>,
    removals: Seq<Seq<u8>>,
) -> bool {
    let items = edited_items(archive, files, removals);
    tree_fits(paths_of(ordered(items, items.len() as int)))
}

/// An archive has the wrapper of another: the same version, and the same bytes behind the first
/// eight, up to where the payloads start.
pub open spec fn same_wrapper(old_view: ArchiveView, new_view: ArchiveView) -> bool {
    let n = old_view.prefix.len() as int;
    &&& new_view.version == old_view.version
    &&& new_view.prefix.len() == reopened_prefix_len(n, new_view.entries.len())
    &&& new_view.prefix.subrange(8, n) == old_view.prefix.subrange(8, n)
}

/// An archive that was packed in a format is still told to be of that format when it is written
/// anew in its wrapper.
pub proof fn lemma_format_kept(old_view: ArchiveView, new_view: ArchiveView, format: Format)
    requires
        same_wrapper(old_view, new_view),
        old_view.prefix.len() == new_prefix(format).len(),
        old_view.prefix.skip(8) == new_prefix(format).skip(8),
    ensures
        format_of(old_view.prefix) == Some(format),
        format_of(new_view.prefix) == Some(format),
{
    let n = old_view.prefix.len() as int;
    lemma_app_id_len(format);
    assert(old_view.prefix.subrange(8, n) =~= old_view.prefix.skip(8));
    assert(new_prefix(format).subrange(8, n) =~= new_prefix(format).skip(8));
    assert(new_view.prefix.len() == n);
    lemma_format_told(old_view.prefix, format);
    lemma_format_told(new_view.prefix, format);
}

/// What a changed archive holds: the files that were put, none that was removed, and every other
/// file as it was. It has the wrapper that it had.
pub proof fn lemma_rewritten_contents(
    image: Seq<u8>,
    files: Seq<FileView>,
    removals: Seq<Seq<u8>>,
    query: Seq<char>,
)
    requires
        opened(image) is Ok,
        all_paths_texts(files),
        files.len() <= usize::MAX,
        rewritten(opened(image)->Ok_0, files, removals) is Ok,
        edited_tree_fits(opened(image)->Ok_0, files, removals),
    ensures
        ({
            let archive = opened(image)->Ok_0;
            let changed = rewritten(archive, files, removals)->Ok_0;
            &&& opened(changed) is Ok
            &&& same_wrapper(archive, opened(changed)->Ok_0)
            &&& opened(changed)->Ok_0.contents(query) == changed_contents(
                archive,
                files,
                removals,
                query,
            )
        }),
{
    let archive = opened(image)->Ok_0;
    let items = edited_items(archive, files, removals);
    let sorted = ordered(items, items.len() as int);
    let datas = datas_of(files);
    let changed = rewritten(archive, files, removals)->Ok_0;
    lemma_edited_reopens(image, files, removals);
    let view = opened(changed)->Ok_0;
    if let Ok(key) = normalized(encode_utf8(query)) {
        lemma_edited_item(archive, files, removals, key);
        lemma_item_from(items, key, 0);
        match item_from(items, key, 0) {
            Some(i) => {
                let j = lemma_in_ordered(items, i);
                lemma_file_contents(
                    view,
                    archive.version,
                    archive.prefix,
                    sorted,
                    image,
                    datas,
                    j,
                    query,
                );
                lemma_entry_from(archive.entries, key, 0);
                if last_named(files, key, files.len() as int) is None {
                    let k = entry_from(archive.entries, key, 0)->0;
                    assert(in_image(archive.entries[k], image));
                } else {
                    lemma_last_named(files, key, files.len() as int);
                }
            },
            None => {
                assert forall|j: int| 0 <= j < sorted.len() implies !names_path(
                    query,
                    (#[trigger] sorted[j]).path,
                ) by {
                    let i = lemma_from_ordered(items, j);
                    assert(!same_name(items[i].path, key));
                }
                lemma_file_missing(
                    view,
                    archive.version,
                    archive.prefix,
                    sorted,
                    image,
                    datas,
                    query,
                );
            },
        }
    }
}

proof fn lemma_last_named(files: Seq<FileView>, key: Seq<u8>, n: int)
    requires
        0 <= n <= files.len(),
    ensures
        last_named(files, key, n) matches Some(r) ==> 0 <= r < n,
    decreases n,
{
    if n > 0 {
        lemma_last_named(files, key, n - 1);
    }
}

/// What is found under a name among the files of the changed archive.
pub proof fn lemma_edited_item(
    archive: ArchiveView,
    files: Seq<FileView>,
    removals: Seq<Seq<u8>>,
    key: Seq<u8>,
)
    requires
        archive.sound(),
        edited(archive.entries, files, removals) is Ok,
    ensures
        ({
            let entries = archive.entries;
            named_item(edited_items(archive, files, removals), key) == match last_named(
                files,
                key,
                files.len() as int,
            ) {
                Some(r) => Some(
                    plain_item(
                        stored_path(entries, normalized(files[r].path)->Ok_0),
                        files[r].data.len() as int,
                        r,
                    ),
                ),
                None => match entry_from(entries, key, 0) {
                    Some(k) => if has_name(
                        removed_paths(removals, removals.len() as int)->Ok_0,
                        key,
                    ) {
                        None
                    } else {
                        Some(unchanged(entries[k]))
                    },
                    None => None,
                },
            }
        }),
{
    let paths = removed_paths(removals, removals.len() as int)->Ok_0;
    let n = archive.entries.len() as int;
    lemma_kept(archive.entries, paths, n, key);
    lemma_entry_from(archive.entries, key, 0);
    lemma_with_files(
        archive.entries,
        kept(archive.entries, paths, n),
        files,
        files.len() as int,
        key,
    );
}

/// The changed archive can be opened and holds the changed files.
proof fn lemma_edited_reopens(image: Seq<u8>, files: Seq<FileView>, removals: Seq<Seq<u8>>)
    requires
        opened(image) is Ok,
        all_paths_texts(files),
        files.len() <= usize::MAX,
        rewritten(opened(image)->Ok_0, files, removals) is Ok,
        edited_tree_fits(opened(image)->Ok_0, files, removals),
    ensures
        ({
            let archive = opened(image)->Ok_0;
            let items = edited_items(archive, files, removals);
            let changed = rewritten(archive, files, removals)->Ok_0;
            &&& archive.sound()
            &&& opened(changed) is Ok
            &&& opened(changed)->Ok_0.image == changed
            &&& opened(changed)->Ok_0.sound()
            &&& holds_files(
                opened(changed)->Ok_0,
                archive.version,
                archive.prefix,
                ordered(items, items.len() as int),
                image,
                datas_of(files),
            )
        }),
{
    let archive = opened(image)->Ok_0;
    let items = edited_items(archive, files, removals);
    let paths = removed_paths(removals, removals.len() as int)->Ok_0;
    let n = archive.entries.len() as int;
    lemma_opened_sound(image);
    lemma_edited_acceptable(image, files, paths, files.len() as int);
    lemma_kept_at_hand(archive, paths, datas_of(files), n);
    lemma_with_files_at_hand(
        archive,
        kept(archive.entries, paths, n),
        files,
        files.len() as int,
    );
    lemma_reopen(archive.version, archive.prefix, items, image, datas_of(files));
    lemma_opened_sound(rewritten(archive, files, removals)->Ok_0);
}

/// Two archives hold the same payload for two entries, encoded in the same way.
pub open spec fn same_payload(
    old_image: Seq<u8>,
    old_entry: EntryView,
    new_image: Seq<u8>,
    new_entry: EntryView,
) -> bool {
    &&& same_name(old_entry.path, new_entry.path)
    &&& old_entry.compression == new_entry.compression
    &&& old_entry.size == new_entry.size
    &&& old_entry.stored_size == new_entry.stored_size
    &&& stored_bytes(old_image, old_entry) == stored_bytes(new_image, new_entry)
}

/// An unchanged entry keeps its stored bytes and its compression mode.
pub proof fn lemma_rewritten_keeps(
    image: Seq<u8>,
    files: Seq<FileView>,
    removals: Seq<Seq<u8>>,
    k: int,
) -> (j: int)
    requires
        opened(image) is Ok,
        all_paths_texts(files),
        files.len() <= usize::MAX,
        rewritten(opened(image)->Ok_0, files, removals) is Ok,
        edited_tree_fits(opened(image)->Ok_0, files, removals),
        0 <= k < opened(image)->Ok_0.entries.len(),
        last_named(files, opened(image)->Ok_0.entries[k].path, files.len() as int) is None,
        !has_name(
            removed_paths(removals, removals.len() as int)->Ok_0,
            opened(image)->Ok_0.entries[k].path,
        ),
    ensures
        ({
            let archive = opened(image)->Ok_0;
            let changed = rewritten(archive, files, removals)->Ok_0;
            &&& opened(changed) is Ok
            &&& 0 <= j < opened(changed)->Ok_0.entries.len()
            &&& same_payload(
                image,
                archive.entries[k],
                changed,
                opened(changed)->Ok_0.entries[j],
            )
        }),
{
    let archive = opened(image)->Ok_0;
    let items = edited_items(archive, files, removals);
    let key = archive.entries[k].path;
    let changed = rewritten(archive, files, removals)->Ok_0;
    lemma_edited_reopens(image, files, removals);
    lemma_edited_item(archive, files, removals, key);
    lemma_unique_entry(archive.entries, k, key);
    lemma_item_from(items, key, 0);
    let i = item_from(items, key, 0)->0;
    assert(items[i] == unchanged(archive.entries[k]));
    let j = lemma_in_ordered(items, i);
    let view = opened(changed)->Ok_0;
    assert(entry_is(
        changed,
        view.entries[j],
        ordered(items, items.len() as int)[j],
        payload_of(ordered(items, items.len() as int)[j], image, datas_of(files)),
    ));
    assert(in_image(archive.entries[k], image));
    j
}

/// A file that is put is stored as it is: the last one that was put under a path.
pub proof fn lemma_rewritten_plain(
    image: Seq<u8>,
    files: Seq<FileView>,
    removals: Seq<Seq<u8>>,
    r: int,
) -> (j: int)
    requires
        opened(image) is Ok,
        all_paths_texts(files),
        files.len() <= usize::MAX,
        rewritten(opened(image)->Ok_0, files, removals) is Ok,
        edited_tree_fits(opened(image)->Ok_0, files, removals),
        0 <= r < files.len(),
        normalized(files[r].path) matches Ok(path) && last_named(
            files,
            path,
            files.len() as int,
        ) == Some(r),
    ensures
        ({
            let changed = rewritten(opened(image)->Ok_0, files, removals)->Ok_0;
            let entry = opened(changed)->Ok_0.entries[j];
            &&& opened(changed) is Ok
            &&& 0 <= j < opened(changed)->Ok_0.entries.len()
            &&& same_name(entry.path, normalized(files[r].path)->Ok_0)
            &&& entry.compression == Compression::Plain
            &&& entry.size == files[r].data.len()
            &&& entry.stored_size == files[r].data.len()
            &&& stored_bytes(changed, entry) == files[r].data
        }),
{
    let archive = opened(image)->Ok_0;
    let items = edited_items(archive, files, removals);
    let sorted = ordered(items, items.len() as int);
    let key = normalized(files[r].path)->Ok_0;
    let changed = rewritten(archive, files, removals)->Ok_0;
    lemma_edited_reopens(image, files, removals);
    lemma_edited_item(archive, files, removals, key);
    lemma_item_from(items, key, 0);
    let i = item_from(items, key, 0)->0;
    let j = lemma_in_ordered(items, i);
    assert(entry_is(
        changed,
        opened(changed)->Ok_0.entries[j],
        sorted[j],
        payload_of(sorted[j], image, datas_of(files)),
    ));
    assert((r as usize) as int == r);
    j
}

/// The names in a changed archive are those it had, less those that were removed, and those of
/// the files that were put. Case does not matter.
pub proof fn lemma_rewritten_names(
    image: Seq<u8>,
    files: Seq<FileView>,
    removals: Seq<Seq<u8>>,
    key: Seq<u8>,
)
    requires
        opened(image) is Ok,
        all_paths_texts(files),
        files.len() <= usize::MAX,
        rewritten(opened(image)->Ok_0, files, removals) is Ok,
        edited_tree_fits(opened(image)->Ok_0, files, removals),
    ensures
        ({
            let archive = opened(image)->Ok_0;
            let changed = rewritten(archive, files, removals)->Ok_0;
            let removed = removed_paths(removals, removals.len() as int)->Ok_0;
            let put = last_named(files, key, files.len() as int) is Some;
            let held = has_name(names_of(archive.entries), key);
            &&& opened(changed) is Ok
            &&& has_name(names_of(opened(changed)->Ok_0.entries), key) == (put || held
                && !has_name(removed, key))
        }),
{
    let archive = opened(image)->Ok_0;
    let items = edited_items(archive, files, removals);
    let sorted = ordered(items, items.len() as int);
    let changed = rewritten(archive, files, removals)->Ok_0;
    lemma_edited_reopens(image, files, removals);
    lemma_edited_item(archive, files, removals, key);
    lemma_item_from(items, key, 0);
    lemma_has_entry(archive.entries, key);
    let view = opened(changed)->Ok_0;
    let names = names_of(view.entries);
    if has_name(names, key) {
        let j = choose|j: int| 0 <= j < names.len() && same_name(#[trigger] names[j], key);
        assert(entry_is(
            changed,
            view.entries[j],
            sorted[j],
            payload_of(sorted[j], image, datas_of(files)),
        ));
        let i = lemma_from_ordered(items, j);
        assert(same_name(items[i].path, key));
        assert(item_from(items, key, 0) is Some);
    }
    if let Some(i) = item_from(items, key, 0) {
        let j = lemma_in_ordered(items, i);
        assert(entry_is(
            changed,
            view.entries[j],
            sorted[j],
            payload_of(sorted[j], image, datas_of(files)),
        ));
        assert(same_name(names[j], key));
    }
}

/// The paths of entries.
pub open spec fn names_of(entries: Seq<EntryView>) -> Seq<Seq<u8>> {
    Seq::new(entries.len(), |i: int| entries[i].path)
}

proof fn lemma_has_entry(entries: Seq<EntryView>, key: Seq<u8>)
    ensures
        has_name(names_of(entries), key) == (entry_from(entries, key, 0) is Some),
{
    let names = names_of(entries);
    lemma_entry_from(entries, key, 0);
    if has_name(names, key) {
        let i = choose|i: int| 0 <= i < names.len() && same_name(#[trigger] names[i], key);
        assert(same_name(entries[i].path, key));
    }
    if let Some(k) = entry_from(entries, key, 0) {
        assert(same_name(names[k], key));
    }
}

/// An edited archive that can be opened has a tree that can be read.
pub proof fn lemma_edited_fits(image: Seq<u8>, files: Seq<FileView>, removals: Seq<Seq<u8>>)
    requires
        opened(image) is Ok,
        files.len() <= usize::MAX,
        rewritten(opened(image)->Ok_0, files, removals) is Ok,
        opened(rewritten(opened(image)->Ok_0, files, removals)->Ok_0) is Ok,
    ensures
        edited_tree_fits(opened(image)->Ok_0, files, removals),
{
    let archive = opened(image)->Ok_0;
    let items = edited_items(archive, files, removals);
    let paths = removed_paths(removals, removals.len() as int)->Ok_0;
    let n = archive.entries.len() as int;
    lemma_opened_sound(image);
    lemma_kept_at_hand(archive, paths, datas_of(files), n);
    lemma_with_files_at_hand(
        archive,
        kept(archive.entries, paths, n),
        files,
        files.len() as int,
    );
    lemma_reopened_fits(archive.version, archive.prefix, items, image, datas_of(files));
}

/// The files of a rebuilt archive.
pub open spec fn rebuilt(archive: ArchiveView, files: Seq<FileView>) -> Seq<PendingView> {
    rebuilt_items(
        archive,
        collected(files, files.len() as int)->Ok_0,
        files,
        files.len() as int,
    )->Ok_0
}

/// The tree of the rebuilt archive's files can be read.
pub open spec fn rebuilt_tree_fits(archive: ArchiveView, files: Seq<FileView>) -> bool {
    let items = rebuilt(archive, files);
    tree_fits(paths_of(ordered(items, items.len() as int)))
}

/// A rebuilt archive that can be opened has a tree that can be read.
pub proof fn lemma_rebuilt_fits(image: Seq<u8>, files: Seq<FileView>)
    requires
        opened(image) is Ok,
        files.len() <= usize::MAX,
        repacked(opened(image)->Ok_0, files) is Ok,
        opened(repacked(opened(image)->Ok_0, files)->Ok_0) is Ok,
    ensures
        rebuilt_tree_fits(opened(image)->Ok_0, files),
{
    let archive = opened(image)->Ok_0;
    let n = files.len() as int;
    let plain = collected(files, n)->Ok_0;
    lemma_opened_sound(image);
    lemma_collected(files, n);
    lemma_rebuilt_at_hand(archive, plain, files, n);
    lemma_reopened_fits(
        archive.version,
        archive.prefix,
        rebuilt(archive, files),
        image,
        datas_of(files),
    );
}

/// Each rebuilt file is made from the one with its number.
pub proof fn lemma_rebuilt(
    archive: ArchiveView,
    items: Seq<PendingView>,
    files: Seq<FileView>,
    n: int,
)
    requires
        0 <= n <= files.len(),
        rebuilt_items(archive, items, files, n) is Ok,
    ensures
        rebuilt_items(archive, items, files, n)->Ok_0.len() == n,
        forall|i: int|
            0 <= i < n ==> rebuilt_item(archive, items[i], files[i].data) == Ok::<
                PendingView,
                ErrorView,
            >(#[trigger] rebuilt_items(archive, items, files, n)->Ok_0[i]),
    decreases n,
{
    if n > 0 {
        lemma_rebuilt(archive, items, files, n - 1);
        let before = rebuilt_items(archive, items, files, n - 1)->Ok_0;
        let after = rebuilt_items(archive, items, files, n)->Ok_0;
        assert forall|i: int| 0 <= i < n implies rebuilt_item(archive, items[i], files[i].data)
            == Ok::<PendingView, ErrorView>(#[trigger] after[i]) by {
            if i < n - 1 {
                assert(after[i] == before[i]);
            }
        }
    }
}

/// A rebuilt archive can be opened and holds the rebuilt files.
proof fn lemma_rebuilt_reopens(image: Seq<u8>, files: Seq<FileView>)
    requires
        opened(image) is Ok,
        all_paths_texts(files),
        files.len() <= usize::MAX,
        repacked(opened(image)->Ok_0, files) is Ok,
        rebuilt_tree_fits(opened(image)->Ok_0, files),
    ensures
        ({
            let archive = opened(image)->Ok_0;
            let items = rebuilt(archive, files);
            let plain = collected(files, files.len() as int)->Ok_0;
            let changed = repacked(archive, files)->Ok_0;
            &&& archive.sound()
            &&& items.len() == files.len()
            &&& forall|i: int|
                0 <= i < files.len() ==> rebuilt_item(archive, plain[i], files[i].data) == Ok::<
                    PendingView,
                    ErrorView,
                >(#[trigger] items[i])
            &&& forall|i: int|
                0 <= i < files.len() ==> normalized(files[i].path) is Ok && (
                #[trigger] plain[i]) == plain_item(
                    normalized(files[i].path)->Ok_0,
                    files[i].data.len() as int,
                    i,
                )
            &&& opened(changed) is Ok
            &&& opened(changed)->Ok_0.image == changed
            &&& opened(changed)->Ok_0.sound()
            &&& holds_files(
                opened(changed)->Ok_0,
                archive.version,
                archive.prefix,
                ordered(items, items.len() as int),
                image,
                datas_of(files),
            )
        }),
{
    let archive = opened(image)->Ok_0;
    let n = files.len() as int;
    let plain = collected(files, n)->Ok_0;
    let items = rebuilt(archive, files);
    lemma_opened_sound(image);
    lemma_opened_clean(image);
    lemma_collected(files, n);
    lemma_rebuilt(archive, plain, files, n);
    lemma_rebuilt_at_hand(archive, plain, files, n);
    assert forall|i: int| 0 <= i < items.len() implies acceptable_item(#[trigger] items[i]) by {
        assert(rebuilt_item(archive, plain[i], files[i].data) == Ok::<PendingView, ErrorView>(
            items[i],
        ));
        assert(plain[i] == plain_item(
            normalized(files[i].path)->Ok_0,
            files[i].data.len() as int,
            i,
        ));
        assert(valid_utf8(files[i].path));
        lemma_normalized_clean(files[i].path);
        lemma_normalized(files[i].path);
        lemma_entry_from(archive.entries, plain[i].path, 0);
        if let Some(k) = entry_number(archive.entries, plain[i].path) {
            assert(in_image(archive.entries[k], archive.image));
            assert(clean(archive.entries[k].path));
        }
    }
    lemma_reopen(archive.version, archive.prefix, items, image, datas_of(files));
    lemma_opened_sound(repacked(archive, files)->Ok_0);
}

/// The number of a rebuilt archive's file with a name, among the files in order.
proof fn lemma_rebuilt_place(image: Seq<u8>, files: Seq<FileView>, i: int, key: Seq<u8>) -> (j: int)
    requires
        opened(image) is Ok,
        all_paths_texts(files),
        files.len() <= usize::MAX,
        repacked(opened(image)->Ok_0, files) is Ok,
        rebuilt_tree_fits(opened(image)->Ok_0, files),
        0 <= i < files.len(),
        normalized(files[i].path) matches Ok(path) && same_name(key, path),
    ensures
        ({
            let items = rebuilt(opened(image)->Ok_0, files);
            let sorted = ordered(items, items.len() as int);
            &&& 0 <= j < sorted.len()
            &&& sorted[j] == items[i]
            &&& same_name(key, sorted[j].path)
        }),
{
    let archive = opened(image)->Ok_0;
    let plain = collected(files, files.len() as int)->Ok_0;
    let items = rebuilt(archive, files);
    lemma_rebuilt_reopens(image, files);
    assert(rebuilt_item(archive, plain[i], files[i].data) == Ok::<PendingView, ErrorView>(
        items[i],
    ));
    assert(plain[i].path == normalized(files[i].path)->Ok_0);
    lemma_normalized(files[i].path);
    lemma_entry_from(archive.entries, plain[i].path, 0);
    lemma_in_ordered(items, i)
}

/// What a rebuilt archive holds: every file, found under its path. It has the wrapper of the
/// archive that it was rebuilt from.
pub proof fn lemma_repacked_contents(
    image: Seq<u8>,
    files: Seq<FileView>,
    i: int,
    query: Seq<char>,
)
    requires
        opened(image) is Ok,
        all_paths_texts(files),
        files.len() <= usize::MAX,
        repacked(opened(image)->Ok_0, files) is Ok,
        rebuilt_tree_fits(opened(image)->Ok_0, files),
        0 <= i < files.len(),
        normalized(files[i].path) matches Ok(path) && names_path(query, path),
    ensures
        ({
            let archive = opened(image)->Ok_0;
            let changed = repacked(archive, files)->Ok_0;
            &&& opened(changed) is Ok
            &&& same_wrapper(archive, opened(changed)->Ok_0)
            &&& opened(changed)->Ok_0.entries.len() == files.len()
            &&& opened(changed)->Ok_0.contents(query) == Ok::<Seq<u8>, ErrorView>(files[i].data)
        }),
{
    let archive = opened(image)->Ok_0;
    let plain = collected(files, files.len() as int)->Ok_0;
    let items = rebuilt(archive, files);
    let sorted = ordered(items, items.len() as int);
    let changed = repacked(archive, files)->Ok_0;
    let key = normalized(encode_utf8(query))->Ok_0;
    lemma_rebuilt_reopens(image, files);
    lemma_ordered(items, items.len() as int);
    let j = lemma_rebuilt_place(image, files, i, key);
    lemma_file_contents(
        opened(changed)->Ok_0,
        archive.version,
        archive.prefix,
        sorted,
        image,
        datas_of(files),
        j,
        query,
    );
    assert(rebuilt_item(archive, plain[i], files[i].data) == Ok::<PendingView, ErrorView>(
        items[i],
    ));
    assert(plain[i] == plain_item(
        normalized(files[i].path)->Ok_0,
        files[i].data.len() as int,
        i,
    ));
    lemma_normalized(files[i].path);
    lemma_entry_from(archive.entries, plain[i].path, 0);
    if let Some(k) = entry_number(archive.entries, plain[i].path) {
        assert(in_image(archive.entries[k], archive.image));
    }
}

/// Rebuilding keeps the payload of an unchanged file byte for byte, in its encoding.
pub proof fn lemma_repacked_keeps(image: Seq<u8>, files: Seq<FileView>, i: int, k: int) -> (j: int)
    requires
        opened(image) is Ok,
        all_paths_texts(files),
        files.len() <= usize::MAX,
        repacked(opened(image)->Ok_0, files) is Ok,
        rebuilt_tree_fits(opened(image)->Ok_0, files),
        0 <= i < files.len(),
        0 <= k < opened(image)->Ok_0.entries.len(),
        normalized(files[i].path) matches Ok(path) && same_name(
            opened(image)->Ok_0.entries[k].path,
            path,
        ),
        entry_result(image, opened(image)->Ok_0.entries[k]) == Ok::<Seq<u8>, ErrorView>(
            files[i].data,
        ),
    ensures
        ({
            let archive = opened(image)->Ok_0;
            let changed = repacked(archive, files)->Ok_0;
            &&& opened(changed) is Ok
            &&& 0 <= j < opened(changed)->Ok_0.entries.len()
            &&& same_payload(
                image,
                archive.entries[k],
                changed,
                opened(changed)->Ok_0.entries[j],
            )
        }),
{
    let archive = opened(image)->Ok_0;
    let plain = collected(files, files.len() as int)->Ok_0;
    let items = rebuilt(archive, files);
    let sorted = ordered(items, items.len() as int);
    let changed = repacked(archive, files)->Ok_0;
    let entry = archive.entries[k];
    lemma_rebuilt_reopens(image, files);
    let j = lemma_rebuilt_place(image, files, i, entry.path);
    assert(rebuilt_item(archive, plain[i], files[i].data) == Ok::<PendingView, ErrorView>(
        items[i],
    ));
    lemma_normalized(files[i].path);
    assert(plain[i] == plain_item(
        normalized(files[i].path)->Ok_0,
        files[i].data.len() as int,
        i,
    ));
    lemma_unique_entry(archive.entries, k, plain[i].path);
    crate::payload::lemma_payload_size(
        entry.compression,
        stored_bytes(image, entry),
        entry.size,
    );
    assert(items[i] == unchanged(entry));
    assert(in_image(entry, image));
    assert(entry_is(
        changed,
        opened(changed)->Ok_0.entries[j],
        sorted[j],
        payload_of(sorted[j], image, datas_of(files)),
    ));
    j
}

/// A rebuilt archive holds no other files than those it was rebuilt from.
pub proof fn lemma_repacked_missing(image: Seq<u8>, files: Seq<FileView>, query: Seq<char>)
    requires
        opened(image) is Ok,
        all_paths_texts(files),
        files.len() <= usize::MAX,
        repacked(opened(image)->Ok_0, files) is Ok,
        rebuilt_tree_fits(opened(image)->Ok_0, files),
        forall|i: int|
            0 <= i < files.len() ==> !(normalized((#[trigger] files[i]).path) matches Ok(path)
                && names_path(query, path)),
    ensures
        ({
            let changed = repacked(opened(image)->Ok_0, files)->Ok_0;
            &&& opened(changed) is Ok
            &&& opened(changed)->Ok_0.contents(query) == Err::<Seq<u8>, ErrorView>(
                ErrorView::MissingEntry(query),
            )
        }),
{
    let archive = opened(image)->Ok_0;
    let plain = collected(files, files.len() as int)->Ok_0;
    let items = rebuilt(archive, files);
    let sorted = ordered(items, items.len() as int);
    lemma_rebuilt_reopens(image, files);
    assert forall|j: int| 0 <= j < sorted.len() implies !names_path(
        query,
        (#[trigger] sorted[j]).path,
    ) by {
        let i = lemma_from_ordered(items, j);
        assert(rebuilt_item(archive, plain[i], files[i].data) == Ok::<PendingView, ErrorView>(
            items[i],
        ));
        let path = normalized(files[i].path)->Ok_0;
        assert(plain[i] == plain_item(path, files[i].data.len() as int, i));
        lemma_normalized(files[i].path);
        lemma_entry_from(archive.entries, path, 0);
        assert(same_name(items[i].path, path));
        assert(!names_path(query, path));
    }
    lemma_file_missing(
        opened(repacked(archive, files)->Ok_0)->Ok_0,
        archive.version,
        archive.prefix,
        sorted,
        image,
        datas_of(files),
        query,
    );
}

/// Rebuilding stores edited and added files as they are.
pub proof fn lemma_repacked_plain(image: Seq<u8>, files: Seq<FileView>, i: int) -> (j: int)
    requires
        opened(image) is Ok,
        all_paths_texts(files),
        files.len() <= usize::MAX,
        repacked(opened(image)->Ok_0, files) is Ok,
        rebuilt_tree_fits(opened(image)->Ok_0, files),
        0 <= i < files.len(),
        normalized(files[i].path) is Ok,
        match entry_number(opened(image)->Ok_0.entries, files[i].path) {
            Some(k) => entry_result(image, opened(image)->Ok_0.entries[k]) != Ok::<
                Seq<u8>,
                ErrorView,
            >(files[i].data),
            None => true,
        },
    ensures
        ({
            let changed = repacked(opened(image)->Ok_0, files)->Ok_0;
            let entry = opened(changed)->Ok_0.entries[j];
            &&& opened(changed) is Ok
            &&& 0 <= j < opened(changed)->Ok_0.entries.len()
            &&& same_name(entry.path, normalized(files[i].path)->Ok_0)
            &&& entry.compression == Compression::Plain
            &&& entry.size == files[i].data.len()
            &&& stored_bytes(changed, entry) == files[i].data
        }),
{
    let archive = opened(image)->Ok_0;
    let plain = collected(files, files.len() as int)->Ok_0;
    let items = rebuilt(archive, files);
    let sorted = ordered(items, items.len() as int);
    let changed = repacked(archive, files)->Ok_0;
    let path = normalized(files[i].path)->Ok_0;
    lemma_rebuilt_reopens(image, files);
    assert(rebuilt_item(archive, plain[i], files[i].data) == Ok::<PendingView, ErrorView>(
        items[i],
    ));
    assert(plain[i] == plain_item(path, files[i].data.len() as int, i));
    lemma_normalized(files[i].path);
    lemma_entry_from(archive.entries, path, 0);
    assert(same_name(items[i].path, path));
    let j = lemma_in_ordered(items, i);
    assert(entry_is(
        changed,
        opened(changed)->Ok_0.entries[j],
        sorted[j],
        payload_of(sorted[j], image, datas_of(files)),
    ));
    assert((i as usize) as int == i);
    j
}

} // verus!
