//! Why an archive is not written.

use super::success::lemma_no_bad;
use crate::edit::with_file;
use crate::entry::EntryView;
use crate::error::ErrorView;
use crate::order::{lemma_ordered, ordered};
use crate::pack::collected_item;
use crate::pending::{paths_of, PendingView};
use crate::text::{normalized, path_hash, same_name};
use crate::tree::tree_nodes;
use crate::writer::{bad_item, collision, end_of, written};
use vstd::prelude::*;
use vstd::utf8::decode_utf8;

verus! {

/// Files are not written, for a reason that is told in words.
pub open spec fn not_written(
    version: int,
    prefix: Seq<u8>,
    items: Seq<PendingView>,
    original: Seq<u8>,
    files: Seq<Seq<u8>>,
    why: Seq<char>,
) -> bool {
    written(version, prefix, items, original, files) == Err::<Seq<u8>, ErrorView>(
        ErrorView::InvalidInput(why),
    )
}

/// An archive holds at most 32767 files.
pub proof fn lemma_too_many(
    version: int,
    prefix: Seq<u8>,
    items: Seq<PendingView>,
    original: Seq<u8>,
    files: Seq<Seq<u8>>,
)
    requires
        items.len() > 32767,
    ensures
        not_written(version, prefix, items, original, files, "too many DAT files"@),
{
    reveal(written);
}

/// The index has to start in front of the second GiB's end.
pub proof fn lemma_too_far(
    version: int,
    prefix: Seq<u8>,
    items: Seq<PendingView>,
    original: Seq<u8>,
    files: Seq<Seq<u8>>,
)
    requires
        items.len() <= 32767,
        ({
            let sorted = ordered(items, items.len() as int);
            &&& forall|i: int|
                0 <= i < sorted.len() ==> normalized((#[trigger] sorted[i]).path) is Ok
            &&& forall|i: int, j: int|
                #![trigger sorted[i], sorted[j]]
                0 <= i < j < sorted.len() ==> path_hash(sorted[i].path) != path_hash(
                    sorted[j].path,
                )
            &&& tree_nodes(paths_of(sorted)) is Ok
            &&& end_of(sorted, prefix.len() as int, sorted.len() as int) >= 0x8000_0000
        }),
    ensures
        not_written(
            version,
            prefix,
            items,
            original,
            files,
            "DAT index exceeds the game's 2 GiB loader limit"@,
        ),
{
    reveal(written);
    lemma_ordered(items, items.len() as int);
    lemma_no_bad(ordered(items, items.len() as int), 0);
}

proof fn lemma_none_bad(items: Seq<PendingView>, i: int, n: int)
    requires
        0 <= i <= n <= items.len(),
        forall|k: int| 0 <= k < n ==> normalized((#[trigger] items[k]).path) is Ok,
        forall|a: int, b: int|
            #![trigger items[a], items[b]]
            0 <= a < b < n ==> !same_name(items[a].path, items[b].path),
    ensures
        bad_item(items, i) == bad_item(items, n),
    decreases n - i,
{
    if i < n {
        assert(normalized(items[i].path) is Ok);
        assert forall|j: int| 0 <= j < i implies !same_name(#[trigger] items[j].path, items[i].path) by {
            let a = items[j];
            let b = items[i];
        }
        lemma_none_bad(items, i + 1, n);
    }
}

proof fn lemma_no_clash_before(items: Seq<PendingView>, i: int, n: int)
    requires
        0 <= i <= n < items.len() - 1,
        forall|a: int, b: int|
            #![trigger items[a], items[b]]
            0 <= a < b <= n ==> path_hash(items[a].path) != path_hash(items[b].path),
    ensures
        collision(items, i) == collision(items, n),
    decreases n - i,
{
    if i < n {
        assert(path_hash(items[i].path) != path_hash(items[i + 1].path));
        lemma_no_clash_before(items, i + 1, n);
    }
}

/// Two files with one name, in any case, are not written: the later one of the first two is named.
pub proof fn lemma_same_names(
    version: int,
    prefix: Seq<u8>,
    items: Seq<PendingView>,
    original: Seq<u8>,
    files: Seq<Seq<u8>>,
    i: int,
    j: int,
)
    requires
        items.len() <= 32767,
        ({
            let sorted = ordered(items, items.len() as int);
            &&& 0 <= i < j < sorted.len()
            &&& forall|k: int| 0 <= k <= j ==> normalized((#[trigger] sorted[k]).path) is Ok
            &&& forall|a: int, b: int|
                #![trigger sorted[a], sorted[b]]
                0 <= a < b < j ==> !same_name(sorted[a].path, sorted[b].path)
            &&& same_name(sorted[i].path, sorted[j].path)
        }),
    ensures
        not_written(
            version,
            prefix,
            items,
            original,
            files,
            "duplicate archive path: "@ + decode_utf8(
                ordered(items, items.len() as int)[j].path,
            ),
        ),
{
    reveal(written);
    let sorted = ordered(items, items.len() as int);
    lemma_ordered(items, items.len() as int);
    lemma_none_bad(sorted, 0, j);
    assert(normalized(sorted[j].path) is Ok);
    assert(same_name(sorted[i].path, sorted[j].path));
}

/// Two files with different names and one hash are not written: the first two are named.
pub proof fn lemma_same_hashes(
    version: int,
    prefix: Seq<u8>,
    items: Seq<PendingView>,
    original: Seq<u8>,
    files: Seq<Seq<u8>>,
    i: int,
)
    requires
        items.len() <= 32767,
        ({
            let sorted = ordered(items, items.len() as int);
            &&& 0 <= i < sorted.len() - 1
            &&& forall|k: int|
                0 <= k < sorted.len() ==> normalized((#[trigger] sorted[k]).path) is Ok
            &&& forall|a: int, b: int|
                #![trigger sorted[a], sorted[b]]
                0 <= a < b < sorted.len() ==> !same_name(sorted[a].path, sorted[b].path)
            &&& forall|a: int, b: int|
                #![trigger sorted[a], sorted[b]]
                0 <= a < b <= i ==> path_hash(sorted[a].path) != path_hash(sorted[b].path)
            &&& path_hash(sorted[i].path) == path_hash(sorted[i + 1].path)
        }),
    ensures
        ({
            let sorted = ordered(items, items.len() as int);
            not_written(
                version,
                prefix,
                items,
                original,
                files,
                "DAT path hash collision: "@ + decode_utf8(sorted[i].path) + " and "@ + decode_utf8(
                    sorted[i + 1].path,
                ),
            )
        }),
{
    reveal(written);
    let sorted = ordered(items, items.len() as int);
    lemma_ordered(items, items.len() as int);
    lemma_none_bad(sorted, 0, sorted.len() as int);
    lemma_no_clash_before(sorted, 0, i);
}

/// A file of 2 to the power 31 bytes or more is neither put nor packed, and one of fewer is.
pub proof fn lemma_too_large(
    entries: Seq<EntryView>,
    items: Seq<PendingView>,
    path: Seq<u8>,
    size: int,
    number: int,
)
    requires
        normalized(path) is Ok,
        0 <= size,
    ensures
        size >= 0x8000_0000 <==> with_file(entries, items, path, size, number) is Err,
        size >= 0x8000_0000 <==> collected_item(path, size, number) is Err,
        size >= 0x8000_0000 ==> with_file(entries, items, path, size, number) == Err::<
            Seq<PendingView>,
            ErrorView,
        >(ErrorView::InvalidInput("replacement file exceeds DAT entry size limit"@)),
        size >= 0x8000_0000 ==> collected_item(path, size, number) == Err::<PendingView, ErrorView>(
            ErrorView::InvalidInput("file exceeds DAT entry size limit"@),
        ),
{
}

} // verus!
