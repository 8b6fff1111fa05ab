//! How the paths of a written archive are spelled.

use super::contents::lemma_unique_entry;
use super::editing::{edited_items, last_named, lemma_edited_item};
use super::hashing::lemma_parts_rejoined;
use super::identity::{lemma_fewer, lemma_found_parts};
use super::leaves::settled;
use super::paths::lemma_normalized;
use super::reopen::{
    acceptable, acceptable_item, lemma_laid_out_reopens, lemma_no_bad_item,
    lemma_ordered_acceptable, lemma_storable, tree_fits,
};
use super::tail::storable;
use crate::archive::{lemma_entry_from, opened, ArchiveView};
use crate::edit::{edited, item_from, lemma_item_from, rebuilt_item};
use crate::error::ErrorView;
use crate::index::MAX_PREFIX;
use crate::order::{lemma_ordered, ordered};
use crate::pack::FileView;
use crate::pending::{paths_of, PendingView};
use crate::text::{normalized, parts, same_name, upper};
use crate::tree::{chain, forest_of, grow, lemma_flat_len, lex_less, with_rest, Forest};
use crate::writer::{all_at_hand, lemma_ordered_at_hand, written};
use vstd::prelude::*;

verus! {

/// Two paths have the same spelling as far as they have the same components in any case, from the
/// `j`th on.
pub open spec fn spelled_alike(a: Seq<Seq<u8>>, b: Seq<Seq<u8>>, j: int) -> bool
    decreases a.len() - j,
{
    0 <= j < a.len() && j < b.len() && upper(a[j]) == upper(b[j]) ==> a[j] == b[j]
        && spelled_alike(a, b, j + 1)
}

/// All directories that are the same have one spelling.
pub open spec fn one_spelling(paths: Seq<Seq<u8>>) -> bool {
    forall|i: int, j: int|
        #![trigger paths[i], paths[j]]
        0 <= i < paths.len() && 0 <= j < paths.len() ==> spelled_alike(
            parts(paths[i]),
            parts(paths[j]),
            0,
        )
}

/// The forest spells the components from `j` on as a path does, as far as it has them.
spec fn agrees(f: Forest, path: Seq<Seq<u8>>, j: int) -> bool
    decreases path.len() - j, f,
{
    if j < 0 || j >= path.len() {
        true
    } else {
        match f {
            Forest::Nil => true,
            Forest::Node { name, child, rest, .. } => if upper(path[j]) == upper(name) {
                name == path[j] && agrees(*child, path, j + 1)
            } else {
                agrees(*rest, path, j)
            },
        }
    }
}

proof fn lemma_agrees_settled(f: Forest, path: Seq<Seq<u8>>, j: int)
    requires
        agrees(f, path, j),
        0 <= j <= path.len(),
    ensures
        settled(f, path, j) == path.skip(j),
    decreases path.len() - j, f,
{
    if j < path.len() {
        if let Forest::Node { name, child, rest, .. } = f {
            if upper(path[j]) == upper(name) {
                lemma_agrees_settled(*child, path, j + 1);
                assert(path.skip(j) =~= seq![path[j]] + path.skip(j + 1));
            } else {
                lemma_agrees_settled(*rest, path, j);
            }
        }
    } else {
        assert(path.skip(j) =~= Seq::<Seq<u8>>::empty());
    }
}

proof fn lemma_agrees_chain(a: Seq<Seq<u8>>, path: Seq<Seq<u8>>, j: int, file: nat)
    requires
        0 <= j,
        spelled_alike(a, path, j),
    ensures
        agrees(chain(a, j, file), path, j),
    decreases a.len() - j,
{
    reveal_with_fuel(agrees, 2);
    if j < a.len() && j < path.len() {
        if upper(a[j]) == upper(path[j]) {
            lemma_agrees_chain(a, path, j + 1, file);
        }
    }
}

proof fn lemma_agrees_grow(f: Forest, a: Seq<Seq<u8>>, path: Seq<Seq<u8>>, j: int, file: nat)
    requires
        0 <= j < a.len(),
        agrees(f, path, j),
        spelled_alike(a, path, j),
        grow(f, a, j, file) is Some,
    ensures
        agrees(grow(f, a, j, file)->0, path, j),
    decreases a.len() - j, f,
{
    lemma_agrees_chain(a, path, j, file);
    if j < path.len() {
        if let Forest::Node { name, child, rest, .. } = f {
            if upper(a[j]) == upper(name) {
                if j < a.len() - 1 && upper(path[j]) == upper(name) {
                    lemma_agrees_grow(*child, a, path, j + 1, file);
                }
            } else if lex_less(upper(a[j]), upper(name)) {
                let own = chain(a, j, file);
                let whole = with_rest(own, f);
                assert(agrees(whole, path, j));
            } else {
                if upper(path[j]) != upper(name) {
                    lemma_agrees_grow(*rest, a, path, j, file);
                }
            }
        }
    }
}

proof fn lemma_forest_agrees(paths: Seq<Seq<u8>>, n: int, k: int)
    requires
        one_spelling(paths),
        0 <= n <= paths.len(),
        0 <= k < paths.len(),
        forest_of(paths, n) is Some,
    ensures
        agrees(forest_of(paths, n)->0, parts(paths[k]), 0),
    decreases n,
{
    if n > 0 {
        lemma_fewer(paths, n - 1, n);
        lemma_forest_agrees(paths, n - 1, k);
        lemma_parts_rejoined(paths[n - 1]);
        assert(spelled_alike(parts(paths[n - 1]), parts(paths[k]), 0));
        lemma_agrees_grow(
            forest_of(paths, n - 1)->0,
            parts(paths[n - 1]),
            parts(paths[k]),
            0,
            (n - 1) as nat,
        );
    }
}

/// Where directories that are the same have one spelling, a written archive has every path as it
/// was given, letter by letter.
pub proof fn lemma_written_spelling(
    version: int,
    prefix: Seq<u8>,
    items: Seq<PendingView>,
    original: Seq<u8>,
    files: Seq<Seq<u8>>,
)
    requires
        version == -3 || version == -5,
        8 <= prefix.len() <= MAX_PREFIX,
        all_at_hand(items, original, files),
        acceptable(items),
        tree_fits(paths_of(ordered(items, items.len() as int))),
        written(version, prefix, items, original, files) is Ok,
        one_spelling(paths_of(ordered(items, items.len() as int))),
    ensures
        ({
            let image = written(version, prefix, items, original, files)->Ok_0;
            let sorted = ordered(items, items.len() as int);
            &&& opened(image) is Ok
            &&& opened(image)->Ok_0.entries.len() == sorted.len() == items.len()
            &&& forall|i: int|
                0 <= i < items.len() ==> (#[trigger] opened(image)->Ok_0.entries[i]).path
                    == sorted[i].path
        }),
{
    reveal(written);
    let n = items.len() as int;
    let sorted = ordered(items, n);
    let paths = paths_of(sorted);
    lemma_ordered(items, n);
    lemma_ordered_at_hand(items, n, original, files);
    lemma_ordered_acceptable(items, n);
    let f = forest_of(paths, n)->0;
    lemma_flat_len(f, 1);
    lemma_laid_out_reopens(version, prefix, sorted, original, files, f);
    lemma_no_bad_item(sorted, 0);
    let image = written(version, prefix, items, original, files)->Ok_0;
    let entries = opened(image)->Ok_0.entries;
    assert forall|i: int| 0 <= i < paths.len() implies storable(#[trigger] paths[i]) by {
        assert(acceptable_item(sorted[i]));
        lemma_storable(sorted[i].path);
    }
    assert forall|i: int| 0 <= i < n implies (#[trigger] entries[i]).path == sorted[i].path by {
        lemma_found_parts(paths, f, i);
        lemma_forest_agrees(paths, i, i);
        let path = parts(paths[i]);
        lemma_agrees_settled(forest_of(paths, i)->0, path, 0);
        assert(path.skip(0) =~= path);
        lemma_parts_rejoined(paths[i]);
        lemma_parts_rejoined(entries[i].path);
    }
}

/// A file that is put in the place of another, in any case, gets the path of that one, letter by
/// letter; one that is new gets the path under which it is put.
pub proof fn lemma_put_spelling(
    archive: ArchiveView,
    files: Seq<FileView>,
    removals: Seq<Seq<u8>>,
    r: int,
    k: int,
) -> (i: int)
    requires
        archive.sound(),
        edited(archive.entries, files, removals) is Ok,
        0 <= r < files.len(),
        normalized(files[r].path) matches Ok(path) && last_named(
            files,
            path,
            files.len() as int,
        ) == Some(r),
    ensures
        ({
            let items = edited_items(archive, files, removals);
            let path = normalized(files[r].path)->Ok_0;
            let entries = archive.entries;
            &&& 0 <= i < items.len()
            &&& same_name(items[i].path, path)
            &&& 0 <= k < entries.len() && same_name(entries[k].path, path) ==> items[i].path
                == entries[k].path
            &&& (forall|m: int|
                0 <= m < entries.len() ==> !same_name((#[trigger] entries[m]).path, path))
                ==> items[i].path == path
        }),
{
    let items = edited_items(archive, files, removals);
    let path = normalized(files[r].path)->Ok_0;
    lemma_edited_item(archive, files, removals, path);
    lemma_item_from(items, path, 0);
    lemma_normalized(files[r].path);
    lemma_entry_from(archive.entries, path, 0);
    if 0 <= k < archive.entries.len() && same_name(archive.entries[k].path, path) {
        lemma_unique_entry(archive.entries, k, path);
    }
    item_from(items, path, 0)->0
}

/// A file that stands for an entry when an archive is rebuilt, in any case, gets the path of that
/// entry, letter by letter; one that is new is taken as it is.
pub proof fn lemma_rebuilt_spelling(
    archive: ArchiveView,
    item: PendingView,
    data: Seq<u8>,
    k: int,
)
    requires
        archive.sound(),
        normalized(item.path) == Ok::<Seq<u8>, ErrorView>(item.path),
        rebuilt_item(archive, item, data) is Ok,
    ensures
        ({
            let found = rebuilt_item(archive, item, data)->Ok_0;
            let entries = archive.entries;
            &&& 0 <= k < entries.len() && same_name(entries[k].path, item.path) ==> found.path
                == entries[k].path
            &&& (forall|m: int|
                0 <= m < entries.len() ==> !same_name((#[trigger] entries[m]).path, item.path))
                ==> found == item
        }),
{
    lemma_entry_from(archive.entries, item.path, 0);
    if 0 <= k < archive.entries.len() && same_name(archive.entries[k].path, item.path) {
        lemma_unique_entry(archive.entries, k, item.path);
    }
}

} // verus!
