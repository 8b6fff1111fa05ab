//! When packing and editing succeed.

use super::editing::edited_items;
use super::layout::node_span;
use super::tail::{lemma_hashes_bytes_len, lemma_infos_bytes_len, lemma_nodes_bytes_len};
use crate::archive::{entry_bytes, entry_number, ArchiveView};
use crate::edit::{
    datas_of, edited, kept, rebuilt_item, rebuilt_items, removed_paths, repacked, rewritten,
    with_files,
};
use crate::entry::{format_version, EntryView, Format};
use crate::error::ErrorView;
use crate::index::node_width;
use crate::order::{lemma_ordered, ordered};
use crate::pack::{collected, new_prefix, packed, repeated, stored_datas, stored_items, FileView};
use crate::pending::{paths_of, PendingView};
use crate::text::{lemma_same_name_hash, normalized, parts, path_hash, same_name, upper};
use crate::tree::{chain, count, forest_of, grow, lemma_flat_len, name_table, tree_nodes, Forest};
use crate::writer::{bad_item, collision, end_of, index_bytes, layout, written};
use vstd::prelude::*;

verus! {

/// Components in upper case, from the `j`th on.
pub open spec fn uppers(path: Seq<Seq<u8>>, j: int) -> Seq<Seq<u8>> {
    Seq::new((path.len() - j) as nat, |k: int| upper(path[j + k]))
}

/// One path is the other, or a directory of it.
pub open spec fn clash(a: Seq<Seq<u8>>, b: Seq<Seq<u8>>) -> bool {
    (forall|k: int| 0 <= k < a.len() && k < b.len() ==> #[trigger] a[k] == b[k])
}

/// The forest has a file with these components, in upper case.
spec fn has_file(f: Forest, q: Seq<Seq<u8>>) -> bool
    decreases f,
{
    match f {
        Forest::Nil => false,
        Forest::Node { name, file, child, rest } => (q.len() > 0 && upper(name) == q[0] && (
        if q.len() == 1 {
            file is Some
        } else {
            has_file(*child, q.drop_first())
        })) || has_file(*rest, q),
    }
}

/// There is something below every directory.
spec fn full(f: Forest) -> bool
    decreases f,
{
    match f {
        Forest::Nil => true,
        Forest::Node { file, child, rest, .. } => (file is Some || *child != Forest::Nil) && full(
            *child,
        ) && full(*rest),
    }
}

proof fn lemma_some_file(f: Forest) -> (q: Seq<Seq<u8>>)
    requires
        full(f),
        f != Forest::Nil,
    ensures
        q.len() > 0,
        has_file(f, q),
    decreases f,
{
    match f {
        Forest::Nil => Seq::empty(),
        Forest::Node { name, file, child, rest } => {
            if file is Some {
                let q = seq![upper(name)];
                q
            } else {
                let below = lemma_some_file(*child);
                let q = seq![upper(name)] + below;
                assert(q.drop_first() =~= below);
                q
            }
        },
    }
}

proof fn lemma_chain_files(path: Seq<Seq<u8>>, j: int, file: nat, q: Seq<Seq<u8>>)
    requires
        0 <= j < path.len(),
    ensures
        full(chain(path, j, file)),
        chain(path, j, file) != Forest::Nil,
        has_file(chain(path, j, file), q) ==> q == uppers(path, j),
        count(chain(path, j, file)) == path.len() - j,
    decreases path.len() - j,
{
    reveal_with_fuel(has_file, 2);
    reveal_with_fuel(full, 2);
    reveal_with_fuel(count, 2);
    assert(chain(path, path.len() as int, file) == Forest::Nil);
    if j + 1 < path.len() {
        lemma_chain_files(path, j + 1, file, q.drop_first());
        if has_file(chain(path, j, file), q) {
            assert(q =~= seq![q[0]] + q.drop_first());
            assert(uppers(path, j) =~= seq![upper(path[j])] + uppers(path, j + 1));
        }
    } else {
        if has_file(chain(path, j, file), q) {
            assert(q =~= uppers(path, j));
        }
    }
}

/// A file that is added is the only one that comes to a forest.
proof fn lemma_grow_files(f: Forest, path: Seq<Seq<u8>>, j: int, file: nat, q: Seq<Seq<u8>>)
    requires
        full(f),
        0 <= j < path.len(),
    ensures
        grow(f, path, j, file) matches Some(g) ==> full(g) && g != Forest::Nil && (has_file(g, q)
            ==> has_file(f, q) || q == uppers(path, j)) && count(g) <= count(f) + path.len() - j,
    decreases path.len() - j, f,
{
    lemma_chain_files(path, j, file, q);
    match f {
        Forest::Nil => {},
        Forest::Node { name, file: old_file, child, rest } => {
            if upper(path[j]) == upper(name) {
                if j >= path.len() - 1 {
                    assert(uppers(path, j) =~= seq![upper(name)]);
                    if q.len() == 1 && q[0] == upper(name) {
                        assert(q =~= uppers(path, j));
                    }
                } else {
                    lemma_grow_files(*child, path, j + 1, file, q.drop_first());
                    assert(uppers(path, j) =~= seq![upper(path[j])] + uppers(path, j + 1));
                    if q.len() > 0 {
                        assert(q =~= seq![q[0]] + q.drop_first());
                    }
                }
            } else {
                lemma_grow_files(*rest, path, j, file, q);
            }
        },
    }
}

/// A file cannot be added only where its path clashes with that of another.
proof fn lemma_grow_fails(f: Forest, path: Seq<Seq<u8>>, j: int, file: nat) -> (q: Seq<Seq<u8>>)
    requires
        full(f),
        0 <= j < path.len(),
        grow(f, path, j, file) is None,
    ensures
        q.len() > 0,
        has_file(f, q),
        clash(q, uppers(path, j)),
    decreases path.len() - j, f,
{
    let mine = uppers(path, j);
    match f {
        Forest::Nil => Seq::empty(),
        Forest::Node { name, file: old_file, child, rest } => {
            if upper(path[j]) == upper(name) {
                if old_file is Some {
                    let q = seq![upper(name)];
                    assert(mine[0] == upper(path[j]));
                    q
                } else if j >= path.len() - 1 {
                    let below = lemma_some_file(*child);
                    let q = seq![upper(name)] + below;
                    assert(q.drop_first() =~= below);
                    assert(mine[0] == upper(path[j]));
                    q
                } else {
                    let below = lemma_grow_fails(*child, path, j + 1, file);
                    let q = seq![upper(name)] + below;
                    assert(q.drop_first() =~= below);
                    let more = uppers(path, j + 1);
                    assert(mine =~= seq![upper(path[j])] + more);
                    assert forall|k: int| 0 <= k < q.len() && k < mine.len() implies #[trigger] q[k]
                        == mine[k] by {
                        if k > 0 {
                            assert(below[k - 1] == more[k - 1]);
                        }
                    }
                    q
                }
            } else {
                lemma_grow_fails(*rest, path, j, file)
            }
        },
    }
}

/// How many components the first `n` paths have together.
pub open spec fn component_total(paths: Seq<Seq<u8>>, n: int) -> int
    decreases n,
{
    if n <= 0 {
        0
    } else {
        component_total(paths, n - 1) + parts(paths[n - 1]).len()
    }
}

proof fn lemma_forest_grows(paths: Seq<Seq<u8>>, n: int)
    requires
        0 <= n <= paths.len(),
        no_clash(paths),
    ensures
        forest_of(paths, n) matches Some(f) && full(f) && count(f) <= component_total(paths, n)
            && forall|q: Seq<Seq<u8>>| #[trigger]
            has_file(f, q) ==> exists|i: int|
                0 <= i < n && q == uppers(#[trigger] parts(paths[i]), 0),
    decreases n,
{
    if n > 0 {
        lemma_forest_grows(paths, n - 1);
        let f = forest_of(paths, n - 1)->0;
        let path = parts(paths[n - 1]);
        super::hashing::lemma_parts_rejoined(paths[n - 1]);
        if grow(f, path, 0, (n - 1) as nat) is None {
            let q = lemma_grow_fails(f, path, 0, (n - 1) as nat);
            let i = choose|i: int| 0 <= i < n - 1 && q == uppers(#[trigger] parts(paths[i]), 0);
            assert(clash(uppers(parts(paths[i]), 0), uppers(parts(paths[n - 1]), 0)));
            assert(false);
        }
        let g = forest_of(paths, n)->0;
        lemma_grow_files(f, path, 0, (n - 1) as nat, Seq::empty());
        assert forall|q: Seq<Seq<u8>>| #[trigger] has_file(g, q) implies exists|i: int|
            0 <= i < n && q == uppers(#[trigger] parts(paths[i]), 0) by {
            lemma_grow_files(f, path, 0, (n - 1) as nat, q);
            if has_file(f, q) {
                let i = choose|i: int| 0 <= i < n - 1 && q == uppers(#[trigger] parts(paths[i]), 0);
                assert(q == uppers(parts(paths[i]), 0));
            } else {
                assert(q == uppers(parts(paths[n - 1]), 0));
            }
        }
    }
}

/// No path is another one or a directory of it, whatever their case.
pub open spec fn no_clash(paths: Seq<Seq<u8>>) -> bool {
    forall|i: int, j: int|
        #![trigger paths[i], paths[j]]
        0 <= i < j < paths.len() ==> !clash(uppers(parts(paths[i]), 0), uppers(parts(paths[j]), 0))
}

/// The tree of paths can be made where no path is another one or a directory of it, and the
/// components of all paths, a root added, are no more than 32768.
pub proof fn lemma_tree_made(paths: Seq<Seq<u8>>)
    requires
        no_clash(paths),
        component_total(paths, paths.len() as int) < 0x8000,
    ensures
        tree_nodes(paths) is Ok,
        1 <= tree_nodes(paths)->Ok_0.len() <= component_total(paths, paths.len() as int) + 1,
{
    lemma_forest_grows(paths, paths.len() as int);
    let f = forest_of(paths, paths.len() as int)->0;
    lemma_flat_len(f, 1);
}

/// How long the index is.
pub open spec fn index_len(version: int, items: Seq<PendingView>) -> int {
    let nodes = tree_nodes(paths_of(items))->Ok_0;
    24 + 20 * items.len() + node_span(version, nodes.len() as int) + name_table(
        nodes,
        nodes.len() as int,
    ).len()
}

proof fn lemma_index_len(version: int, prefix_len: int, items: Seq<PendingView>)
    requires
        tree_nodes(paths_of(items)) is Ok,
    ensures
        index_bytes(version, prefix_len, items, tree_nodes(paths_of(items))->Ok_0).len()
            == index_len(version, items),
{
    reveal(index_bytes);
    let nodes = tree_nodes(paths_of(items))->Ok_0;
    lemma_infos_bytes_len(items, prefix_len, items.len() as int);
    lemma_hashes_bytes_len(items, items.len() as int);
    lemma_nodes_bytes_len(version, nodes, nodes.len() as int);
    let n = nodes.len() as int;
    if version == -5 {
        assert(node_width(version) == 12);
        assert(n * 12 == 12 * n);
    } else {
        assert(node_width(version) == 8);
        assert(n * 8 == 8 * n);
    }
}

/// Nothing stands against writing files, in order of their hashes, behind a wrapper: there are no
/// more than 32767, their paths can be taken and their hashes differ, their tree can be made, the
/// index starts no later than 2 to the power 31 less one, and is no longer than 2 to the power 32
/// less one.
pub open spec fn can_be_written(version: int, prefix_len: int, sorted: Seq<PendingView>) -> bool {
    &&& sorted.len() <= 0x7fff
    &&& forall|i: int| 0 <= i < sorted.len() ==> normalized((#[trigger] sorted[i]).path) is Ok
    &&& forall|i: int, j: int|
        #![trigger sorted[i], sorted[j]]
        0 <= i < j < sorted.len() ==> path_hash(sorted[i].path) != path_hash(sorted[j].path)
    &&& tree_nodes(paths_of(sorted)) is Ok
    &&& end_of(sorted, prefix_len, sorted.len() as int) <= 0x7fff_ffff
    &&& index_len(version, sorted) <= 0xffff_ffff
}

pub proof fn lemma_no_bad(items: Seq<PendingView>, i: int)
    requires
        0 <= i,
    ensures
        (forall|k: int| 0 <= k < items.len() ==> normalized((#[trigger] items[k]).path) is Ok) && (
        forall|a: int, b: int|
            #![trigger items[a], items[b]]
            0 <= a < b < items.len() ==> path_hash(items[a].path) != path_hash(items[b].path))
            ==> bad_item(items, i) is None && collision(items, i) is None,
    decreases items.len() - i,
{
    if i < items.len() {
        lemma_no_bad(items, i + 1);
        if (forall|k: int| 0 <= k < items.len() ==> normalized((#[trigger] items[k]).path) is Ok) && (
        forall|a: int, b: int|
            #![trigger items[a], items[b]]
            0 <= a < b < items.len() ==> path_hash(items[a].path) != path_hash(items[b].path)) {
            assert(normalized(items[i].path) is Ok);
            assert forall|j: int| 0 <= j < i implies !same_name(
                #[trigger] items[j].path,
                items[i].path,
            ) by {
                let (a, b) = (items[j], items[i]);
                assert(path_hash(items[j].path) != path_hash(items[i].path));
                if same_name(a.path, b.path) {
                    lemma_same_name_hash(a.path, b.path);
                }
            }
            if i + 1 < items.len() {
                let (a, b) = (items[i], items[i + 1]);
                assert(path_hash(items[i].path) != path_hash(items[i + 1].path));
            }
        }
    }
}

/// Writing succeeds where nothing stands against it, and only there.
pub proof fn lemma_written_ok(
    version: int,
    prefix: Seq<u8>,
    items: Seq<PendingView>,
    original: Seq<u8>,
    files: Seq<Seq<u8>>,
)
    ensures
        written(version, prefix, items, original, files) is Ok <==> can_be_written(
            version,
            prefix.len() as int,
            ordered(items, items.len() as int),
        ),
{
    reveal(written);
    let n = items.len() as int;
    let sorted = ordered(items, n);
    let prefix_len = prefix.len() as int;
    lemma_ordered(items, n);
    if tree_nodes(paths_of(sorted)) is Ok {
        lemma_index_len(version, prefix_len, sorted);
    }
    lemma_no_bad(sorted, 0);
    if written(version, prefix, items, original, files) is Ok {
        super::reopen::lemma_no_bad_item(sorted, 0);
        super::reopen::lemma_hashes_ascending(sorted);
        assert forall|i: int, j: int|
            #![trigger sorted[i], sorted[j]]
            0 <= i < j < sorted.len() implies path_hash(sorted[i].path) != path_hash(
            sorted[j].path,
        ) by {
            let h = super::tail::item_hashes(sorted);
            assert(h[i] < h[j]);
        }
    }
}

/// A file can be put under a path: the path can be taken, and the file has no more than 2 to the
/// power 31 less one bytes.
pub open spec fn can_be_put(file: FileView) -> bool {
    normalized(file.path) is Ok && file.data.len() <= 0x7fff_ffff
}

proof fn lemma_removed_ok(removals: Seq<Seq<u8>>, n: int)
    requires
        0 <= n <= removals.len(),
    ensures
        removed_paths(removals, n) is Ok <==> forall|i: int|
            0 <= i < n ==> normalized(#[trigger] removals[i]) is Ok,
        removed_paths(removals, n) matches Ok(found) ==> found.len() == n && forall|i: int|
            0 <= i < n ==> normalized(removals[i]) == Ok::<Seq<u8>, ErrorView>(#[trigger] found[i]),
    decreases n,
{
    if n > 0 {
        lemma_removed_ok(removals, n - 1);
    }
}

proof fn lemma_put_ok(
    entries: Seq<EntryView>,
    items: Seq<PendingView>,
    files: Seq<FileView>,
    n: int,
)
    requires
        0 <= n <= files.len(),
    ensures
        with_files(entries, items, files, n) is Ok <==> forall|i: int|
            0 <= i < n ==> can_be_put(#[trigger] files[i]),
    decreases n,
{
    if n > 0 {
        lemma_put_ok(entries, items, files, n - 1);
    }
}

/// Editing succeeds where nothing stands against it, and only there: all paths that are removed or
/// put can be taken, every file that is put has no more than 2 to the power 31 less one bytes, and
/// nothing stands against writing the files that the changed archive has.
pub proof fn lemma_rewritten_ok(
    archive: ArchiveView,
    files: Seq<FileView>,
    removals: Seq<Seq<u8>>,
)
    ensures
        edited(archive.entries, files, removals) is Ok <==> (forall|i: int|
            0 <= i < removals.len() ==> normalized(#[trigger] removals[i]) is Ok) && (forall|i: int|
            0 <= i < files.len() ==> can_be_put(#[trigger] files[i])),
        rewritten(archive, files, removals) is Ok <==> (forall|i: int|
            0 <= i < removals.len() ==> normalized(#[trigger] removals[i]) is Ok) && (forall|i: int|
            0 <= i < files.len() ==> can_be_put(#[trigger] files[i])) && can_be_written(
            archive.version,
            archive.prefix.len() as int,
            ordered(
                edited_items(archive, files, removals),
                edited_items(archive, files, removals).len() as int,
            ),
        ),
{
    let n = archive.entries.len() as int;
    lemma_removed_ok(removals, removals.len() as int);
    if let Ok(paths) = removed_paths(removals, removals.len() as int) {
        lemma_put_ok(
            archive.entries,
            kept(archive.entries, paths, n),
            files,
            files.len() as int,
        );
    }
    if edited(archive.entries, files, removals) is Ok {
        lemma_written_ok(
            archive.version,
            archive.prefix,
            edited_items(archive, files, removals),
            archive.image,
            datas_of(files),
        );
    }
}

proof fn lemma_collected_ok(files: Seq<FileView>, n: int)
    requires
        0 <= n <= files.len(),
    ensures
        collected(files, n) is Ok <==> forall|i: int|
            0 <= i < n ==> can_be_put(#[trigger] files[i]),
    decreases n,
{
    if n > 0 {
        lemma_collected_ok(files, n - 1);
    }
}

/// No two files have the same name, whatever its case.
pub open spec fn names_differ(files: Seq<FileView>) -> bool {
    forall|i: int, j: int|
        #![trigger files[i], files[j]]
        0 <= i < j < files.len() ==> !same_name(
            normalized(files[i].path)->Ok_0,
            normalized(files[j].path)->Ok_0,
        )
}

proof fn lemma_repeated(files: Seq<FileView>, items: Seq<PendingView>, i: int)
    requires
        0 <= i,
        items.len() == files.len(),
        forall|k: int|
            0 <= k < items.len() ==> (#[trigger] items[k]).path == normalized(
                files[k].path,
            )->Ok_0,
    ensures
        repeated(items, i) is None <==> forall|a: int, b: int|
            #![trigger files[a], files[b]]
            0 <= a < b < files.len() && i <= b ==> !same_name(
                normalized(files[a].path)->Ok_0,
                normalized(files[b].path)->Ok_0,
            ),
    decreases items.len() - i,
{
    if i < items.len() {
        lemma_repeated(files, items, i + 1);
        assert(items[i].path == normalized(files[i].path)->Ok_0);
        if exists|j: int| 0 <= j < i && same_name(#[trigger] items[j].path, items[i].path) {
            let j = choose|j: int|
                0 <= j < i && same_name(#[trigger] items[j].path, items[i].path);
            let (a, b) = (files[j], files[i]);
            assert(items[j].path == normalized(files[j].path)->Ok_0);
        } else {
            assert forall|a: int, b: int|
                #![trigger files[a], files[b]]
                0 <= a < b < files.len() && b == i implies !same_name(
                normalized(files[a].path)->Ok_0,
                normalized(files[b].path)->Ok_0,
            ) by {
                assert(items[a].path == normalized(files[a].path)->Ok_0);
                assert(!same_name(items[a].path, items[i].path));
            }
        }
    }
}

/// Packing succeeds where nothing stands against it, and only there: all files can be put, no two
/// have the same name, and nothing stands against writing them as they are stored.
pub proof fn lemma_packed_ok(files: Seq<FileView>, format: Format)
    ensures
        packed(files, format) is Ok <==> (forall|i: int|
            0 <= i < files.len() ==> can_be_put(#[trigger] files[i])) && names_differ(files)
            && can_be_written(
            format_version(format),
            new_prefix(format).len() as int,
            ordered(
                super::contents::packed_items(files, format),
                super::contents::packed_items(files, format).len() as int,
            ),
        ),
{
    let n = files.len() as int;
    lemma_collected_ok(files, n);
    if let Ok(items) = collected(files, n) {
        crate::pack::lemma_collected(files, n);
        lemma_repeated(files, items, 0);
        lemma_written_ok(
            format_version(format),
            new_prefix(format),
            stored_items(items, files, format),
            Seq::empty(),
            stored_datas(items, files, format),
        );
    }
}

/// A file can be compared with the archive that is rebuilt: where an entry has its path and its
/// size, the entry decodes.
pub open spec fn can_be_compared(archive: ArchiveView, file: FileView) -> bool {
    match entry_number(archive.entries, normalized(file.path)->Ok_0) {
        Some(k) => archive.entries[k].size == file.data.len() ==> entry_bytes(
            archive.image,
            archive.entries[k],
        ).1 is None,
        None => true,
    }
}

proof fn lemma_compared_ok(
    archive: ArchiveView,
    items: Seq<PendingView>,
    files: Seq<FileView>,
    n: int,
)
    requires
        0 <= n <= files.len(),
        items.len() == files.len(),
        forall|k: int|
            0 <= k < items.len() ==> (#[trigger] items[k]).path == normalized(
                files[k].path,
            )->Ok_0,
    ensures
        rebuilt_items(archive, items, files, n) is Ok <==> forall|i: int|
            0 <= i < n ==> can_be_compared(archive, #[trigger] files[i]),
    decreases n,
{
    if n > 0 {
        lemma_compared_ok(archive, items, files, n - 1);
        assert(items[n - 1].path == normalized(files[n - 1].path)->Ok_0);
        assert(rebuilt_item(archive, items[n - 1], files[n - 1].data) is Ok <==> can_be_compared(
            archive,
            files[n - 1],
        ));
    }
}

/// Rebuilding succeeds where nothing stands against it, and only there.
pub proof fn lemma_repacked_ok(archive: ArchiveView, files: Seq<FileView>)
    ensures
        repacked(archive, files) is Ok <==> (forall|i: int|
            0 <= i < files.len() ==> can_be_put(#[trigger] files[i])) && names_differ(files) && (
        forall|i: int| 0 <= i < files.len() ==> can_be_compared(archive, #[trigger] files[i]))
            && can_be_written(
            archive.version,
            archive.prefix.len() as int,
            ordered(
                super::editing::rebuilt(archive, files),
                super::editing::rebuilt(archive, files).len() as int,
            ),
        ),
{
    let n = files.len() as int;
    lemma_collected_ok(files, n);
    if let Ok(items) = collected(files, n) {
        crate::pack::lemma_collected(files, n);
        lemma_repeated(files, items, 0);
        lemma_compared_ok(archive, items, files, n);
        if let Ok(rebuilt) = rebuilt_items(archive, items, files, n) {
            lemma_written_ok(
                archive.version,
                archive.prefix,
                rebuilt,
                archive.image,
                datas_of(files),
            );
        }
    }
}

} // verus!
