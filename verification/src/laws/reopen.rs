//! A written archive can be opened, and holds what was written.

use super::leaves::{
    fresh, good, laid_out, leaves, lemma_noted, lemma_walk_forest, marked, node_is, noted,
};
use super::paths::{clean, lemma_clean_normalized, lemma_parts_good, lemma_parts_joined};
use super::tail::{
    infos_of, is_found, item_hashes, leaves_match, lemma_flat_bounds, lemma_flat_names,
    lemma_forest_leaves, lemma_hashes_bytes_len, lemma_hashes_read_back, lemma_holds_behind,
    lemma_infos_bytes_len, lemma_infos_read_back, lemma_nodes_bytes_len, lemma_tree_read_back,
    named, node_fits, node_names, raw_node, raw_nodes, sized, storable, tree_bytes,
};
use crate::archive::{opened, stored_bytes, ArchiveView};
use crate::bytes::{
    holds_at, le32, lemma_holds_in, lemma_i32_read_back, lemma_u32_read_back,
};
use crate::entry::EntryView;
use crate::error::ErrorView;
use crate::index::{
    all_some, ascending, entries_of, entry_for, file_part, index_of, least_offset, lemma_infos_len,
    node_width, placed, position, resolved, tree_part, unwrapped, IndexView, Info, MAX_PREFIX,
};
use crate::order::{in_order, lemma_ordered, ordered, precedes};
use crate::pending::{paths_of, PendingView};
use crate::text::{
    bad_part, lemma_same_name_hash, normalized, parts, parts_from, path_hash, same_name,
};
use crate::tree::{
    count, first, flat, flat_tree, forest_of, lemma_flat_len, name_table, tree_nodes, FlatView,
    Forest, MAX_NODES,
};
use crate::walk::{file_paths, walked};
use crate::writer::{
    aligned, all_at_hand, archive_bytes, at_hand, bad_item, body, collision, end_of, hashes_bytes,
    index_bytes, infos_bytes, layout, lemma_body_len, lemma_offsets_grow, lemma_ordered_at_hand,
    offset_of, payload_of, written, zeros, PlanView, MAX_FILES, MAX_INDEX,
};
use vstd::prelude::*;

verus! {

/// The tree of these paths is one that can be read: the number of its nodes, the root among
/// them, is a signed 16-bit integer, and the length of its name table a signed 32-bit one.
pub open spec fn tree_fits(paths: Seq<Seq<u8>>) -> bool {
    tree_nodes(paths) matches Ok(nodes) ==> nodes.len() <= i16::MAX && name_table(
        nodes,
        nodes.len() as int,
    ).len() <= i32::MAX
}

/// The sizes of the files fit their records, and the paths are texts without slashes.
pub open spec fn acceptable(items: Seq<PendingView>) -> bool {
    forall|i: int| 0 <= i < items.len() ==> acceptable_item(#[trigger] items[i])
}

pub open spec fn acceptable_item(item: PendingView) -> bool {
    sized(item) && clean(item.path)
}

/// Where no path is bad, each is one that can be stored, and no two differ only in case.
pub proof fn lemma_no_bad_item(items: Seq<PendingView>, i: int)
    requires
        bad_item(items, i) is None,
        0 <= i,
    ensures
        forall|k: int| i <= k < items.len() ==> normalized((#[trigger] items[k]).path) is Ok,
        forall|j: int, k: int|
            0 <= j < k < items.len() && i <= k ==> !same_name(
                (#[trigger] items[j]).path,
                (#[trigger] items[k]).path,
            ),
    decreases items.len() - i,
{
    if i < items.len() {
        lemma_no_bad_item(items, i + 1);
    }
}

pub proof fn lemma_storable(path: Seq<u8>)
    requires
        clean(path),
        normalized(path) is Ok,
    ensures
        storable(path),
{
    lemma_clean_normalized(path);
    assert forall|i: int| 0 <= i < parts_from(path, 0).len() implies !bad_part(
        #[trigger] parts_from(path, 0)[i],
    ) by {
        assert(parts(path)[i] == parts_from(path, 0)[i]);
    }
    lemma_parts_good(path, 0);
    assert forall|i: int| 0 <= i < parts_from(path, 0).len() implies (#[trigger] parts_from(
        path,
        0,
    )[i]).len() > 0 by {
        assert(!bad_part(parts_from(path, 0)[i]));
    }
    lemma_parts_joined(path, 0, Seq::empty());
    assert(path.subrange(0, path.len() as int) =~= path);
}

/// Files in order whose hashes do not collide have ascending hashes.
pub proof fn lemma_hashes_ascending(items: Seq<PendingView>)
    requires
        in_order(items),
        collision(items, 0) is None,
    ensures
        ascending(item_hashes(items)),
{
    let hashes = item_hashes(items);
    assert forall|i: int, j: int| 0 <= i < j < hashes.len() implies hashes[i] < hashes[j] by {
        lemma_no_collision(items, 0, i);
        assert(precedes(items[i], items[i + 1]));
        if i + 1 < j {
            assert(precedes(items[i + 1], items[j]));
        }
    }
}

proof fn lemma_no_collision(items: Seq<PendingView>, from: int, i: int)
    requires
        collision(items, from) is None,
        0 <= from <= i < items.len() - 1,
    ensures
        path_hash(items[i].path) != path_hash(items[i + 1].path),
    decreases i - from,
{
    if from < i {
        lemma_no_collision(items, from + 1, i);
    }
}

/// The paths that are found in a written tree.
pub open spec fn found_paths(f: Forest, n: nat) -> Seq<Option<Seq<u8>>> {
    noted(Seq::new(n, |i: int| None::<Seq<u8>>), leaves(f, Seq::empty()))
}

/// The nodes of a good tree can be written and read.
proof fn lemma_tree_named(f: Forest, n: int)
    requires
        good(f),
        crate::tree::files_below(f, n),
        0 <= n <= MAX_FILES,
        count(f) + 1 <= i16::MAX,
    ensures
        flat_tree(f).len() == count(f) + 1,
        named(flat_tree(f)),
        forall|i: int| 0 <= i < flat_tree(f).len() ==> node_fits(#[trigger] flat_tree(f)[i]),
{
    let nodes = flat_tree(f);
    lemma_flat_len(f, 1);
    lemma_flat_bounds(f, 1, n);
    lemma_flat_names(f, 1);
    assert(f is Node ==> count(f) >= 1);
    assert forall|i: int| 0 <= i < nodes.len() implies node_fits(#[trigger] nodes[i]) by {
        if i > 0 {
            assert(nodes[i] == flat(f, 1)[i - 1]);
        }
    }
    assert forall|i: int| 1 <= i < nodes.len() implies super::paths::good_name(
        (#[trigger] nodes[i]).name,
    ) by {
        assert(nodes[i] == flat(f, 1)[i - 1]);
    }
}

/// Reading a written tree finds the paths of its files.
proof fn lemma_paths_found(paths: Seq<Seq<u8>>, f: Forest)
    requires
        forall|i: int| 0 <= i < paths.len() ==> storable(#[trigger] paths[i]),
        paths.len() <= MAX_FILES,
        forest_of(paths, paths.len() as int) == Some(f),
        count(f) + 1 <= i16::MAX,
    ensures
        file_paths(raw_nodes(flat_tree(f)), node_names(flat_tree(f)), paths.len()) == Ok::<
            Seq<Option<Seq<u8>>>,
            ErrorView,
        >(found_paths(f, paths.len())),
        found_paths(f, paths.len()).len() == paths.len(),
        all_some(found_paths(f, paths.len())),
        forall|i: int|
            0 <= i < paths.len() ==> same_name(
                (#[trigger] found_paths(f, paths.len())[i])->0,
                paths[i],
            ),
{
    let n = paths.len();
    let root = Seq::<u8>::empty();
    let nodes = flat_tree(f);
    let raw = raw_nodes(nodes);
    let names = node_names(nodes);
    lemma_forest_leaves(paths, n as int);
    lemma_tree_named(f, n as int);
    lemma_flat_len(f, 1);
    let none = Seq::new(n, |i: int| None::<Seq<u8>>);
    let seen = Seq::new(raw.len(), |i: int| false);
    let found = leaves(f, root);
    assert(leaves_match(found, paths, n as int));
    assert(fresh(none, found));
    assert(laid_out(f, 1, raw, names)) by {
        assert forall|i: int| 0 <= i < count(f) implies node_is(
            #[trigger] raw[1 + i],
            names[1 + i],
            flat(f, 1)[i],
        ) by {
            assert(nodes[1 + i] == flat(f, 1)[i]);
            assert(node_fits(nodes[1 + i]));
            assert(raw[1 + i] == raw_node(nodes, 1 + i));
        }
    }
    let stack = Seq::<(int, Seq<u8>)>::empty();
    lemma_walk_forest(f, 1, root, stack, raw, names, seen, none);
    assert(node_fits(nodes[0]));
    assert(raw[0] == raw_node(nodes, 0));
    assert(raw[0].child == first(f, 1));
    assert(seq![(raw[0].child as int, root)] =~= stack.push((first(f, 1), root)));
    assert(walked(
        stack,
        raw,
        names,
        marked(seen, 1, 1int + count(f)),
        noted(none, found),
    ) == Ok::<Seq<Option<Seq<u8>>>, ErrorView>(noted(none, found)));
    let all = found_paths(f, n);
    if n > 0 {
        lemma_noted(none, found, 0);
    } else {
        assert(found.len() == 0);
    }
    assert forall|k: int| 0 <= k < n implies (#[trigger] all[k]) is Some && same_name(
        all[k]->0,
        paths[k],
    ) by {
        assert(is_found(found, k));
        let i = choose|i: int| 0 <= i < found.len() && (#[trigger] found[i]).0 == k;
        lemma_noted(none, found, i);
    }
}

/// Entries with the found paths and the written records.
pub open spec fn found_entries(paths: Seq<Option<Seq<u8>>>, infos: Seq<Info>) -> Seq<EntryView> {
    Seq::new(infos.len(), |i: int| entry_for(paths[i]->0, infos[i]))
}

proof fn lemma_placed_back(
    paths: Seq<Option<Seq<u8>>>,
    hashes: Seq<u32>,
    infos: Seq<Info>,
    n: int,
)
    requires
        ascending(hashes),
        paths.len() == hashes.len(),
        infos.len() == hashes.len(),
        0 <= n <= paths.len(),
        forall|i: int| 0 <= i < paths.len() ==> path_hash((#[trigger] paths[i])->0) == hashes[i],
    ensures
        placed(paths, hashes, infos, n) == Ok::<Seq<Option<EntryView>>, ErrorView>(
            Seq::new(
                hashes.len(),
                |i: int|
                    if i < n {
                        Some(entry_for(paths[i]->0, infos[i]))
                    } else {
                        None
                    },
            ),
        ),
    decreases n,
{
    if n > 0 {
        lemma_placed_back(paths, hashes, infos, n - 1);
        let k = n - 1;
        let hash = path_hash(paths[k]->0);
        assert(hashes[k] == hash);
        assert(hashes.contains(hash));
        assert(position(hashes, hash) == k) by {
            let p = position(hashes, hash);
            assert(0 <= p < hashes.len() && hashes[p] == hash);
        }
        let before = placed(paths, hashes, infos, n - 1)->Ok_0;
        assert(before[k] is None);
        assert(before.update(k, Some(entry_for(paths[k]->0, infos[k]))) =~= Seq::new(
            hashes.len(),
            |i: int|
                if i < n {
                    Some(entry_for(paths[i]->0, infos[i]))
                } else {
                    None
                },
        ));
    } else {
        assert(placed(paths, hashes, infos, 0)->Ok_0 =~= Seq::new(
            hashes.len(),
            |i: int|
                if i < 0 {
                    Some(entry_for(paths[i]->0, infos[i]))
                } else {
                    None
                },
        ));
    }
}

proof fn lemma_entries_back(paths: Seq<Option<Seq<u8>>>, hashes: Seq<u32>, infos: Seq<Info>)
    requires
        ascending(hashes),
        all_some(paths),
        paths.len() == hashes.len(),
        infos.len() == hashes.len(),
        forall|i: int| 0 <= i < paths.len() ==> path_hash((#[trigger] paths[i])->0) == hashes[i],
    ensures
        entries_of(paths, hashes, infos) == Ok::<Seq<EntryView>, ErrorView>(
            found_entries(paths, infos),
        ),
{
    lemma_placed_back(paths, hashes, infos, paths.len() as int);
    let slots = placed(paths, hashes, infos, paths.len() as int)->Ok_0;
    assert(all_some(slots));
    assert(unwrapped(slots) =~= found_entries(paths, infos));
}

/// Where the wrapper of a reopened archive ends: where the first payload starts, or the index.
pub open spec fn reopened_prefix_len(prefix_len: int, count: nat) -> int {
    if count == 0 {
        prefix_len
    } else {
        aligned(prefix_len)
    }
}

proof fn lemma_least_back(
    entries: Seq<EntryView>,
    items: Seq<PendingView>,
    prefix_len: int,
    index: int,
    n: int,
)
    requires
        0 <= n <= items.len(),
        entries.len() == items.len(),
        forall|i: int| 0 <= i < items.len() ==> 0 <= #[trigger] items[i].stored_size,
        forall|i: int|
            0 <= i < items.len() ==> (#[trigger] entries[i]).offset == offset_of(
                items,
                prefix_len,
                i,
            ),
        index == end_of(items, prefix_len, items.len() as int),
    ensures
        least_offset(entries, index, n) == if n == 0 {
            index
        } else {
            aligned(prefix_len)
        },
    decreases n,
{
    if n > 0 {
        lemma_least_back(entries, items, prefix_len, index, n - 1);
        lemma_offsets_grow(items, prefix_len, n - 1, items.len() as int);
        assert(entries[n - 1].offset == offset_of(items, prefix_len, n - 1));
        if n > 1 {
            lemma_offsets_grow(items, prefix_len, 0, n - 1);
            assert(offset_of(items, prefix_len, 0) == aligned(prefix_len));
        }
    }
}

/// The parts of joined byte strings.
pub proof fn lemma_five_parts(a: Seq<u8>, b: Seq<u8>, c: Seq<u8>, d: Seq<u8>, e: Seq<u8>)
    ensures
        ({
            let s = a + b + c + d + e;
            &&& holds_at(s, 0, a)
            &&& holds_at(s, a.len() as int, b)
            &&& holds_at(s, a.len() as int + b.len(), c)
            &&& holds_at(s, a.len() as int + b.len() + c.len(), d)
            &&& holds_at(s, a.len() as int + b.len() + c.len() + d.len(), e)
        }),
{
    let s = a + b + c + d + e;
    let (i, j, k, l) = (
        a.len() as int,
        (a.len() + b.len()) as int,
        (a.len() + b.len() + c.len()) as int,
        (a.len() + b.len() + c.len() + d.len()) as int,
    );
    assert(s.subrange(0, i) =~= a);
    assert(s.subrange(i, j) =~= b);
    assert(s.subrange(j, k) =~= c);
    assert(s.subrange(k, l) =~= d);
    assert(s.subrange(l, l + e.len()) =~= e);
}

/// The parts of a written index.
pub proof fn lemma_tail_parts(
    version: int,
    prefix_len: int,
    items: Seq<PendingView>,
    nodes: Seq<FlatView>,
)
    ensures
        ({
            let n = items.len() as int;
            let tail = index_bytes(version, prefix_len, items, nodes);
            let at = 8 + 16 * n;
            let end = at + tree_bytes(version, nodes).len();
            &&& holds_at(tail, 0, le32(version))
            &&& holds_at(tail, 4, le32(n))
            &&& holds_at(tail, 8, infos_bytes(items, prefix_len, n))
            &&& holds_at(tail, at, tree_bytes(version, nodes))
            &&& holds_at(tail, end, hashes_bytes(items, n) + le32(0) + le32(0))
            &&& tail.len() == end + 4 * n + 8
        }),
{
    reveal(index_bytes);
    let n = items.len() as int;
    let tail = index_bytes(version, prefix_len, items, nodes);
    let a = le32(version);
    let b = le32(n);
    let c = infos_bytes(items, prefix_len, n);
    let d = tree_bytes(version, nodes);
    let e = hashes_bytes(items, n) + le32(0) + le32(0);
    lemma_infos_bytes_len(items, prefix_len, n);
    lemma_hashes_bytes_len(items, n);
    assert(a.len() == 4 && b.len() == 4 && le32(0).len() == 4);
    assert(tail =~= a + b + c + d + e);
    lemma_five_parts(a, b, c, d, e);
}

/// What is assumed of files in order that are written behind a wrapper.
pub open spec fn writable(
    version: int,
    prefix_len: int,
    items: Seq<PendingView>,
    f: Forest,
    index: int,
) -> bool {
    &&& version == -3 || version == -5
    &&& 8 <= prefix_len <= MAX_PREFIX
    &&& items.len() <= MAX_FILES
    &&& acceptable(items)
    &&& in_order(items)
    &&& bad_item(items, 0) is None
    &&& collision(items, 0) is None
    &&& forest_of(paths_of(items), items.len() as int) == Some(f)
    &&& count(f) + 1 <= i16::MAX
    &&& name_table(flat_tree(f), flat_tree(f).len() as int).len() <= i32::MAX
    &&& index == end_of(items, prefix_len, items.len() as int)
    &&& index <= MAX_INDEX
}

/// The entries that are read of written files.
pub open spec fn back(items: Seq<PendingView>, prefix_len: int, f: Forest) -> Seq<EntryView> {
    found_entries(
        found_paths(f, items.len()),
        infos_of(items, prefix_len, items.len() as int),
    )
}

/// The files of an index lie in front of it.
pub proof fn lemma_in_front(
    version: int,
    prefix_len: int,
    items: Seq<PendingView>,
    f: Forest,
    index: int,
)
    requires
        writable(version, prefix_len, items, f, index),
    ensures
        forall|i: int| 0 <= i < items.len() ==> 0 <= #[trigger] items[i].stored_size,
        forall|i: int|
            0 <= i < items.len() ==> sized(#[trigger] items[i]) && 0 <= offset_of(
                items,
                prefix_len,
                i,
            ) && offset_of(items, prefix_len, i) + items[i].stored_size <= index && offset_of(
                items,
                prefix_len,
                i,
            ) % 256 == 0,
        items.len() > 0 ==> aligned(prefix_len) <= index,
        forall|i: int| 0 <= i < items.len() ==> storable(#[trigger] paths_of(items)[i]),
{
    assert forall|k: int| 0 <= k < items.len() implies 0 <= #[trigger] items[k].stored_size by {
        assert(acceptable_item(items[k]));
    }
    assert forall|i: int| 0 <= i < items.len() implies sized(#[trigger] items[i]) && 0
        <= offset_of(items, prefix_len, i) && offset_of(items, prefix_len, i)
        + items[i].stored_size <= index && offset_of(items, prefix_len, i) % 256 == 0 by {
        assert(acceptable_item(items[i]));
        lemma_offsets_grow(items, prefix_len, i, items.len() as int);
    }
    if items.len() > 0 {
        lemma_offsets_grow(items, prefix_len, 0, items.len() as int);
    }
    lemma_no_bad_item(items, 0);
    assert forall|i: int| 0 <= i < items.len() implies storable(
        #[trigger] paths_of(items)[i],
    ) by {
        assert(acceptable_item(items[i]));
        lemma_storable(items[i].path);
    }
}

/// The paths that are found and the records of written files make their entries.
proof fn lemma_entries_made(prefix_len: int, items: Seq<PendingView>, f: Forest)
    requires
        infos_of(items, prefix_len, items.len() as int).len() == items.len(),
        item_hashes(items).len() == items.len(),
        ascending(item_hashes(items)),
        found_paths(f, items.len()).len() == items.len(),
        forall|i: int|
            0 <= i < items.len() ==> (#[trigger] found_paths(f, items.len())[i]) is Some
                && same_name(found_paths(f, items.len())[i]->0, items[i].path),
    ensures
        entries_of(
            found_paths(f, items.len()),
            item_hashes(items),
            infos_of(items, prefix_len, items.len() as int),
        ) == Ok::<Seq<EntryView>, ErrorView>(back(items, prefix_len, f)),
        forall|i: int|
            0 <= i < items.len() ==> same_name(
                (#[trigger] back(items, prefix_len, f)[i]).path,
                items[i].path,
            ),
{
    let infos = infos_of(items, prefix_len, items.len() as int);
    let found = found_paths(f, items.len());
    let hashes = item_hashes(items);
    assert forall|i: int| 0 <= i < found.len() implies path_hash((#[trigger] found[i])->0)
        == hashes[i] by {
        assert(same_name(found[i]->0, items[i].path));
        lemma_same_name_hash(found[i]->0, items[i].path);
    }
    lemma_entries_back(found, hashes, infos);
    assert forall|i: int| 0 <= i < items.len() implies same_name(
        (#[trigger] back(items, prefix_len, f)[i]).path,
        items[i].path,
    ) by {
        assert(same_name(found[i]->0, items[i].path));
    }
}

/// The tree, the hashes and the records of written files make their entries.
pub proof fn lemma_resolved_back(
    version: int,
    prefix_len: int,
    items: Seq<PendingView>,
    f: Forest,
    index: int,
)
    requires
        writable(version, prefix_len, items, f, index),
    ensures
        resolved(
            index,
            version,
            infos_of(items, prefix_len, items.len() as int),
            raw_nodes(flat_tree(f)),
            node_names(flat_tree(f)),
            item_hashes(items),
        ) == Ok::<IndexView, ErrorView>(
            IndexView {
                version,
                entries: back(items, prefix_len, f),
                prefix_len: reopened_prefix_len(prefix_len, items.len()),
            },
        ),
        forall|i: int|
            0 <= i < items.len() ==> same_name(
                (#[trigger] back(items, prefix_len, f)[i]).path,
                items[i].path,
            ),
{
    let n = items.len() as int;
    let paths = paths_of(items);
    lemma_in_front(version, prefix_len, items, f, index);
    lemma_paths_found(paths, f);
    lemma_hashes_ascending(items);
    let infos = infos_of(items, prefix_len, n);
    let found = found_paths(f, items.len());
    let entries = back(items, prefix_len, f);
    assert forall|i: int| 0 <= i < items.len() implies (#[trigger] found[i]) is Some && same_name(
        found[i]->0,
        items[i].path,
    ) by {
        assert(same_name(found[i]->0, paths[i]));
    }
    lemma_entries_made(prefix_len, items, f);
    assert(least_offset(entries, index, n) == reopened_prefix_len(prefix_len, items.len())) by {
        assert forall|i: int| 0 <= i < items.len() implies (#[trigger] entries[i]).offset
            == offset_of(items, prefix_len, i) by {
            assert(sized(items[i]));
        }
        lemma_least_back(entries, items, prefix_len, index, n);
    }
    reveal(resolved);
}

/// The index of a written archive holds the files.
proof fn lemma_index_back(
    version: int,
    prefix_len: int,
    items: Seq<PendingView>,
    f: Forest,
    index: int,
)
    requires
        writable(version, prefix_len, items, f, index),
    ensures
        index_of(index_bytes(version, prefix_len, items, flat_tree(f)), index) == Ok::<
            IndexView,
            ErrorView,
        >(
            IndexView {
                version,
                entries: back(items, prefix_len, f),
                prefix_len: reopened_prefix_len(prefix_len, items.len()),
            },
        ),
        index_bytes(version, prefix_len, items, flat_tree(f)).len() >= 8,
{
    let n = items.len() as int;
    let nodes = flat_tree(f);
    let tail = index_bytes(version, prefix_len, items, nodes);
    let at = 8 + 16 * n;
    lemma_tail_parts(version, prefix_len, items, nodes);
    lemma_in_front(version, prefix_len, items, f, index);
    lemma_forest_leaves(paths_of(items), n);
    lemma_tree_named(f, n);
    lemma_i32_read_back(tail, 0, version);
    lemma_i32_read_back(tail, 4, n);
    lemma_infos_read_back(tail, index, items, prefix_len, n);
    assert(file_part(tail, index) == Ok::<(int, Seq<Info>), ErrorView>(
        (version, infos_of(items, prefix_len, n)),
    )) by {
        reveal(file_part);
    }
    lemma_tree_read_back(tail, at, version, nodes);
    lemma_hashes_read_back(tail, at + tree_bytes(version, nodes).len(), items);
    lemma_resolved_back(version, prefix_len, items, f, index);
}

/// A payload stands in the body at its offset.
pub proof fn lemma_payload_in_body(
    prefix: Seq<u8>,
    items: Seq<PendingView>,
    original: Seq<u8>,
    files: Seq<Seq<u8>>,
    n: int,
    i: int,
)
    requires
        0 <= i < n <= items.len(),
        all_at_hand(items, original, files),
    ensures
        holds_at(
            body(prefix, items, original, files, n),
            offset_of(items, prefix.len() as int, i),
            payload_of(items[i], original, files),
        ),
    decreases n,
{
    let before = body(prefix, items, original, files, n - 1);
    let at = offset_of(items, prefix.len() as int, n - 1);
    let last = payload_of(items[n - 1], original, files);
    lemma_body_len(prefix, items, original, files, n - 1);
    assert(at_hand(items[n - 1], original, files));
    if i < n - 1 {
        lemma_payload_in_body(prefix, items, original, files, n - 1, i);
        super::tail::lemma_holds_before(
            before,
            offset_of(items, prefix.len() as int, i),
            payload_of(items[i], original, files),
            zeros(at - before.len()) + last,
        );
        assert(before + (zeros(at - before.len()) + last) =~= body(
            prefix,
            items,
            original,
            files,
            n,
        ));
    } else {
        lemma_holds_behind(before + zeros(at - before.len()), last);
    }
}

/// The body starts with the wrapper.
proof fn lemma_body_prefix(
    prefix: Seq<u8>,
    items: Seq<PendingView>,
    original: Seq<u8>,
    files: Seq<Seq<u8>>,
    n: int,
)
    requires
        0 <= n <= items.len(),
        all_at_hand(items, original, files),
    ensures
        holds_at(body(prefix, items, original, files, n), 0, prefix),
    decreases n,
{
    if n > 0 {
        lemma_body_prefix(prefix, items, original, files, n - 1);
        let before = body(prefix, items, original, files, n - 1);
        let at = offset_of(items, prefix.len() as int, n - 1);
        let last = payload_of(items[n - 1], original, files);
        super::tail::lemma_holds_before(
            before,
            0,
            prefix,
            zeros(at - before.len()) + last,
        );
        assert(before + (zeros(at - before.len()) + last) =~= body(
            prefix,
            items,
            original,
            files,
            n,
        ));
    } else {
        assert(prefix.subrange(0, prefix.len() as int) =~= prefix);
    }
}

/// An entry is that of a file, with the same payload.
pub open spec fn entry_is(
    image: Seq<u8>,
    entry: EntryView,
    item: PendingView,
    payload: Seq<u8>,
) -> bool {
    &&& same_name(entry.path, item.path)
    &&& entry.stored_size == item.stored_size
    &&& entry.size == item.size
    &&& entry.compression == item.compression
    &&& stored_bytes(image, entry) == payload
}

/// The archive holds these files, in this order, and the wrapper behind its first eight bytes.
pub open spec fn holds_files(
    view: ArchiveView,
    version: int,
    prefix: Seq<u8>,
    items: Seq<PendingView>,
    original: Seq<u8>,
    files: Seq<Seq<u8>>,
) -> bool {
    &&& view.version == version
    &&& view.entries.len() == items.len()
    &&& forall|i: int|
        0 <= i < items.len() ==> entry_is(
            view.image,
            #[trigger] view.entries[i],
            items[i],
            payload_of(items[i], original, files),
        )
    &&& view.prefix.len() == reopened_prefix_len(prefix.len() as int, items.len())
    &&& view.prefix.subrange(8, prefix.len() as int) == prefix.subrange(8, prefix.len() as int)
}

/// Where the parts of an archive stand.
pub proof fn lemma_image_parts(
    prefix: Seq<u8>,
    plan: PlanView,
    original: Seq<u8>,
    files: Seq<Seq<u8>>,
)
    requires
        8 <= prefix.len(),
        all_at_hand(plan.items, original, files),
        plan.index == end_of(plan.items, prefix.len() as int, plan.items.len() as int),
        prefix.len() <= plan.index < 0x1_0000_0000,
    ensures
        ({
            let image = archive_bytes(prefix, plan, original, files);
            let whole = body(prefix, plan.items, original, files, plan.items.len() as int);
            &&& holds_at(image, 0, le32(plan.index))
            &&& image.len() == plan.index + plan.tail.len()
            &&& image.subrange(plan.index, image.len() as int) == plan.tail
            &&& whole.len() == plan.index
            &&& forall|k: int| 8 <= k < plan.index ==> #[trigger] image[k] == whole[k]
        }),
{
    reveal(archive_bytes);
    let image = archive_bytes(prefix, plan, original, files);
    let whole = body(prefix, plan.items, original, files, plan.items.len() as int);
    let a = le32(plan.index);
    let b = le32(plan.tail.len() as int);
    lemma_body_len(prefix, plan.items, original, files, plan.items.len() as int);
    assert(a.len() == 4 && b.len() == 4);
    assert(image =~= a + b + whole.skip(8) + plan.tail + Seq::<u8>::empty());
    lemma_five_parts(a, b, whole.skip(8), plan.tail, Seq::<u8>::empty());
}

/// What is written can be opened, and holds every file with its payload.
pub proof fn lemma_reopen(
    version: int,
    prefix: Seq<u8>,
    items: Seq<PendingView>,
    original: Seq<u8>,
    files: Seq<Seq<u8>>,
)
    requires
        version == -3 || version == -5,
        8 <= prefix.len() <= MAX_PREFIX,
        all_at_hand(items, original, files),
        acceptable(items),
        tree_fits(paths_of(ordered(items, items.len() as int))),
        written(version, prefix, items, original, files) is Ok,
    ensures
        ({
            let image = written(version, prefix, items, original, files)->Ok_0;
            &&& opened(image) is Ok
            &&& opened(image)->Ok_0.image == image
            &&& holds_files(
                opened(image)->Ok_0,
                version,
                prefix,
                ordered(items, items.len() as int),
                original,
                files,
            )
        }),
{
    reveal(written);
    let n = items.len() as int;
    let sorted = ordered(items, n);
    let prefix_len = prefix.len() as int;
    lemma_ordered(items, n);
    lemma_ordered_at_hand(items, n, original, files);
    lemma_ordered_acceptable(items, n);
    let f = forest_of(paths_of(sorted), n)->0;
    let plan = layout(version, prefix_len, sorted, flat_tree(f));
    let image = archive_bytes(prefix, plan, original, files);
    lemma_flat_len(f, 1);
    assert(writable(version, prefix_len, sorted, f, plan.index));
    assert(written(version, prefix, items, original, files)->Ok_0 == image);
    lemma_laid_out_reopens(version, prefix, sorted, original, files, f);
}

/// Files in order that are laid out can be opened.
pub proof fn lemma_laid_out_reopens(
    version: int,
    prefix: Seq<u8>,
    items: Seq<PendingView>,
    original: Seq<u8>,
    files: Seq<Seq<u8>>,
    f: Forest,
)
    requires
        all_at_hand(items, original, files),
        writable(
            version,
            prefix.len() as int,
            items,
            f,
            end_of(items, prefix.len() as int, items.len() as int),
        ),
    ensures
        ({
            let plan = layout(version, prefix.len() as int, items, flat_tree(f));
            let image = archive_bytes(prefix, plan, original, files);
            &&& opened(image) is Ok
            &&& opened(image)->Ok_0.image == image
            &&& opened(image)->Ok_0.entries == back(items, prefix.len() as int, f)
            &&& opened(image)->Ok_0.prefix == image.subrange(
                0,
                reopened_prefix_len(prefix.len() as int, items.len()),
            )
            &&& holds_files(opened(image)->Ok_0, version, prefix, items, original, files)
        }),
{
    let n = items.len() as int;
    let prefix_len = prefix.len() as int;
    let plan = layout(version, prefix_len, items, flat_tree(f));
    let index = plan.index;
    let image = archive_bytes(prefix, plan, original, files);
    let whole = body(prefix, items, original, files, n);
    lemma_in_front(version, prefix_len, items, f, index);
    lemma_index_back(version, prefix_len, items, f, index);
    lemma_resolved_back(version, prefix_len, items, f, index);
    lemma_image_parts(prefix, plan, original, files);
    lemma_u32_read_back(image, 0, index);
    let view = opened(image)->Ok_0;
    assert(opened(image) is Ok);
    assert(view.entries == back(items, prefix_len, f));
    assert forall|i: int| 0 <= i < items.len() implies entry_is(
        image,
        #[trigger] view.entries[i],
        items[i],
        payload_of(items[i], original, files),
    ) by {
        assert(sized(items[i]));
        assert(at_hand(items[i], original, files));
        lemma_payload_in_body(prefix, items, original, files, n, i);
        lemma_offsets_grow(items, prefix_len, i, n);
        let at = offset_of(items, prefix_len, i);
        let payload = payload_of(items[i], original, files);
        assert(view.entries[i].offset == at);
        assert(image.subrange(at, at + payload.len()) =~= whole.subrange(
            at,
            at + payload.len(),
        ));
    }
    lemma_body_prefix(prefix, items, original, files, n);
    assert(view.prefix.subrange(8, prefix_len) =~= prefix.subrange(8, prefix_len)) by {
        assert forall|k: int| 8 <= k < prefix_len implies image[k] == prefix[k] by {
            assert(image[k] == whole[k]);
            assert(whole.subrange(0, prefix_len)[k] == prefix[k]);
        }
    }
}

/// Files that can be stored stay so in another order.
pub proof fn lemma_ordered_acceptable(items: Seq<PendingView>, n: int)
    requires
        acceptable(items),
        0 <= n <= items.len(),
    ensures
        acceptable(ordered(items, n)),
    decreases n,
{
    if n > 0 {
        lemma_ordered_acceptable(items, n - 1);
        lemma_ordered(items, n - 1);
        let before = ordered(items, n - 1);
        let p = crate::order::slot(before, items[n - 1], 0);
        crate::order::lemma_slot_range(before, items[n - 1], 0);
        let after = ordered(items, n);
        assert forall|i: int| 0 <= i < after.len() implies acceptable_item(#[trigger] after[i]) by {
            assert(acceptable_item(items[n - 1]));
            if i < p {
                assert(acceptable_item(before[i]));
            } else if i > p {
                assert(acceptable_item(before[i - 1]));
            }
        }
    }
}

/// The tree of an index that is read is one that can be.
proof fn lemma_tree_read_fits(tail: Seq<u8>, at: int, version: int, nodes: Seq<FlatView>)
    requires
        0 <= at,
        holds_at(tail, at, tree_bytes(version, nodes)),
        nodes.len() <= MAX_NODES,
        tail.len() <= u32::MAX,
        tree_part(tail, at, version) is Ok,
    ensures
        nodes.len() <= i16::MAX,
        name_table(nodes, nodes.len() as int).len() <= i32::MAX,
{
    reveal(tree_part);
    let n = nodes.len() as int;
    let w = node_width(version);
    let names = name_table(nodes, n);
    let all = tree_bytes(version, nodes);
    let a = le32(n);
    let c = le32(names.len() as int);
    lemma_nodes_bytes_len(version, nodes, n);
    assert(n * w >= 0) by (nonlinear_arith)
        requires
            n >= 0,
            w >= 0,
    ;
    assert(all.subrange(0, 4) =~= a);
    assert(all.subrange(4 + n * w, 8 + n * w) =~= c);
    lemma_holds_in(tail, at, all, 0, a);
    lemma_holds_in(tail, at, all, 4 + n * w, c);
    lemma_i32_read_back(tail, at, n);
    assert(names.len() <= all.len());
    lemma_u32_read_back(tail, at + 4 + n * w, names.len() as int);
}

/// Where what is written can be opened, its tree is one that can be read.
pub proof fn lemma_reopened_fits(
    version: int,
    prefix: Seq<u8>,
    items: Seq<PendingView>,
    original: Seq<u8>,
    files: Seq<Seq<u8>>,
)
    requires
        version == -3 || version == -5,
        8 <= prefix.len(),
        all_at_hand(items, original, files),
        written(version, prefix, items, original, files) is Ok,
        opened(written(version, prefix, items, original, files)->Ok_0) is Ok,
    ensures
        tree_fits(paths_of(ordered(items, items.len() as int))),
{
    reveal(written);
    let n = items.len() as int;
    let sorted = ordered(items, n);
    let prefix_len = prefix.len() as int;
    let nodes = tree_nodes(paths_of(sorted))->Ok_0;
    let plan = layout(version, prefix_len, sorted, nodes);
    let image = archive_bytes(prefix, plan, original, files);
    lemma_ordered(items, n);
    lemma_ordered_at_hand(items, n, original, files);
    assert forall|k: int| 0 <= k < sorted.len() implies 0 <= #[trigger] sorted[k].stored_size by {
        assert(at_hand(sorted[k], original, files));
    }
    if n > 0 {
        lemma_offsets_grow(sorted, prefix_len, 0, n);
    }
    lemma_image_parts(prefix, plan, original, files);
    lemma_u32_read_back(image, 0, plan.index);
    let tail = plan.tail;
    let at = 8 + 16 * n;
    lemma_tail_parts(version, prefix_len, sorted, nodes);
    lemma_i32_read_back(tail, 0, version);
    lemma_i32_read_back(tail, 4, n);
    assert(file_part(tail, plan.index) is Ok);
    assert(file_part(tail, plan.index)->Ok_0.0 == version && file_part(
        tail,
        plan.index,
    )->Ok_0.1.len() == n) by {
        reveal(file_part);
        lemma_infos_len(tail, plan.index, n);
    }
    if let Some(f) = forest_of(paths_of(sorted), n) {
        lemma_flat_len(f, 1);
    }
    lemma_tree_read_fits(tail, at, version, nodes);
}

} // verus!
