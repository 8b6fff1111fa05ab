//! Every archive that is made as one should be is read.

use super::layout::{
    lemma_least_taken, lemma_numbers, lemma_tree_taken, node_span, signed_half, signed_word,
    tree_stands, word,
};
use super::trees::{files_below, head, lemma_tree_read, numbers, wood_stands, Wood};
use crate::archive::opened;
use crate::error::ErrorView;
use crate::index::{
    all_some, ascending, entries_of, entry_for, file_part, hash_part, index_of, info_at, infos_upto,
    least_offset, placed, position, resolved, tree_part, unwrapped, Info,
};
use crate::text::path_hash;
use crate::walk::{file_paths, RawNode};
use vstd::prelude::*;

verus! {

/// A record tells of a payload in front of the index. It starts at a multiple of 256 that is not
/// zero, and has one of the three encodings.
pub open spec fn record_fair(s: Seq<u8>, at: int, index: int) -> bool {
    let kind = signed_word(s, at + 12);
    &&& 1 <= signed_word(s, at)
    &&& 0 <= signed_word(s, at + 4)
    &&& 0 <= signed_word(s, at + 8)
    &&& 256 * signed_word(s, at) + signed_word(s, at + 4) <= index
    &&& kind == 0 || kind == 2 || kind == 3
}

/// The files have the numbers from 0 on, one each.
pub open spec fn numbered(files: Seq<(nat, Seq<u8>)>, n: int) -> bool {
    &&& files.len() == n
    &&& forall|k: int| 0 <= k < n ==> (#[trigger] files[k]).0 < n
    &&& forall|i: int, j: int|
        0 <= i < j < n ==> (#[trigger] files[i]).0 != (#[trigger] files[j]).0
    &&& forall|m: int|
        0 <= m < n ==> exists|k: int| 0 <= k < n && (#[trigger] files[k]).0 == #[trigger] id(m)
}

/// A number itself.
pub open spec fn id(m: int) -> int {
    m
}

/// The hashes from a position on ascend. That of the `k`th file is the one with the number
/// `order[k]`, and each is that of a file.
pub open spec fn hashed(
    s: Seq<u8>,
    at: int,
    files: Seq<(nat, Seq<u8>)>,
    order: Seq<int>,
) -> bool {
    let n = files.len() as int;
    &&& order.len() == n
    &&& order.no_duplicates()
    &&& forall|k: int| 0 <= k < n ==> 0 <= #[trigger] order[k] < n
    &&& forall|k: int|
        0 <= k < n ==> path_hash((#[trigger] files[k]).1) == word(s, at + 4 * order[k])
    &&& forall|p: int| 0 <= p < n ==> order.contains(#[trigger] id(p))
    &&& forall|p: int, q: int|
        0 <= #[trigger] id(p) < #[trigger] id(q) < n ==> word(s, at + 4 * p) < word(s, at + 4 * q)
}

pub proof fn lemma_record_read(tail: Seq<u8>, at: int, index: int)
    requires
        record_fair(tail, at, index),
        0 <= at,
        at + 16 <= tail.len(),
    ensures
        info_at(tail, at, index) is Ok,
        info_at(tail, at, index)->Ok_0.offset == 256 * signed_word(tail, at),
{
    lemma_numbers(tail, at);
    lemma_numbers(tail, at + 4);
    lemma_numbers(tail, at + 8);
    lemma_numbers(tail, at + 12);
}

pub proof fn lemma_records_read(tail: Seq<u8>, index: int, n: int)
    requires
        0 <= n,
        8 + 16 * n <= tail.len(),
        forall|i: int| 0 <= i < n ==> #[trigger] record_fair(tail, 8 + 16 * i, index),
    ensures
        infos_upto(tail, index, n) is Ok,
        infos_upto(tail, index, n)->Ok_0.len() == n,
        forall|i: int|
            0 <= i < n ==> (#[trigger] infos_upto(tail, index, n)->Ok_0[i]).offset == 256
                * signed_word(tail, 8 + 16 * i),
    decreases n,
{
    if n > 0 {
        lemma_records_read(tail, index, n - 1);
        assert(record_fair(tail, 8 + 16 * (n - 1), index));
        lemma_record_read(tail, 8 + 16 * (n - 1), index);
    }
}

proof fn lemma_all_placed(
    paths: Seq<Option<Seq<u8>>>,
    hashes: Seq<u32>,
    infos: Seq<Info>,
    n: int,
)
    requires
        0 <= n <= paths.len(),
        ascending(hashes),
        forall|i: int|
            0 <= i < paths.len() ==> hashes.contains(path_hash((#[trigger] paths[i])->0)),
        forall|i: int, j: int|
            0 <= i < j < paths.len() ==> path_hash((#[trigger] paths[i])->0) != path_hash(
                (#[trigger] paths[j])->0,
            ),
    ensures
        placed(paths, hashes, infos, n) is Ok,
        placed(paths, hashes, infos, n)->Ok_0.len() == hashes.len(),
        forall|i: int, p: int|
            0 <= i < n && 0 <= p < hashes.len() && path_hash((#[trigger] paths[i])->0) == hashes[p]
                ==> (#[trigger] placed(paths, hashes, infos, n)->Ok_0[p]) == Some(
                entry_for(paths[i]->0, infos[p]),
            ),
        forall|p: int|
            0 <= p < hashes.len() && (#[trigger] placed(paths, hashes, infos, n)->Ok_0[p]) is Some
                ==> exists|i: int|
                0 <= i < n && path_hash((#[trigger] paths[i])->0) == hashes[p],
    decreases n,
{
    if n > 0 {
        lemma_all_placed(paths, hashes, infos, n - 1);
        let slots = placed(paths, hashes, infos, n - 1)->Ok_0;
        let hash = path_hash(paths[n - 1]->0);
        assert(hashes.contains(hash));
        let at = position(hashes, hash);
        assert(0 <= at < hashes.len() && hashes[at] == hash);
        if slots[at] is Some {
            let i = choose|i: int|
                0 <= i < n - 1 && path_hash((#[trigger] paths[i])->0) == hashes[at];
            assert(path_hash(paths[i]->0) != path_hash(paths[n - 1]->0));
        }
        let after = placed(paths, hashes, infos, n)->Ok_0;
        assert(after == slots.update(at, Some(entry_for(paths[n - 1]->0, infos[at]))));
        assert forall|i: int, p: int|
            0 <= i < n && 0 <= p < hashes.len() && path_hash((#[trigger] paths[i])->0) == hashes[p]
            implies (#[trigger] after[p]) == Some(entry_for(paths[i]->0, infos[p])) by {
            if i == n - 1 {
                assert(p == at) by {
                    if p < at {
                        assert(hashes[p] < hashes[at]);
                    } else if at < p {
                        assert(hashes[at] < hashes[p]);
                    }
                }
            } else {
                assert(path_hash(paths[i]->0) != path_hash(paths[n - 1]->0));
                assert(p != at);
                assert(slots[p] == Some(entry_for(paths[i]->0, infos[p])));
            }
        }
        assert forall|p: int|
            0 <= p < hashes.len() && (#[trigger] after[p]) is Some implies exists|i: int|
            0 <= i < n && path_hash((#[trigger] paths[i])->0) == hashes[p] by {
            if p == at {
                assert(path_hash(paths[n - 1]->0) == hashes[p]);
            } else {
                assert(slots[p] is Some);
                let i = choose|i: int|
                    0 <= i < n - 1 && path_hash((#[trigger] paths[i])->0) == hashes[p];
                assert(path_hash(paths[i]->0) == hashes[p]);
            }
        }
    }
}

/// The entries that files with numbers and hashes make.
proof fn lemma_entries_made(
    paths: Seq<Option<Seq<u8>>>,
    hashes: Seq<u32>,
    infos: Seq<Info>,
    files: Seq<(nat, Seq<u8>)>,
    order: Seq<int>,
)
    requires
        numbered(files, paths.len() as int),
        order.len() == files.len(),
        order.no_duplicates(),
        hashes.len() == files.len(),
        infos.len() == files.len(),
        ascending(hashes),
        forall|k: int| 0 <= k < files.len() ==> 0 <= #[trigger] order[k] < files.len(),
        forall|k: int|
            0 <= k < files.len() ==> path_hash((#[trigger] files[k]).1) == hashes[order[k]],
        forall|p: int| 0 <= p < files.len() ==> order.contains(#[trigger] id(p)),
        forall|k: int|
            0 <= k < files.len() ==> paths[(#[trigger] files[k]).0 as int] == Some(files[k].1),
    ensures
        entries_of(paths, hashes, infos) is Ok,
        entries_of(paths, hashes, infos)->Ok_0.len() == files.len(),
        forall|k: int|
            0 <= k < files.len() ==> entries_of(paths, hashes, infos)->Ok_0[#[trigger] order[k]]
                == entry_for(files[k].1, infos[order[k]]),
        forall|p: int|
            0 <= p < files.len() ==> (#[trigger] entries_of(paths, hashes, infos)->Ok_0[p]).offset
                == infos[p].offset,
{
    let n = files.len() as int;
    assert forall|i: int| 0 <= i < n implies exists|k: int|
        0 <= k < n && (#[trigger] files[k]).0 == i && #[trigger] paths[i] == Some(files[k].1) by {
        assert(id(i) == i);
        let k = choose|k: int| 0 <= k < n && (#[trigger] files[k]).0 == id(i);
        assert(paths[files[k].0 as int] == Some(files[k].1));
    }
    assert(all_some(paths));
    assert forall|i: int| 0 <= i < n implies hashes.contains(path_hash((#[trigger] paths[i])->0)) by {
        let k = choose|k: int|
            0 <= k < n && (#[trigger] files[k]).0 == i && paths[i] == Some(files[k].1);
        assert(hashes[order[k]] == path_hash(files[k].1));
    }
    assert forall|i: int, j: int| 0 <= i < j < n implies path_hash((#[trigger] paths[i])->0)
        != path_hash((#[trigger] paths[j])->0) by {
        let k = choose|k: int|
            0 <= k < n && (#[trigger] files[k]).0 == i && paths[i] == Some(files[k].1);
        let l = choose|l: int|
            0 <= l < n && (#[trigger] files[l]).0 == j && paths[j] == Some(files[l].1);
        assert(order[k] != order[l]);
        if order[k] < order[l] {
            assert(hashes[order[k]] < hashes[order[l]]);
        } else {
            assert(hashes[order[l]] < hashes[order[k]]);
        }
    }
    lemma_all_placed(paths, hashes, infos, n);
    let slots = placed(paths, hashes, infos, n)->Ok_0;
    assert forall|k: int| 0 <= k < n implies slots[#[trigger] order[k]] == Some(
        entry_for(files[k].1, infos[order[k]]),
    ) by {
        let i = files[k].0 as int;
        assert(paths[i] == Some(files[k].1));
        assert(path_hash(paths[i]->0) == hashes[order[k]]);
    }
    assert forall|p: int| 0 <= p < n implies (#[trigger] slots[p]) is Some
        && slots[p]->0.offset == infos[p].offset by {
        assert(order.contains(id(p)));
        let k = choose|k: int| 0 <= k < n && order[k] == id(p);
        assert(slots[order[k]] == Some(entry_for(files[k].1, infos[order[k]])));
    }
    assert(all_some(slots));
    assert(entries_of(paths, hashes, infos)->Ok_0 == unwrapped(slots));
}

/// The hashes that stand in an index.
proof fn lemma_hashes_read(tail: Seq<u8>, at: int, n: int)
    requires
        0 <= at,
        0 <= n,
        at + 4 * n + 8 <= tail.len(),
        0 <= signed_word(tail, at + 4 * n),
        0 <= signed_word(tail, at + 4 * n + 4),
        at + 4 * n + 8 + signed_word(tail, at + 4 * n + 4) == tail.len(),
    ensures
        hash_part(tail, at, n as nat) is Ok,
        hash_part(tail, at, n as nat)->Ok_0.len() == n,
        forall|p: int|
            0 <= p < n ==> (#[trigger] hash_part(tail, at, n as nat)->Ok_0[p]) == word(
                tail,
                at + 4 * p,
            ),
{
    reveal(hash_part);
    lemma_numbers(tail, at + 4 * n);
    lemma_numbers(tail, at + 4 * n + 4);
    let hashes = hash_part(tail, at, n as nat)->Ok_0;
    assert forall|p: int| 0 <= p < n implies (#[trigger] hashes[p]) == word(tail, at + 4 * p) by {
        lemma_numbers(tail, at + 4 * p);
    }
}

/// The nodes are those that stand at a position, of eight or twelve bytes each.
pub open spec fn nodes_stand(tail: Seq<u8>, at: int, version: int, nodes: Seq<RawNode>) -> bool {
    forall|i: int|
        0 <= i < nodes.len() ==> {
            let start = at + node_span(version, i);
            &&& (#[trigger] nodes[i]).child == signed_half(tail, start)
            &&& nodes[i].sibling == signed_half(tail, start + 2)
            &&& nodes[i].name_offset == word(tail, start + 4)
        }
}

/// An index is whole: its parts stand one behind the other, its records are fair, its nodes make a
/// tree in which no node comes twice, the files in the tree have the numbers from 0 on, and their
/// hashes stand in order.
pub open spec fn index_stands(
    tail: Seq<u8>,
    index: int,
    version: int,
    nodes: Seq<RawNode>,
    names: Seq<Seq<u8>>,
    tree: Wood,
    order: Seq<int>,
) -> bool {
    let files = files_below(tree, Seq::empty());
    let n = files.len() as int;
    let at = 8 + 16 * n;
    let table = at + 4 + node_span(version, names.len() as int);
    let hashes = table + 4 + signed_word(tail, table);
    &&& at <= tail.len()
    &&& version == -3 || version == -5
    &&& signed_word(tail, 0) == version
    &&& signed_word(tail, 4) == n
    &&& forall|i: int| 0 <= i < n ==> #[trigger] record_fair(tail, 8 + 16 * i, index)
    &&& tree_stands(tail, at, version, names)
    &&& nodes.len() == names.len()
    &&& nodes_stand(tail, at + 4, version, nodes)
    &&& nodes[0].child == head(tree)
    &&& wood_stands(tree, nodes, names)
    &&& numbers(tree).no_duplicates()
    &&& numbered(files, n)
    &&& hashes + 4 * n + 8 <= tail.len()
    &&& 0 <= signed_word(tail, hashes + 4 * n)
    &&& 0 <= signed_word(tail, hashes + 4 * n + 4)
    &&& hashes + 4 * n + 8 + signed_word(tail, hashes + 4 * n + 4) == tail.len()
    &&& hashed(tail, hashes, files, order)
}

/// The first payload starts in the first MiB, or the index does.
pub open spec fn starts_early(tail: Seq<u8>, index: int, n: int) -> bool {
    index <= 0x10_0000 || exists|i: int|
        0 <= i < n && 256 * signed_word(tail, 8 + 16 * #[trigger] id(i)) <= 0x10_0000
}

pub proof fn lemma_files_read(tail: Seq<u8>, index: int, version: int, n: int)
    requires
        0 <= n,
        8 + 16 * n <= tail.len(),
        version == -3 || version == -5,
        signed_word(tail, 0) == version,
        signed_word(tail, 4) == n,
        forall|i: int| 0 <= i < n ==> #[trigger] record_fair(tail, 8 + 16 * i, index),
    ensures
        file_part(tail, index) is Ok,
        file_part(tail, index)->Ok_0.0 == version,
        file_part(tail, index)->Ok_0.1.len() == n,
        forall|i: int|
            0 <= i < n ==> (#[trigger] file_part(tail, index)->Ok_0.1[i]).offset == 256
                * signed_word(tail, 8 + 16 * i),
        forall|i: int| 0 <= i < n ==> (#[trigger] file_part(tail, index)->Ok_0.1[i]).offset >= 256,
{
    lemma_numbers(tail, 0);
    lemma_numbers(tail, 4);
    lemma_records_read(tail, index, n);
    reveal(file_part);
    let infos = infos_upto(tail, index, n)->Ok_0;
    assert forall|i: int| 0 <= i < n implies (#[trigger] infos[i]).offset >= 256 by {
        assert(record_fair(tail, 8 + 16 * i, index));
    }
}

pub proof fn lemma_nodes_read(
    tail: Seq<u8>,
    at: int,
    version: int,
    nodes: Seq<RawNode>,
    names: Seq<Seq<u8>>,
)
    requires
        tree_stands(tail, at, version, names),
        nodes.len() == names.len(),
        nodes_stand(tail, at + 4, version, nodes),
    ensures
        ({
            let table = at + 4 + node_span(version, names.len() as int);
            tree_part(tail, at, version) == Ok::<(Seq<RawNode>, Seq<Seq<u8>>, int), ErrorView>(
                (nodes, names, table + 4 + signed_word(tail, table)),
            )
        }),
{
    lemma_tree_taken(tail, at, version, names);
    let part = tree_part(tail, at, version)->Ok_0;
    assert forall|i: int| 0 <= i < nodes.len() implies part.0[i] == nodes[i] by {
        let a = part.0[i];
        let b = nodes[i];
        assert(a.child == b.child && a.sibling == b.sibling && a.name_offset == b.name_offset);
    }
    assert(part.0 =~= nodes);
}

/// What a tree, hashes in order and fair records make together.
proof fn lemma_resolved_made(
    index: int,
    version: int,
    infos: Seq<Info>,
    nodes: Seq<RawNode>,
    names: Seq<Seq<u8>>,
    hashes: Seq<u32>,
    tree: Wood,
    order: Seq<int>,
)
    requires
        8 <= index,
        1 <= nodes.len() == names.len(),
        nodes[0].child == head(tree),
        wood_stands(tree, nodes, names),
        numbers(tree).no_duplicates(),
        numbered(files_below(tree, Seq::empty()), infos.len() as int),
        hashes.len() == infos.len(),
        order.len() == infos.len(),
        order.no_duplicates(),
        ascending(hashes),
        forall|k: int| 0 <= k < infos.len() ==> 0 <= #[trigger] order[k] < infos.len(),
        forall|k: int|
            0 <= k < infos.len() ==> path_hash(
                (#[trigger] files_below(tree, Seq::empty())[k]).1,
            ) == hashes[order[k]],
        forall|p: int| 0 <= p < infos.len() ==> order.contains(#[trigger] id(p)),
        forall|p: int| 0 <= p < infos.len() ==> (#[trigger] infos[p]).offset >= 256,
        index <= 0x10_0000 || exists|p: int|
            0 <= p < infos.len() && (#[trigger] infos[p]).offset <= 0x10_0000,
    ensures
        ({
            let files = files_below(tree, Seq::empty());
            let view = resolved(index, version, infos, nodes, names, hashes);
            &&& view is Ok
            &&& view->Ok_0.version == version
            &&& view->Ok_0.entries.len() == files.len()
            &&& forall|k: int|
                0 <= k < files.len() ==> view->Ok_0.entries[#[trigger] order[k]].path == files[k].1
        }),
{
    let files = files_below(tree, Seq::empty());
    let n = infos.len() as int;
    lemma_tree_read(tree, nodes, names, n as nat);
    let paths = file_paths(nodes, names, n as nat)->Ok_0;
    lemma_entries_made(paths, hashes, infos, files, order);
    let entries = entries_of(paths, hashes, infos)->Ok_0;
    lemma_least_taken(entries, index, n);
    assert forall|p: int| 0 <= p < n implies (#[trigger] entries[p]).offset == infos[p].offset
        && entries[p].offset >= 256 by {
        assert(infos[p].offset >= 256);
    }
    let least = least_offset(entries, index, n);
    assert(least <= 0x10_0000) by {
        if index > 0x10_0000 {
            let p = choose|p: int| 0 <= p < n && (#[trigger] infos[p]).offset <= 0x10_0000;
            assert(entries[p].offset == infos[p].offset);
            assert(least <= entries[p].offset);
        }
    }
    reveal(resolved);
}

proof fn lemma_index_read(
    tail: Seq<u8>,
    index: int,
    version: int,
    nodes: Seq<RawNode>,
    names: Seq<Seq<u8>>,
    tree: Wood,
    order: Seq<int>,
)
    requires
        8 <= index,
        index_stands(tail, index, version, nodes, names, tree, order),
        starts_early(tail, index, files_below(tree, Seq::empty()).len() as int),
    ensures
        ({
            let files = files_below(tree, Seq::empty());
            let view = index_of(tail, index);
            &&& view is Ok
            &&& view->Ok_0.version == version
            &&& view->Ok_0.entries.len() == files.len()
            &&& forall|k: int|
                0 <= k < files.len() ==> view->Ok_0.entries[#[trigger] order[k]].path == files[k].1
        }),
{
    let files = files_below(tree, Seq::empty());
    let n = files.len() as int;
    let at = 8 + 16 * n;
    lemma_files_read(tail, index, version, n);
    let infos = file_part(tail, index)->Ok_0.1;
    lemma_nodes_read(tail, at, version, nodes, names);
    let start = tree_part(tail, at, version)->Ok_0.2;
    lemma_hashes_read(tail, start, n);
    let hashes = hash_part(tail, start, n as nat)->Ok_0;
    lemma_hashes_fit(tail, start, files, order, hashes);
    if index > 0x10_0000 {
        let i = choose|i: int|
            0 <= i < n && 256 * signed_word(tail, 8 + 16 * #[trigger] id(i)) <= 0x10_0000;
        assert(infos[i].offset <= 0x10_0000);
    }
    lemma_resolved_made(index, version, infos, nodes, names, hashes, tree, order);
}

proof fn lemma_hashes_fit(
    tail: Seq<u8>,
    at: int,
    files: Seq<(nat, Seq<u8>)>,
    order: Seq<int>,
    hashes: Seq<u32>,
)
    requires
        hashed(tail, at, files, order),
        hashes.len() == files.len(),
        forall|p: int|
            0 <= p < hashes.len() ==> (#[trigger] hashes[p]) == word(tail, at + 4 * p),
    ensures
        ascending(hashes),
        forall|k: int|
            0 <= k < files.len() ==> path_hash((#[trigger] files[k]).1) == hashes[order[k]],
{
    let n = files.len() as int;
    assert forall|i: int, j: int| 0 <= i < j < n implies hashes[i] < hashes[j] by {
        assert(id(i) < id(j));
    }
    assert forall|k: int| 0 <= k < n implies path_hash((#[trigger] files[k]).1)
        == hashes[order[k]] by {
        assert(0 <= order[k] < n);
    }
}

/// An archive with a whole index is opened, whatever made it: its first four bytes tell where the
/// index starts, the first payload or the index starts in the first MiB, and each file of the tree
/// has an entry at the place of its hash, under the path that leads to it.
pub proof fn lemma_whole_opened(
    image: Seq<u8>,
    version: int,
    nodes: Seq<RawNode>,
    names: Seq<Seq<u8>>,
    tree: Wood,
    order: Seq<int>,
)
    requires
        16 <= image.len(),
        8 <= word(image, 0) <= image.len() - 8,
        ({
            let index = word(image, 0);
            let tail = image.subrange(index, image.len() as int);
            &&& index_stands(tail, index, version, nodes, names, tree, order)
            &&& starts_early(tail, index, files_below(tree, Seq::empty()).len() as int)
        }),
    ensures
        ({
            let files = files_below(tree, Seq::empty());
            let view = opened(image);
            &&& view is Ok
            &&& view->Ok_0.version == version
            &&& view->Ok_0.entries.len() == files.len()
            &&& forall|k: int|
                0 <= k < files.len() ==> view->Ok_0.entries[#[trigger] order[k]].path == files[k].1
        }),
{
    let index = word(image, 0);
    let tail = image.subrange(index, image.len() as int);
    lemma_numbers(image, 0);
    lemma_index_read(tail, index, version, nodes, names, tree, order);
}

} // verus!
