//! The parts of a written index are read back.

use super::leaves::{good, good_parts, leaves, lemma_grow_good, lemma_grow_leaves};
use super::paths::{good_name, joined};
use crate::bytes::{
    holds_at, le16, le32, lemma_holds_in, lemma_i16_read_back, lemma_i32_read_back,
    lemma_u32_read_back, u32_at,
};
use crate::entry::{compression_raw, lemma_compression_read_back};
use crate::error::ErrorView;
use crate::index::{
    hash_part, hashes_at, info_at, infos_upto, name_at, names_upto, node_at, node_width, nodes_at,
    tree_part, zero_from, Info,
};
use crate::pending::PendingView;
use crate::text::{parts, path_hash, same_name};
use crate::tree::{
    count, files_below, flat, forest_of, lemma_flat_len, lemma_grow_files, name_offset, name_table,
    FlatView, Forest,
};
use crate::walk::RawNode;
use crate::writer::{
    hashes_bytes, info_bytes, infos_bytes, node_bytes, nodes_bytes, offset_of, MAX_INDEX,
};
use vstd::prelude::*;

verus! {

/// A path whose components may be names of nodes, and make the path.
pub open spec fn storable(path: Seq<u8>) -> bool {
    &&& parts(path).len() > 0
    &&& good_parts(parts(path))
    &&& joined(Seq::empty(), parts(path)) == path
}

/// The files found are those with these paths, each once.
pub open spec fn leaves_match(found: Seq<(nat, Seq<u8>)>, paths: Seq<Seq<u8>>, n: int) -> bool {
    &&& found.len() == n
    &&& forall|i: int|
        0 <= i < n ==> (#[trigger] found[i]).0 < n && same_name(
            found[i].1,
            paths[found[i].0 as int],
        )
    &&& forall|i: int, j: int|
        0 <= i < j < n ==> (#[trigger] found[i]).0 != (#[trigger] found[j]).0
    &&& forall|k: int| 0 <= k < n ==> #[trigger] is_found(found, k)
}

/// The file with this number is among those found.
pub open spec fn is_found(found: Seq<(nat, Seq<u8>)>, k: int) -> bool {
    exists|i: int| 0 <= i < found.len() && (#[trigger] found[i]).0 == k
}

/// The files of a tree are those that it was made of.
pub proof fn lemma_forest_leaves(paths: Seq<Seq<u8>>, n: int)
    requires
        0 <= n <= paths.len(),
        forall|i: int| 0 <= i < paths.len() ==> storable(#[trigger] paths[i]),
        forest_of(paths, n) is Some,
    ensures
        good(forest_of(paths, n)->0),
        files_below(forest_of(paths, n)->0, paths.len() as int),
        leaves_match(leaves(forest_of(paths, n)->0, Seq::empty()), paths, n),
    decreases n,
{
    let root = Seq::<u8>::empty();
    if n > 0 {
        lemma_forest_leaves(paths, n - 1);
        let f = forest_of(paths, n - 1)->0;
        let path = parts(paths[n - 1]);
        assert(storable(paths[n - 1]));
        lemma_grow_good(f, path, 0, (n - 1) as nat);
        lemma_grow_files(f, path, 0, (n - 1) as nat, paths.len() as int);
        let (k, p) = lemma_grow_leaves(f, path, 0, (n - 1) as nat, root);
        assert(path.skip(0) =~= path);
        let before = leaves(f, root);
        let after = before.insert(k, ((n - 1) as nat, p));
        assert forall|i: int| 0 <= i < n implies (#[trigger] after[i]).0 < n && same_name(
            after[i].1,
            paths[after[i].0 as int],
        ) by {
            if i < k {
                assert(after[i] == before[i]);
            } else if i > k {
                assert(after[i] == before[i - 1]);
            }
        }
        assert forall|i: int, j: int| 0 <= i < j < n implies (#[trigger] after[i]).0 != (
        #[trigger] after[j]).0 by {
            let a = if i < k {
                i
            } else {
                i - 1
            };
            let b = if j < k {
                j
            } else {
                j - 1
            };
            if i == k {
                assert(after[j] == before[b]);
            } else if j == k {
                assert(after[i] == before[a]);
            } else {
                assert(before[a].0 != before[b].0);
            }
        }
        assert forall|m: int| 0 <= m < n implies #[trigger] is_found(after, m) by {
            if m == n - 1 {
                assert(after[k].0 == m);
            } else {
                assert(is_found(before, m));
                let i = choose|i: int| 0 <= i < before.len() && (#[trigger] before[i]).0 == m;
                if i < k {
                    assert(after[i].0 == m);
                } else {
                    assert(after[i + 1].0 == m);
                }
            }
        }
    } else {
        assert(leaves(Forest::Nil, root) =~= Seq::<(nat, Seq<u8>)>::empty());
    }
}

/// The numbers in nodes are those of nodes and files.
pub proof fn lemma_flat_bounds(f: Forest, base: int, n: int)
    requires
        files_below(f, n),
        1 <= base,
        0 <= n,
    ensures
        forall|i: int|
            0 <= i < flat(f, base).len() ==> -n <= (#[trigger] flat(f, base)[i]).child < base
                + count(f) && 0 <= flat(f, base)[i].sibling < base + count(f),
    decreases f,
{
    if let Forest::Node { name, file, child, rest } = f {
        let next = base + 1 + count(*child);
        lemma_flat_bounds(*child, base + 1, n);
        lemma_flat_bounds(*rest, next, n);
        lemma_flat_len(*child, base + 1);
        lemma_flat_len(*rest, next);
        let all = flat(f, base);
        assert forall|i: int| 0 <= i < all.len() implies -n <= (#[trigger] all[i]).child < base
            + count(f) && 0 <= all[i].sibling < base + count(f) by {
            if i > count(*child) {
                assert(all[i] == flat(*rest, next)[i - 1 - count(*child)]);
            } else if i > 0 {
                assert(all[i] == flat(*child, base + 1)[i - 1]);
            } else {
                assert(*child is Node ==> count(*child) >= 1);
                assert(*rest is Node ==> count(*rest) >= 1);
            }
        }
    }
}

/// The names of a good forest are good.
pub proof fn lemma_flat_names(f: Forest, base: int)
    requires
        good(f),
    ensures
        forall|i: int|
            0 <= i < flat(f, base).len() ==> good_name((#[trigger] flat(f, base)[i]).name),
    decreases f,
{
    if let Forest::Node { name, file, child, rest } = f {
        let next = base + 1 + count(*child);
        lemma_flat_names(*child, base + 1);
        lemma_flat_names(*rest, next);
        lemma_flat_len(*child, base + 1);
        lemma_flat_len(*rest, next);
        let all = flat(f, base);
        assert forall|i: int| 0 <= i < all.len() implies good_name((#[trigger] all[i]).name) by {
            if i > count(*child) {
                assert(all[i] == flat(*rest, next)[i - 1 - count(*child)]);
            } else if i > 0 {
                assert(all[i] == flat(*child, base + 1)[i - 1]);
            }
        }
    }
}

/// What stands in a byte string stands in it when more follows.
pub proof fn lemma_holds_before(s: Seq<u8>, at: int, part: Seq<u8>, more: Seq<u8>)
    requires
        holds_at(s, at, part),
    ensures
        holds_at(s + more, at, part),
{
    assert((s + more).subrange(at, at + part.len()) =~= s.subrange(at, at + part.len()));
}

/// What follows a byte string stands behind it.
pub proof fn lemma_holds_behind(s: Seq<u8>, part: Seq<u8>)
    ensures
        holds_at(s + part, s.len() as int, part),
{
    assert((s + part).subrange(s.len() as int, s.len() as int + part.len()) =~= part);
}

pub proof fn lemma_info_placed(items: Seq<PendingView>, prefix_len: int, n: int, i: int)
    requires
        0 <= i < n,
    ensures
        infos_bytes(items, prefix_len, n).len() == 16 * n,
        holds_at(
            infos_bytes(items, prefix_len, n),
            16 * i,
            info_bytes(items[i], offset_of(items, prefix_len, i)),
        ),
    decreases n,
{
    lemma_infos_bytes_len(items, prefix_len, n - 1);
    let before = infos_bytes(items, prefix_len, n - 1);
    let last = info_bytes(items[n - 1], offset_of(items, prefix_len, n - 1));
    if i < n - 1 {
        lemma_info_placed(items, prefix_len, n - 1, i);
        lemma_holds_before(
            before,
            16 * i,
            info_bytes(items[i], offset_of(items, prefix_len, i)),
            last,
        );
    } else {
        lemma_holds_behind(before, last);
    }
}

pub proof fn lemma_infos_bytes_len(items: Seq<PendingView>, prefix_len: int, n: int)
    requires
        0 <= n,
    ensures
        infos_bytes(items, prefix_len, n).len() == 16 * n,
    decreases n,
{
    if n > 0 {
        lemma_infos_bytes_len(items, prefix_len, n - 1);
    }
}

/// The record that is read of a file.
pub open spec fn info_of(item: PendingView, offset: int) -> Info {
    Info {
        offset: offset as u64,
        stored_size: item.stored_size as u32,
        size: item.size as u32,
        compression: item.compression,
    }
}

/// The sizes of a file fit its record.
pub open spec fn sized(item: PendingView) -> bool {
    0 <= item.stored_size <= i32::MAX && 0 <= item.size <= i32::MAX
}

proof fn lemma_info_read_back(tail: Seq<u8>, at: int, index: int, item: PendingView, offset: int)
    requires
        0 <= at,
        holds_at(tail, at, info_bytes(item, offset)),
        sized(item),
        0 <= offset,
        offset + item.stored_size <= index <= MAX_INDEX,
        offset % 256 == 0,
    ensures
        info_at(tail, at, index) == Ok::<Info, ErrorView>(info_of(item, offset)),
{
    let all = info_bytes(item, offset);
    let a = le32(offset / 256);
    let b = le32(item.stored_size);
    let c = le32(item.size);
    let d = le32(compression_raw(item.compression));
    assert(all.subrange(0, 4) =~= a);
    assert(all.subrange(4, 8) =~= b);
    assert(all.subrange(8, 12) =~= c);
    assert(all.subrange(12, 16) =~= d);
    lemma_holds_in(tail, at, all, 0, a);
    lemma_holds_in(tail, at, all, 4, b);
    lemma_holds_in(tail, at, all, 8, c);
    lemma_holds_in(tail, at, all, 12, d);
    lemma_i32_read_back(tail, at, offset / 256);
    lemma_i32_read_back(tail, at + 4, item.stored_size);
    lemma_i32_read_back(tail, at + 8, item.size);
    lemma_i32_read_back(tail, at + 12, compression_raw(item.compression));
    lemma_compression_read_back(item.compression);
}

/// The records that are read of the first `n` files.
pub open spec fn infos_of(items: Seq<PendingView>, prefix_len: int, n: int) -> Seq<Info> {
    Seq::new(n as nat, |i: int| info_of(items[i], offset_of(items, prefix_len, i)))
}

/// The file records are read back.
pub proof fn lemma_infos_read_back(
    tail: Seq<u8>,
    index: int,
    items: Seq<PendingView>,
    prefix_len: int,
    n: int,
)
    requires
        0 <= n <= items.len(),
        holds_at(tail, 8, infos_bytes(items, prefix_len, items.len() as int)),
        forall|i: int|
            0 <= i < items.len() ==> sized(#[trigger] items[i]) && 0 <= offset_of(
                items,
                prefix_len,
                i,
            ) && offset_of(items, prefix_len, i) + items[i].stored_size <= index && offset_of(
                items,
                prefix_len,
                i,
            ) % 256 == 0,
        index <= MAX_INDEX,
    ensures
        infos_upto(tail, index, n) == Ok::<Seq<Info>, ErrorView>(infos_of(items, prefix_len, n)),
    decreases n,
{
    if n > 0 {
        lemma_infos_read_back(tail, index, items, prefix_len, n - 1);
        let i = n - 1;
        let offset = offset_of(items, prefix_len, i);
        let all = infos_bytes(items, prefix_len, items.len() as int);
        lemma_info_placed(items, prefix_len, items.len() as int, i);
        lemma_holds_in(tail, 8, all, 16 * i, info_bytes(items[i], offset));
        assert(sized(items[i]));
        lemma_info_read_back(tail, 8 + 16 * i, index, items[i], offset);
        assert(infos_of(items, prefix_len, n) =~= infos_of(items, prefix_len, n - 1).push(
            info_of(items[i], offset),
        ));
    } else {
        assert(infos_of(items, prefix_len, 0) =~= Seq::<Info>::empty());
    }
}

proof fn lemma_node_bytes_len(version: int, node: FlatView, at: int)
    ensures
        node_bytes(version, node, at).len() == node_width(version),
{
}

pub proof fn lemma_nodes_bytes_len(version: int, nodes: Seq<FlatView>, n: int)
    requires
        0 <= n,
    ensures
        nodes_bytes(version, nodes, n).len() == n * node_width(version),
    decreases n,
{
    if n > 0 {
        lemma_nodes_bytes_len(version, nodes, n - 1);
        lemma_node_bytes_len(version, nodes[n - 1], name_offset(nodes, n - 1));
        let w = node_width(version);
        assert((n - 1) * w + w == n * w) by (nonlinear_arith);
    }
}

pub proof fn lemma_node_placed(version: int, nodes: Seq<FlatView>, n: int, i: int)
    requires
        0 <= i < n,
    ensures
        holds_at(
            nodes_bytes(version, nodes, n),
            i * node_width(version),
            node_bytes(version, nodes[i], name_offset(nodes, i)),
        ),
    decreases n,
{
    let before = nodes_bytes(version, nodes, n - 1);
    let last = node_bytes(version, nodes[n - 1], name_offset(nodes, n - 1));
    lemma_nodes_bytes_len(version, nodes, n - 1);
    if i < n - 1 {
        lemma_node_placed(version, nodes, n - 1, i);
        lemma_holds_before(
            before,
            i * node_width(version),
            node_bytes(version, nodes[i], name_offset(nodes, i)),
            last,
        );
    } else {
        lemma_holds_behind(before, last);
    }
}

/// The node that is read of one that was written.
pub open spec fn raw_node(nodes: Seq<FlatView>, i: int) -> RawNode {
    RawNode {
        child: nodes[i].child as i16,
        sibling: nodes[i].sibling as i16,
        name_offset: name_offset(nodes, i) as u32,
    }
}

pub open spec fn raw_nodes(nodes: Seq<FlatView>) -> Seq<RawNode> {
    Seq::new(nodes.len(), |i: int| raw_node(nodes, i))
}

pub open spec fn node_names(nodes: Seq<FlatView>) -> Seq<Seq<u8>> {
    Seq::new(nodes.len(), |i: int| nodes[i].name)
}

/// The numbers in a node fit it.
pub open spec fn node_fits(node: FlatView) -> bool {
    -0x8000 < node.child < 0x8000 && 0 <= node.sibling < 0x8000
}

proof fn lemma_node_read_back(tail: Seq<u8>, at: int, version: int, nodes: Seq<FlatView>, i: int)
    requires
        0 <= at,
        holds_at(tail, at, node_bytes(version, nodes[i], name_offset(nodes, i))),
        node_fits(nodes[i]),
        name_offset(nodes, i) < 0x1_0000_0000,
    ensures
        node_at(tail, at) == raw_node(nodes, i),
{
    let all = node_bytes(version, nodes[i], name_offset(nodes, i));
    let a = le16(nodes[i].child);
    let b = le16(nodes[i].sibling);
    let c = le32(name_offset(nodes, i));
    assert(all.subrange(0, 2) =~= a);
    assert(all.subrange(2, 4) =~= b);
    assert(all.subrange(4, 8) =~= c);
    lemma_holds_in(tail, at, all, 0, a);
    lemma_holds_in(tail, at, all, 2, b);
    lemma_holds_in(tail, at, all, 4, c);
    lemma_i16_read_back(tail, at, nodes[i].child);
    lemma_i16_read_back(tail, at + 2, nodes[i].sibling);
    lemma_u32_read_back(tail, at + 4, name_offset(nodes, i));
}

/// A name table starts with the table of fewer names.
proof fn lemma_table_prefix(nodes: Seq<FlatView>, i: int, n: int)
    requires
        1 <= i <= n,
    ensures
        name_table(nodes, i).len() <= name_table(nodes, n).len(),
        name_table(nodes, n).take(name_table(nodes, i).len() as int) == name_table(nodes, i),
    decreases n - i,
{
    if i < n {
        lemma_table_prefix(nodes, i, n - 1);
        let small = name_table(nodes, i);
        assert(name_table(nodes, n).take(small.len() as int) =~= name_table(nodes, n - 1).take(
            small.len() as int,
        ));
    } else {
        assert(name_table(nodes, n).take(name_table(nodes, n).len() as int) =~= name_table(
            nodes,
            n,
        ));
    }
}

pub proof fn lemma_zero_from(s: Seq<u8>, at: int, end: int)
    requires
        0 <= at <= end < s.len(),
        s[end] == 0,
        forall|i: int| at <= i < end ==> s[i] != 0,
    ensures
        zero_from(s, at) == end,
    decreases end - at,
{
    if at < end {
        lemma_zero_from(s, at + 1, end);
    }
}

/// The root has no name, and the other nodes have good ones.
pub open spec fn named(nodes: Seq<FlatView>) -> bool {
    &&& nodes.len() >= 1
    &&& nodes[0].name == Seq::<u8>::empty()
    &&& forall|i: int| 1 <= i < nodes.len() ==> good_name((#[trigger] nodes[i]).name)
}

/// A name is read back from the name table.
proof fn lemma_name_read_back(nodes: Seq<FlatView>, i: int)
    requires
        named(nodes),
        0 <= i < nodes.len(),
    ensures
        name_at(name_table(nodes, nodes.len() as int), name_offset(nodes, i)) == Ok::<
            Seq<u8>,
            ErrorView,
        >(nodes[i].name),
        0 <= name_offset(nodes, i) <= name_table(nodes, nodes.len() as int).len(),
{
    let n = nodes.len() as int;
    let table = name_table(nodes, n);
    if i == 0 {
        lemma_table_prefix(nodes, 1, n);
        assert(table[0] == table.take(1)[0]);
        lemma_zero_from(table, 0, 0);
        assert(table.subrange(0, 0) =~= Seq::<u8>::empty());
        assert(vstd::utf8::valid_utf8(Seq::<u8>::empty()));
    } else {
        let at = name_offset(nodes, i);
        let name = nodes[i].name;
        let end = at + name.len();
        assert(good_name(name));
        lemma_table_prefix(nodes, i + 1, n);
        let upto = name_table(nodes, i + 1);
        assert(upto == name_table(nodes, i) + name + seq![0u8]);
        assert(forall|k: int| 0 <= k < upto.len() ==> #[trigger] table[k] == table.take(
            upto.len() as int,
        )[k]);
        assert(table[end] == upto[end]);
        assert forall|k: int| at <= k < end implies table[k] != 0 by {
            assert(table[k] == upto[k]);
            assert(name[k - at] == upto[k]);
            assert(name.contains(name[k - at]));
        }
        lemma_zero_from(table, at, end);
        assert(table.subrange(at, end) =~= name);
    }
}

/// The names are read back from the name table.
proof fn lemma_names_read_back(nodes: Seq<FlatView>, n: int)
    requires
        named(nodes),
        0 <= n <= nodes.len(),
        name_table(nodes, nodes.len() as int).len() < 0x1_0000_0000,
    ensures
        names_upto(name_table(nodes, nodes.len() as int), raw_nodes(nodes), n) == Ok::<
            Seq<Seq<u8>>,
            ErrorView,
        >(node_names(nodes).take(n)),
    decreases n,
{
    if n > 0 {
        lemma_names_read_back(nodes, n - 1);
        lemma_name_read_back(nodes, n - 1);
        assert(node_names(nodes).take(n) =~= node_names(nodes).take(n - 1).push(
            nodes[n - 1].name,
        ));
    } else {
        assert(node_names(nodes).take(0) =~= Seq::<Seq<u8>>::empty());
    }
}

/// The bytes of a tree.
pub open spec fn tree_bytes(version: int, nodes: Seq<FlatView>) -> Seq<u8> {
    let names = name_table(nodes, nodes.len() as int);
    le32(nodes.len() as int) + nodes_bytes(version, nodes, nodes.len() as int) + le32(
        names.len() as int,
    ) + names
}

/// The pieces of a tree stand one behind the other.
proof fn lemma_tree_pieces_hold(tail: Seq<u8>, at: int, version: int, nodes: Seq<FlatView>)
    requires
        0 <= at,
        holds_at(tail, at, tree_bytes(version, nodes)),
    ensures
        ({
            let n = nodes.len() as int;
            let b = nodes_bytes(version, nodes, n);
            let table = name_table(nodes, n);
            &&& holds_at(tail, at, le32(n))
            &&& holds_at(tail, at + 4, b)
            &&& holds_at(tail, at + 4 + b.len(), le32(table.len() as int))
            &&& holds_at(tail, at + 8 + b.len(), table)
            &&& tree_bytes(version, nodes).len() == 8 + b.len() + table.len()
        }),
{
    let n = nodes.len() as int;
    let table = name_table(nodes, n);
    let all = tree_bytes(version, nodes);
    let a = le32(n);
    let b = nodes_bytes(version, nodes, n);
    let c = le32(table.len() as int);
    let m = b.len() as int;
    assert(a.len() == 4 && c.len() == 4);
    assert(all == a + b + c + table);
    assert(all.subrange(0, 4) =~= a);
    assert(all.subrange(4, 4 + m) =~= b);
    assert(all.subrange(4 + m, 8 + m) =~= c);
    assert(all.subrange(8 + m, 8 + m + table.len()) =~= table);
    lemma_holds_in(tail, at, all, 0, a);
    lemma_holds_in(tail, at, all, 4, b);
    lemma_holds_in(tail, at, all, 4 + m, c);
    lemma_holds_in(tail, at, all, 8 + m, table);
}

/// The nodes are read back.
proof fn lemma_nodes_read_back(tail: Seq<u8>, at: int, version: int, nodes: Seq<FlatView>)
    requires
        0 <= at,
        holds_at(tail, at, nodes_bytes(version, nodes, nodes.len() as int)),
        named(nodes),
        forall|i: int| 0 <= i < nodes.len() ==> node_fits(#[trigger] nodes[i]),
        name_table(nodes, nodes.len() as int).len() <= i32::MAX,
    ensures
        nodes_at(tail, at, node_width(version), nodes.len()) == raw_nodes(nodes),
{
    let n = nodes.len() as int;
    let w = node_width(version);
    let b = nodes_bytes(version, nodes, n);
    assert forall|i: int| 0 <= i < n implies node_at(tail, at + i * w) == raw_node(nodes, i) by {
        lemma_node_placed(version, nodes, n, i);
        let piece = node_bytes(version, nodes[i], name_offset(nodes, i));
        assert(i * w >= 0) by (nonlinear_arith)
            requires
                i >= 0,
                w >= 0,
        ;
        lemma_holds_in(tail, at, b, i * w, piece);
        lemma_name_read_back(nodes, i);
        assert(node_fits(nodes[i]));
        lemma_node_read_back(tail, at + i * w, version, nodes, i);
    }
    assert(nodes_at(tail, at, w, n as nat) =~= raw_nodes(nodes));
}

/// The tree is read back.
pub proof fn lemma_tree_read_back(tail: Seq<u8>, at: int, version: int, nodes: Seq<FlatView>)
    requires
        0 <= at,
        holds_at(tail, at, tree_bytes(version, nodes)),
        named(nodes),
        forall|i: int| 0 <= i < nodes.len() ==> node_fits(#[trigger] nodes[i]),
        nodes.len() <= i16::MAX,
        name_table(nodes, nodes.len() as int).len() <= i32::MAX,
    ensures
        tree_part(tail, at, version) == Ok::<(Seq<RawNode>, Seq<Seq<u8>>, int), ErrorView>(
            (raw_nodes(nodes), node_names(nodes), at + tree_bytes(version, nodes).len()),
        ),
{
    let n = nodes.len() as int;
    let table = name_table(nodes, n);
    let span = nodes_bytes(version, nodes, n).len() as int;
    lemma_tree_pieces_hold(tail, at, version, nodes);
    lemma_nodes_bytes_len(version, nodes, n);
    assert(n * node_width(version) == span);
    lemma_i32_read_back(tail, at, n);
    lemma_i32_read_back(tail, at + 4 + span, table.len() as int);
    lemma_nodes_read_back(tail, at + 4, version, nodes);
    lemma_names_read_back(nodes, n);
    assert(node_names(nodes).take(n) =~= node_names(nodes));
    assert(tail.subrange(at + 8 + span, at + 8 + span + table.len()) == table);
    reveal(tree_part);
}

pub proof fn lemma_hash_placed(items: Seq<PendingView>, n: int, i: int)
    requires
        0 <= i < n,
    ensures
        holds_at(hashes_bytes(items, n), 4 * i, le32(path_hash(items[i].path) as int)),
    decreases n,
{
    lemma_hashes_bytes_len(items, n - 1);
    let before = hashes_bytes(items, n - 1);
    let last = le32(path_hash(items[n - 1].path) as int);
    if i < n - 1 {
        lemma_hash_placed(items, n - 1, i);
        lemma_holds_before(before, 4 * i, le32(path_hash(items[i].path) as int), last);
    } else {
        lemma_holds_behind(before, last);
    }
}

pub proof fn lemma_hashes_bytes_len(items: Seq<PendingView>, n: int)
    requires
        0 <= n,
    ensures
        hashes_bytes(items, n).len() == 4 * n,
    decreases n,
{
    if n > 0 {
        lemma_hashes_bytes_len(items, n - 1);
    }
}

/// The hashes of the files' paths.
pub open spec fn item_hashes(items: Seq<PendingView>) -> Seq<u32> {
    Seq::new(items.len(), |i: int| path_hash(items[i].path))
}

/// The hashes are read back.
pub proof fn lemma_hashes_read_back(tail: Seq<u8>, at: int, items: Seq<PendingView>)
    requires
        0 <= at,
        holds_at(tail, at, hashes_bytes(items, items.len() as int) + le32(0) + le32(0)),
        at + 4 * items.len() + 8 == tail.len(),
    ensures
        hash_part(tail, at, items.len()) == Ok::<Seq<u32>, ErrorView>(item_hashes(items)),
{
    reveal(hash_part);
    let n = items.len() as int;
    let h = hashes_bytes(items, n);
    let z = le32(0);
    let all = h + z + z;
    lemma_hashes_bytes_len(items, n);
    assert(all.subrange(0, 4 * n) =~= h);
    assert(all.subrange(4 * n, 4 * n + 4) =~= z);
    assert(all.subrange(4 * n + 4, 4 * n + 8) =~= z);
    lemma_holds_in(tail, at, all, 0, h);
    lemma_holds_in(tail, at, all, 4 * n, z);
    lemma_holds_in(tail, at, all, 4 * n + 4, z);
    lemma_i32_read_back(tail, at + 4 * n, 0);
    lemma_i32_read_back(tail, at + 4 * n + 4, 0);
    assert(hashes_at(tail, at, n as nat) =~= item_hashes(items)) by {
        assert forall|i: int| 0 <= i < n implies u32_at(tail, at + 4 * i) == path_hash(
            items[i].path,
        ) by {
            lemma_hash_placed(items, n, i);
            let piece = le32(path_hash(items[i].path) as int);
            lemma_holds_in(tail, at, h, 4 * i, piece);
            lemma_u32_read_back(tail, at + 4 * i, path_hash(items[i].path) as int);
        }
    }
}

} // verus!
