//! The paths of opened archives are texts without slashes, and none leads out of a directory.

use super::paths::{clean, lemma_join_proper, proper};
use crate::archive::opened;
use crate::index::{
    all_some, file_part, hash_part, index_start, lemma_placed, names_upto, placed, position,
    resolved, tree_part, unwrapped, Info,
};
use crate::text::{lemma_ascii_text, path_hash, BACKSLASH, SLASH};
use crate::walk::{bad_name, file_paths, join, lemma_unseen_less, unseen, walked, RawNode};
use vstd::prelude::*;
use vstd::utf8::{valid_utf8, valid_utf8_concat};

verus! {

/// The paths found so far are clean and proper.
pub open spec fn all_clean(paths: Seq<Option<Seq<u8>>>) -> bool {
    forall|i: int|
        0 <= i < paths.len() ==> (#[trigger] paths[i] matches Some(path) ==> clean(path) && proper(
            path,
        ))
}

/// The path is that of a directory: clean, and proper unless it is the root.
spec fn leads(path: Seq<u8>) -> bool {
    clean(path) && (path.len() == 0 || proper(path))
}

proof fn lemma_join_clean(parent: Seq<u8>, name: Seq<u8>)
    requires
        clean(parent),
        valid_utf8(name),
        !name.contains(SLASH),
    ensures
        clean(join(parent, name)),
{
    let path = join(parent, name);
    if parent.len() > 0 {
        lemma_ascii_text(BACKSLASH);
        valid_utf8_concat(parent, seq![BACKSLASH]);
        valid_utf8_concat(parent + seq![BACKSLASH], name);
        assert forall|i: int| 0 <= i < path.len() implies path[i] != SLASH by {
            if i < parent.len() {
                assert(parent.contains(parent[i]));
            } else if i > parent.len() {
                assert(name.contains(name[i - parent.len() - 1]));
            }
        }
    }
}

proof fn lemma_walked_clean(
    stack: Seq<(int, Seq<u8>)>,
    nodes: Seq<RawNode>,
    names: Seq<Seq<u8>>,
    seen: Seq<bool>,
    paths: Seq<Option<Seq<u8>>>,
)
    requires
        forall|i: int| 0 <= i < names.len() ==> valid_utf8(#[trigger] names[i]),
        names.len() == nodes.len(),
        forall|i: int| 0 <= i < stack.len() ==> leads((#[trigger] stack[i]).1),
        all_clean(paths),
    ensures
        walked(stack, nodes, names, seen, paths) matches Ok(found) ==> all_clean(found),
    decreases unseen(seen), stack.len(),
{
    if stack.len() > 0 {
        let (at, parent) = stack.last();
        let rest = stack.drop_last();
        assert(leads(stack[stack.len() - 1].1));
        if at == 0 {
            lemma_walked_clean(rest, nodes, names, seen, paths);
        } else if at > 0 && at < seen.len() && !seen[at] && at < nodes.len() && !bad_name(
            names[at],
        ) {
            lemma_unseen_less(seen, at);
            let path = join(parent, names[at]);
            let child = nodes[at].child as int;
            let marked = seen.update(at, true);
            let below = rest.push((nodes[at].sibling as int, parent));
            lemma_join_clean(parent, names[at]);
            lemma_join_proper(parent, names[at]);
            if child > 0 {
                lemma_walked_clean(below.push((child, path)), nodes, names, marked, paths);
            } else if child != i16::MIN && -child < paths.len() && paths[-child] is None {
                lemma_walked_clean(
                    below,
                    nodes,
                    names,
                    marked,
                    paths.update(-child, Some(path)),
                );
            }
        }
    }
}

proof fn lemma_names_texts(names: Seq<u8>, nodes: Seq<RawNode>, n: int)
    requires
        0 <= n,
    ensures
        names_upto(names, nodes, n) matches Ok(found) ==> found.len() == n && forall|i: int|
            0 <= i < found.len() ==> valid_utf8(#[trigger] found[i]),
    decreases n,
{
    if n > 0 {
        lemma_names_texts(names, nodes, n - 1);
    }
}

proof fn lemma_placed_clean(
    paths: Seq<Option<Seq<u8>>>,
    hashes: Seq<u32>,
    infos: Seq<Info>,
    n: int,
)
    requires
        all_clean(paths),
        all_some(paths),
        n <= paths.len(),
    ensures
        placed(paths, hashes, infos, n) matches Ok(slots) ==> forall|i: int|
            0 <= i < slots.len() ==> (#[trigger] slots[i] matches Some(e) ==> clean(e.path)
                && proper(e.path)),
    decreases n,
{
    if n > 0 {
        lemma_placed_clean(paths, hashes, infos, n - 1);
        lemma_placed(paths, hashes, infos, n - 1);
        assert(paths[n - 1] is Some);
        if placed(paths, hashes, infos, n) is Ok {
            let hash = path_hash(paths[n - 1]->0);
            assert(hashes.contains(hash));
            let at = position(hashes, hash);
            assert(0 <= at < hashes.len() && hashes[at] == hash);
        }
    }
}

/// The paths of an opened archive are texts without slashes, and no component of them is empty,
/// `.` or `..`: what is unpacked stays in the directory that it is unpacked to.
pub proof fn lemma_opened_clean(image: Seq<u8>)
    requires
        opened(image) is Ok,
    ensures
        forall|i: int|
            0 <= i < opened(image)->Ok_0.entries.len() ==> clean(
                (#[trigger] opened(image)->Ok_0.entries[i]).path,
            ) && proper(opened(image)->Ok_0.entries[i].path),
{
    reveal(file_part);
    reveal(tree_part);
    reveal(resolved);
    let index = index_start(image.len() as int, image)->Ok_0;
    let tail = image.subrange(index, image.len() as int);
    let (version, infos) = file_part(tail, index)->Ok_0;
    let at = 8 + 16 * (infos.len() as int);
    let (nodes, names, end) = tree_part(tail, at, version)->Ok_0;
    let hashes = hash_part(tail, end, infos.len())->Ok_0;
    let count = crate::bytes::i32_at(tail, at);
    let width = crate::index::node_width(version);
    let table = at + 4 + count * width;
    let names_len = crate::bytes::i32_at(tail, table);
    lemma_names_texts(tail.subrange(table + 4, table + 4 + names_len), nodes, count);
    let none = Seq::new(infos.len(), |i: int| None::<Seq<u8>>);
    let root = Seq::<u8>::empty();
    assert(leads(root)) by {
        assert(valid_utf8(root));
    }
    lemma_walked_clean(
        seq![(nodes[0].child as int, root)],
        nodes,
        names,
        Seq::new(nodes.len(), |i: int| false),
        none,
    );
    let paths = file_paths(nodes, names, infos.len())->Ok_0;
    lemma_placed_clean(paths, hashes, infos, paths.len() as int);
    let slots = placed(paths, hashes, infos, paths.len() as int)->Ok_0;
    let entries = opened(image)->Ok_0.entries;
    assert(entries == unwrapped(slots));
    assert forall|i: int| 0 <= i < entries.len() implies clean((#[trigger] entries[i]).path)
        && proper(entries[i].path) by {
        assert(slots[i] is Some);
    }
}

} // verus!
