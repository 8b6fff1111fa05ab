//! Reading paths from the directory tree of an archive.

use crate::error::{fails, invalid, ErrorView, Result};
use crate::text::{lemma_ascii_text, views, BACKSLASH, DOT, SLASH};
use vstd::prelude::*;
use vstd::utf8::{valid_utf8, valid_utf8_concat};

verus! {

/// A node as the index holds it.
#[derive(Clone, Copy, Debug)]
pub struct RawNode {
    pub child: i16,
    pub sibling: i16,
    pub name_offset: u32,
}

/// How many nodes have not been seen.
pub open spec fn unseen(seen: Seq<bool>) -> nat
    decreases seen.len(),
{
    if seen.len() == 0 {
        0
    } else {
        unseen(seen.drop_last()) + if seen.last() {
            0nat
        } else {
            1nat
        }
    }
}

pub proof fn lemma_unseen_less(seen: Seq<bool>, at: int)
    requires
        0 <= at < seen.len(),
        !seen[at],
    ensures
        unseen(seen.update(at, true)) < unseen(seen),
    decreases seen.len(),
{
    let marked = seen.update(at, true);
    if at == seen.len() - 1 {
        assert(marked.drop_last() =~= seen.drop_last());
    } else {
        assert(marked.drop_last() =~= seen.drop_last().update(at, true));
        lemma_unseen_less(seen.drop_last(), at);
    }
}

/// Names that no node may have.
pub open spec fn bad_name(name: Seq<u8>) -> bool {
    name.len() == 0 || name == seq![DOT] || name == seq![DOT, DOT] || name.contains(SLASH)
        || name.contains(BACKSLASH)
}

/// A name below a directory; the root's path is empty.
pub open spec fn join(parent: Seq<u8>, name: Seq<u8>) -> Seq<u8> {
    if parent.len() == 0 {
        name
    } else {
        parent + seq![BACKSLASH] + name
    }
}

/// The paths of the files, by number, after visiting the nodes on a stack: each with what is
/// below it, then its siblings. Next to a node stands the path of the directory it is in.
pub open spec fn walked(
    stack: Seq<(int, Seq<u8>)>,
    nodes: Seq<RawNode>,
    names: Seq<Seq<u8>>,
    seen: Seq<bool>,
    paths: Seq<Option<Seq<u8>>>,
) -> core::result::Result<Seq<Option<Seq<u8>>>, ErrorView>
    decreases unseen(seen), stack.len(),
{
    if stack.len() == 0 {
        Ok(paths)
    } else {
        let (at, parent) = stack.last();
        let rest = stack.drop_last();
        if at == 0 {
            walked(rest, nodes, names, seen, paths)
        } else if at < 0 || (at < seen.len() && seen[at]) {
            Err(ErrorView::InvalidArchive("invalid or cyclic DAT tree"@))
        } else if at >= nodes.len() || at >= seen.len() {
            Err(ErrorView::InvalidArchive("DAT tree index out of range"@))
        } else if bad_name(names[at]) {
            Err(ErrorView::InvalidArchive("invalid DAT tree name"@))
        } else {
            proof {
                lemma_unseen_less(seen, at);
            }
            let path = join(parent, names[at]);
            let child = nodes[at].child as int;
            let marked = seen.update(at, true);
            let below = rest.push((nodes[at].sibling as int, parent));
            if child > 0 {
                walked(below.push((child, path)), nodes, names, marked, paths)
            } else if child == i16::MIN || -child >= paths.len() {
                Err(ErrorView::InvalidArchive("DAT file index out of range"@))
            } else if paths[-child] is Some {
                Err(ErrorView::InvalidArchive("duplicate DAT file index"@))
            } else {
                walked(below, nodes, names, marked, paths.update(-child, Some(path)))
            }
        }
    }
}

/// The paths of `count` files, by number, in a tree with at least a root.
pub open spec fn file_paths(
    nodes: Seq<RawNode>,
    names: Seq<Seq<u8>>,
    count: nat,
) -> core::result::Result<Seq<Option<Seq<u8>>>, ErrorView> {
    walked(
        seq![(nodes[0].child as int, Seq::<u8>::empty())],
        nodes,
        names,
        Seq::new(nodes.len(), |i: int| false),
        Seq::new(count, |i: int| None::<Seq<u8>>),
    )
}

/// The contents of optional byte vectors.
pub open spec fn optional_views(v: Seq<Option<Vec<u8>>>) -> Seq<Option<Seq<u8>>> {
    Seq::new(
        v.len(),
        |i: int|
            match v[i] {
                Some(bytes) => Some(bytes@),
                None => None,
            },
    )
}

/// The nodes on a stack, each with the path of the directory it is in.
spec fn stack_view(v: Seq<(i16, Vec<u8>)>) -> Seq<(int, Seq<u8>)> {
    Seq::new(v.len(), |i: int| (v[i].0 as int, v[i].1@))
}

fn is_bad_name(name: &Vec<u8>) -> (res: bool)
    ensures
        res == bad_name(name@),
{
    let n: usize = name.len();
    proof {
        if n == 1 && name@[0] == DOT {
            assert(name@ =~= seq![DOT]);
        }
        if n == 2 && name@[0] == DOT && name@[1] == DOT {
            assert(name@ =~= seq![DOT, DOT]);
        }
        assert(seq![DOT].len() == 1 && seq![DOT, DOT].len() == 2);
    }
    if n == 0 || (n == 1 && name[0] == DOT) || (n == 2 && name[0] == DOT && name[1] == DOT) {
        return true;
    }
    let mut i: usize = 0;
    while i < name.len()
        invariant
            i <= name@.len(),
            forall|j: int| 0 <= j < i ==> name@[j] != SLASH && name@[j] != BACKSLASH,
        decreases name@.len() - i,
    {
        if name[i] == SLASH || name[i] == BACKSLASH {
            assert(name@.contains(name@[i as int]));
            return true;
        }
        i = i + 1;
    }
    false
}

fn join_path(parent: &Vec<u8>, name: &Vec<u8>) -> (res: Vec<u8>)
    requires
        valid_utf8(parent@),
        valid_utf8(name@),
    ensures
        res@ == join(parent@, name@),
        valid_utf8(res@),
{
    let mut res: Vec<u8> = vstd::slice::slice_to_vec(parent.as_slice());
    if parent.len() != 0 {
        res.push(BACKSLASH);
        proof {
            lemma_ascii_text(BACKSLASH);
            valid_utf8_concat(parent@, seq![BACKSLASH]);
            assert(res@ =~= parent@ + seq![BACKSLASH]);
        }
    }
    proof {
        valid_utf8_concat(res@, name@);
    }
    crate::bytes::append(&mut res, name.as_slice());
    assert(parent@.len() == 0 ==> res@ =~= name@);
    res
}

/// The paths found are texts.
pub open spec fn all_texts(paths: Seq<Option<Seq<u8>>>) -> bool {
    forall|i: int|
        0 <= i < paths.len() ==> (#[trigger] paths[i] matches Some(path) ==> valid_utf8(path))
}

/// The paths on a stack are texts.
spec fn texts_on(v: Seq<(i16, Vec<u8>)>) -> bool {
    forall|i: int| 0 <= i < v.len() ==> valid_utf8(#[trigger] v[i].1@)
}

proof fn lemma_texts_push(v: Seq<(i16, Vec<u8>)>, top: (i16, Vec<u8>))
    requires
        texts_on(v),
        valid_utf8(top.1@),
    ensures
        texts_on(v.push(top)),
{
}

/// The paths of `count` files, by number.
pub fn find_paths(nodes: &Vec<RawNode>, names: &Vec<Vec<u8>>, count: usize) -> (res: Result<
    Vec<Option<Vec<u8>>>,
>)
    requires
        1 <= nodes@.len() <= i16::MAX,
        names@.len() == nodes@.len(),
        forall|i: int| 0 <= i < names@.len() ==> valid_utf8(#[trigger] names@[i]@),
    ensures
        match file_paths(nodes@, views(names@), count as nat) {
            Ok(paths) => res matches Ok(found) && optional_views(found@) == paths && all_texts(
                paths,
            ) && paths.len() == count,
            Err(e) => fails(res, e),
        },
{
    let ghost goal = file_paths(nodes@, views(names@), count as nat);
    let mut paths: Vec<Option<Vec<u8>>> = Vec::with_capacity(count);
    while paths.len() < count
        invariant
            paths@.len() <= count,
            forall|i: int| 0 <= i < paths@.len() ==> paths@[i] is None,
        decreases count - paths@.len(),
    {
        paths.push(None);
    }
    let mut seen: Vec<bool> = Vec::with_capacity(nodes.len());
    while seen.len() < nodes.len()
        invariant
            seen@.len() <= nodes@.len(),
            forall|i: int| 0 <= i < seen@.len() ==> !seen@[i],
        decreases nodes@.len() - seen@.len(),
    {
        seen.push(false);
    }
    let mut stack: Vec<(i16, Vec<u8>)> = Vec::new();
    stack.push((nodes[0].child, Vec::new()));
    proof {
        assert(seen@ =~= Seq::new(nodes@.len(), |i: int| false));
        assert(optional_views(paths@) =~= Seq::new(count as nat, |i: int| None::<Seq<u8>>));
        assert(stack@[0].1@ =~= Seq::<u8>::empty());
        assert(stack_view(stack@) =~= seq![(nodes@[0].child as int, Seq::<u8>::empty())]);
        assert(valid_utf8(Seq::<u8>::empty()));
    }
    while stack.len() > 0
        invariant
            1 <= nodes@.len() <= i16::MAX,
            names@.len() == nodes@.len(),
            forall|i: int| 0 <= i < names@.len() ==> valid_utf8(#[trigger] names@[i]@),
            seen@.len() == nodes@.len(),
            paths@.len() == count,
            goal == file_paths(nodes@, views(names@), count as nat),
            walked(
                stack_view(stack@),
                nodes@,
                views(names@),
                seen@,
                optional_views(paths@),
            ) == goal,
            texts_on(stack@),
            all_texts(optional_views(paths@)),
        decreases unseen(seen@), stack@.len(),
    {
        let ghost tops = stack@;
        let ghost before = stack_view(stack@);
        let ghost old_paths = optional_views(paths@);
        let (at, parent) = match stack.pop() {
            Some(top) => top,
            None => (0i16, Vec::new()),
        };
        assert(stack_view(stack@) =~= before.drop_last());
        assert(before.last() == (at as int, parent@));
        assert(valid_utf8(parent@)) by {
            assert(valid_utf8(tops[tops.len() - 1].1@));
        }
        assert(texts_on(stack@)) by {
            assert(stack@ =~= tops.drop_last());
        }
        if at == 0 {
            continue ;
        }
        if at < 0 {
            return Err(invalid("invalid or cyclic DAT tree"));
        }
        let i: usize = at as usize;
        if i >= nodes.len() {
            return Err(invalid("DAT tree index out of range"));
        }
        if seen[i] {
            return Err(invalid("invalid or cyclic DAT tree"));
        }
        proof {
            lemma_unseen_less(seen@, i as int);
        }
        seen.set(i, true);
        assert(views(names@)[i as int] == names@[i as int]@);
        if is_bad_name(&names[i]) {
            return Err(invalid("invalid DAT tree name"));
        }
        let path: Vec<u8> = join_path(&parent, &names[i]);
        let child: i16 = nodes[i].child;
        let ghost rest = stack_view(stack@);
        let ghost kept = stack@;
        stack.push((nodes[i].sibling, parent));
        assert(texts_on(stack@)) by {
            lemma_texts_push(kept, stack@.last());
            assert(stack@ =~= kept.push(stack@.last()));
        }
        assert(stack_view(stack@) =~= rest.push((nodes@[i as int].sibling as int, parent@)));
        if child > 0 {
            let ghost below = stack_view(stack@);
            let ghost kept = stack@;
            stack.push((child, path));
            assert(texts_on(stack@)) by {
                lemma_texts_push(kept, stack@.last());
                assert(stack@ =~= kept.push(stack@.last()));
            }
            assert(stack_view(stack@) =~= below.push((child as int, path@)));
        } else {
            if child == i16::MIN {
                return Err(invalid("DAT file index out of range"));
            }
            let slot: usize = (-child) as usize;
            if slot >= paths.len() {
                return Err(invalid("DAT file index out of range"));
            }
            assert(optional_views(paths@)[slot as int] is Some == paths@[slot as int] is Some);
            if paths[slot].is_some() {
                return Err(invalid("duplicate DAT file index"));
            }
            let ghost text = path@;
            paths.set(slot, Some(path));
            assert(optional_views(paths@) =~= old_paths.update(slot as int, Some(text)));
        }
    }
    Ok(paths)
}

} // verus!
