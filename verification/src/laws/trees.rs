//! Directory trees are read whatever the order of their nodes.

use super::leaves::{fresh, lemma_noted, lemma_noted_parts, noted};
use crate::walk::{bad_name, file_paths, join, lemma_unseen_less, walked, RawNode};
use vstd::prelude::*;

verus! {

/// Siblings, the first of them first. Each has the number of its node and a name, and is a file
/// with a number or a directory with what is below it.
pub ghost enum Wood {
    Nil,
    File { at: int, name: Seq<u8>, file: nat, rest: Box<Wood> },
    Dir { at: int, name: Seq<u8>, below: Box<Wood>, rest: Box<Wood> },
}

/// The number of the first node, or 0 where there is none.
pub open spec fn head(w: Wood) -> int {
    match w {
        Wood::Nil => 0,
        Wood::File { at, .. } => at,
        Wood::Dir { at, .. } => at,
    }
}

/// A name that a node may have: it is not empty, `.` or `..`, and has neither a slash nor a
/// backslash.
pub open spec fn fair_name(name: Seq<u8>) -> bool {
    &&& name.len() > 0
    &&& name != seq![0x2eu8]
    &&& name != seq![0x2eu8, 0x2eu8]
    &&& forall|i: int| 0 <= i < name.len() ==> (#[trigger] name[i]) != 0x2f && name[i] != 0x5c
}

/// The nodes are those of the siblings and of what is below them. A node tells its next sibling, or
/// 0 behind the last one; a directory tells its first child, and a file its number, negated.
pub open spec fn wood_stands(w: Wood, nodes: Seq<RawNode>, names: Seq<Seq<u8>>) -> bool
    decreases w,
{
    match w {
        Wood::Nil => true,
        Wood::File { at, name, file, rest } => {
            &&& 0 < at < nodes.len()
            &&& names[at] == name
            &&& fair_name(name)
            &&& nodes[at].child == -(file as int)
            &&& file < 0x8000
            &&& nodes[at].sibling == head(*rest)
            &&& wood_stands(*rest, nodes, names)
        },
        Wood::Dir { at, name, below, rest } => {
            &&& 0 < at < nodes.len()
            &&& names[at] == name
            &&& fair_name(name)
            &&& nodes[at].child == head(*below)
            &&& *below != Wood::Nil
            &&& nodes[at].sibling == head(*rest)
            &&& wood_stands(*below, nodes, names)
            &&& wood_stands(*rest, nodes, names)
        },
    }
}

/// The numbers of all nodes.
pub open spec fn numbers(w: Wood) -> Seq<int>
    decreases w,
{
    match w {
        Wood::Nil => Seq::empty(),
        Wood::File { at, rest, .. } => seq![at] + numbers(*rest),
        Wood::Dir { at, below, rest, .. } => seq![at] + (numbers(*below) + numbers(*rest)),
    }
}

/// The path of a name in a directory: behind a backslash, unless the directory is the root.
pub open spec fn path_below(parent: Seq<u8>, name: Seq<u8>) -> Seq<u8> {
    if parent.len() == 0 {
        name
    } else {
        parent + seq![0x5cu8] + name
    }
}

/// The numbers and the paths of all files below a directory.
pub open spec fn files_below(w: Wood, parent: Seq<u8>) -> Seq<(nat, Seq<u8>)>
    decreases w,
{
    match w {
        Wood::Nil => Seq::empty(),
        Wood::File { name, file, rest, .. } => seq![(file, path_below(parent, name))] + files_below(
            *rest,
            parent,
        ),
        Wood::Dir { name, below, rest, .. } => files_below(*below, path_below(parent, name))
            + files_below(*rest, parent),
    }
}

/// The nodes with these numbers are marked as seen.
spec fn marked_all(seen: Seq<bool>, at: Seq<int>) -> Seq<bool> {
    Seq::new(seen.len(), |i: int| seen[i] || at.contains(i))
}

/// None of the nodes has been seen, and none occurs twice.
spec fn unmet(seen: Seq<bool>, at: Seq<int>) -> bool {
    &&& at.no_duplicates()
    &&& forall|k: int|
        0 <= k < at.len() ==> 0 < #[trigger] at[k] < seen.len() && !seen[at[k]]
}

proof fn lemma_fair(name: Seq<u8>)
    requires
        fair_name(name),
    ensures
        !bad_name(name),
{
    if name.contains(0x2f) {
        let i = choose|i: int| 0 <= i < name.len() && name[i] == 0x2f;
        assert(name[i] != 0x2f);
    }
    if name.contains(0x5c) {
        let i = choose|i: int| 0 <= i < name.len() && name[i] == 0x5c;
        assert(name[i] != 0x5c);
    }
}

proof fn lemma_unmet_parts(seen: Seq<bool>, a: Seq<int>, b: Seq<int>)
    requires
        unmet(seen, a + b),
    ensures
        unmet(seen, a),
        unmet(marked_all(seen, a), b),
        marked_all(marked_all(seen, a), b) == marked_all(seen, a + b),
{
    let all = a + b;
    assert(forall|k: int| 0 <= k < a.len() ==> #[trigger] a[k] == all[k]);
    assert(forall|k: int| 0 <= k < b.len() ==> #[trigger] b[k] == all[a.len() + k]);
    assert(unmet(seen, a)) by {
        assert forall|i: int, j: int| 0 <= i < a.len() && 0 <= j < a.len() && i != j implies a[i]
            != a[j] by {
            assert(all[i] != all[j]);
        }
    }
    let first = marked_all(seen, a);
    assert forall|k: int| 0 <= k < b.len() implies 0 < #[trigger] b[k] < first.len()
        && !first[b[k]] by {
        assert(all[a.len() + k] == b[k]);
        if a.contains(b[k]) {
            let i = choose|i: int| 0 <= i < a.len() && a[i] == b[k];
            assert(all[i] == all[a.len() + k]);
        }
    }
    assert forall|i: int, j: int| 0 <= i < b.len() && 0 <= j < b.len() && i != j implies b[i]
        != b[j] by {
        assert(all[a.len() + i] != all[a.len() + j]);
    }
    assert forall|i: int| 0 <= i < seen.len() implies marked_all(first, b)[i] == marked_all(
        seen,
        all,
    )[i] by {
        if a.contains(i) {
            let k = choose|k: int| 0 <= k < a.len() && a[k] == i;
            assert(all[k] == i);
        }
        if b.contains(i) {
            let k = choose|k: int| 0 <= k < b.len() && b[k] == i;
            assert(all[a.len() + k] == i);
        }
        if all.contains(i) {
            let k = choose|k: int| 0 <= k < all.len() && all[k] == i;
            if k < a.len() {
                assert(a[k] == i);
            } else {
                assert(b[k - a.len()] == i);
            }
        }
    }
    assert(marked_all(first, b) =~= marked_all(seen, all));
}

proof fn lemma_mark_one(seen: Seq<bool>, at: int)
    requires
        0 <= at < seen.len(),
    ensures
        marked_all(seen, seq![at]) == seen.update(at, true),
{
    assert(seq![at][0] == at);
    assert forall|i: int| 0 <= i < seen.len() implies marked_all(seen, seq![at])[i] == seen.update(
        at,
        true,
    )[i] by {
        assert(seq![at].contains(i) == (i == at));
    }
    assert(marked_all(seen, seq![at]) =~= seen.update(at, true));
}

/// Reading goes over all siblings and what is below them, and notes their files.
proof fn lemma_wood_read(
    w: Wood,
    parent: Seq<u8>,
    stack: Seq<(int, Seq<u8>)>,
    nodes: Seq<RawNode>,
    names: Seq<Seq<u8>>,
    seen: Seq<bool>,
    paths: Seq<Option<Seq<u8>>>,
)
    requires
        wood_stands(w, nodes, names),
        names.len() == nodes.len(),
        seen.len() == nodes.len(),
        unmet(seen, numbers(w)),
        fresh(paths, files_below(w, parent)),
    ensures
        walked(stack.push((head(w), parent)), nodes, names, seen, paths) == walked(
            stack,
            nodes,
            names,
            marked_all(seen, numbers(w)),
            noted(paths, files_below(w, parent)),
        ),
    decreases w,
{
    let whole = stack.push((head(w), parent));
    assert(whole.last() == (head(w), parent));
    assert(whole.drop_last() =~= stack);
    match w {
        Wood::Nil => {
            assert(marked_all(seen, numbers(w)) =~= seen);
        },
        Wood::File { at, name, file, rest } => {
            let path = path_below(parent, name);
            let here = seq![(file, path)];
            let after = files_below(*rest, parent);
            assert(join(parent, name) == path);
            lemma_fair(name);
            lemma_unmet_parts(seen, seq![at], numbers(*rest));
            assert(seq![at][0] == at);
            assert(!seen[at]);
            lemma_mark_one(seen, at);
            lemma_unseen_less(seen, at);
            lemma_noted_parts(paths, here, after);
            assert((here + after)[0] == (file, path));
            assert(file < paths.len() && paths[file as int] is None);
            let paths1 = paths.update(file as int, Some(path));
            reveal_with_fuel(noted, 2);
            assert(here.drop_first() =~= Seq::<(nat, Seq<u8>)>::empty());
            assert(noted(paths, here) == paths1);
            lemma_wood_read(
                *rest,
                parent,
                stack,
                nodes,
                names,
                seen.update(at, true),
                paths1,
            );
        },
        Wood::Dir { at, name, below, rest } => {
            let path = path_below(parent, name);
            let here = files_below(*below, path);
            let after = files_below(*rest, parent);
            assert(join(parent, name) == path);
            lemma_fair(name);
            lemma_unmet_parts(seen, seq![at], numbers(*below) + numbers(*rest));
            assert(seq![at][0] == at);
            assert(!seen[at]);
            lemma_mark_one(seen, at);
            lemma_unseen_less(seen, at);
            let seen1 = seen.update(at, true);
            lemma_unmet_parts(seen1, numbers(*below), numbers(*rest));
            lemma_noted_parts(paths, here, after);
            assert(head(*below) > 0) by {
                assert(wood_stands(*below, nodes, names));
            }
            lemma_wood_read(
                *below,
                path,
                stack.push((head(*rest), parent)),
                nodes,
                names,
                seen1,
                paths,
            );
            lemma_wood_read(
                *rest,
                parent,
                stack,
                nodes,
                names,
                marked_all(seen1, numbers(*below)),
                noted(paths, here),
            );
        },
    }
}

/// A tree is read whatever the order of its nodes: the files are found under their numbers, each
/// with the path that leads to it, where no node is met twice and no number stands for two files.
pub proof fn lemma_tree_read(w: Wood, nodes: Seq<RawNode>, names: Seq<Seq<u8>>, n: nat)
    requires
        wood_stands(w, nodes, names),
        1 <= nodes.len() == names.len(),
        nodes[0].child == head(w),
        numbers(w).no_duplicates(),
        forall|k: int|
            0 <= k < files_below(w, Seq::empty()).len() ==> (#[trigger] files_below(
                w,
                Seq::empty(),
            )[k]).0 < n,
        forall|i: int, j: int|
            0 <= i < j < files_below(w, Seq::empty()).len() ==> (#[trigger] files_below(
                w,
                Seq::empty(),
            )[i]).0 != (#[trigger] files_below(w, Seq::empty())[j]).0,
    ensures
        file_paths(nodes, names, n) matches Ok(paths) && paths.len() == n && forall|k: int|
            0 <= k < files_below(w, Seq::empty()).len() ==> paths[(#[trigger] files_below(
                w,
                Seq::empty(),
            )[k]).0 as int] == Some(files_below(w, Seq::empty())[k].1),
{
    let root = Seq::<u8>::empty();
    let found = files_below(w, root);
    let none = Seq::new(n, |i: int| None::<Seq<u8>>);
    let seen = Seq::new(nodes.len(), |i: int| false);
    let stack = Seq::<(int, Seq<u8>)>::empty();
    assert(fresh(none, found));
    lemma_numbers_range(w, nodes, names);
    lemma_wood_read(w, root, stack, nodes, names, seen, none);
    assert(seq![(nodes[0].child as int, root)] =~= stack.push((head(w), root)));
    assert forall|k: int| 0 <= k < found.len() implies noted(none, found)[(
    #[trigger] found[k]).0 as int] == Some(found[k].1) by {
        lemma_noted(none, found, k);
    }
    if found.len() > 0 {
        lemma_noted(none, found, 0);
    }
}

proof fn lemma_numbers_range(w: Wood, nodes: Seq<RawNode>, names: Seq<Seq<u8>>)
    requires
        wood_stands(w, nodes, names),
    ensures
        forall|k: int| 0 <= k < numbers(w).len() ==> 0 < #[trigger] numbers(w)[k] < nodes.len(),
    decreases w,
{
    match w {
        Wood::Nil => {},
        Wood::File { at, rest, .. } => {
            lemma_numbers_range(*rest, nodes, names);
            assert forall|k: int| 0 <= k < numbers(w).len() implies 0 < #[trigger] numbers(w)[k]
                < nodes.len() by {
                if k > 0 {
                    assert(numbers(w)[k] == numbers(*rest)[k - 1]);
                }
            }
        },
        Wood::Dir { at, below, rest, .. } => {
            lemma_numbers_range(*below, nodes, names);
            lemma_numbers_range(*rest, nodes, names);
            let more = numbers(*below) + numbers(*rest);
            assert forall|k: int| 0 <= k < numbers(w).len() implies 0 < #[trigger] numbers(w)[k]
                < nodes.len() by {
                if k > 0 {
                    assert(numbers(w)[k] == more[k - 1]);
                    if k - 1 < numbers(*below).len() {
                        assert(more[k - 1] == numbers(*below)[k - 1]);
                    } else {
                        assert(more[k - 1] == numbers(*rest)[k - 1 - numbers(*below).len()]);
                    }
                }
            }
        },
    }
}

} // verus!
