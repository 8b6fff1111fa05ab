//! In what order the nodes of a new tree stand.

use crate::text::{parts, upper};
use crate::tree::{
    chain, count, flat, flat_tree, forest_of, grow, lemma_flat_len, lex_less, tree_nodes,
    with_rest, FlatView, Forest,
};
use vstd::prelude::*;

verus! {

/// The name in front is less than the first one of a forest, in upper case.
spec fn before(name: Seq<u8>, f: Forest) -> bool {
    f matches Forest::Node { name: next, .. } ==> lex_less(upper(name), upper(next))
}

/// Siblings ascend by their names in upper case.
spec fn ranked(f: Forest) -> bool
    decreases f,
{
    match f {
        Forest::Nil => true,
        Forest::Node { name, child, rest, .. } => before(name, *rest) && ranked(*child) && ranked(
            *rest,
        ),
    }
}

proof fn lemma_one_less(a: Seq<u8>, b: Seq<u8>)
    requires
        a != b,
        !lex_less(a, b),
    ensures
        lex_less(b, a),
    decreases a.len(),
{
    if a.len() == 0 {
        assert(b.len() == 0);
        assert(a =~= b);
    } else if b.len() > 0 && a[0] == b[0] {
        if a.drop_first() == b.drop_first() {
            assert(a =~= seq![a[0]] + a.drop_first());
            assert(b =~= seq![b[0]] + b.drop_first());
        }
        lemma_one_less(a.drop_first(), b.drop_first());
    }
}

proof fn lemma_chain_ranked(path: Seq<Seq<u8>>, j: int, file: nat)
    ensures
        ranked(chain(path, j, file)),
    decreases path.len() - j,
{
    if j < path.len() {
        lemma_chain_ranked(path, j + 1, file);
    }
}

proof fn lemma_grow_ranked(f: Forest, path: Seq<Seq<u8>>, j: int, file: nat)
    requires
        ranked(f),
        0 <= j < path.len(),
    ensures
        grow(f, path, j, file) matches Some(g) ==> {
            &&& ranked(g)
            &&& forall|name: Seq<u8>|
                #![trigger before(name, g)]
                before(name, f) && lex_less(upper(name), upper(path[j])) ==> before(name, g)
        },
    decreases path.len() - j, f,
{
    lemma_chain_ranked(path, j, file);
    if let Forest::Node { name, child, rest, .. } = f {
        if upper(path[j]) == upper(name) {
            if j < path.len() - 1 {
                lemma_grow_ranked(*child, path, j + 1, file);
            }
        } else if lex_less(upper(path[j]), upper(name)) {
            let own = chain(path, j, file);
            assert(before(path[j], f));
            assert(ranked(with_rest(own, f)));
        } else {
            lemma_one_less(upper(path[j]), upper(name));
            lemma_grow_ranked(*rest, path, j, file);
        }
    }
}

proof fn lemma_forest_ranked(paths: Seq<Seq<u8>>, n: int)
    requires
        0 <= n <= paths.len(),
        forall|i: int| 0 <= i < n ==> parts(#[trigger] paths[i]).len() > 0,
    ensures
        forest_of(paths, n) matches Some(f) ==> ranked(f),
    decreases n,
{
    if n > 0 {
        lemma_forest_ranked(paths, n - 1);
        if let Some(f) = forest_of(paths, n - 1) {
            assert(parts(paths[n - 1]).len() > 0);
            lemma_grow_ranked(f, parts(paths[n - 1]), 0, (n - 1) as nat);
        }
    }
}

/// A node with the number `at` stands in its place: its first child comes right behind it. Its next
/// sibling comes later, and has a greater name in upper case.
pub open spec fn in_place(nodes: Seq<FlatView>, base: int, at: int) -> bool {
    let node = nodes[at - base];
    &&& node.child > 0 ==> node.child == at + 1 && at + 1 < base + nodes.len()
    &&& node.sibling != 0 ==> at < node.sibling < base + nodes.len() && lex_less(
        upper(node.name),
        upper(nodes[node.sibling - base].name),
    )
}

proof fn lemma_flat_in_place(f: Forest, base: int)
    requires
        ranked(f),
        1 <= base,
    ensures
        forall|at: int|
            base <= at < base + count(f) ==> #[trigger] in_place(flat(f, base), base, at),
        f matches Forest::Node { name, .. } ==> flat(f, base)[0].name == name,
    decreases f,
{
    if let Forest::Node { name, file, child, rest } = f {
        let next = base + 1 + count(*child);
        let all = flat(f, base);
        let inner = flat(*child, base + 1);
        let after = flat(*rest, next);
        lemma_flat_in_place(*child, base + 1);
        lemma_flat_in_place(*rest, next);
        lemma_flat_len(f, base);
        lemma_flat_len(*child, base + 1);
        lemma_flat_len(*rest, next);
        assert forall|at: int| base <= at < base + count(f) implies #[trigger] in_place(
            all,
            base,
            at,
        ) by {
            if at == base {
                if *rest is Node {
                    assert(all[next - base] == after[0]);
                }
            } else if at < next {
                assert(in_place(inner, base + 1, at));
                assert(all[at - base] == inner[at - base - 1]);
                let s = inner[at - base - 1].sibling;
                if s != 0 {
                    assert(all[s - base] == inner[s - base - 1]);
                }
            } else {
                assert(in_place(after, next, at));
                assert(all[at - base] == after[at - next]);
                let s = after[at - next].sibling;
                if s != 0 {
                    assert(all[s - base] == after[s - next]);
                }
            }
        }
    }
}

/// The nodes of a new tree stand in a fixed order: every directory in front of what is in it, and
/// siblings by their names in upper case.
pub proof fn lemma_nodes_in_place(paths: Seq<Seq<u8>>)
    requires
        tree_nodes(paths) is Ok,
        forall|i: int| 0 <= i < paths.len() ==> parts(#[trigger] paths[i]).len() > 0,
    ensures
        ({
            let nodes = tree_nodes(paths)->Ok_0;
            &&& 1 <= nodes.len() <= 0x8000
            &&& nodes[0].name.len() == 0
            &&& forall|at: int| 0 <= at < nodes.len() ==> #[trigger] in_place(nodes, 0, at)
        }),
{
    lemma_forest_ranked(paths, paths.len() as int);
    let f = forest_of(paths, paths.len() as int)->0;
    let nodes = flat_tree(f);
    let below = flat(f, 1);
    lemma_flat_len(f, 1);
    lemma_flat_in_place(f, 1);
    assert forall|at: int| 0 <= at < nodes.len() implies #[trigger] in_place(nodes, 0, at) by {
        if at > 0 {
            assert(in_place(below, 1, at));
            assert(nodes[at] == below[at - 1]);
            let s = below[at - 1].sibling;
            if s != 0 {
                assert(nodes[s] == below[s - 1]);
            }
        }
    }
}

} // verus!
