//! The files of a written tree are found again when it is read.

use super::paths::{good_name, joined, lemma_join_same, lemma_joined_same};
use crate::text::{same_name, upper};
use crate::tree::{
    chain, count, first, flat, grow, lemma_flat_len, lex_less, with_rest, FlatView, Forest,
};
use crate::walk::{join, lemma_unseen_less, walked, RawNode};
use vstd::prelude::*;

verus! {

/// The files of a forest below a directory, with their paths, in the order of the nodes.
pub open spec fn leaves(f: Forest, parent: Seq<u8>) -> Seq<(nat, Seq<u8>)>
    decreases f,
{
    match f {
        Forest::Nil => Seq::empty(),
        Forest::Node { name, file, child, rest } => {
            let here = match file {
                Some(i) => seq![(i, join(parent, name))],
                None => leaves(*child, join(parent, name)),
            };
            here + leaves(*rest, parent)
        },
    }
}

/// Every name is good, files have nothing below them, and directories have something.
pub open spec fn good(f: Forest) -> bool
    decreases f,
{
    match f {
        Forest::Nil => true,
        Forest::Node { name, file, child, rest } => good_name(name) && (file is Some
            <==> *child == Forest::Nil) && good(*child) && good(*rest),
    }
}

/// The components from `j` on are good.
pub open spec fn good_parts(path: Seq<Seq<u8>>) -> bool {
    forall|i: int| 0 <= i < path.len() ==> good_name(#[trigger] path[i])
}

proof fn lemma_chain_good(path: Seq<Seq<u8>>, j: int, file: nat)
    requires
        good_parts(path),
        0 <= j,
    ensures
        good(chain(path, j, file)),
        j < path.len() ==> chain(path, j, file) is Node,
    decreases path.len() - j,
{
    if j < path.len() {
        lemma_chain_good(path, j + 1, file);
        assert(good_name(path[j]));
    }
}

proof fn lemma_chain_leaves(path: Seq<Seq<u8>>, j: int, file: nat, parent: Seq<u8>)
    requires
        0 <= j < path.len(),
    ensures
        leaves(chain(path, j, file), parent) == seq![(file, joined(parent, path.skip(j)))],
    decreases path.len() - j,
{
    reveal_with_fuel(joined, 2);
    assert(path.skip(j)[0] == path[j]);
    assert(path.skip(j).drop_first() =~= path.skip(j + 1));
    let below = join(parent, path[j]);
    if j == path.len() - 1 {
        assert(path.skip(j + 1).len() == 0);
    } else {
        lemma_chain_leaves(path, j + 1, file, below);
    }
    let c = chain(path, j, file);
    assert(c->rest == Box::new(Forest::Nil));
    assert(leaves(Forest::Nil, parent) =~= Seq::<(nat, Seq<u8>)>::empty());
    assert(leaves(c, parent) =~= seq![(file, joined(parent, path.skip(j)))]);
}

/// Growing keeps a forest good.
pub proof fn lemma_grow_good(f: Forest, path: Seq<Seq<u8>>, j: int, file: nat)
    requires
        good(f),
        good_parts(path),
        0 <= j < path.len(),
        grow(f, path, j, file) is Some,
    ensures
        good(grow(f, path, j, file)->0),
        grow(f, path, j, file)->0 is Node,
    decreases path.len() - j, f,
{
    lemma_chain_good(path, j, file);
    if let Forest::Node { name, file: old_file, child, rest } = f {
        if upper(path[j]) == upper(name) {
            if j < path.len() - 1 {
                lemma_grow_good(*child, path, j + 1, file);
            }
        } else if !lex_less(upper(path[j]), upper(name)) {
            lemma_grow_good(*rest, path, j, file);
        }
    }
}

/// The components from `j` on, with the names that the forest has for them already.
pub open spec fn settled(f: Forest, path: Seq<Seq<u8>>, j: int) -> Seq<Seq<u8>>
    decreases path.len() - j, f,
{
    if j < 0 || j >= path.len() {
        Seq::empty()
    } else {
        match f {
            Forest::Nil => path.skip(j),
            Forest::Node { name, child, rest, .. } => if upper(path[j]) == upper(name) {
                seq![name] + settled(*child, path, j + 1)
            } else if lex_less(upper(path[j]), upper(name)) {
                path.skip(j)
            } else {
                settled(*rest, path, j)
            },
        }
    }
}

/// Growing adds one file, under a path that differs from the given one at most in case, and
/// keeps the others.
pub proof fn lemma_grow_leaves(
    f: Forest,
    path: Seq<Seq<u8>>,
    j: int,
    file: nat,
    parent: Seq<u8>,
) -> (res: (int, Seq<u8>))
    requires
        good(f),
        0 <= j < path.len(),
        grow(f, path, j, file) is Some,
    ensures
        0 <= res.0 <= leaves(f, parent).len(),
        leaves(grow(f, path, j, file)->0, parent) == leaves(f, parent).insert(
            res.0,
            (file, res.1),
        ),
        res.1 == joined(parent, settled(f, path, j)),
        same_name(res.1, joined(parent, path.skip(j))),
    decreases path.len() - j, f,
{
    let g = grow(f, path, j, file)->0;
    let due = joined(parent, path.skip(j));
    lemma_chain_leaves(path, j, file, parent);
    match f {
        Forest::Nil => {
            assert(leaves(g, parent) =~= leaves(f, parent).insert(0, (file, due)));
            (0, due)
        },
        Forest::Node { name, file: old_file, child, rest } => {
            let after = leaves(*rest, parent);
            if upper(path[j]) == upper(name) {
                let below = join(parent, name);
                reveal_with_fuel(joined, 2);
                assert(path.skip(j)[0] == path[j]);
                assert(path.skip(j).drop_first() =~= path.skip(j + 1));
                lemma_join_same(parent, parent, name, path[j]);
                if j == path.len() - 1 {
                    // A good directory has something below it, so this cannot be.
                    assert(old_file is Some || *child != Forest::Nil);
                    assert(false);
                    (0, due)
                } else {
                    let (k, p) = lemma_grow_leaves(*child, path, j + 1, file, below);
                    lemma_joined_same(below, join(parent, path[j]), path.skip(j + 1));
                    let here = leaves(*child, below);
                    let more = settled(*child, path, j + 1);
                    assert((seq![name] + more).drop_first() =~= more);
                    assert(p == joined(parent, settled(f, path, j)));
                    assert(leaves(f, parent) == here + after);
                    assert(leaves(g, parent) == here.insert(k, (file, p)) + after);
                    assert(here.insert(k, (file, p)) + after =~= (here + after).insert(
                        k,
                        (file, p),
                    ));
                    (k, p)
                }
            } else if lex_less(upper(path[j]), upper(name)) {
                let c = chain(path, j, file);
                assert(g == with_rest(c, f));
                let own = match c->file {
                    Some(i) => seq![(i, join(parent, c->name))],
                    None => leaves(*c->child, join(parent, c->name)),
                };
                assert(*c->rest == Forest::Nil);
                assert(leaves(*c->rest, parent) =~= Seq::<(nat, Seq<u8>)>::empty());
                assert(leaves(c, parent) == own + leaves(*c->rest, parent));
                assert(own =~= leaves(c, parent));
                assert(leaves(g, parent) == own + leaves(f, parent));
                assert(leaves(g, parent) =~= seq![(file, due)] + leaves(f, parent));
                assert(leaves(g, parent) =~= leaves(f, parent).insert(0, (file, due)));
                (0, due)
            } else {
                let (k, p) = lemma_grow_leaves(*rest, path, j, file, parent);
                let here = match old_file {
                    Some(i) => seq![(i, join(parent, name))],
                    None => leaves(*child, join(parent, name)),
                };
                assert(leaves(f, parent) == here + after);
                assert(leaves(g, parent) == here + after.insert(k, (file, p)));
                assert(here + after.insert(k, (file, p)) =~= (here + after).insert(
                    here.len() + k,
                    (file, p),
                ));
                (here.len() + k, p)
            }
        },
    }
}

/// The paths after those of some files have been noted.
pub open spec fn noted(paths: Seq<Option<Seq<u8>>>, found: Seq<(nat, Seq<u8>)>) -> Seq<
    Option<Seq<u8>>,
>
    decreases found.len(),
{
    if found.len() == 0 {
        paths
    } else {
        noted(paths.update(found[0].0 as int, Some(found[0].1)), found.drop_first())
    }
}

/// The files have places, none of them taken or shared.
pub open spec fn fresh(paths: Seq<Option<Seq<u8>>>, found: Seq<(nat, Seq<u8>)>) -> bool {
    &&& forall|i: int|
        0 <= i < found.len() ==> (#[trigger] found[i]).0 < paths.len() && paths[found[i].0 as int]
            is None
    &&& forall|i: int, j: int|
        0 <= i < j < found.len() ==> (#[trigger] found[i]).0 != (#[trigger] found[j]).0
}

pub proof fn lemma_noted_parts(
    paths: Seq<Option<Seq<u8>>>,
    a: Seq<(nat, Seq<u8>)>,
    b: Seq<(nat, Seq<u8>)>,
)
    requires
        fresh(paths, a + b),
    ensures
        noted(paths, a + b) == noted(noted(paths, a), b),
        fresh(paths, a),
        fresh(noted(paths, a), b),
        noted(paths, a).len() == paths.len(),
    decreases a.len(),
{
    let all = a + b;
    assert(forall|i: int| 0 <= i < a.len() ==> #[trigger] all[i] == a[i]);
    assert(forall|i: int| 0 <= i < b.len() ==> all[a.len() + i] == #[trigger] b[i]);
    if a.len() == 0 {
        assert(all =~= b);
    } else {
        assert(all.drop_first() =~= a.drop_first() + b);
        assert(all[0] == a[0]);
        let next = paths.update(a[0].0 as int, Some(a[0].1));
        assert(fresh(next, all.drop_first())) by {
            let rest = all.drop_first();
            assert forall|i: int| 0 <= i < rest.len() implies (#[trigger] rest[i]).0 < next.len()
                && next[rest[i].0 as int] is None by {
                assert(rest[i] == all[i + 1]);
                assert(all[0].0 != all[i + 1].0);
            }
            assert forall|i: int, j: int| 0 <= i < j < rest.len() implies (#[trigger] rest[i]).0
                != (#[trigger] rest[j]).0 by {
                assert(all[i + 1].0 != all[j + 1].0);
            }
        }
        lemma_noted_parts(next, a.drop_first(), b);
        assert(fresh(paths, a)) by {
            assert forall|i: int| 0 <= i < a.len() implies (#[trigger] a[i]).0 < paths.len()
                && paths[a[i].0 as int] is None by {
                assert(all[i] == a[i]);
            }
            assert forall|i: int, j: int| 0 <= i < j < a.len() implies (#[trigger] a[i]).0 != (
            #[trigger] a[j]).0 by {
                assert(all[i].0 != all[j].0);
            }
        }
    }
}

/// Every file is noted under its number.
pub proof fn lemma_noted(paths: Seq<Option<Seq<u8>>>, found: Seq<(nat, Seq<u8>)>, k: int)
    requires
        fresh(paths, found),
        0 <= k < found.len(),
    ensures
        noted(paths, found).len() == paths.len(),
        noted(paths, found)[found[k].0 as int] == Some(found[k].1),
    decreases found.len(),
{
    let a = found.take(k + 1);
    let b = found.skip(k + 1);
    assert(found =~= a + b);
    lemma_noted_parts(paths, a, b);
    let before = found.take(k);
    let last = seq![found[k]];
    assert(a =~= before + last);
    lemma_noted_parts(paths, before, last);
    reveal_with_fuel(noted, 2);
    assert(last.drop_first() =~= Seq::<(nat, Seq<u8>)>::empty());
    lemma_noted_keeps(noted(paths, a), b, found[k].0 as int);
}

/// What is noted stays noted.
proof fn lemma_noted_keeps(paths: Seq<Option<Seq<u8>>>, found: Seq<(nat, Seq<u8>)>, slot: int)
    requires
        fresh(paths, found),
        0 <= slot < paths.len(),
        paths[slot] is Some,
    ensures
        noted(paths, found)[slot] == paths[slot],
        noted(paths, found).len() == paths.len(),
    decreases found.len(),
{
    if found.len() > 0 {
        let one = seq![found[0]];
        assert(found =~= one + found.drop_first());
        lemma_noted_parts(paths, one, found.drop_first());
        let next = paths.update(found[0].0 as int, Some(found[0].1));
        reveal_with_fuel(noted, 2);
        assert(one.drop_first() =~= Seq::<(nat, Seq<u8>)>::empty());
        assert(noted(paths, one) == next);
        assert(found[0].0 != slot);
        lemma_noted_keeps(next, found.drop_first(), slot);
    }
}

/// The nodes of a forest stand in the index from `base` on.
pub open spec fn laid_out(
    f: Forest,
    base: int,
    nodes: Seq<RawNode>,
    names: Seq<Seq<u8>>,
) -> bool {
    &&& 1 <= base
    &&& base + count(f) <= nodes.len()
    &&& names.len() == nodes.len()
    &&& forall|i: int|
        0 <= i < count(f) ==> node_is(
            #[trigger] nodes[base + i],
            names[base + i],
            flat(f, base)[i],
        )
}

/// A node that was read is one that was written.
pub open spec fn node_is(node: RawNode, name: Seq<u8>, written: FlatView) -> bool {
    node.child == written.child && node.sibling == written.sibling && name == written.name
}

/// The nodes from `base` up to `end` are marked as seen.
pub open spec fn marked(seen: Seq<bool>, base: int, end: int) -> Seq<bool> {
    Seq::new(seen.len(), |i: int| seen[i] || base <= i < end)
}

/// Reading the nodes of a forest notes its files.
pub proof fn lemma_walk_forest(
    f: Forest,
    base: int,
    parent: Seq<u8>,
    stack: Seq<(int, Seq<u8>)>,
    nodes: Seq<RawNode>,
    names: Seq<Seq<u8>>,
    seen: Seq<bool>,
    paths: Seq<Option<Seq<u8>>>,
)
    requires
        good(f),
        laid_out(f, base, nodes, names),
        seen.len() == nodes.len(),
        forall|i: int| base <= i < base + count(f) ==> !#[trigger] seen[i],
        fresh(paths, leaves(f, parent)),
        paths.len() <= 0x8000,
    ensures
        walked(stack.push((first(f, base), parent)), nodes, names, seen, paths) == walked(
            stack,
            nodes,
            names,
            marked(seen, base, base + count(f)),
            noted(paths, leaves(f, parent)),
        ),
    decreases f,
{
    let full = stack.push((first(f, base), parent));
    assert(full.last() == (first(f, base), parent));
    assert(full.drop_last() =~= stack);
    match f {
        Forest::Nil => {
            assert(marked(seen, base, base + count(f)) =~= seen);
        },
        Forest::Node { name, file, child, rest } => {
            let next = base + 1 + count(*child);
            let all = flat(f, base);
            lemma_flat_len(*child, base + 1);
            lemma_flat_len(*rest, next);
            assert(node_is(nodes[base + 0], names[base + 0], all[0]));
            assert(!seen[base]);
            lemma_unseen_less(seen, base);
            let path = join(parent, name);
            let seen1 = seen.update(base, true);
            let below = stack.push((first(*rest, next), parent));
            assert(laid_out(*rest, next, nodes, names)) by {
                assert forall|i: int| 0 <= i < count(*rest) implies node_is(
                    #[trigger] nodes[next + i],
                    names[next + i],
                    flat(*rest, next)[i],
                ) by {
                    assert(nodes[base + (1 + count(*child) + i)] == nodes[next + i]);
                    assert(all[1 + count(*child) + i] == flat(*rest, next)[i]);
                }
            }
            let after = leaves(*rest, parent);
            match file {
                Some(i) => {
                    let here = seq![(i, path)];
                    assert(leaves(f, parent) == here + after);
                    lemma_noted_parts(paths, here, after);
                    assert((here + after)[0] == (i, path));
                    assert(i < paths.len() && paths[i as int] is None);
                    let paths1 = paths.update(i as int, Some(path));
                    reveal_with_fuel(noted, 2);
                    assert(here.drop_first() =~= Seq::<(nat, Seq<u8>)>::empty());
                    assert(noted(paths, here) == paths1);
                    assert(count(*child) == 0);
                    lemma_walk_forest(*rest, next, parent, stack, nodes, names, seen1, paths1);
                    assert(marked(seen1, next, next + count(*rest)) =~= marked(
                        seen,
                        base,
                        base + count(f),
                    ));
                },
                None => {
                    let here = leaves(*child, path);
                    assert(leaves(f, parent) == here + after);
                    lemma_noted_parts(paths, here, after);
                    assert(laid_out(*child, base + 1, nodes, names)) by {
                        assert forall|i: int| 0 <= i < count(*child) implies node_is(
                            #[trigger] nodes[base + 1 + i],
                            names[base + 1 + i],
                            flat(*child, base + 1)[i],
                        ) by {
                            assert(nodes[base + (1 + i)] == nodes[base + 1 + i]);
                            assert(all[1 + i] == flat(*child, base + 1)[i]);
                        }
                    }
                    assert(first(*child, base + 1) == base + 1);
                    lemma_walk_forest(
                        *child,
                        base + 1,
                        path,
                        below,
                        nodes,
                        names,
                        seen1,
                        paths,
                    );
                    let seen2 = marked(seen1, base + 1, next);
                    let paths2 = noted(paths, here);
                    lemma_walk_forest(*rest, next, parent, stack, nodes, names, seen2, paths2);
                    assert(marked(seen2, next, next + count(*rest)) =~= marked(
                        seen,
                        base,
                        base + count(f),
                    ));
                },
            }
        },
    }
}

} // verus!
