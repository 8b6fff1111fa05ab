//! The directory tree of an archive.

use crate::error::{fails, input, ErrorView, Result};
use crate::pending::{paths_of, pending_views, Pending};
use crate::text::{parts, split, to_upper, upper, views};
use vstd::prelude::*;
use vstd::utf8::encode_utf8;

verus! {

/// Nodes are numbered by 16-bit integers; the root is number 0.
pub const MAX_NODES: usize = 0x8000;

/// Siblings in order, each with what is below it. A node is a file, numbered, or a directory.
pub ghost enum Forest {
    Nil,
    Node { name: Seq<u8>, file: Option<nat>, child: Box<Forest>, rest: Box<Forest> },
}

/// The byte string `a` comes before `b` in the order of bytes.
pub open spec fn lex_less(a: Seq<u8>, b: Seq<u8>) -> bool
    decreases a.len(),
{
    if b.len() == 0 {
        false
    } else if a.len() == 0 {
        true
    } else if a[0] != b[0] {
        a[0] < b[0]
    } else {
        lex_less(a.drop_first(), b.drop_first())
    }
}

/// The nodes for the components from `j` on, each below the one before; the last is a file.
pub open spec fn chain(path: Seq<Seq<u8>>, j: int, file: nat) -> Forest
    decreases path.len() - j,
{
    if j >= path.len() {
        Forest::Nil
    } else {
        Forest::Node {
            name: path[j],
            file: if j == path.len() - 1 {
                Some(file)
            } else {
                None
            },
            child: Box::new(chain(path, j + 1, file)),
            rest: Box::new(Forest::Nil),
        }
    }
}

/// The forest with a file added under the components from `j` on. Names are the same where they
/// differ only in case, and siblings stand in the order of their upper-case names. Nothing comes
/// out where a file stands in the place of a directory or of another file.
pub open spec fn grow(f: Forest, path: Seq<Seq<u8>>, j: int, file: nat) -> Option<Forest>
    decreases path.len() - j, f,
{
    match f {
        Forest::Nil => Some(chain(path, j, file)),
        Forest::Node { name, file: old_file, child, rest } => {
            if upper(path[j]) == upper(name) {
                if j >= path.len() - 1 {
                    if old_file is Some || *child != Forest::Nil {
                        None
                    } else {
                        Some(Forest::Node { name, file: Some(file), child, rest })
                    }
                } else if old_file is Some {
                    None
                } else {
                    match grow(*child, path, j + 1, file) {
                        None => None,
                        Some(c) => Some(
                            Forest::Node { name, file: old_file, child: Box::new(c), rest },
                        ),
                    }
                }
            } else if lex_less(upper(path[j]), upper(name)) {
                Some(with_rest(chain(path, j, file), f))
            } else {
                match grow(*rest, path, j, file) {
                    None => None,
                    Some(r) => Some(
                        Forest::Node { name, file: old_file, child, rest: Box::new(r) },
                    ),
                }
            }
        },
    }
}

/// The first tree of `f`, followed by `rest`.
pub open spec fn with_rest(f: Forest, rest: Forest) -> Forest {
    match f {
        Forest::Nil => rest,
        Forest::Node { name, file, child, rest: _ } => Forest::Node {
            name,
            file,
            child,
            rest: Box::new(rest),
        },
    }
}

/// The forest of the first `n` paths, each a file numbered by its place.
pub open spec fn forest_of(paths: Seq<Seq<u8>>, n: int) -> Option<Forest>
    decreases n,
{
    if n <= 0 {
        Some(Forest::Nil)
    } else {
        match forest_of(paths, n - 1) {
            None => None,
            Some(f) => grow(f, parts(paths[n - 1]), 0, (n - 1) as nat),
        }
    }
}

/// How many nodes a forest has.
pub open spec fn count(f: Forest) -> nat
    decreases f,
{
    match f {
        Forest::Nil => 0,
        Forest::Node { child, rest, .. } => 1 + count(*child) + count(*rest),
    }
}

/// A node as the index holds it: the number of its first child, or the negated number of its
/// file; the number of its next sibling, or 0; its name.
pub ghost struct FlatView {
    pub child: int,
    pub sibling: int,
    pub name: Seq<u8>,
}

/// The number of the first node of a forest whose nodes are numbered from `base` on.
pub open spec fn first(f: Forest, base: int) -> int {
    match f {
        Forest::Nil => 0,
        _ => base,
    }
}

/// The nodes of a forest, numbered from `base` on: every node in front of what is below it, and
/// that in front of its next sibling.
pub open spec fn flat(f: Forest, base: int) -> Seq<FlatView>
    decreases f,
{
    match f {
        Forest::Nil => Seq::empty(),
        Forest::Node { name, file, child, rest } => {
            let next = base + 1 + count(*child);
            seq![
                FlatView {
                    child: match file {
                        Some(i) => -(i as int),
                        None => first(*child, base + 1),
                    },
                    sibling: first(*rest, next),
                    name,
                },
            ] + flat(*child, base + 1) + flat(*rest, next)
        },
    }
}

/// All nodes of a tree, the root in front.
pub open spec fn flat_tree(f: Forest) -> Seq<FlatView> {
    seq![FlatView { child: first(f, 1), sibling: 0, name: Seq::empty() }] + flat(f, 1)
}

/// The nodes of the tree of these paths.
pub open spec fn tree_nodes(paths: Seq<Seq<u8>>) -> core::result::Result<Seq<FlatView>, ErrorView> {
    match forest_of(paths, paths.len() as int) {
        None => Err(ErrorView::InvalidInput("file/directory path conflict"@)),
        Some(f) => if count(f) + 1 > MAX_NODES {
            Err(ErrorView::InvalidInput("too many DAT tree nodes"@))
        } else {
            Ok(flat_tree(f))
        },
    }
}

/// The names of the nodes below `n`, without the root's, each ended by a zero byte, behind one
/// zero byte for the root.
pub open spec fn name_table(nodes: Seq<FlatView>, n: int) -> Seq<u8>
    decreases n,
{
    if n <= 1 {
        seq![0u8]
    } else {
        name_table(nodes, n - 1) + nodes[n - 1].name + seq![0u8]
    }
}

/// Where a node's name stands in the name table.
pub open spec fn name_offset(nodes: Seq<FlatView>, i: int) -> int {
    if i <= 0 {
        0
    } else {
        name_table(nodes, i).len() as int
    }
}

pub proof fn lemma_flat_len(f: Forest, base: int)
    ensures
        flat(f, base).len() == count(f),
    decreases f,
{
    if let Forest::Node { child, rest, .. } = f {
        lemma_flat_len(*child, base + 1);
        lemma_flat_len(*rest, base + 1 + count(*child));
    }
}

/// Files have nothing below them.
pub open spec fn shaped(f: Forest) -> bool
    decreases f,
{
    match f {
        Forest::Nil => true,
        Forest::Node { file, child, rest, .. } => (file is Some ==> *child == Forest::Nil)
            && shaped(*child) && shaped(*rest),
    }
}

proof fn lemma_chain_shaped(path: Seq<Seq<u8>>, j: int, file: nat)
    ensures
        shaped(chain(path, j, file)),
    decreases path.len() - j,
{
    if j < path.len() {
        lemma_chain_shaped(path, j + 1, file);
    }
}

pub proof fn lemma_grow_shaped(f: Forest, path: Seq<Seq<u8>>, j: int, file: nat)
    requires
        shaped(f),
    ensures
        grow(f, path, j, file) matches Some(g) ==> shaped(g),
    decreases path.len() - j, f,
{
    lemma_chain_shaped(path, j, file);
    if let Forest::Node { name, file: old_file, child, rest } = f {
        if upper(path[j]) == upper(name) {
            if j < path.len() - 1 {
                lemma_grow_shaped(*child, path, j + 1, file);
            }
        } else {
            lemma_grow_shaped(*rest, path, j, file);
        }
    }
}

/// A node of a tree under construction.
pub struct Node {
    pub name: Vec<u8>,
    /// The name in upper case.
    pub key: Vec<u8>,
    pub file: Option<usize>,
    pub children: Vec<Node>,
}

/// The forest of these nodes from `from` on.
pub open spec fn forest(nodes: Seq<Node>, from: int) -> Forest
    decreases nodes, nodes.len() - from,
{
    if from < 0 || from >= nodes.len() {
        Forest::Nil
    } else {
        Forest::Node {
            name: nodes[from].name@,
            file: match nodes[from].file {
                Some(i) => Some(i as nat),
                None => None,
            },
            child: Box::new(forest(nodes[from].children@, 0)),
            rest: Box::new(forest(nodes, from + 1)),
        }
    }
}

/// The keys are the upper-case names, at every level.
pub open spec fn keyed(nodes: Seq<Node>) -> bool
    decreases nodes,
{
    forall|i: int|
        0 <= i < nodes.len() ==> (#[trigger] nodes[i]).key@ == upper(nodes[i].name@) && keyed(
            nodes[i].children@,
        )
}

/// Whether the byte string `a` comes before `b` in the order of bytes.
pub fn is_less(a: &[u8], b: &[u8]) -> (res: bool)
    ensures
        res == lex_less(a@, b@),
{
    let mut i: usize = 0;
    assert(a@.skip(0) =~= a@ && b@.skip(0) =~= b@);
    while i < a.len() && i < b.len() && a[i] == b[i]
        invariant
            i <= a@.len(),
            i <= b@.len(),
            lex_less(a@, b@) == lex_less(a@.skip(i as int), b@.skip(i as int)),
        decreases a@.len() - i,
    {
        assert(a@.skip(i as int).drop_first() =~= a@.skip(i + 1));
        assert(b@.skip(i as int).drop_first() =~= b@.skip(i + 1));
        i = i + 1;
    }
    if i >= b.len() {
        false
    } else if i >= a.len() {
        true
    } else {
        a[i] < b[i]
    }
}

/// The nodes from `k` up to `i`, followed by another forest.
spec fn prefix_then(nodes: Seq<Node>, k: int, i: int, g: Forest) -> Forest
    decreases i - k,
{
    if k >= i {
        g
    } else {
        Forest::Node {
            name: nodes[k].name@,
            file: match nodes[k].file {
                Some(n) => Some(n as nat),
                None => None,
            },
            child: Box::new(forest(nodes[k].children@, 0)),
            rest: Box::new(prefix_then(nodes, k + 1, i, g)),
        }
    }
}

/// Equal nodes make equal forests.
proof fn lemma_forest_shift(a: Seq<Node>, i: int, b: Seq<Node>, j: int)
    requires
        0 <= i,
        0 <= j,
        a.len() - i == b.len() - j,
        forall|k: int| #![trigger a[i + k]] 0 <= k < a.len() - i ==> a[i + k] == b[j + k],
    ensures
        forest(a, i) == forest(b, j),
    decreases a.len() - i,
{
    if i < a.len() {
        assert(a[i + 0] == b[j + 0]);
        assert forall|k: int| #![trigger a[i + 1 + k]] 0 <= k < a.len() - (i + 1) implies a[i + 1
            + k] == b[j + 1 + k] by {
            assert(a[i + (k + 1)] == b[j + (k + 1)]);
        }
        lemma_forest_shift(a, i + 1, b, j + 1);
    }
}

proof fn lemma_forest_prefix(old_nodes: Seq<Node>, nodes: Seq<Node>, k: int, i: int)
    requires
        0 <= k <= i <= old_nodes.len(),
        i <= nodes.len(),
        forall|n: int| 0 <= n < i ==> nodes[n] == old_nodes[n],
    ensures
        forest(nodes, k) == prefix_then(old_nodes, k, i, forest(nodes, i)),
    decreases i - k,
{
    if k < i {
        assert(nodes[k] == old_nodes[k]);
        lemma_forest_prefix(old_nodes, nodes, k + 1, i);
    }
}

/// Growing passes over the siblings that come before the new name.
proof fn lemma_grow_skip(
    nodes: Seq<Node>,
    k: int,
    i: int,
    path: Seq<Seq<u8>>,
    j: int,
    file: nat,
)
    requires
        0 <= k <= i <= nodes.len(),
        forall|n: int|
            k <= n < i ==> upper(path[j]) != upper(#[trigger] nodes[n].name@) && !lex_less(
                upper(path[j]),
                upper(nodes[n].name@),
            ),
    ensures
        match grow(forest(nodes, i), path, j, file) {
            None => grow(forest(nodes, k), path, j, file) is None,
            Some(g) => grow(forest(nodes, k), path, j, file) == Some(
                prefix_then(nodes, k, i, g),
            ),
        },
    decreases i - k,
{
    if k < i {
        assert(nodes[k].name@ == nodes[k].name@);
        lemma_grow_skip(nodes, k + 1, i, path, j, file);
    }
}

/// The node for the component `j` with those behind it below.
fn new_branch(path: &Vec<Vec<u8>>, j: usize, file: usize) -> (res: Node)
    requires
        j < path@.len(),
    ensures
        forest(seq![res], 0) == chain(views(path@), j as int, file as nat),
        keyed(seq![res]),
    decreases path@.len() - j,
{
    let name: Vec<u8> = vstd::slice::slice_to_vec(path[j].as_slice());
    let key: Vec<u8> = to_upper(name.as_slice());
    let mut children: Vec<Node> = Vec::new();
    let mut own: Option<usize> = None;
    if j < path.len() - 1 {
        let below: Node = new_branch(path, j + 1, file);
        children.push(below);
        assert(children@ =~= seq![below]);
    } else {
        own = Some(file);
    }
    let ghost below = children@;
    assert(keyed(below));
    assert(forest(below, 0) == chain(views(path@), j + 1, file as nat));
    let res: Node = Node { name, key, file: own, children };
    assert(views(path@)[j as int] == path@[j as int]@);
    assert(forest(seq![res], 1) == Forest::Nil);
    assert(seq![res][0] == res);
    res
}

/// Adds a file under the components from `j` on. False where a file stands in the place of a
/// directory or of another file.
fn add_path(nodes: &mut Vec<Node>, path: &Vec<Vec<u8>>, j: usize, file: usize) -> (ok: bool)
    requires
        keyed(old(nodes)@),
        j < path@.len(),
    ensures
        match grow(forest(old(nodes)@, 0), views(path@), j as int, file as nat) {
            Some(g) => ok && keyed(final(nodes)@) && forest(final(nodes)@, 0) == g,
            None => !ok,
        },
    decreases path@.len() - j,
{
    let ghost before = nodes@;
    let ghost names = views(path@);
    let key: Vec<u8> = to_upper(path[j].as_slice());
    assert(names[j as int] == path@[j as int]@);
    let mut i: usize = 0;
    while i < nodes.len() && !crate::text::eq_bytes(key.as_slice(), nodes[i].key.as_slice())
        && !is_less(key.as_slice(), nodes[i].key.as_slice())
        invariant
            nodes@ == before,
            keyed(before),
            i <= nodes@.len(),
            key@ == upper(names[j as int]),
            forall|n: int|
                0 <= n < i ==> upper(names[j as int]) != upper(#[trigger] before[n].name@)
                    && !lex_less(upper(names[j as int]), upper(before[n].name@)),
        decreases nodes@.len() - i,
    {
        assert(before[i as int].key@ == upper(before[i as int].name@));
        i = i + 1;
    }
    proof {
        lemma_grow_skip(before, 0, i as int, names, j as int, file as nat);
        if i < before.len() {
            assert(before[i as int].key@ == upper(before[i as int].name@));
        }
    }
    if i < nodes.len() && crate::text::eq_bytes(key.as_slice(), nodes[i].key.as_slice()) {
        if j == path.len() - 1 {
            assert(nodes@[i as int].children@.len() != 0 ==> forest(
                nodes@[i as int].children@,
                0,
            ) is Node);
            if nodes[i].file.is_some() || nodes[i].children.len() != 0 {
                return false;
            }
            nodes[i].file = Some(file);
        } else {
            if nodes[i].file.is_some() {
                return false;
            }
            if !add_path(&mut nodes[i].children, path, j + 1, file) {
                return false;
            }
        }
        proof {
            lemma_forest_shift(nodes@, i + 1, before, i + 1);
            lemma_forest_prefix(before, nodes@, 0, i as int);
        }
        true
    } else {
        let node: Node = new_branch(path, j, file);
        nodes.insert(i, node);
        proof {
            lemma_forest_shift(nodes@, i + 1, before, i as int);
            lemma_forest_prefix(before, nodes@, 0, i as int);
            assert(forest(seq![node], 0)->name == node.name@);
            assert(keyed(seq![node]));
            assert(seq![node][0] == node);
        }
        true
    }
}

/// The numbers of the files are below `n`.
pub open spec fn files_below(f: Forest, n: int) -> bool
    decreases f,
{
    match f {
        Forest::Nil => true,
        Forest::Node { file, child, rest, .. } => (file matches Some(i) ==> i < n) && files_below(
            *child,
            n,
        ) && files_below(*rest, n),
    }
}

proof fn lemma_chain_files(path: Seq<Seq<u8>>, j: int, file: nat, n: int)
    requires
        file < n,
    ensures
        files_below(chain(path, j, file), n),
    decreases path.len() - j,
{
    if j < path.len() {
        lemma_chain_files(path, j + 1, file, n);
    }
}

pub proof fn lemma_grow_files(f: Forest, path: Seq<Seq<u8>>, j: int, file: nat, n: int)
    requires
        files_below(f, n),
        file < n,
    ensures
        grow(f, path, j, file) matches Some(g) ==> files_below(g, n),
    decreases path.len() - j, f,
{
    lemma_chain_files(path, j, file, n);
    if let Forest::Node { name, file: old_file, child, rest } = f {
        if upper(path[j]) == upper(name) {
            if j < path.len() - 1 {
                lemma_grow_files(*child, path, j + 1, file, n);
            }
        } else {
            lemma_grow_files(*rest, path, j, file, n);
        }
    }
}

/// A node as the index holds it.
pub struct FlatNode {
    pub child: i16,
    pub sibling: i16,
    pub name: Vec<u8>,
}

impl View for FlatNode {
    type V = FlatView;

    open spec fn view(&self) -> FlatView {
        FlatView { child: self.child as int, sibling: self.sibling as int, name: self.name@ }
    }
}

/// The nodes of a list.
pub open spec fn flat_views(v: Seq<FlatNode>) -> Seq<FlatView> {
    Seq::new(v.len(), |i: int| v[i]@)
}

/// Appends the nodes and what is below them, and returns the number of the first. Nothing is
/// returned where there are too many.
fn add_children(nodes: &Vec<Node>, out: &mut Vec<FlatNode>) -> (res: Option<i16>)
    requires
        shaped(forest(nodes@, 0)),
        files_below(forest(nodes@, 0), 0x8000),
        1 <= old(out)@.len() <= MAX_NODES,
    ensures
        ({
            let f = forest(nodes@, 0);
            let base = old(out)@.len() as int;
            if base + count(f) > MAX_NODES {
                res is None
            } else {
                &&& res matches Some(number)
                &&& number == first(f, base)
                &&& flat_views(final(out)@) == flat_views(old(out)@) + flat(f, base)
            }
        }),
    decreases nodes@,
{
    let ghost f = forest(nodes@, 0);
    let ghost before = flat_views(out@);
    let ghost base = out@.len() as int;
    let start: usize = out.len();
    let mut i: usize = 0;
    assert(before + flat(f, base) =~= flat_views(out@) + flat(forest(nodes@, 0), out@.len() as int));
    while i < nodes.len()
        invariant
            f == forest(nodes@, 0),
            i <= nodes@.len(),
            1 <= base <= out@.len() <= MAX_NODES,
            base == old(out)@.len(),
            before == flat_views(old(out)@),
            shaped(forest(nodes@, i as int)),
            files_below(forest(nodes@, i as int), 0x8000),
            out@.len() + count(forest(nodes@, i as int)) == base + count(f),
            flat_views(out@) + flat(forest(nodes@, i as int), out@.len() as int) == before + flat(
                f,
                base,
            ),
        decreases nodes@.len() - i,
    {
        let at: usize = out.len();
        assert(count(forest(nodes@, i as int)) == 1 + count(
            forest(nodes@[i as int].children@, 0),
        ) + count(forest(nodes@, i + 1)));
        if at >= MAX_NODES {
            return None;
        }
        let ghost head = flat_views(out@);
        let ghost rest = forest(nodes@, i + 1);
        let ghost below = forest(nodes@[i as int].children@, 0);
        let name: Vec<u8> = vstd::slice::slice_to_vec(nodes[i].name.as_slice());
        let ghost name_view = name@;
        out.push(FlatNode { child: 0, sibling: 0, name });
        let ghost pushed = flat_views(out@);
        let child: i16 = match nodes[i].file {
            Some(file) => {
                assert(pushed + flat(below, at + 1) =~= pushed);
                -(file as i16)
            },
            None => match add_children(&nodes[i].children, out) {
                Some(number) => number,
                None => {
                    return None;
                },
            },
        };
        assert(flat_views(out@) == pushed + flat(below, at + 1));
        proof {
            lemma_flat_len(below, at + 1);
        }
        let next: usize = out.len();
        assert(next == at + 1 + count(below));
        let sibling: i16 = if i < nodes.len() - 1 {
            if next >= MAX_NODES {
                return None;
            }
            next as i16
        } else {
            0
        };
        let ghost full = out@;
        out[at].child = child;
        out[at].sibling = sibling;
        proof {
            assert(full[at as int]@ == flat_views(full)[at as int]);
            assert(flat_views(full)[at as int] == pushed[at as int]);
            assert(pushed[at as int].name == name_view);
            let node = FlatView {
                child: child as int,
                sibling: sibling as int,
                name: nodes@[i as int].name@,
            };
            let due = head + (seq![node] + flat(below, at + 1));
            assert forall|k: int| 0 <= k < out@.len() implies flat_views(out@)[k] == due[k] by {
                if k != at {
                    assert(out@[k] == full[k]);
                    assert(flat_views(full)[k] == (pushed + flat(below, at + 1))[k]);
                    if k < at {
                        assert(pushed[k] == head[k]);
                    }
                } else {
                    assert(out@[k].name == full[k].name);
                    assert(out@[k]@ == node);
                    assert(due[k] == node);
                }
            }
            assert(flat_views(out@) =~= due);
            assert(flat(forest(nodes@, i as int), at as int) == seq![node] + flat(below, at + 1)
                + flat(rest, next as int));
            assert(head + (seq![node] + flat(below, at + 1) + flat(rest, next as int)) =~= head + (
            seq![node] + flat(below, at + 1)) + flat(rest, next as int));
        }
        i = i + 1;
    }
    assert(flat_views(out@) + Seq::<FlatView>::empty() =~= flat_views(out@));
    if nodes.len() == 0 {
        Some(0)
    } else {
        if start >= MAX_NODES {
            return None;
        }
        Some(start as i16)
    }
}

/// The nodes, the name table, and where in it each node's name stands, modulo 2 to the power 32.
pub struct EncodedTree {
    pub nodes: Vec<FlatNode>,
    pub names: Vec<u8>,
    pub name_offsets: Vec<u32>,
}

impl EncodedTree {
    /// The names are those of the nodes.
    pub open spec fn wf(&self) -> bool {
        let nodes = flat_views(self.nodes@);
        &&& 1 <= self.nodes@.len() <= MAX_NODES
        &&& self.names@ == name_table(nodes, nodes.len() as int)
        &&& self.name_offsets@.len() == nodes.len()
        &&& forall|i: int|
            0 <= i < nodes.len() ==> #[trigger] self.name_offsets@[i] == name_offset(nodes, i)
                % 0x1_0000_0000
    }
}

fn truncated(n: usize) -> (res: u32)
    ensures
        res == n as int % 0x1_0000_0000,
{
    let wide: u64 = n as u64;
    assert(wide as u32 == wide % 0x1_0000_0000) by (bit_vector);
    wide as u32
}

/// The name table of the nodes.
fn encode_names(nodes: Vec<FlatNode>) -> (res: EncodedTree)
    requires
        1 <= nodes@.len() <= MAX_NODES,
    ensures
        res.nodes == nodes,
        res.wf(),
{
    let ghost flat_nodes = flat_views(nodes@);
    let mut names: Vec<u8> = Vec::new();
    names.push(0);
    let mut name_offsets: Vec<u32> = Vec::with_capacity(nodes.len());
    name_offsets.push(0);
    assert(names@ =~= name_table(flat_nodes, 1));
    let mut i: usize = 1;
    while i < nodes.len()
        invariant
            flat_nodes == flat_views(nodes@),
            1 <= i <= nodes@.len(),
            names@ == name_table(flat_nodes, i as int),
            name_offsets@.len() == i,
            forall|k: int|
                0 <= k < i ==> #[trigger] name_offsets@[k] == name_offset(flat_nodes, k)
                    % 0x1_0000_0000,
        decreases nodes@.len() - i,
    {
        name_offsets.push(truncated(names.len()));
        crate::bytes::append(&mut names, nodes[i].name.as_slice());
        names.push(0);
        assert(flat_nodes[i as int].name == nodes@[i as int].name@);
        assert(names@ =~= name_table(flat_nodes, i + 1));
        i = i + 1;
    }
    EncodedTree { nodes, names, name_offsets }
}

/// The tree of the files' paths.
pub fn build_tree(pending: &Vec<Pending>) -> (res: Result<EncodedTree>)
    requires
        pending@.len() <= 0x8000,
    ensures
        match tree_nodes(paths_of(pending_views(pending@))) {
            Ok(nodes) => res matches Ok(tree) && tree.wf() && flat_views(tree.nodes@) == nodes,
            Err(e) => fails(res, e),
        },
{
    let ghost paths = paths_of(pending_views(pending@));
    let mut root: Vec<Node> = Vec::new();
    let mut i: usize = 0;
    while i < pending.len()
        invariant
            pending@.len() <= 0x8000,
            paths == paths_of(pending_views(pending@)),
            i <= pending@.len(),
            keyed(root@),
            forest_of(paths, i as int) == Some(forest(root@, 0)),
            shaped(forest(root@, 0)),
            files_below(forest(root@, 0), 0x8000),
        decreases pending@.len() - i,
    {
        let path: Vec<Vec<u8>> = split(pending[i].path.as_str().as_bytes());
        assert(paths[i as int] == encode_utf8(pending@[i as int].path@));
        assert(views(path@) == parts(paths[i as int]));
        assert(path@.len() == views(path@).len());
        proof {
            lemma_grow_shaped(forest(root@, 0), views(path@), 0, i as nat);
            lemma_grow_files(forest(root@, 0), views(path@), 0, i as nat, 0x8000);
        }
        if !add_path(&mut root, &path, 0, i) {
            proof {
                lemma_forest_conflict(paths, i + 1, paths.len() as int);
            }
            return Err(input("file/directory path conflict"));
        }
        i = i + 1;
    }
    let ghost f = forest(root@, 0);
    let mut nodes: Vec<FlatNode> = Vec::new();
    nodes.push(FlatNode { child: 0, sibling: 0, name: Vec::new() });
    let ghost top = flat_views(nodes@);
    match add_children(&root, &mut nodes) {
        None => Err(input("too many DAT tree nodes")),
        Some(number) => {
            proof {
                lemma_flat_len(f, 1);
                assert(flat_views(nodes@).len() == nodes@.len());
                assert(flat_views(nodes@)[0] == top[0]);
                assert(top[0].name =~= Seq::<u8>::empty());
            }
            let ghost full = flat_views(nodes@);
            nodes[0].child = number;
            assert forall|k: int| 0 <= k < nodes@.len() implies flat_views(nodes@)[k] == flat_tree(
                f,
            )[k] by {
                if k > 0 {
                    assert(flat_views(nodes@)[k] == full[k]);
                    assert(flat_tree(f)[k] == flat(f, 1)[k - 1]);
                } else {
                    assert(nodes@[0].name@ == full[0].name);
                    assert(nodes@[0].sibling == full[0].sibling);
                    assert(nodes@[0].child == number);
                }
            }
            assert(flat_views(nodes@) =~= flat_tree(f));
            Ok(encode_names(nodes))
        },
    }
}

/// A conflict among the first paths is one among all.
proof fn lemma_forest_conflict(paths: Seq<Seq<u8>>, n: int, m: int)
    requires
        forest_of(paths, n) is None,
        n <= m,
    ensures
        forest_of(paths, m) is None,
    decreases m - n,
{
    if n < m {
        lemma_forest_conflict(paths, n, m - 1);
    }
}

} // verus!
