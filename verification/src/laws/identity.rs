//! An archive that is rewritten without a change stays as it is.

use super::contents::{all_paths_texts, lemma_packed_items, packed_items, packed_tree_fits};
use super::leaves::{good, good_parts, leaves, lemma_grow_leaves, lemma_noted, fresh, settled};
use super::paths::{clean, good_name, joined, lemma_separator_at};
use super::reopen::{
    acceptable, acceptable_item, back, entry_is, found_paths, lemma_hashes_ascending,
    lemma_image_parts, lemma_in_front, lemma_laid_out_reopens, lemma_no_bad_item,
    lemma_ordered_acceptable, lemma_resolved_back, reopened_prefix_len, tree_fits, writable,
};
use super::tail::{item_hashes, leaves_match, lemma_forest_leaves, sized, storable};
use crate::archive::{opened, ArchiveView};
use crate::edit::{datas_of, edited, has_name, kept, rewritten, unchanged};
use crate::entry::{format_version, EntryView, Format};
use crate::error::ErrorView;
use crate::index::{ascending, MAX_PREFIX};
use crate::order::{lemma_ordered, ordered, precedes, slot};
use crate::pack::{collected, lemma_app_id_len, new_prefix, packed, stored_datas, FileView};
use crate::pending::{paths_of, PendingView};
use crate::text::{
    bad_part, lemma_same_name_hash, normalized, parts, parts_from, path_hash, same_name, upper,
    BACKSLASH,
};
use crate::tree::{chain, count, flat_tree, forest_of, grow, lemma_flat_len, lex_less, Forest};
use crate::walk::join;
use crate::writer::{
    aligned, all_at_hand, archive_bytes, at_hand, bad_item, body, collision, end_of, hashes_bytes,
    index_bytes, infos_bytes, layout, lemma_body_len, lemma_offsets_grow, lemma_ordered_at_hand,
    offset_of, payload_of, planned, written, zeros, PlanView,
};
use vstd::prelude::*;

verus! {

proof fn lemma_chain_same(a: Seq<Seq<u8>>, b: Seq<Seq<u8>>, j: int, file: nat)
    requires
        0 <= j,
        a.len() == b.len(),
        a.skip(j) == b.skip(j),
        j <= a.len(),
    ensures
        chain(a, j, file) == chain(b, j, file),
    decreases a.len() - j,
{
    if j < a.len() {
        assert(a.skip(j)[0] == b.skip(j)[0]);
        assert(a.skip(j + 1) =~= a.skip(j).skip(1));
        assert(b.skip(j + 1) =~= b.skip(j).skip(1));
        lemma_chain_same(a, b, j + 1, file);
    }
}

proof fn lemma_settled_len(f: Forest, path: Seq<Seq<u8>>, j: int)
    requires
        0 <= j <= path.len(),
    ensures
        settled(f, path, j).len() == path.len() - j,
    decreases path.len() - j, f,
{
    if j < path.len() {
        if let Forest::Node { name, child, rest, .. } = f {
            if upper(path[j]) == upper(name) {
                lemma_settled_len(*child, path, j + 1);
            } else if !lex_less(upper(path[j]), upper(name)) {
                lemma_settled_len(*rest, path, j);
            }
        }
    }
}

/// The names that the forest has already lead to the same place.
proof fn lemma_settled_grows(
    f: Forest,
    path: Seq<Seq<u8>>,
    other: Seq<Seq<u8>>,
    j: int,
    file: nat,
)
    requires
        0 <= j < path.len(),
        other.len() == path.len(),
        other.skip(j) == settled(f, path, j),
    ensures
        grow(f, other, j, file) == grow(f, path, j, file),
    decreases path.len() - j, f,
{
    assert(other.skip(j)[0] == other[j]);
    match f {
        Forest::Nil => {
            lemma_chain_same(path, other, j, file);
        },
        Forest::Node { name, file: old_file, child, rest } => {
            if upper(path[j]) == upper(name) {
                let more = settled(*child, path, j + 1);
                assert((seq![name] + more)[0] == name);
                assert((seq![name] + more).skip(1) =~= more);
                assert(other.skip(j + 1) =~= other.skip(j).skip(1));
                if j < path.len() - 1 {
                    lemma_settled_grows(*child, path, other, j + 1, file);
                }
            } else if lex_less(upper(path[j]), upper(name)) {
                assert(path.skip(j)[0] == path[j]);
                lemma_chain_same(path, other, j, file);
            } else {
                lemma_settled_grows(*rest, path, other, j, file);
                lemma_settled_head(*rest, path, j);
            }
        },
    }
}

/// The first of the settled components has the name of the given one.
proof fn lemma_settled_head(f: Forest, path: Seq<Seq<u8>>, j: int)
    requires
        0 <= j < path.len(),
    ensures
        settled(f, path, j).len() > 0,
        upper(settled(f, path, j)[0]) == upper(path[j]),
    decreases f,
{
    lemma_settled_len(f, path, j);
    if let Forest::Node { name, child, rest, .. } = f {
        if upper(path[j]) == upper(name) {
            assert((seq![name] + settled(*child, path, j + 1))[0] == name);
        } else if !lex_less(upper(path[j]), upper(name)) {
            lemma_settled_head(*rest, path, j);
        }
    }
}

proof fn lemma_settled_good(f: Forest, path: Seq<Seq<u8>>, j: int)
    requires
        0 <= j <= path.len(),
        good(f),
        good_parts(path),
    ensures
        good_parts(settled(f, path, j)),
    decreases path.len() - j, f,
{
    if j < path.len() {
        if let Forest::Node { name, child, rest, .. } = f {
            if upper(path[j]) == upper(name) {
                lemma_settled_good(*child, path, j + 1);
            } else if !lex_less(upper(path[j]), upper(name)) {
                lemma_settled_good(*rest, path, j);
            }
        }
    }
}

/// Components with a backslash between them.
spec fn linked(path: Seq<Seq<u8>>) -> Seq<u8>
    decreases path.len(),
{
    if path.len() == 0 {
        Seq::empty()
    } else if path.len() == 1 {
        path[0]
    } else {
        path[0] + seq![BACKSLASH] + linked(path.drop_first())
    }
}

proof fn lemma_joined_linked(parent: Seq<u8>, path: Seq<Seq<u8>>)
    requires
        path.len() > 0,
        good_parts(path),
    ensures
        joined(parent, path) == if parent.len() == 0 {
            linked(path)
        } else {
            parent + seq![BACKSLASH] + linked(path)
        },
    decreases path.len(),
{
    assert(good_name(path[0]));
    let next = join(parent, path[0]);
    let rest = path.drop_first();
    assert(next.len() > 0);
    if rest.len() == 0 {
        assert(joined(next, rest) == next);
    } else {
        assert(good_parts(rest)) by {
            assert forall|i: int| 0 <= i < rest.len() implies good_name(#[trigger] rest[i]) by {
                assert(rest[i] == path[i + 1]);
            }
        }
        lemma_joined_linked(next, rest);
        if parent.len() == 0 {
            assert(next + seq![BACKSLASH] + linked(rest) =~= linked(path));
        } else {
            assert(next + seq![BACKSLASH] + linked(rest) =~= parent + seq![BACKSLASH] + linked(
                path,
            ));
        }
    }
}

/// Good components are found again in the path that they make.
proof fn lemma_parts_linked(before: Seq<u8>, path: Seq<Seq<u8>>)
    requires
        path.len() > 0,
        good_parts(path),
    ensures
        parts_from(before + linked(path), before.len() as int) == path,
    decreases path.len(),
{
    let s = before + linked(path);
    let from = before.len() as int;
    let name = path[0];
    let end = from + name.len();
    assert(good_name(name));
    assert forall|i: int| from <= i < end implies s[i] != BACKSLASH by {
        assert(s[i] == name[i - from]);
        assert(name.contains(name[i - from]));
    }
    let rest = path.drop_first();
    if path.len() == 1 {
        lemma_separator_at(s, from, end);
        assert(s.subrange(from, s.len() as int) =~= name);
        assert(path =~= seq![name]);
    } else {
        assert(s[end] == BACKSLASH);
        lemma_separator_at(s, from, end);
        let more = before + name + seq![BACKSLASH];
        assert(s =~= more + linked(rest));
        assert(good_parts(rest)) by {
            assert forall|i: int| 0 <= i < rest.len() implies good_name(#[trigger] rest[i]) by {
                assert(rest[i] == path[i + 1]);
            }
        }
        lemma_parts_linked(more, rest);
        assert(s.subrange(from, end) =~= name);
        assert(path =~= seq![name] + rest);
    }
}

/// The path of a file in the forest of the first files is the same in that of all.
proof fn lemma_leaf_stays(paths: Seq<Seq<u8>>, n: int, m: int, leaf: (nat, Seq<u8>))
    requires
        0 <= n <= m <= paths.len(),
        forall|i: int| 0 <= i < paths.len() ==> storable(#[trigger] paths[i]),
        forest_of(paths, m) is Some,
        forest_of(paths, n) is Some,
        leaves(forest_of(paths, n)->0, Seq::empty()).contains(leaf),
    ensures
        leaves(forest_of(paths, m)->0, Seq::empty()).contains(leaf),
    decreases m - n,
{
    if n < m {
        lemma_leaf_stays(paths, n, m - 1, leaf);
        lemma_forest_leaves(paths, m - 1);
        let f = forest_of(paths, m - 1)->0;
        assert(storable(paths[m - 1]));
        let (k, p) = lemma_grow_leaves(
            f,
            parts(paths[m - 1]),
            0,
            (m - 1) as nat,
            Seq::<u8>::empty(),
        );
        let before = leaves(f, Seq::<u8>::empty());
        let after = before.insert(k, ((m - 1) as nat, p));
        let i = choose|i: int| 0 <= i < before.len() && before[i] == leaf;
        if i < k {
            assert(after[i] == leaf);
        } else {
            assert(after[i + 1] == leaf);
        }
    }
}

pub proof fn lemma_fewer(paths: Seq<Seq<u8>>, n: int, m: int)
    requires
        n <= m,
        forest_of(paths, m) is Some,
    ensures
        forest_of(paths, n) is Some,
    decreases m - n,
{
    if n < m {
        lemma_fewer(paths, n, m - 1);
    }
}

/// The components of the path under which a file is found are those that the forest had for them.
pub proof fn lemma_found_parts(paths: Seq<Seq<u8>>, f: Forest, k: int)
    requires
        forall|i: int| 0 <= i < paths.len() ==> storable(#[trigger] paths[i]),
        forest_of(paths, paths.len() as int) == Some(f),
        0 <= k < paths.len(),
    ensures
        forest_of(paths, k) is Some,
        ({
            let found = found_paths(f, paths.len())[k]->0;
            let due = settled(forest_of(paths, k)->0, parts(paths[k]), 0);
            parts(found) == due && good_parts(due) && due.len() == parts(paths[k]).len()
                && found == joined(Seq::empty(), due)
        }),
{
    let n = paths.len() as int;
    let root = Seq::<u8>::empty();
    lemma_fewer(paths, k, n);
    lemma_fewer(paths, k + 1, n);
    lemma_forest_leaves(paths, k);
    lemma_forest_leaves(paths, n);
    let g = forest_of(paths, k)->0;
    let path = parts(paths[k]);
    assert(storable(paths[k]));
    let (at, p) = lemma_grow_leaves(g, path, 0, k as nat, root);
    let due = settled(g, path, 0);
    let leaf = (k as nat, p);
    let all = leaves(f, root);
    assert(leaves(g, root).insert(at, leaf)[at] == leaf);
    lemma_leaf_stays(paths, k + 1, n, leaf);
    let i = choose|i: int| 0 <= i < all.len() && all[i] == leaf;
    let none = Seq::new(paths.len(), |m: int| None::<Seq<u8>>);
    assert(fresh(none, all)) by {
        assert(leaves_match(all, paths, n));
    }
    lemma_noted(none, all, i);
    lemma_settled_good(g, path, 0);
    lemma_settled_len(g, path, 0);
    lemma_joined_linked(root, due);
    lemma_parts_linked(root, due);
    assert(root + linked(due) =~= linked(due));
}

/// The paths that are found make the same tree.
proof fn lemma_same_forest(paths: Seq<Seq<u8>>, found: Seq<Seq<u8>>, f: Forest, n: int)
    requires
        forall|i: int| 0 <= i < paths.len() ==> storable(#[trigger] paths[i]),
        forest_of(paths, paths.len() as int) == Some(f),
        found.len() == paths.len(),
        forall|k: int|
            0 <= k < paths.len() ==> (#[trigger] found[k]) == found_paths(f, paths.len())[k]->0,
        0 <= n <= paths.len(),
    ensures
        forest_of(found, n) == forest_of(paths, n),
    decreases n,
{
    if n > 0 {
        let k = n - 1;
        lemma_same_forest(paths, found, f, k);
        lemma_found_parts(paths, f, k);
        assert(found[k] == found_paths(f, paths.len())[k]->0);
        let g = forest_of(paths, k)->0;
        let path = parts(paths[k]);
        let other = parts(found[k]);
        assert(storable(paths[k]));
        assert(other.skip(0) =~= other);
        lemma_settled_grows(g, path, other, 0, k as nat);
    }
}

/// Files with ascending hashes are in order already.
pub proof fn lemma_ordered_already(items: Seq<PendingView>, n: int)
    requires
        ascending(item_hashes(items)),
        0 <= n <= items.len(),
    ensures
        ordered(items, n) == items.take(n),
    decreases n,
{
    if n > 0 {
        lemma_ordered_already(items, n - 1);
        let before = items.take(n - 1);
        let item = items[n - 1];
        assert forall|i: int| 0 <= i < before.len() implies precedes(
            #[trigger] before[i],
            item,
        ) by {
            let hashes = item_hashes(items);
            assert(hashes[i] < hashes[n - 1]);
        }
        lemma_all_precede(before, item, 0);
        assert(before.insert(n - 1, item) =~= items.take(n));
    } else {
        assert(items.take(0) =~= Seq::<PendingView>::empty());
    }
}

proof fn lemma_all_precede(items: Seq<PendingView>, item: PendingView, k: int)
    requires
        0 <= k <= items.len(),
        forall|i: int| 0 <= i < items.len() ==> precedes(#[trigger] items[i], item),
    ensures
        slot(items, item, k) == items.len(),
    decreases items.len() - k,
{
    if k < items.len() {
        lemma_all_precede(items, item, k + 1);
    }
}

/// All entries, unchanged.
pub open spec fn all_unchanged(entries: Seq<EntryView>) -> Seq<PendingView> {
    Seq::new(entries.len(), |i: int| unchanged(entries[i]))
}

pub proof fn lemma_kept_all(entries: Seq<EntryView>, n: int)
    requires
        0 <= n <= entries.len(),
    ensures
        kept(entries, Seq::empty(), n) == all_unchanged(entries).take(n),
    decreases n,
{
    if n > 0 {
        lemma_kept_all(entries, n - 1);
        assert(!has_name(Seq::<Seq<u8>>::empty(), entries[n - 1].path));
        assert(all_unchanged(entries).take(n) =~= all_unchanged(entries).take(n - 1).push(
            unchanged(entries[n - 1]),
        ));
    } else {
        assert(all_unchanged(entries).take(0) =~= Seq::<PendingView>::empty());
    }
}

/// The files are laid out in the same way behind a wrapper that ends where the first payload
/// starts.
proof fn lemma_same_offsets(
    a: Seq<PendingView>,
    b: Seq<PendingView>,
    prefix_len: int,
    i: int,
)
    requires
        a.len() == b.len(),
        forall|k: int|
            0 <= k < a.len() ==> (#[trigger] a[k]).stored_size == b[k].stored_size,
        0 <= i < a.len(),
        0 <= prefix_len,
    ensures
        offset_of(b, aligned(prefix_len), i) == offset_of(a, prefix_len, i),
    decreases i,
{
    if i > 0 {
        lemma_same_offsets(a, b, prefix_len, i - 1);
        assert(a[i - 1].stored_size == b[i - 1].stored_size);
    }
}

/// Two files have the same record.
pub open spec fn same_record(a: PendingView, b: PendingView) -> bool {
    &&& a.stored_size == b.stored_size
    &&& a.size == b.size
    &&& a.compression == b.compression
    &&& path_hash(a.path) == path_hash(b.path)
}

proof fn lemma_same_infos(a: Seq<PendingView>, b: Seq<PendingView>, prefix_len: int, n: int)
    requires
        a.len() == b.len(),
        forall|k: int| 0 <= k < a.len() ==> same_record(#[trigger] a[k], b[k]),
        0 <= n <= a.len(),
        0 <= prefix_len,
    ensures
        infos_bytes(b, aligned(prefix_len), n) == infos_bytes(a, prefix_len, n),
        hashes_bytes(b, n) == hashes_bytes(a, n),
    decreases n,
{
    if n > 0 {
        lemma_same_infos(a, b, prefix_len, n - 1);
        assert(same_record(a[n - 1], b[n - 1]));
        assert forall|k: int| 0 <= k < a.len() implies (#[trigger] a[k]).stored_size
            == b[k].stored_size by {
            assert(same_record(a[k], b[k]));
        }
        lemma_same_offsets(a, b, prefix_len, n - 1);
    }
}

/// The wrapper and the payloads of fewer files come first.
proof fn lemma_body_extends(
    prefix: Seq<u8>,
    items: Seq<PendingView>,
    original: Seq<u8>,
    files: Seq<Seq<u8>>,
    k: int,
    n: int,
)
    requires
        0 <= k <= n,
    ensures
        body(prefix, items, original, files, k).len() <= body(
            prefix,
            items,
            original,
            files,
            n,
        ).len(),
        body(prefix, items, original, files, n).take(
            body(prefix, items, original, files, k).len() as int,
        ) == body(prefix, items, original, files, k),
    decreases n - k,
{
    let small = body(prefix, items, original, files, k);
    if k < n {
        lemma_body_extends(prefix, items, original, files, k, n - 1);
        let before = body(prefix, items, original, files, n - 1);
        let whole = body(prefix, items, original, files, n);
        assert(whole.take(small.len() as int) =~= before.take(small.len() as int));
    } else {
        assert(small.take(small.len() as int) =~= small);
    }
}

/// A name that differs from a good path only in case is not refused.
proof fn lemma_found_normal(path: Seq<u8>)
    requires
        parts(path).len() > 0,
        good_parts(parts(path)),
        joined(Seq::empty(), parts(path)) == path,
        !path.contains(crate::text::COLON),
    ensures
        normalized(path) is Ok,
        clean(path),
{
    let all = parts(path);
    lemma_joined_linked(Seq::empty(), all);
    lemma_linked_bytes(all);
    assert(good_name(all[0]));
    assert(path.len() > 0 && path[0] != BACKSLASH) by {
        assert(path[0] == all[0][0]);
        assert(all[0].contains(all[0][0]));
    }
    assert(!path.contains(crate::text::SLASH));
    super::paths::lemma_clean_normalized(path);
    let s = crate::text::backslashed(path);
    assert(s =~= path) by {
        assert forall|i: int| 0 <= i < path.len() implies s[i] == path[i] by {
            assert(path.contains(path[i]));
        }
    }
    assert forall|i: int| 0 <= i < parts(s).len() implies !bad_part(#[trigger] parts(s)[i]) by {
        assert(good_name(all[i]));
    }
}

proof fn lemma_linked_bytes(path: Seq<Seq<u8>>)
    requires
        path.len() > 0,
        good_parts(path),
    ensures
        !linked(path).contains(crate::text::SLASH),
        !linked(path).contains(0),
        vstd::utf8::valid_utf8(linked(path)),
        linked(path).len() > 0,
        linked(path)[0] == path[0][0],
    decreases path.len(),
{
    let s = linked(path);
    assert(good_name(path[0]));
    if path.len() > 1 {
        let rest = path.drop_first();
        assert(good_parts(rest)) by {
            assert forall|i: int| 0 <= i < rest.len() implies good_name(#[trigger] rest[i]) by {
                assert(rest[i] == path[i + 1]);
            }
        }
        lemma_linked_bytes(rest);
        crate::text::lemma_ascii_text(BACKSLASH);
        vstd::utf8::valid_utf8_concat(path[0], seq![BACKSLASH]);
        vstd::utf8::valid_utf8_concat(path[0] + seq![BACKSLASH], linked(rest));
        let more = linked(rest);
        assert forall|i: int| 0 <= i < s.len() implies s[i] != crate::text::SLASH && s[i] != 0 by {
            if i < path[0].len() {
                assert(path[0].contains(path[0][i]));
            } else if i > path[0].len() {
                assert(more.contains(more[i - path[0].len() - 1]));
            }
        }
    }
}

proof fn lemma_no_colon(a: Seq<u8>, b: Seq<u8>)
    requires
        same_name(a, b),
        !b.contains(crate::text::COLON),
    ensures
        !a.contains(crate::text::COLON),
{
    assert(upper(a).len() == a.len() && upper(b).len() == b.len());
    assert forall|i: int| 0 <= i < a.len() implies a[i] != crate::text::COLON by {
        assert(upper(a)[i] == upper(b)[i]);
        assert(b.contains(b[i]));
    }
}

proof fn lemma_no_bad(items: Seq<PendingView>, i: int)
    requires
        0 <= i,
        forall|k: int| 0 <= k < items.len() ==> normalized((#[trigger] items[k]).path) is Ok,
        ascending(item_hashes(items)),
    ensures
        bad_item(items, i) is None,
        collision(items, i) is None,
    decreases items.len() - i,
{
    if i < items.len() {
        let hashes = item_hashes(items);
        assert forall|j: int| 0 <= j < i implies !same_name(
            #[trigger] items[j].path,
            items[i].path,
        ) by {
            if same_name(items[j].path, items[i].path) {
                lemma_same_name_hash(items[j].path, items[i].path);
                assert(hashes[j] < hashes[i]);
            }
        }
        if i < items.len() - 1 {
            assert(hashes[i] < hashes[i + 1]);
        }
        lemma_no_bad(items, i + 1);
    }
}

/// The payloads of the entries of a written archive, laid out again behind its wrapper.
proof fn lemma_body_back(
    prefix: Seq<u8>,
    items: Seq<PendingView>,
    original: Seq<u8>,
    files: Seq<Seq<u8>>,
    image: Seq<u8>,
    again: Seq<PendingView>,
    k: int,
)
    requires
        1 <= k <= items.len(),
        8 <= prefix.len(),
        all_at_hand(items, original, files),
        again.len() == items.len(),
        forall|i: int|
            0 <= i < items.len() ==> (#[trigger] again[i]).stored_size == items[i].stored_size
                && payload_of(again[i], image, Seq::empty()) == payload_of(
                items[i],
                original,
                files,
            ),
        image.len() >= end_of(items, prefix.len() as int, items.len() as int),
        forall|i: int| 0 <= i < items.len() ==> 0 <= #[trigger] items[i].stored_size,
        forall|i: int|
            8 <= i < end_of(items, prefix.len() as int, items.len() as int) ==> #[trigger] image[i]
                == body(prefix, items, original, files, items.len() as int)[i],
    ensures
        body(
            image.subrange(0, aligned(prefix.len() as int)),
            again,
            image,
            Seq::empty(),
            k,
        ) == image.subrange(0, 8) + body(prefix, items, original, files, k).skip(8),
    decreases k,
{
    let n = items.len() as int;
    let prefix_len = prefix.len() as int;
    let wrapper = image.subrange(0, aligned(prefix_len));
    let whole = body(prefix, items, original, files, n);
    let none = Seq::<Seq<u8>>::empty();
    let at = offset_of(items, prefix_len, k - 1);
    let payload = payload_of(items[k - 1], original, files);
    let due = body(prefix, items, original, files, k);
    let before = body(prefix, items, original, files, k - 1);
    assert forall|i: int| 0 <= i < items.len() implies (#[trigger] items[i]).stored_size
        == again[i].stored_size by {
        assert(again[i].stored_size == items[i].stored_size);
    }
    lemma_same_offsets(items, again, prefix_len, k - 1);
    lemma_body_len(prefix, items, original, files, k - 1);
    lemma_body_len(prefix, items, original, files, k);
    lemma_body_len(prefix, items, original, files, n);
    lemma_offsets_grow(items, prefix_len, 0, n);
    lemma_offsets_grow(items, prefix_len, k - 1, n);
    assert(at_hand(items[k - 1], original, files));
    assert(payload_of(again[k - 1], image, none) == payload);
    assert(wrapper.len() == aligned(prefix_len));
    if k == 1 {
        lemma_body_extends(prefix, items, original, files, 1, n);
        assert(wrapper =~= image.subrange(0, 8) + due.subrange(8, at)) by {
            assert forall|i: int| 8 <= i < at implies wrapper[i] == due[i] by {
                assert(image[i] == whole[i]);
                assert(whole.take(due.len() as int)[i] == due[i]);
            }
        }
        assert(body(wrapper, again, image, none, 0) == wrapper);
        assert(wrapper + zeros(0) + payload =~= image.subrange(0, 8) + due.skip(8)) by {
            assert(due.subrange(at, due.len() as int) =~= payload);
            assert(due.skip(8) =~= due.subrange(8, at) + due.subrange(at, due.len() as int));
        }
        assert(zeros(at - wrapper.len()) =~= zeros(0));
    } else {
        lemma_body_back(prefix, items, original, files, image, again, k - 1);
        lemma_offsets_grow(items, prefix_len, k - 2, k - 1);
        let held = body(wrapper, again, image, none, k - 1);
        assert(held.len() == before.len());
        assert(held + zeros(at - held.len()) + payload =~= image.subrange(0, 8) + due.skip(8));
    }
}

/// A path that is found is not refused.
proof fn lemma_found_path_normal(paths: Seq<Seq<u8>>, f: Forest, k: int)
    requires
        forall|i: int| 0 <= i < paths.len() ==> storable(#[trigger] paths[i]),
        forest_of(paths, paths.len() as int) == Some(f),
        0 <= k < paths.len(),
        same_name(found_paths(f, paths.len())[k]->0, paths[k]),
        normalized(paths[k]) is Ok,
        clean(paths[k]),
    ensures
        normalized(found_paths(f, paths.len())[k]->0) is Ok,
{
    lemma_found_parts(paths, f, k);
    assert(storable(paths[k]));
    super::paths::lemma_clean_normalized(paths[k]);
    lemma_no_colon(found_paths(f, paths.len())[k]->0, paths[k]);
    lemma_found_normal(found_paths(f, paths.len())[k]->0);
}

/// What a layout that nothing speaks against is.
proof fn lemma_planned(version: int, prefix_len: int, items: Seq<PendingView>, f: Forest)
    requires
        items.len() <= crate::writer::MAX_FILES,
        ordered(items, items.len() as int) == items,
        bad_item(items, 0) is None,
        collision(items, 0) is None,
        forest_of(paths_of(items), items.len() as int) == Some(f),
        count(f) + 1 <= crate::tree::MAX_NODES,
        layout(version, prefix_len, items, flat_tree(f)).index <= crate::writer::MAX_INDEX,
        layout(version, prefix_len, items, flat_tree(f)).tail.len() <= u32::MAX,
    ensures
        planned(version, prefix_len, items) == Ok::<PlanView, ErrorView>(
            layout(version, prefix_len, items, flat_tree(f)),
        ),
{
    assert(paths_of(items).len() == items.len());
}

/// The entries of a written archive, unchanged, are its files again.
proof fn lemma_entries_again(
    version: int,
    prefix_len: int,
    items: Seq<PendingView>,
    f: Forest,
    index: int,
)
    requires
        writable(version, prefix_len, items, f, index),
    ensures
        ({
            let again = all_unchanged(back(items, prefix_len, f));
            &&& again.len() == items.len()
            &&& forall|i: int| 0 <= i < items.len() ==> same_record(#[trigger] items[i], again[i])
            &&& forest_of(paths_of(again), again.len() as int) == Some(f)
            &&& bad_item(again, 0) is None
            &&& collision(again, 0) is None
            &&& ordered(again, again.len() as int) == again
        }),
{
    let n = items.len() as int;
    let paths = paths_of(items);
    let entries = back(items, prefix_len, f);
    let again = all_unchanged(entries);
    let found = paths_of(again);
    lemma_in_front(version, prefix_len, items, f, index);
    lemma_resolved_back(version, prefix_len, items, f, index);
    lemma_hashes_ascending(items);
    lemma_no_bad_item(items, 0);
    assert forall|i: int| 0 <= i < items.len() implies same_record(
        #[trigger] items[i],
        again[i],
    ) by {
        assert(sized(items[i]));
        assert(same_name(entries[i].path, items[i].path));
        lemma_same_name_hash(entries[i].path, items[i].path);
    }
    assert(item_hashes(again) =~= item_hashes(items)) by {
        assert forall|i: int| 0 <= i < n implies item_hashes(again)[i] == item_hashes(
            items,
        )[i] by {
            assert(same_record(items[i], again[i]));
        }
    }
    lemma_ordered_already(again, n);
    assert(again.take(n) =~= again);
    assert forall|k: int| 0 <= k < paths.len() implies (#[trigger] found[k]) == found_paths(
        f,
        paths.len(),
    )[k]->0 by {
        assert(again[k].path == entries[k].path);
    }
    lemma_same_forest(paths, found, f, n);
    assert forall|k: int| 0 <= k < again.len() implies normalized(
        (#[trigger] again[k]).path,
    ) is Ok by {
        assert(same_name(entries[k].path, items[k].path));
        assert(again[k].path == found[k]);
        assert(normalized(items[k].path) is Ok);
        assert(acceptable_item(items[k]));
        lemma_found_path_normal(paths, f, k);
    }
    lemma_no_bad(again, 0);
}

/// Rewriting an archive that was written, without a change, gives the same bytes.
pub proof fn lemma_rewritten_unchanged(
    version: int,
    prefix: Seq<u8>,
    items: Seq<PendingView>,
    original: Seq<u8>,
    files: Seq<Seq<u8>>,
)
    requires
        version == -3 || version == -5,
        8 <= prefix.len() <= MAX_PREFIX,
        all_at_hand(items, original, files),
        acceptable(items),
        tree_fits(paths_of(ordered(items, items.len() as int))),
        written(version, prefix, items, original, files) is Ok,
    ensures
        ({
            let image = written(version, prefix, items, original, files)->Ok_0;
            &&& opened(image) is Ok
            &&& rewritten(opened(image)->Ok_0, Seq::empty(), Seq::empty()) == Ok::<
                Seq<u8>,
                ErrorView,
            >(image)
        }),
{
    reveal(written);
    let n = items.len() as int;
    let sorted = ordered(items, n);
    let prefix_len = prefix.len() as int;
    lemma_ordered(items, n);
    lemma_ordered_at_hand(items, n, original, files);
    lemma_ordered_acceptable(items, n);
    let f = forest_of(paths_of(sorted), n)->0;
    let plan = layout(version, prefix_len, sorted, flat_tree(f));
    let image = archive_bytes(prefix, plan, original, files);
    lemma_flat_len(f, 1);
    assert(writable(version, prefix_len, sorted, f, plan.index));
    assert(written(version, prefix, items, original, files)->Ok_0 == image);
    lemma_laid_out_reopens(version, prefix, sorted, original, files, f);
    lemma_again(version, prefix, sorted, original, files, f);
    let view = opened(image)->Ok_0;
    let entries = view.entries;
    let nothing = Seq::<FileView>::empty();
    let again = all_unchanged(entries);
    lemma_kept_all(entries, entries.len() as int);
    assert(again.take(entries.len() as int) =~= again);
    assert(edited(entries, nothing, Seq::empty()) == Ok::<Seq<PendingView>, ErrorView>(again));
    assert(datas_of(nothing) =~= Seq::<Seq<u8>>::empty());
}

/// The files of a written archive, unchanged, are written to the same bytes.
proof fn lemma_again(
    version: int,
    prefix: Seq<u8>,
    items: Seq<PendingView>,
    original: Seq<u8>,
    files: Seq<Seq<u8>>,
    f: Forest,
)
    requires
        all_at_hand(items, original, files),
        writable(
            version,
            prefix.len() as int,
            items,
            f,
            end_of(items, prefix.len() as int, items.len() as int),
        ),
        layout(version, prefix.len() as int, items, flat_tree(f)).tail.len() <= u32::MAX,
    ensures
        ({
            let plan = layout(version, prefix.len() as int, items, flat_tree(f));
            let image = archive_bytes(prefix, plan, original, files);
            let view = opened(image)->Ok_0;
            written(
                view.version,
                view.prefix,
                all_unchanged(view.entries),
                image,
                Seq::empty(),
            ) == Ok::<Seq<u8>, ErrorView>(image)
        }),
{
    let n = items.len() as int;
    let prefix_len = prefix.len() as int;
    let nodes = flat_tree(f);
    let plan = layout(version, prefix_len, items, nodes);
    let index = plan.index;
    let image = archive_bytes(prefix, plan, original, files);
    lemma_laid_out_reopens(version, prefix, items, original, files, f);
    lemma_entries_again(version, prefix_len, items, f, index);
    lemma_in_front(version, prefix_len, items, f, index);
    crate::archive::lemma_opened_sound(image);
    let view = opened(image)->Ok_0;
    let again = all_unchanged(view.entries);
    let new_len = view.prefix.len() as int;
    assert(new_len == reopened_prefix_len(prefix_len, items.len()));
    let other = layout(version, new_len, again, nodes);
    assert(index >= prefix_len) by {
        if n > 0 {
            lemma_offsets_grow(items, prefix_len, 0, n);
        }
    }
    lemma_same_layout(version, prefix_len, new_len, items, again, f);
    lemma_same_bytes(prefix, plan, other, original, files, image, view);
    lemma_planned(version, new_len, again, f);
    reveal(written);
}

pub proof fn lemma_same_layout(
    version: int,
    prefix_len: int,
    new_len: int,
    items: Seq<PendingView>,
    again: Seq<PendingView>,
    f: Forest,
)
    requires
        again.len() == items.len(),
        forall|i: int| 0 <= i < items.len() ==> same_record(#[trigger] items[i], again[i]),
        new_len == reopened_prefix_len(prefix_len, items.len()),
        0 <= prefix_len,
    ensures
        ({
            let a = layout(version, prefix_len, items, flat_tree(f));
            let b = layout(version, new_len, again, flat_tree(f));
            a.index == b.index && a.tail == b.tail
        }),
{
    let n = items.len() as int;
    reveal(index_bytes);
    if n == 0 {
        assert(infos_bytes(again, new_len, 0) == infos_bytes(items, prefix_len, 0));
        assert(hashes_bytes(again, 0) == hashes_bytes(items, 0));
    } else {
        lemma_same_infos(items, again, prefix_len, n);
        assert forall|k: int| 0 <= k < items.len() implies (#[trigger] items[k]).stored_size
            == again[k].stored_size by {
            assert(same_record(items[k], again[k]));
        }
        lemma_same_offsets(items, again, prefix_len, n - 1);
        assert(same_record(items[n - 1], again[n - 1]));
    }
}

proof fn lemma_same_bytes(
    prefix: Seq<u8>,
    plan: PlanView,
    other: PlanView,
    original: Seq<u8>,
    files: Seq<Seq<u8>>,
    image: Seq<u8>,
    view: ArchiveView,
)
    requires
        8 <= prefix.len() <= plan.index < 0x1_0000_0000,
        image == archive_bytes(prefix, plan, original, files),
        all_at_hand(plan.items, original, files),
        plan.index == end_of(plan.items, prefix.len() as int, plan.items.len() as int),
        other.index == plan.index,
        other.tail == plan.tail,
        other.items == all_unchanged(view.entries),
        view.entries.len() == plan.items.len(),
        view.image == image,
        view.sound(),
        view.prefix == image.subrange(
            0,
            reopened_prefix_len(prefix.len() as int, plan.items.len()),
        ),
        forall|i: int|
            0 <= i < plan.items.len() ==> entry_is(
                image,
                #[trigger] view.entries[i],
                plan.items[i],
                payload_of(plan.items[i], original, files),
            ),
        forall|i: int| 0 <= i < plan.items.len() ==> 0 <= #[trigger] plan.items[i].stored_size,
    ensures
        archive_bytes(view.prefix, other, image, Seq::empty()) == image,
{
    let items = plan.items;
    let again = other.items;
    let n = items.len() as int;
    let none = Seq::<Seq<u8>>::empty();
    let whole = body(prefix, items, original, files, n);
    lemma_image_parts(prefix, plan, original, files);
    if n == 0 {
        assert(body(view.prefix, again, image, none, 0) == view.prefix);
        assert(view.prefix.skip(8) =~= whole.skip(8)) by {
            assert forall|i: int| 8 <= i < prefix.len() implies view.prefix[i] == whole[i] by {
                assert(image[i] == whole[i]);
            }
        }
    } else {
        assert forall|i: int| 0 <= i < items.len() implies (#[trigger] again[i]).stored_size
            == items[i].stored_size && payload_of(again[i], image, none) == payload_of(
            items[i],
            original,
            files,
        ) by {
            assert(entry_is(
                image,
                view.entries[i],
                items[i],
                payload_of(items[i], original, files),
            ));
            assert(crate::archive::in_image(view.entries[i], image));
        }
        lemma_body_back(prefix, items, original, files, image, again, n);
        let held = body(view.prefix, again, image, none, n);
        assert(held.skip(8) =~= whole.skip(8));
    }
    reveal(archive_bytes);
}

/// Rewriting a packed archive without a change gives the same bytes.
pub proof fn lemma_packed_unchanged(files: Seq<FileView>, format: Format)
    requires
        all_paths_texts(files),
        files.len() <= usize::MAX,
        packed(files, format) is Ok,
        packed_tree_fits(files, format),
    ensures
        rewritten(
            opened(packed(files, format)->Ok_0)->Ok_0,
            Seq::empty(),
            Seq::empty(),
        ) == packed(files, format),
{
    let items = packed_items(files, format);
    let datas = stored_datas(collected(files, files.len() as int)->Ok_0, files, format);
    lemma_packed_items(files, format);
    lemma_app_id_len(format);
    lemma_rewritten_unchanged(
        format_version(format),
        new_prefix(format),
        items,
        Seq::empty(),
        datas,
    );
}

} // verus!
