//! The order of files in an archive: by path hash, then by path.

use crate::pending::{pending_views, Pending, PendingView};
use crate::text::{name_hash, path_hash};
use crate::tree::{is_less, lex_less};
use vstd::prelude::*;

verus! {

/// The file `a` may stand in front of `b`.
pub open spec fn precedes(a: PendingView, b: PendingView) -> bool {
    ||| path_hash(a.path) < path_hash(b.path)
    ||| path_hash(a.path) == path_hash(b.path) && !lex_less(b.path, a.path)
}

/// How many of the files, from the `k`th on, stand in front of `item` without a gap.
pub open spec fn slot(items: Seq<PendingView>, item: PendingView, k: int) -> int
    decreases items.len() - k,
{
    if k >= items.len() || !precedes(items[k], item) {
        k
    } else {
        slot(items, item, k + 1)
    }
}

/// The first `n` files in order: each in turn behind those that precede it.
pub open spec fn ordered(items: Seq<PendingView>, n: int) -> Seq<PendingView>
    decreases n,
{
    if n <= 0 {
        Seq::empty()
    } else {
        let before = ordered(items, n - 1);
        before.insert(slot(before, items[n - 1], 0), items[n - 1])
    }
}

/// Every file precedes those behind it.
pub open spec fn in_order(items: Seq<PendingView>) -> bool {
    forall|i: int, j: int| 0 <= i < j < items.len() ==> precedes(items[i], items[j])
}

proof fn lemma_lex_transitive(a: Seq<u8>, b: Seq<u8>, c: Seq<u8>)
    requires
        !lex_less(b, a),
        !lex_less(c, b),
    ensures
        !lex_less(c, a),
    decreases a.len(),
{
    if a.len() > 0 && b.len() > 0 && c.len() > 0 && a[0] == b[0] && b[0] == c[0] {
        lemma_lex_transitive(a.drop_first(), b.drop_first(), c.drop_first());
    }
}

proof fn lemma_lex_total(a: Seq<u8>, b: Seq<u8>)
    ensures
        !lex_less(a, b) || !lex_less(b, a),
    decreases a.len(),
{
    if a.len() > 0 && b.len() > 0 && a[0] == b[0] {
        lemma_lex_total(a.drop_first(), b.drop_first());
    }
}

proof fn lemma_precedes_transitive(a: PendingView, b: PendingView, c: PendingView)
    requires
        precedes(a, b),
        precedes(b, c),
    ensures
        precedes(a, c),
{
    if path_hash(a.path) == path_hash(b.path) && path_hash(b.path) == path_hash(c.path) {
        lemma_lex_transitive(a.path, b.path, c.path);
    }
}

proof fn lemma_precedes_total(a: PendingView, b: PendingView)
    ensures
        precedes(a, b) || precedes(b, a),
{
    lemma_lex_total(a.path, b.path);
}

/// Of files in order, those that precede `item` stand in front of the others.
proof fn lemma_slot(items: Seq<PendingView>, item: PendingView, k: int)
    requires
        in_order(items),
        0 <= k <= items.len(),
    ensures
        k <= slot(items, item, k) <= items.len(),
        forall|i: int| k <= i < slot(items, item, k) ==> precedes(#[trigger] items[i], item),
        forall|i: int| slot(items, item, k) <= i < items.len() ==> !precedes(
            #[trigger] items[i],
            item,
        ),
    decreases items.len() - k,
{
    if k < items.len() {
        if precedes(items[k], item) {
            lemma_slot(items, item, k + 1);
        } else {
            assert forall|i: int| k <= i < items.len() implies !precedes(
                #[trigger] items[i],
                item,
            ) by {
                if i > k && precedes(items[i], item) {
                    lemma_precedes_transitive(items[k], items[i], item);
                }
            }
        }
    }
}

pub proof fn lemma_slot_range(items: Seq<PendingView>, item: PendingView, k: int)
    requires
        0 <= k <= items.len(),
    ensures
        k <= slot(items, item, k) <= items.len(),
    decreases items.len() - k,
{
    if k < items.len() && precedes(items[k], item) {
        lemma_slot_range(items, item, k + 1);
    }
}

/// The files come out in order, as many as went in.
pub proof fn lemma_ordered(items: Seq<PendingView>, n: int)
    requires
        0 <= n <= items.len(),
    ensures
        ordered(items, n).len() == n,
        in_order(ordered(items, n)),
    decreases n,
{
    if n > 0 {
        lemma_ordered(items, n - 1);
        let before = ordered(items, n - 1);
        let item = items[n - 1];
        let p = slot(before, item, 0);
        lemma_slot(before, item, 0);
        let after = before.insert(p, item);
        assert forall|i: int, j: int| 0 <= i < j < after.len() implies precedes(
            after[i],
            after[j],
        ) by {
            if i < p && j == p {
                assert(precedes(before[i], item));
            } else if i == p {
                assert(!precedes(before[j - 1], item));
                lemma_precedes_total(before[j - 1], item);
            }
        }
    }
}

/// Ordering moves the files and changes none: the files that come out are those that went in.
pub proof fn lemma_ordered_same(items: Seq<PendingView>, n: int)
    requires
        0 <= n <= items.len(),
    ensures
        ordered(items, n).to_multiset() == items.take(n).to_multiset(),
    decreases n,
{
    broadcast use vstd::seq_lib::group_to_multiset_ensures;

    if n > 0 {
        lemma_ordered(items, n - 1);
        lemma_ordered_same(items, n - 1);
        let before = ordered(items, n - 1);
        let item = items[n - 1];
        lemma_slot(before, item, 0);
        vstd::seq_lib::to_multiset_insert(before, slot(before, item, 0), item);
        assert(items.take(n) =~= items.take(n - 1).push(item));
    } else {
        assert(items.take(0) =~= Seq::<PendingView>::empty());
    }
}

/// A copy of a file.
pub fn copy_of(item: &Pending) -> (res: Pending)
    ensures
        res@ == item@,
{
    Pending {
        path: item.path.clone(),
        source: item.source,
        size: item.size,
        stored_size: item.stored_size,
        compression: item.compression,
    }
}

/// The files that `order` names.
spec fn picked(items: Seq<PendingView>, order: Seq<usize>) -> Seq<PendingView> {
    Seq::new(order.len(), |i: int| items[order[i] as int])
}

fn does_precede(a: &Pending, a_hash: u32, b: &Pending, b_hash: u32) -> (res: bool)
    requires
        a_hash == path_hash(a@.path),
        b_hash == path_hash(b@.path),
    ensures
        res == precedes(a@, b@),
{
    a_hash < b_hash || (a_hash == b_hash && !is_less(
        b.path.as_str().as_bytes(),
        a.path.as_str().as_bytes(),
    ))
}

/// The hashes of the files' paths.
pub fn hashes_of(items: &Vec<Pending>) -> (res: Vec<u32>)
    ensures
        res@.len() == items@.len(),
        forall|i: int| 0 <= i < res@.len() ==> #[trigger] res@[i] == path_hash(items@[i]@.path),
{
    let mut res: Vec<u32> = Vec::with_capacity(items.len());
    while res.len() < items.len()
        invariant
            res@.len() <= items@.len(),
            forall|i: int|
                0 <= i < res@.len() ==> #[trigger] res@[i] == path_hash(items@[i]@.path),
        decreases items@.len() - res@.len(),
    {
        let n: usize = res.len();
        res.push(name_hash(items[n].path.as_str()));
    }
    res
}

/// The files in order.
pub fn sort_pending(items: &Vec<Pending>) -> (res: Vec<Pending>)
    ensures
        pending_views(res@) == ordered(pending_views(items@), items@.len() as int),
{
    let ghost all = pending_views(items@);
    let hashes: Vec<u32> = hashes_of(items);
    let mut order: Vec<usize> = Vec::with_capacity(items.len());
    assert(picked(all, order@) =~= Seq::<PendingView>::empty());
    let mut n: usize = 0;
    while n < items.len()
        invariant
            n <= items@.len(),
            all == pending_views(items@),
            hashes@.len() == items@.len(),
            forall|i: int|
                0 <= i < hashes@.len() ==> #[trigger] hashes@[i] == path_hash(items@[i]@.path),
            order@.len() == n,
            forall|i: int| 0 <= i < order@.len() ==> (#[trigger] order@[i]) < items@.len(),
            picked(all, order@) == ordered(all, n as int),
        decreases items@.len() - n,
    {
        let ghost before = picked(all, order@);
        let ghost item = all[n as int];
        proof {
            lemma_ordered(all, n as int);
            lemma_slot(before, item, 0);
        }
        let mut low: usize = 0;
        let mut high: usize = order.len();
        while low < high
            invariant
                n < items@.len(),
                all == pending_views(items@),
                hashes@.len() == items@.len(),
                forall|i: int|
                    0 <= i < hashes@.len() ==> #[trigger] hashes@[i] == path_hash(
                        items@[i]@.path,
                    ),
                forall|i: int| 0 <= i < order@.len() ==> (#[trigger] order@[i]) < items@.len(),
                before == picked(all, order@),
                item == all[n as int],
                low <= high <= order@.len(),
                0 <= slot(before, item, 0) <= before.len(),
                forall|i: int|
                    0 <= i < slot(before, item, 0) ==> precedes(#[trigger] before[i], item),
                forall|i: int|
                    slot(before, item, 0) <= i < before.len() ==> !precedes(
                        #[trigger] before[i],
                        item,
                    ),
                low <= slot(before, item, 0) <= high,
            decreases high - low,
        {
            let middle: usize = low + (high - low) / 2;
            let at: usize = order[middle];
            assert(before[middle as int] == items@[at as int]@);
            if does_precede(&items[at], hashes[at], &items[n], hashes[n]) {
                low = middle + 1;
            } else {
                high = middle;
            }
        }
        order.insert(low, n);
        assert(picked(all, order@) =~= before.insert(low as int, item));
        n = n + 1;
    }
    let mut res: Vec<Pending> = Vec::with_capacity(order.len());
    while res.len() < order.len()
        invariant
            res@.len() <= order@.len(),
            all == pending_views(items@),
            forall|i: int| 0 <= i < order@.len() ==> (#[trigger] order@[i]) < items@.len(),
            forall|i: int| 0 <= i < res@.len() ==> (#[trigger] res@[i])@ == all[order@[i] as int],
        decreases order@.len() - res@.len(),
    {
        let k: usize = res.len();
        res.push(copy_of(&items[order[k]]));
    }
    assert(pending_views(res@) =~= picked(all, order@));
    res
}

} // verus!
