//! Laying out and writing an archive.

use crate::bytes::{append, le16, le32, push_i16, push_i32, push_u32};
use crate::entry::{compression_raw, ALIGN};
use crate::error::{fails, input, ErrorView, NudatError, Result};
use crate::index::MAX_PREFIX;
use crate::order::{hashes_of, in_order, lemma_ordered, ordered, sort_pending};
use crate::pending::{paths_of, pending_views, Pending, PendingView, Source};
use crate::text::{
    eq_ignore_case, lemma_same_name_hash, normalize, normalized, path_hash, same_name, views,
};
use crate::tree::{
    build_tree, flat_views, name_offset, name_table, tree_nodes, EncodedTree, FlatView,
};
use vstd::prelude::*;
use vstd::utf8::{decode_utf8, encode_utf8};

verus! {

/// An archive holds at most this many files.
pub const MAX_FILES: usize = 0x7fff;

/// The index of an archive starts no later than this.
pub const MAX_INDEX: u64 = 0x7fff_ffff;

/// The error for the first file from the `i`th on that has a bad path or the path of an earlier
/// one.
pub open spec fn bad_item(items: Seq<PendingView>, i: int) -> Option<ErrorView>
    decreases items.len() - i,
{
    if i >= items.len() {
        None
    } else {
        match normalized(items[i].path) {
            Err(e) => Some(e),
            Ok(_) => if exists|j: int|
                0 <= j < i && same_name(#[trigger] items[j].path, items[i].path) {
                Some(
                    ErrorView::InvalidInput(
                        "duplicate archive path: "@ + decode_utf8(items[i].path),
                    ),
                )
            } else {
                bad_item(items, i + 1)
            },
        }
    }
}

/// The error for the first file from the `i`th on whose path has the hash of the next one's.
pub open spec fn collision(items: Seq<PendingView>, i: int) -> Option<ErrorView>
    decreases items.len() - i,
{
    if i >= items.len() - 1 {
        None
    } else if path_hash(items[i].path) == path_hash(items[i + 1].path) {
        Some(
            ErrorView::InvalidInput(
                "DAT path hash collision: "@ + decode_utf8(items[i].path) + " and "@ + decode_utf8(
                    items[i + 1].path,
                ),
            ),
        )
    } else {
        collision(items, i + 1)
    }
}

/// The next multiple of the alignment.
pub open spec fn aligned(value: int) -> int {
    (value + 255) / 256 * 256
}

/// Where the payloads of the first `n` files end, behind a wrapper of the given length.
pub open spec fn end_of(items: Seq<PendingView>, prefix_len: int, n: int) -> int
    decreases n,
{
    if n <= 0 {
        prefix_len
    } else {
        offset_of(items, prefix_len, n - 1) + items[n - 1].stored_size
    }
}

/// Where the payload of a file starts.
pub open spec fn offset_of(items: Seq<PendingView>, prefix_len: int, i: int) -> int
    decreases i + 1,
{
    if i < 0 {
        prefix_len
    } else {
        aligned(
            if i == 0 {
                prefix_len
            } else {
                offset_of(items, prefix_len, i - 1) + items[i - 1].stored_size
            },
        )
    }
}

/// The record of a file.
pub open spec fn info_bytes(item: PendingView, offset: int) -> Seq<u8> {
    le32(offset / 256) + le32(item.stored_size) + le32(item.size) + le32(
        compression_raw(item.compression),
    )
}

/// The records of the first `n` files.
pub open spec fn infos_bytes(items: Seq<PendingView>, prefix_len: int, n: int) -> Seq<u8>
    decreases n,
{
    if n <= 0 {
        Seq::empty()
    } else {
        infos_bytes(items, prefix_len, n - 1) + info_bytes(
            items[n - 1],
            offset_of(items, prefix_len, n - 1),
        )
    }
}

/// A node; the newer version has four more bytes, which are zero.
pub open spec fn node_bytes(version: int, node: FlatView, at: int) -> Seq<u8> {
    le16(node.child) + le16(node.sibling) + le32(at) + if version == -5 {
        le16(0) + le16(0)
    } else {
        Seq::empty()
    }
}

/// The first `n` nodes.
pub open spec fn nodes_bytes(version: int, nodes: Seq<FlatView>, n: int) -> Seq<u8>
    decreases n,
{
    if n <= 0 {
        Seq::empty()
    } else {
        nodes_bytes(version, nodes, n - 1) + node_bytes(
            version,
            nodes[n - 1],
            name_offset(nodes, n - 1),
        )
    }
}

/// The hashes of the first `n` paths.
pub open spec fn hashes_bytes(items: Seq<PendingView>, n: int) -> Seq<u8>
    decreases n,
{
    if n <= 0 {
        Seq::empty()
    } else {
        hashes_bytes(items, n - 1) + le32(path_hash(items[n - 1].path) as int)
    }
}

/// The index of the files, in order, of an archive with a wrapper of the given length.
#[verifier::opaque]
pub open spec fn index_bytes(
    version: int,
    prefix_len: int,
    items: Seq<PendingView>,
    nodes: Seq<FlatView>,
) -> Seq<u8> {
    let names = name_table(nodes, nodes.len() as int);
    le32(version) + le32(items.len() as int) + infos_bytes(items, prefix_len, items.len() as int)
        + le32(nodes.len() as int) + nodes_bytes(version, nodes, nodes.len() as int) + le32(
        names.len() as int,
    ) + names + hashes_bytes(items, items.len() as int) + le32(0) + le32(0)
}

/// How an archive is laid out: its files in order, where the payload of each starts, where the
/// index starts, and the index.
pub ghost struct PlanView {
    pub items: Seq<PendingView>,
    pub offsets: Seq<int>,
    pub index: int,
    pub tail: Seq<u8>,
}

/// The layout of files in order.
pub open spec fn layout(
    version: int,
    prefix_len: int,
    items: Seq<PendingView>,
    nodes: Seq<FlatView>,
) -> PlanView {
    PlanView {
        items,
        offsets: Seq::new(items.len(), |i: int| offset_of(items, prefix_len, i)),
        index: end_of(items, prefix_len, items.len() as int),
        tail: index_bytes(version, prefix_len, items, nodes),
    }
}

/// The layout of files in order, if they can be laid out.
pub open spec fn checked_layout(
    version: int,
    prefix_len: int,
    items: Seq<PendingView>,
) -> core::result::Result<PlanView, ErrorView> {
    if bad_item(items, 0) is Some {
        Err(bad_item(items, 0)->0)
    } else if collision(items, 0) is Some {
        Err(collision(items, 0)->0)
    } else {
        match tree_nodes(paths_of(items)) {
            Err(e) => Err(e),
            Ok(nodes) => {
                let plan = layout(version, prefix_len, items, nodes);
                if plan.index > MAX_INDEX {
                    Err(
                        ErrorView::InvalidInput(
                            "DAT index exceeds the game's 2 GiB loader limit"@,
                        ),
                    )
                } else if plan.tail.len() > u32::MAX {
                    Err(ErrorView::InvalidInput("DAT index exceeds 32-bit length limit"@))
                } else {
                    Ok(plan)
                }
            },
        }
    }
}

/// The layout of these files.
pub open spec fn planned(
    version: int,
    prefix_len: int,
    items: Seq<PendingView>,
) -> core::result::Result<PlanView, ErrorView> {
    if items.len() > MAX_FILES {
        Err(ErrorView::InvalidInput("too many DAT files"@))
    } else {
        checked_layout(version, prefix_len, ordered(items, items.len() as int))
    }
}

/// How an archive is laid out.
pub struct Plan {
    pub items: Vec<Pending>,
    pub offsets: Vec<u64>,
    pub index: u64,
    pub tail: Vec<u8>,
}

impl View for Plan {
    type V = PlanView;

    open spec fn view(&self) -> PlanView {
        PlanView {
            items: pending_views(self.items@),
            offsets: Seq::new(self.offsets@.len(), |i: int| self.offsets@[i] as int),
            index: self.index as int,
            tail: self.tail@,
        }
    }
}

/// The error for the first file with a bad path or the path of an earlier one.
fn check_items(items: &Vec<Pending>, hashes: &Vec<u32>) -> (res: Option<NudatError>)
    requires
        in_order(pending_views(items@)),
        hashes@.len() == items@.len(),
        forall|i: int|
            0 <= i < hashes@.len() ==> #[trigger] hashes@[i] == path_hash(items@[i]@.path),
    ensures
        match bad_item(pending_views(items@), 0) {
            Some(e) => res matches Some(found) && found@ == e,
            None => res is None,
        },
{
    let ghost all = pending_views(items@);
    let mut i: usize = 0;
    while i < items.len()
        invariant
            i <= items@.len(),
            all == pending_views(items@),
            in_order(all),
            hashes@.len() == items@.len(),
            forall|k: int|
                0 <= k < hashes@.len() ==> #[trigger] hashes@[k] == path_hash(items@[k]@.path),
            bad_item(all, 0) == bad_item(all, i as int),
        decreases items@.len() - i,
    {
        let ghost path = all[i as int].path;
        assert(path == encode_utf8(items@[i as int].path@));
        match normalize(items[i].path.as_str()) {
            Err(e) => {
                return Some(e);
            },
            Ok(_) => {},
        }
        let mut j: usize = i;
        while j > 0 && hashes[j - 1] == hashes[i]
            invariant
                j <= i < items@.len(),
                all == pending_views(items@),
                path == all[i as int].path,
                hashes@.len() == items@.len(),
                forall|k: int|
                    0 <= k < hashes@.len() ==> #[trigger] hashes@[k] == path_hash(
                        items@[k]@.path,
                    ),
                normalized(path) is Ok,
                bad_item(all, 0) == bad_item(all, i as int),
                forall|k: int| j <= k < i ==> !same_name(#[trigger] all[k].path, path),
            decreases j,
        {
            assert(all[j - 1].path == encode_utf8(items@[j - 1].path@));
            if eq_ignore_case(
                items[j - 1].path.as_str().as_bytes(),
                items[i].path.as_str().as_bytes(),
            ) {
                proof {
                    broadcast use vstd::utf8::encode_utf8_decode_utf8;

                    assert(same_name(all[j - 1].path, path));
                    assert(decode_utf8(path) == items@[i as int].path@);
                }
                let text: String = "duplicate archive path: ".to_owned().concat(
                    items[i].path.as_str(),
                );
                return Some(input(text.as_str()));
            }
            j = j - 1;
        }
        assert forall|k: int| 0 <= k < i implies !same_name(#[trigger] all[k].path, path) by {
            if k < j {
                if same_name(all[k].path, path) {
                    lemma_same_name_hash(all[k].path, path);
                    assert(hashes@[j - 1] != hashes@[i as int]);
                    assert(hashes@[j - 1] == path_hash(all[j - 1].path));
                    assert(hashes@[i as int] == path_hash(all[i as int].path));
                    if k < j - 1 {
                        assert(in_order(all));
                        assert(crate::order::precedes(all[k], all[j - 1]));
                    }
                    assert(crate::order::precedes(all[j - 1], all[i as int]));
                }
            }
        }
        i = i + 1;
    }
    None
}

/// The error for the first file whose path has the hash of the next one's.
fn check_hashes(items: &Vec<Pending>, hashes: &Vec<u32>) -> (res: Option<NudatError>)
    requires
        hashes@.len() == items@.len(),
        forall|i: int|
            0 <= i < hashes@.len() ==> #[trigger] hashes@[i] == path_hash(items@[i]@.path),
    ensures
        match collision(pending_views(items@), 0) {
            Some(e) => res matches Some(found) && found@ == e,
            None => res is None,
        },
{
    let ghost all = pending_views(items@);
    if items.len() < 2 {
        return None;
    }
    let mut i: usize = 0;
    while i < items.len() - 1
        invariant
            2 <= items@.len(),
            i <= items@.len() - 1,
            all == pending_views(items@),
            hashes@.len() == items@.len(),
            forall|k: int|
                0 <= k < hashes@.len() ==> #[trigger] hashes@[k] == path_hash(items@[k]@.path),
            collision(all, 0) == collision(all, i as int),
        decreases items@.len() - i,
    {
        if hashes[i] == hashes[i + 1] {
            proof {
                broadcast use vstd::utf8::encode_utf8_decode_utf8;

                assert(decode_utf8(all[i as int].path) == items@[i as int].path@);
                assert(decode_utf8(all[i + 1].path) == items@[i + 1].path@);
            }
            let text: String = "DAT path hash collision: ".to_owned().concat(
                items[i].path.as_str(),
            ).concat(" and ").concat(items[i + 1].path.as_str());
            return Some(input(text.as_str()));
        }
        i = i + 1;
    }
    None
}

pub fn align(value: u64) -> (res: u64)
    requires
        value <= u64::MAX - 255,
    ensures
        res == aligned(value as int),
{
    (value + 255) / 256 * 256
}

/// Where the payloads start, and where the last one ends.
fn place_payloads(items: &Vec<Pending>, prefix_len: u64) -> (res: (Vec<u64>, u64))
    requires
        items@.len() <= MAX_FILES,
        prefix_len <= MAX_PREFIX,
    ensures
        ({
            let all = pending_views(items@);
            &&& res.0@.len() == items@.len()
            &&& forall|i: int|
                0 <= i < items@.len() ==> #[trigger] res.0@[i] == offset_of(
                    all,
                    prefix_len as int,
                    i,
                )
            &&& res.1 == end_of(all, prefix_len as int, items@.len() as int)
        }),
{
    let ghost all = pending_views(items@);
    let mut offsets: Vec<u64> = Vec::with_capacity(items.len());
    let mut position: u64 = prefix_len;
    while offsets.len() < items.len()
        invariant
            items@.len() <= MAX_FILES,
            offsets@.len() <= items@.len(),
            all == pending_views(items@),
            position <= MAX_PREFIX + offsets@.len() * 0x2_0000_0000,
            position == end_of(all, prefix_len as int, offsets@.len() as int),
            forall|i: int|
                0 <= i < offsets@.len() ==> #[trigger] offsets@[i] == offset_of(
                    all,
                    prefix_len as int,
                    i,
                ),
            prefix_len <= MAX_PREFIX,
        decreases items@.len() - offsets@.len(),
    {
        let n: usize = offsets.len();
        let at: u64 = align(position);
        assert(at == offset_of(all, prefix_len as int, n as int));
        assert(all[n as int].stored_size == items@[n as int].stored_size);
        offsets.push(at);
        position = at + items[n].stored_size as u64;
    }
    (offsets, position)
}

fn write_infos(out: &mut Vec<u8>, items: &Vec<Pending>, offsets: &Vec<u64>, Ghost(prefix_len): Ghost<int>)
    requires
        offsets@.len() == items@.len(),
        forall|i: int|
            0 <= i < offsets@.len() ==> #[trigger] offsets@[i] == offset_of(
                pending_views(items@),
                prefix_len,
                i,
            ) && offsets@[i] <= MAX_INDEX,
    ensures
        final(out)@ == old(out)@ + infos_bytes(
            pending_views(items@),
            prefix_len,
            items@.len() as int,
        ),
{
    let ghost all = pending_views(items@);
    let ghost start = out@;
    let mut i: usize = 0;
    assert(start + Seq::<u8>::empty() =~= start);
    while i < items.len()
        invariant
            i <= items@.len(),
            all == pending_views(items@),
            offsets@.len() == items@.len(),
            forall|k: int|
                0 <= k < offsets@.len() ==> #[trigger] offsets@[k] == offset_of(
                    all,
                    prefix_len,
                    k,
                ) && offsets@[k] <= MAX_INDEX,
            out@ == start + infos_bytes(all, prefix_len, i as int),
        decreases items@.len() - i,
    {
        let ghost before = out@;
        assert(all[i as int] == items@[i as int]@);
        push_i32(out, (offsets[i] / ALIGN) as i32);
        push_u32(out, items[i].stored_size);
        push_u32(out, items[i].size);
        push_i32(out, items[i].compression.raw());
        assert(out@ =~= before + info_bytes(all[i as int], offset_of(all, prefix_len, i as int)));
        assert(out@ =~= start + infos_bytes(all, prefix_len, i + 1));
        i = i + 1;
    }
}

/// A number and its remainder modulo 2 to the power 32 have the same four bytes.
proof fn lemma_le32_modulo(v: int)
    ensures
        le32(v % 0x1_0000_0000) == le32(v),
{
    let q = v / 0x1_0000_0000;
    let w = v % 0x1_0000_0000;
    assert(v == q * 0x1_0000_0000 + w);
    lemma_quotients(q, w);
}

proof fn lemma_quotients(q: int, w: int)
    requires
        0 <= w < 0x1_0000_0000,
    ensures
        le32(q * 0x1_0000_0000 + w) == le32(w),
{
    let v = q * 0x1_0000_0000 + w;
    assert(v % 256 == w % 256) by (nonlinear_arith)
        requires
            v == q * 0x1_0000_0000 + w,
    ;
    assert(v / 256 == q * 0x100_0000 + w / 256) by (nonlinear_arith)
        requires
            v == q * 0x1_0000_0000 + w,
    ;
    assert(v / 0x1_0000 == q * 0x1_0000 + w / 0x1_0000) by (nonlinear_arith)
        requires
            v == q * 0x1_0000_0000 + w,
    ;
    assert(v / 0x100_0000 == q * 0x100 + w / 0x100_0000) by (nonlinear_arith)
        requires
            v == q * 0x1_0000_0000 + w,
    ;
    let (a, b, c) = (w / 256, w / 0x1_0000, w / 0x100_0000);
    assert((q * 0x100_0000 + a) % 256 == a % 256) by (nonlinear_arith);
    assert((q * 0x1_0000 + b) % 256 == b % 256) by (nonlinear_arith);
    assert((q * 0x100 + c) % 256 == c % 256) by (nonlinear_arith);
}

fn write_nodes(out: &mut Vec<u8>, tree: &EncodedTree, version: i32)
    requires
        tree.wf(),
    ensures
        final(out)@ == old(out)@ + nodes_bytes(
            version as int,
            flat_views(tree.nodes@),
            tree.nodes@.len() as int,
        ),
{
    let ghost nodes = flat_views(tree.nodes@);
    let ghost start = out@;
    let mut i: usize = 0;
    assert(start + Seq::<u8>::empty() =~= start);
    while i < tree.nodes.len()
        invariant
            i <= tree.nodes@.len(),
            tree.wf(),
            nodes == flat_views(tree.nodes@),
            out@ == start + nodes_bytes(version as int, nodes, i as int),
        decreases tree.nodes@.len() - i,
    {
        let ghost before = out@;
        assert(nodes[i as int] == tree.nodes@[i as int]@);
        push_i16(out, tree.nodes[i].child);
        push_i16(out, tree.nodes[i].sibling);
        push_u32(out, tree.name_offsets[i]);
        proof {
            lemma_le32_modulo(name_offset(nodes, i as int));
        }
        if version == -5 {
            push_i16(out, 0);
            push_i16(out, 0);
        }
        assert(out@ =~= before + node_bytes(
            version as int,
            nodes[i as int],
            name_offset(nodes, i as int),
        ));
        assert(out@ =~= start + nodes_bytes(version as int, nodes, i + 1));
        i = i + 1;
    }
}

fn write_hashes(out: &mut Vec<u8>, items: &Vec<Pending>, hashes: &Vec<u32>)
    requires
        hashes@.len() == items@.len(),
        forall|i: int|
            0 <= i < hashes@.len() ==> #[trigger] hashes@[i] == path_hash(items@[i]@.path),
    ensures
        final(out)@ == old(out)@ + hashes_bytes(pending_views(items@), items@.len() as int),
{
    let ghost all = pending_views(items@);
    let ghost start = out@;
    let mut i: usize = 0;
    assert(start + Seq::<u8>::empty() =~= start);
    while i < items.len()
        invariant
            i <= items@.len(),
            all == pending_views(items@),
            hashes@.len() == items@.len(),
            forall|k: int|
                0 <= k < hashes@.len() ==> #[trigger] hashes@[k] == path_hash(items@[k]@.path),
            out@ == start + hashes_bytes(all, i as int),
        decreases items@.len() - i,
    {
        push_u32(out, hashes[i]);
        assert(out@ =~= start + hashes_bytes(all, i + 1));
        i = i + 1;
    }
}

/// Writes a length; of a longer one than fits, the remainder.
fn push_len(out: &mut Vec<u8>, n: usize)
    ensures
        final(out)@ == old(out)@ + le32(n as int),
{
    let wide: u64 = n as u64;
    push_u32(out, (wide % 0x1_0000_0000) as u32);
    proof {
        lemma_le32_modulo(n as int);
    }
}

/// Lays out an archive of these files behind a wrapper of the given length.
pub fn plan_archive(version: i32, prefix_len: u64, pending: &Vec<Pending>) -> (res: Result<Plan>)
    requires
        prefix_len <= MAX_PREFIX,
    ensures
        match planned(version as int, prefix_len as int, pending_views(pending@)) {
            Ok(plan) => res matches Ok(found) && found@ == plan,
            Err(e) => fails(res, e),
        },
{
    if pending.len() > MAX_FILES {
        return Err(input("too many DAT files"));
    }
    proof {
        lemma_ordered(pending_views(pending@), pending@.len() as int);
    }
    let items: Vec<Pending> = sort_pending(pending);
    let ghost all = pending_views(items@);
    assert(all.len() == items@.len());
    let hashes: Vec<u32> = hashes_of(&items);
    if let Some(e) = check_items(&items, &hashes) {
        return Err(e);
    }
    if let Some(e) = check_hashes(&items, &hashes) {
        return Err(e);
    }
    let tree: EncodedTree = match build_tree(&items) {
        Err(e) => {
            return Err(e);
        },
        Ok(tree) => tree,
    };
    let ghost nodes = flat_views(tree.nodes@);
    let (offsets, index) = place_payloads(&items, prefix_len);
    if index > MAX_INDEX {
        return Err(input("DAT index exceeds the game's 2 GiB loader limit"));
    }
    proof {
        assert forall|i: int| 0 <= i < offsets@.len() implies #[trigger] offsets@[i]
            <= MAX_INDEX by {
            lemma_offsets_grow(all, prefix_len as int, i, all.len() as int);
        }
    }
    let mut tail: Vec<u8> = Vec::new();
    push_i32(&mut tail, version);
    push_len(&mut tail, items.len());
    write_infos(&mut tail, &items, &offsets, Ghost(prefix_len as int));
    push_len(&mut tail, tree.nodes.len());
    write_nodes(&mut tail, &tree, version);
    push_len(&mut tail, tree.names.len());
    append(&mut tail, tree.names.as_slice());
    write_hashes(&mut tail, &items, &hashes);
    push_i32(&mut tail, 0);
    push_i32(&mut tail, 0);
    assert(tail@ =~= index_bytes(version as int, prefix_len as int, all, nodes)) by {
        reveal(index_bytes);
    }
    if tail.len() as u64 > u32::MAX as u64 {
        return Err(input("DAT index exceeds 32-bit length limit"));
    }
    let plan: Plan = Plan { items, offsets, index, tail };
    assert(plan@.offsets =~= layout(version as int, prefix_len as int, all, nodes).offsets);
    Ok(plan)
}

/// Payloads follow one another.
pub proof fn lemma_offsets_grow(items: Seq<PendingView>, prefix_len: int, i: int, n: int)
    requires
        0 <= i < n <= items.len(),
        forall|k: int| 0 <= k < items.len() ==> 0 <= #[trigger] items[k].stored_size,
    ensures
        offset_of(items, prefix_len, i) + items[i].stored_size <= end_of(items, prefix_len, n),
        prefix_len <= offset_of(items, prefix_len, i),
        offset_of(items, prefix_len, i) % 256 == 0,
    decreases n,
{
    if i < n - 1 {
        lemma_offsets_grow(items, prefix_len, i, n - 1);
        assert(end_of(items, prefix_len, n - 1) <= offset_of(items, prefix_len, n - 1));
    } else if n >= 2 {
        lemma_offsets_grow(items, prefix_len, n - 2, n - 1);
    }
}

/// The stored bytes of a file: a part of the archive that is rewritten, or one of the files.
pub open spec fn payload_of(item: PendingView, original: Seq<u8>, files: Seq<Seq<u8>>) -> Seq<u8> {
    match item.source {
        Source::Stored { offset, size } => original.subrange(offset as int, offset + size),
        Source::Disk(number) => files[number as int],
    }
}

/// The stored bytes of a file are at hand, as many as announced.
pub open spec fn at_hand(item: PendingView, original: Seq<u8>, files: Seq<Seq<u8>>) -> bool {
    match item.source {
        Source::Stored { offset, size } => size == item.stored_size && offset + size
            <= original.len(),
        Source::Disk(number) => number < files.len() && files[number as int].len()
            == item.stored_size,
    }
}

/// The stored bytes of all files are at hand.
pub open spec fn all_at_hand(
    items: Seq<PendingView>,
    original: Seq<u8>,
    files: Seq<Seq<u8>>,
) -> bool {
    forall|i: int| 0 <= i < items.len() ==> #[trigger] at_hand(items[i], original, files)
}

/// Zero bytes.
pub open spec fn zeros(n: int) -> Seq<u8> {
    Seq::new(n as nat, |i: int| 0u8)
}

/// The wrapper and the payloads of the first `n` files, each at its offset.
pub open spec fn body(
    prefix: Seq<u8>,
    items: Seq<PendingView>,
    original: Seq<u8>,
    files: Seq<Seq<u8>>,
    n: int,
) -> Seq<u8>
    decreases n,
{
    if n <= 0 {
        prefix
    } else {
        let before = body(prefix, items, original, files, n - 1);
        before + zeros(offset_of(items, prefix.len() as int, n - 1) - before.len()) + payload_of(
            items[n - 1],
            original,
            files,
        )
    }
}

/// The archive: the payloads and the index, with the place and the length of the index in the
/// first eight bytes.
#[verifier::opaque]
pub open spec fn archive_bytes(
    prefix: Seq<u8>,
    plan: PlanView,
    original: Seq<u8>,
    files: Seq<Seq<u8>>,
) -> Seq<u8> {
    le32(plan.index) + le32(plan.tail.len() as int) + body(
        prefix,
        plan.items,
        original,
        files,
        plan.items.len() as int,
    ).skip(8) + plan.tail
}

/// The archive that these files make.
#[verifier::opaque]
pub open spec fn written(
    version: int,
    prefix: Seq<u8>,
    items: Seq<PendingView>,
    original: Seq<u8>,
    files: Seq<Seq<u8>>,
) -> core::result::Result<Seq<u8>, ErrorView> {
    match planned(version, prefix.len() as int, items) {
        Err(e) => Err(e),
        Ok(plan) => Ok(archive_bytes(prefix, plan, original, files)),
    }
}

/// Stored bytes that are at hand stay so in another order.
pub proof fn lemma_ordered_at_hand(
    items: Seq<PendingView>,
    n: int,
    original: Seq<u8>,
    files: Seq<Seq<u8>>,
)
    requires
        0 <= n <= items.len(),
        all_at_hand(items, original, files),
    ensures
        all_at_hand(ordered(items, n), original, files),
    decreases n,
{
    if n > 0 {
        lemma_ordered_at_hand(items, n - 1, original, files);
        lemma_ordered(items, n - 1);
        let before = ordered(items, n - 1);
        let p = crate::order::slot(before, items[n - 1], 0);
        crate::order::lemma_slot_range(before, items[n - 1], 0);
        let after = ordered(items, n);
        assert forall|i: int| 0 <= i < after.len() implies #[trigger] at_hand(
            after[i],
            original,
            files,
        ) by {
            assert(at_hand(items[n - 1], original, files));
            if i < p {
                assert(at_hand(before[i], original, files));
            } else if i > p {
                assert(at_hand(before[i - 1], original, files));
            }
        }
    }
}

/// The payloads end where the layout says.
pub proof fn lemma_body_len(
    prefix: Seq<u8>,
    items: Seq<PendingView>,
    original: Seq<u8>,
    files: Seq<Seq<u8>>,
    n: int,
)
    requires
        0 <= n <= items.len(),
        all_at_hand(items, original, files),
    ensures
        body(prefix, items, original, files, n).len() == end_of(items, prefix.len() as int, n),
    decreases n,
{
    if n > 0 {
        lemma_body_len(prefix, items, original, files, n - 1);
        assert(at_hand(items[n - 1], original, files));
    }
}

/// Appends zero bytes up to a length.
pub fn pad_to(out: &mut Vec<u8>, at: u64)
    requires
        old(out)@.len() <= at,
    ensures
        final(out)@ == old(out)@ + zeros(at - old(out)@.len()),
{
    let ghost before = out@;
    let mut pad: u64 = at - out.len() as u64;
    assert(out@ =~= before + zeros(at - before.len() - pad));
    while pad > 0
        invariant
            out@ =~= before + zeros(at - before.len() - pad),
            pad <= at - before.len(),
            before.len() <= at,
        decreases pad,
    {
        out.push(0);
        pad = pad - 1;
    }
}

/// Appends the stored bytes of a file.
fn write_payload(out: &mut Vec<u8>, item: &Pending, original: &[u8], files: &Vec<Vec<u8>>)
    requires
        at_hand(item@, original@, views(files@)),
    ensures
        final(out)@ == old(out)@ + payload_of(item@, original@, views(files@)),
{
    match item.source {
        Source::Stored { offset, size } => {
            let room: usize = original.len();
            assert(offset + size <= room);
            let start: usize = offset as usize;
            append(out, vstd::slice::slice_subrange(original, start, start + size as usize));
        },
        Source::Disk(number) => {
            assert(views(files@)[number as int] == files@[number as int]@);
            append(out, files[number].as_slice());
        },
    }
}

/// The wrapper and the payloads, each at its offset.
fn write_body(prefix: &[u8], plan: &Plan, original: &[u8], files: &Vec<Vec<u8>>) -> (res: Vec<u8>)
    requires
        plan.offsets@.len() == plan.items@.len(),
        forall|k: int|
            0 <= k < plan.offsets@.len() ==> #[trigger] plan.offsets@[k] == offset_of(
                pending_views(plan.items@),
                prefix@.len() as int,
                k,
            ),
        all_at_hand(pending_views(plan.items@), original@, views(files@)),
    ensures
        res@ == body(
            prefix@,
            pending_views(plan.items@),
            original@,
            views(files@),
            plan.items@.len() as int,
        ),
{
    let ghost items = pending_views(plan.items@);
    let mut out: Vec<u8> = vstd::slice::slice_to_vec(prefix);
    let mut i: usize = 0;
    while i < plan.items.len()
        invariant
            i <= plan.items@.len(),
            items == pending_views(plan.items@),
            plan.offsets@.len() == plan.items@.len(),
            forall|k: int|
                0 <= k < plan.offsets@.len() ==> #[trigger] plan.offsets@[k] == offset_of(
                    items,
                    prefix@.len() as int,
                    k,
                ),
            all_at_hand(items, original@, views(files@)),
            out@ == body(prefix@, items, original@, views(files@), i as int),
        decreases plan.items@.len() - i,
    {
        proof {
            lemma_body_len(prefix@, items, original@, views(files@), i as int);
        }
        let at: u64 = plan.offsets[i];
        assert(at == offset_of(items, prefix@.len() as int, i as int));
        assert(items[i as int] == plan.items@[i as int]@);
        assert(at_hand(items[i as int], original@, views(files@)));
        pad_to(&mut out, at);
        write_payload(&mut out, &plan.items[i], original, files);
        i = i + 1;
    }
    out
}

/// Writes the archive that these files make. Stored bytes come from `original` or from `files`.
pub fn write_archive(
    version: i32,
    prefix: &[u8],
    pending: &Vec<Pending>,
    original: &[u8],
    files: &Vec<Vec<u8>>,
) -> (res: Result<Vec<u8>>)
    requires
        8 <= prefix@.len() <= MAX_PREFIX,
        all_at_hand(pending_views(pending@), original@, views(files@)),
    ensures
        match written(
            version as int,
            prefix@,
            pending_views(pending@),
            original@,
            views(files@),
        ) {
            Ok(image) => res matches Ok(found) && found@ == image,
            Err(e) => fails(res, e),
        },
{
    let ghost all = pending_views(pending@);
    proof {
        reveal(written);
        lemma_ordered_at_hand(all, all.len() as int, original@, views(files@));
    }
    let plan: Plan = match plan_archive(version, prefix.len() as u64, pending) {
        Err(e) => {
            return Err(e);
        },
        Ok(plan) => plan,
    };
    let ghost items = pending_views(plan.items@);
    proof {
        assert(plan@.items == items);
        assert(plan@.offsets.len() == items.len());
        assert forall|k: int| 0 <= k < plan.offsets@.len() implies #[trigger] plan.offsets@[k]
            == offset_of(items, prefix@.len() as int, k) by {
            assert(plan@.offsets[k] == plan.offsets@[k]);
        }
        lemma_body_len(prefix@, items, original@, views(files@), items.len() as int);
        if items.len() > 0 {
            assert forall|k: int| 0 <= k < items.len() implies 0
                <= #[trigger] items[k].stored_size by {}
            lemma_offsets_grow(items, prefix@.len() as int, 0, items.len() as int);
        }
    }
    let out: Vec<u8> = write_body(prefix, &plan, original, files);
    let mut image: Vec<u8> = Vec::with_capacity(out.len());
    push_u32(&mut image, plan.index as u32);
    push_len(&mut image, plan.tail.len());
    append(&mut image, vstd::slice::slice_subrange(out.as_slice(), 8, out.len()));
    append(&mut image, plan.tail.as_slice());
    assert(image@ =~= archive_bytes(prefix@, plan@, original@, views(files@))) by {
        reveal(archive_bytes);
    }
    Ok(image)
}

} // verus!
