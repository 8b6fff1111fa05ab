//! Where everything stands in an archive, in numbers.

use super::reopen::{
    lemma_five_parts, lemma_hashes_ascending, lemma_image_parts, lemma_payload_in_body,
    lemma_tail_parts,
};
use super::tail::{
    lemma_hash_placed, lemma_hashes_bytes_len, lemma_info_placed, lemma_node_placed,
    lemma_nodes_bytes_len, lemma_zero_from, tree_bytes,
};
use crate::archive::opened;
use crate::bytes::{holds_at, i16_at, i32_at, le32, lemma_holds_in, u32_at};
use crate::entry::{Compression, EntryView};
use crate::error::ErrorView;
use crate::index::{
    entries_of, file_part, hash_part, index_of, info_at, infos_upto, least_offset,
    lemma_index_sound, lemma_infos_len, lemma_placed, names_upto, node_width, nodes_at, placed,
    resolved, tree_part, Info,
};
use crate::order::{lemma_ordered, ordered};
use crate::pending::{paths_of, PendingView, Source};
use crate::text::path_hash;
use crate::tree::{forest_of, lemma_flat_len, name_offset, name_table, tree_nodes, FlatView};
use crate::walk::file_paths;
use crate::writer::{
    all_at_hand, archive_bytes, at_hand, body, end_of, hashes_bytes, infos_bytes, layout,
    lemma_offsets_grow, lemma_ordered_at_hand, nodes_bytes, offset_of, payload_of, written,
};
use vstd::prelude::*;
use vstd::utf8::valid_utf8;

verus! {

/// The number in four bytes, the low one first.
pub open spec fn word(s: Seq<u8>, at: int) -> int {
    s[at] + 0x100 * s[at + 1] + 0x1_0000 * s[at + 2] + 0x100_0000 * s[at + 3]
}

/// The number with a sign in four bytes, the low one first.
pub open spec fn signed_word(s: Seq<u8>, at: int) -> int {
    if s[at + 3] < 0x80 {
        word(s, at)
    } else {
        word(s, at) - 0x1_0000_0000
    }
}

/// The number with a sign in two bytes, the low one first.
pub open spec fn signed_half(s: Seq<u8>, at: int) -> int {
    s[at] + 0x100 * s[at + 1] - if s[at + 1] < 0x80 {
        0int
    } else {
        0x1_0000
    }
}

/// How many bytes `n` nodes take: twelve each in an archive of Android, eight in one of the PC.
pub open spec fn node_span(version: int, n: int) -> int {
    if version == -5 {
        12 * n
    } else {
        8 * n
    }
}

pub proof fn lemma_span(version: int, n: int)
    ensures
        n * node_width(version) == node_span(version, n),
{
    if version == -5 {
        assert(n * 12 == 12 * n);
        assert(node_width(version) == 12);
    } else {
        assert(n * 8 == 8 * n);
        assert(node_width(version) == 8);
    }
}

/// Numbers are read with the low byte first.
pub proof fn lemma_numbers(s: Seq<u8>, at: int)
    ensures
        u32_at(s, at) == word(s, at),
        i32_at(s, at) == signed_word(s, at),
        i16_at(s, at) == signed_half(s, at),
{
}

proof fn lemma_info_taken(tail: Seq<u8>, index: int, n: int, i: int)
    requires
        infos_upto(tail, index, n) is Ok,
        0 <= i < n,
    ensures
        infos_upto(tail, index, n)->Ok_0.len() == n,
        info_at(tail, 8 + 16 * i, index) == Ok::<Info, ErrorView>(
            infos_upto(tail, index, n)->Ok_0[i],
        ),
    decreases n,
{
    lemma_infos_len(tail, index, n);
    lemma_infos_len(tail, index, n - 1);
    if i < n - 1 {
        lemma_info_taken(tail, index, n - 1, i);
    }
}

/// Where the hashes of an index start, which begins at `index` and tells of `n` files.
pub open spec fn hashes_start(image: Seq<u8>, index: int, n: int) -> int {
    let nodes = index + 8 + 16 * n;
    let table = nodes + 4 + node_span(signed_word(image, index), signed_word(image, nodes));
    table + 4 + signed_word(image, table)
}

/// An archive has the parts of one: the first four bytes tell where the index starts. It holds the
/// version, the number of files, a record of sixteen bytes for each of them, the number of nodes,
/// the nodes of eight or twelve bytes, the length of the name table, the table, a hash for each
/// file, a number, and the length of what is left.
pub open spec fn has_parts(image: Seq<u8>, version: int, n: int) -> bool {
    let index = word(image, 0);
    let nodes = index + 8 + 16 * n;
    let count = signed_word(image, nodes);
    let table = nodes + 4 + node_span(version, count);
    let hashes = hashes_start(image, index, n);
    &&& 16 <= image.len()
    &&& 8 <= index <= image.len() - 8
    &&& version == signed_word(image, index)
    &&& version == -3 || version == -5
    &&& 0 <= n == signed_word(image, index + 4)
    &&& nodes + 4 <= image.len()
    &&& 1 <= count <= 0x7fff
    &&& table + 4 <= image.len()
    &&& 0 <= signed_word(image, table)
    &&& nodes + 4 <= table
    &&& 0 <= signed_word(image, hashes + 4 * n)
    &&& 0 <= signed_word(image, hashes + 4 * n + 4)
    &&& hashes + 4 * n + 8 + signed_word(image, hashes + 4 * n + 4) == image.len()
}

/// An entry is the one that the record at a position tells of: where the payload starts in units
/// of 256 bytes, how long it is, how long what comes out of it, and how it is encoded. The payload
/// lies in front of the index, and the hash of the path stands where its hash is due.
pub open spec fn record_is(
    image: Seq<u8>,
    at: int,
    hash_at: int,
    index: int,
    entry: EntryView,
) -> bool {
    &&& entry.offset == 256 * signed_word(image, at)
    &&& entry.stored_size == signed_word(image, at + 4)
    &&& entry.size == signed_word(image, at + 8)
    &&& mode(entry.compression) == signed_word(image, at + 12)
    &&& 0 <= entry.offset
    &&& 0 <= entry.stored_size
    &&& 0 <= entry.size
    &&& entry.offset + entry.stored_size <= index
    &&& path_hash(entry.path) == word(image, hash_at)
}

/// The numbers of a tree that is read.
proof fn lemma_tree_numbers(tail: Seq<u8>, at: int, version: int)
    requires
        0 <= at,
        tree_part(tail, at, version) is Ok,
    ensures
        ({
            let count = signed_word(tail, at);
            let table = at + 4 + node_span(version, count);
            &&& 1 <= count <= 0x7fff
            &&& at + 4 <= table
            &&& table + 4 <= tail.len()
            &&& 0 <= signed_word(tail, table)
            &&& tree_part(tail, at, version)->Ok_0.2 == table + 4 + signed_word(tail, table)
        }),
{
    reveal(tree_part);
    let count = i32_at(tail, at);
    lemma_span(version, count);
    lemma_numbers(tail, at);
    lemma_numbers(tail, at + 4 + node_span(version, count));
}

/// The numbers of the hashes that are read.
proof fn lemma_hash_numbers(tail: Seq<u8>, at: int, n: nat)
    requires
        0 <= at,
        hash_part(tail, at, n) is Ok,
    ensures
        ({
            let hashes = hash_part(tail, at, n)->Ok_0;
            &&& 0 <= signed_word(tail, at + 4 * n)
            &&& 0 <= signed_word(tail, at + 4 * n + 4)
            &&& at + 4 * n + 8 + signed_word(tail, at + 4 * n + 4) == tail.len()
            &&& hashes.len() == n
            &&& forall|i: int| 0 <= i < n ==> (#[trigger] hashes[i]) == word(tail, at + 4 * i)
        }),
{
    reveal(hash_part);
    lemma_numbers(tail, at + 4 * n);
    lemma_numbers(tail, at + 4 * n + 4);
    let hashes = hash_part(tail, at, n)->Ok_0;
    assert forall|i: int| 0 <= i < n implies (#[trigger] hashes[i]) == word(tail, at + 4 * i) by {
        lemma_numbers(tail, at + 4 * i);
    }
}

/// The pieces that an index is read of.
proof fn lemma_pieces_taken(tail: Seq<u8>, index: int)
    requires
        index_of(tail, index) is Ok,
        8 <= tail.len(),
    ensures
        ({
            let view = index_of(tail, index)->Ok_0;
            let n = view.entries.len();
            let infos = infos_upto(tail, index, n as int);
            let part = tree_part(tail, 8 + 16 * (n as int), view.version);
            let hashes = hash_part(tail, part->Ok_0.2, n);
            let entries = entries_of(
                file_paths(part->Ok_0.0, part->Ok_0.1, n)->Ok_0,
                hashes->Ok_0,
                infos->Ok_0,
            );
            &&& view.version == signed_word(tail, 0)
            &&& view.version == -3 || view.version == -5
            &&& n == signed_word(tail, 4)
            &&& infos is Ok
            &&& infos->Ok_0.len() == n
            &&& part is Ok
            &&& hashes is Ok
            &&& entries is Ok
            &&& view.entries == entries->Ok_0
            &&& view.prefix_len == least_offset(view.entries, index, n as int)
        }),
{
    let view = index_of(tail, index)->Ok_0;
    let version = i32_at(tail, 0);
    let count = i32_at(tail, 4);
    lemma_numbers(tail, 0);
    lemma_numbers(tail, 4);
    assert(file_part(tail, index)->Ok_0.0 == version && infos_upto(tail, index, count) is Ok
        && file_part(tail, index)->Ok_0.1 == infos_upto(tail, index, count)->Ok_0 && count >= 0 && (
    version == -3 || version == -5)) by {
        reveal(file_part);
    }
    lemma_infos_len(tail, index, count);
    let infos = infos_upto(tail, index, count)->Ok_0;
    let part = tree_part(tail, 8 + 16 * count, version);
    let hashes = hash_part(tail, part->Ok_0.2, infos.len())->Ok_0;
    let paths = file_paths(part->Ok_0.0, part->Ok_0.1, infos.len())->Ok_0;
    assert(entries_of(paths, hashes, infos) is Ok && view.entries == entries_of(
        paths,
        hashes,
        infos,
    )->Ok_0 && view.version == version && view.prefix_len == least_offset(
        view.entries,
        index,
        view.entries.len() as int,
    )) by {
        reveal(resolved);
    }
    lemma_placed(paths, hashes, infos, paths.len() as int);
    lemma_tree_numbers(tail, 8 + 16 * count, version);
    lemma_hash_numbers(tail, part->Ok_0.2, infos.len());
}

/// Numbers in an index are numbers in the archive.
pub proof fn lemma_moved(image: Seq<u8>, index: int, at: int)
    requires
        0 <= index <= image.len(),
        0 <= at,
        index + at + 4 <= image.len(),
    ensures
        ({
            let tail = image.subrange(index, image.len() as int);
            &&& word(tail, at) == word(image, index + at)
            &&& signed_word(tail, at) == signed_word(image, index + at)
        }),
{
}

/// The pieces that an archive is read of.
proof fn lemma_start_taken(image: Seq<u8>)
    requires
        opened(image) is Ok,
    ensures
        ({
            let view = opened(image)->Ok_0;
            let index = word(image, 0);
            let tail = image.subrange(index, image.len() as int);
            &&& 16 <= image.len()
            &&& 8 <= index <= image.len() - 8
            &&& index_of(tail, index) is Ok
            &&& view.image == image
            &&& view.version == index_of(tail, index)->Ok_0.version
            &&& view.entries == index_of(tail, index)->Ok_0.entries
            &&& view.prefix == image.subrange(0, index_of(tail, index)->Ok_0.prefix_len)
        }),
{
    lemma_numbers(image, 0);
}

proof fn lemma_parts_taken(image: Seq<u8>)
    requires
        opened(image) is Ok,
    ensures
        ({
            let view = opened(image)->Ok_0;
            has_parts(image, view.version, view.entries.len() as int)
        }),
        ({
            let view = opened(image)->Ok_0;
            let index = word(image, 0);
            let n = view.entries.len();
            let tail = image.subrange(index, image.len() as int);
            let part = tree_part(tail, 8 + 16 * (n as int), view.version)->Ok_0;
            &&& 0 <= part.2
            &&& index + part.2 == hashes_start(image, index, n as int)
            &&& part.2 + 4 * n + 8 <= tail.len()
        }),
{
    lemma_start_taken(image);
    let view = opened(image)->Ok_0;
    let index = word(image, 0);
    let tail = image.subrange(index, image.len() as int);
    let n = view.entries.len();
    let at = 8 + 16 * n as int;
    lemma_pieces_taken(tail, index);
    let part = tree_part(tail, at, view.version)->Ok_0;
    lemma_tree_numbers(tail, at, view.version);
    lemma_hash_numbers(tail, part.2, n);
    lemma_moved(image, index, 0);
    lemma_moved(image, index, 4);
    lemma_moved(image, index, at);
    lemma_moved(image, index, at + 4 + node_span(view.version, signed_word(tail, at)));
    lemma_moved(image, index, part.2 + 4 * n);
    lemma_moved(image, index, part.2 + 4 * n + 4);
}

proof fn lemma_entry_taken(image: Seq<u8>, i: int)
    requires
        opened(image) is Ok,
        0 <= i < opened(image)->Ok_0.entries.len(),
    ensures
        ({
            let view = opened(image)->Ok_0;
            let index = word(image, 0);
            let n = view.entries.len() as int;
            record_is(
                image,
                index + 8 + 16 * i,
                hashes_start(image, index, n) + 4 * i,
                index,
                view.entries[i],
            )
        }),
{
    lemma_start_taken(image);
    lemma_parts_taken(image);
    let view = opened(image)->Ok_0;
    let index = word(image, 0);
    let n = view.entries.len();
    let tail = image.subrange(index, image.len() as int);
    let at = 8 + 16 * i;
    let end = tree_part(tail, 8 + 16 * (n as int), view.version)->Ok_0.2;
    lemma_entry_pieces(tail, index, i);
    lemma_moved(image, index, end + 4 * i);
    lemma_moved(image, index, at);
    lemma_moved(image, index, at + 4);
    lemma_moved(image, index, at + 8);
    lemma_moved(image, index, at + 12);
}

proof fn lemma_entry_pieces(tail: Seq<u8>, index: int, i: int)
    requires
        index_of(tail, index) is Ok,
        8 <= tail.len(),
        0 <= i < index_of(tail, index)->Ok_0.entries.len(),
    ensures
        ({
            let view = index_of(tail, index)->Ok_0;
            let n = view.entries.len();
            let end = tree_part(tail, 8 + 16 * (n as int), view.version)->Ok_0.2;
            let at = 8 + 16 * i;
            &&& at + 16 <= tail.len()
            &&& record_is(tail, at, end + 4 * i, index, view.entries[i])
        }),
{
    let view = index_of(tail, index)->Ok_0;
    let n = view.entries.len();
    lemma_pieces_taken(tail, index);
    let part = tree_part(tail, 8 + 16 * (n as int), view.version)->Ok_0;
    let hashes = hash_part(tail, part.2, n)->Ok_0;
    let infos = infos_upto(tail, index, n as int)->Ok_0;
    let paths = file_paths(part.0, part.1, n)->Ok_0;
    lemma_tree_numbers(tail, 8 + 16 * (n as int), view.version);
    lemma_hash_numbers(tail, part.2, n);
    lemma_info_taken(tail, index, n as int, i);
    lemma_record_taken(tail, 8 + 16 * i, index, infos[i]);
    lemma_entry_placed(paths, hashes, infos, i);
    assert(hashes[i] == word(tail, part.2 + 4 * i));
}

proof fn lemma_entry_placed(
    paths: Seq<Option<Seq<u8>>>,
    hashes: Seq<u32>,
    infos: Seq<Info>,
    i: int,
)
    requires
        entries_of(paths, hashes, infos) is Ok,
        0 <= i < entries_of(paths, hashes, infos)->Ok_0.len(),
    ensures
        ({
            let entry = entries_of(paths, hashes, infos)->Ok_0[i];
            &&& path_hash(entry.path) == hashes[i]
            &&& entry.offset == infos[i].offset
            &&& entry.stored_size == infos[i].stored_size
            &&& entry.size == infos[i].size
            &&& entry.compression == infos[i].compression
        }),
{
    lemma_placed(paths, hashes, infos, paths.len() as int);
    let slots = placed(paths, hashes, infos, paths.len() as int)->Ok_0;
    assert(slots[i] is Some);
}

proof fn lemma_record_taken(tail: Seq<u8>, at: int, index: int, info: Info)
    requires
        0 <= at,
        info_at(tail, at, index) == Ok::<Info, ErrorView>(info),
    ensures
        at + 16 <= tail.len(),
        info.offset == 256 * signed_word(tail, at),
        info.stored_size == signed_word(tail, at + 4),
        info.size == signed_word(tail, at + 8),
        mode(info.compression) == signed_word(tail, at + 12),
        info.offset + info.stored_size <= index,
{
    lemma_numbers(tail, at);
    lemma_numbers(tail, at + 4);
    lemma_numbers(tail, at + 8);
    lemma_numbers(tail, at + 12);
}

/// What is read of an archive stands in it: it has the parts of one, and each entry is the one
/// that its record tells of. The entries stand in the order of their hashes. The wrapper reaches
/// up to the first payload, or to the index where there is none in front of it.
pub proof fn lemma_opened_layout(image: Seq<u8>)
    requires
        opened(image) is Ok,
    ensures
        ({
            let view = opened(image)->Ok_0;
            let index = word(image, 0);
            let n = view.entries.len() as int;
            &&& view.image == image
            &&& has_parts(image, view.version, n)
            &&& forall|i: int|
                0 <= i < n ==> record_is(
                    image,
                    index + 8 + 16 * i,
                    hashes_start(image, index, n) + 4 * i,
                    index,
                    #[trigger] view.entries[i],
                )
            &&& forall|i: int, j: int|
                #![trigger view.entries[i], view.entries[j]]
                0 <= i < j < n ==> path_hash(view.entries[i].path) < path_hash(
                    view.entries[j].path,
                )
            &&& 8 <= view.prefix.len() <= 0x10_0000
            &&& view.prefix == image.subrange(0, view.prefix.len() as int)
            &&& view.prefix.len() <= index
            &&& forall|i: int|
                0 <= i < n ==> view.prefix.len() <= (#[trigger] view.entries[i]).offset
            &&& view.prefix.len() == index || exists|i: int|
                0 <= i < n && (#[trigger] view.entries[i]).offset == view.prefix.len()
        }),
{
    let view = opened(image)->Ok_0;
    let index = word(image, 0);
    let n = view.entries.len() as int;
    let tail = image.subrange(index, image.len() as int);
    lemma_start_taken(image);
    lemma_pieces_taken(tail, index);
    lemma_parts_taken(image);
    assert forall|i: int| 0 <= i < n implies record_is(
        image,
        index + 8 + 16 * i,
        hashes_start(image, index, n) + 4 * i,
        index,
        #[trigger] view.entries[i],
    ) by {
        lemma_entry_taken(image, i);
    }
    lemma_index_sound(tail, index);
    lemma_least_taken(view.entries, index, n);
}

/// The smallest offset is at most the start of the index and each offset, and is one of them.
pub proof fn lemma_least_taken(entries: Seq<EntryView>, index: int, n: int)
    requires
        0 <= n <= entries.len(),
    ensures
        least_offset(entries, index, n) <= index,
        forall|i: int|
            0 <= i < n ==> least_offset(entries, index, n) <= (#[trigger] entries[i]).offset,
        least_offset(entries, index, n) == index || exists|i: int|
            0 <= i < n && (#[trigger] entries[i]).offset == least_offset(
                entries,
                index,
                n,
            ),
    decreases n,
{
    if n > 0 {
        lemma_least_taken(entries, index, n - 1);
        assert(entries[n - 1].offset == entries[n - 1].offset);
    }
}

/// A tree stands in an index at a position: the number of nodes, nodes of eight or twelve bytes
/// one behind the other, the length of the name table and the table. The name of a node stands in
/// the table where the node tells, and ends in front of a zero byte.
pub open spec fn tree_stands(
    tail: Seq<u8>,
    at: int,
    version: int,
    names: Seq<Seq<u8>>,
) -> bool {
    let count = names.len() as int;
    let table = at + 4 + node_span(version, count);
    let size = signed_word(tail, table);
    &&& 0 <= at
    &&& 1 <= count <= 0x7fff
    &&& table + 4 <= tail.len()
    &&& signed_word(tail, at) == count
    &&& 0 <= size <= tail.len() - table - 4
    &&& forall|i: int|
        0 <= i < count ==> {
            let name = #[trigger] names[i];
            let start = word(tail, at + 4 + node_span(version, i) + 4);
            &&& start + name.len() < size
            &&& forall|k: int| 0 <= k < name.len() ==> name[k] != 0 && #[trigger] name[k] == tail[
                table + 4 + start + k]
            &&& tail[table + 4 + start + name.len()] == 0
            &&& valid_utf8(name)
        }
}

/// A reader takes every tree that stands in an index: the nodes one behind the other, each with
/// its child and its sibling in two bytes each, where its name starts in four, and its name.
pub proof fn lemma_tree_taken(tail: Seq<u8>, at: int, version: int, names: Seq<Seq<u8>>)
    requires
        tree_stands(tail, at, version, names),
    ensures
        ({
            let count = names.len() as int;
            let table = at + 4 + node_span(version, count);
            let part = tree_part(tail, at, version);
            &&& part is Ok
            &&& part->Ok_0.0.len() == count
            &&& forall|i: int|
                0 <= i < count ==> {
                    let node = #[trigger] part->Ok_0.0[i];
                    let start = at + 4 + node_span(version, i);
                    &&& node.child == signed_half(tail, start)
                    &&& node.sibling == signed_half(tail, start + 2)
                    &&& node.name_offset == word(tail, start + 4)
                }
            &&& part->Ok_0.1 == names
            &&& part->Ok_0.2 == table + 4 + signed_word(tail, table)
        }),
{
    reveal(tree_part);
    let count = names.len() as int;
    let table = at + 4 + node_span(version, count);
    let end = table + 4 + signed_word(tail, table);
    let nodes = nodes_at(tail, at + 4, node_width(version), count as nat);
    let bytes = tail.subrange(table + 4, end);
    lemma_span(version, count);
    lemma_names_taken(tail, at, version, names, count);
    assert(names.take(count) =~= names);
    assert forall|i: int| 0 <= i < count implies {
        let node = #[trigger] nodes[i];
        let start = at + 4 + node_span(version, i);
        &&& node.child == signed_half(tail, start)
        &&& node.sibling == signed_half(tail, start + 2)
        &&& node.name_offset == word(tail, start + 4)
    } by {
        lemma_span(version, i);
        lemma_numbers(tail, at + 4 + node_span(version, i));
        lemma_numbers(tail, at + 4 + node_span(version, i) + 2);
        lemma_numbers(tail, at + 4 + node_span(version, i) + 4);
    }
}

proof fn lemma_names_taken(
    tail: Seq<u8>,
    at: int,
    version: int,
    names: Seq<Seq<u8>>,
    n: int,
)
    requires
        tree_stands(tail, at, version, names),
        0 <= n <= names.len(),
    ensures
        ({
            let count = names.len() as int;
            let table = at + 4 + node_span(version, count);
            let end = table + 4 + signed_word(tail, table);
            names_upto(
                tail.subrange(table + 4, end),
                nodes_at(tail, at + 4, node_width(version), count as nat),
                n,
            ) == Ok::<Seq<Seq<u8>>, ErrorView>(names.take(n))
        }),
    decreases n,
{
    let count = names.len() as int;
    let table = at + 4 + node_span(version, count);
    let end = table + 4 + signed_word(tail, table);
    let bytes = tail.subrange(table + 4, end);
    let nodes = nodes_at(tail, at + 4, node_width(version), count as nat);
    lemma_span(version, count);
    if n > 0 {
        lemma_names_taken(tail, at, version, names, n - 1);
        let name = names[n - 1];
        let start = word(tail, at + 4 + node_span(version, n - 1) + 4);
        let stop = start + name.len();
        lemma_span(version, n - 1);
        assert(nodes[n - 1].name_offset == start);
        assert forall|k: int| start <= k < stop implies bytes[k] != 0 by {
            assert(name[k - start] == tail[table + 4 + start + (k - start)]);
        }
        lemma_zero_from(bytes, start, stop);
        assert(bytes.subrange(start, stop) =~= name) by {
            assert forall|k: int| 0 <= k < name.len() implies bytes[start + k] == name[k] by {
                assert(name[k] == tail[table + 4 + start + k]);
            }
        }
        assert(names.take(n) =~= names.take(n - 1).push(name));
    } else {
        assert(names.take(0) =~= Seq::<Seq<u8>>::empty());
    }
}

/// Four bytes of a number, the low one first.
pub open spec fn four(v: int) -> Seq<u8> {
    seq![
        (v % 0x100) as u8,
        (v / 0x100 % 0x100) as u8,
        (v / 0x1_0000 % 0x100) as u8,
        (v / 0x100_0000 % 0x100) as u8,
    ]
}

/// Two bytes of a number, the low one first.
pub open spec fn two(v: int) -> Seq<u8> {
    seq![(v % 0x100) as u8, (v / 0x100 % 0x100) as u8]
}

/// The bytes `part` stand in `s` at a position.
pub open spec fn stands(s: Seq<u8>, at: int, part: Seq<u8>) -> bool {
    0 <= at && at + part.len() <= s.len() && s.subrange(at, at + part.len()) == part
}

/// The number that tells how a payload is encoded.
pub open spec fn mode(compression: Compression) -> int {
    match compression {
        Compression::Plain => 0,
        Compression::Lz2k => 2,
        Compression::Deflate => 3,
    }
}

/// The next multiple of 256.
pub open spec fn raised(at: int) -> int {
    if at % 0x100 == 0 {
        at
    } else {
        at - at % 0x100 + 0x100
    }
}

/// Where the payloads of files in order start, the first behind a wrapper: each at the next
/// multiple of 256 behind the one before.
pub proof fn lemma_offsets(items: Seq<PendingView>, prefix_len: int, i: int)
    requires
        0 <= i <= items.len(),
        0 <= prefix_len,
        forall|k: int| 0 <= k < items.len() ==> 0 <= #[trigger] items[k].stored_size,
    ensures
        i == 0 && items.len() > 0 ==> offset_of(items, prefix_len, 0) == raised(prefix_len),
        0 < i < items.len() ==> offset_of(items, prefix_len, i) == raised(
            offset_of(items, prefix_len, i - 1) + items[i - 1].stored_size,
        ),
        items.len() == 0 ==> end_of(items, prefix_len, 0) == prefix_len,
        i > 0 ==> end_of(items, prefix_len, i) == offset_of(items, prefix_len, i - 1) + items[i
            - 1].stored_size,
{
    if i > 0 {
        lemma_offsets_grow(items, prefix_len, i - 1, i);
    }
}

/// The parts of a written archive, as pieces of bytes.
/// What a written archive is made of.
pub open spec fn is_made(
    image: Seq<u8>,
    version: int,
    prefix: Seq<u8>,
    sorted: Seq<PendingView>,
    original: Seq<u8>,
    files: Seq<Seq<u8>>,
) -> bool {
    let n = sorted.len() as int;
    let nodes = tree_nodes(paths_of(sorted));
    let plan = layout(version, prefix.len() as int, sorted, nodes->Ok_0);
    &&& nodes is Ok
    &&& n <= 0x7fff
    &&& 1 <= nodes->Ok_0.len() <= 0x8000
    &&& prefix.len() <= plan.index <= 0x7fff_ffff
    &&& plan.tail.len() <= 0xffff_ffff
    &&& image == archive_bytes(prefix, plan, original, files)
    &&& all_at_hand(sorted, original, files)
    &&& crate::order::in_order(sorted)
    &&& crate::writer::collision(sorted, 0) is None
}

proof fn lemma_made(
    version: int,
    prefix: Seq<u8>,
    items: Seq<PendingView>,
    original: Seq<u8>,
    files: Seq<Seq<u8>>,
)
    requires
        8 <= prefix.len(),
        all_at_hand(items, original, files),
        written(version, prefix, items, original, files) is Ok,
    ensures
        ordered(items, items.len() as int).len() == items.len(),
        is_made(
            written(version, prefix, items, original, files)->Ok_0,
            version,
            prefix,
            ordered(items, items.len() as int),
            original,
            files,
        ),
{
    reveal(written);
    let n = items.len() as int;
    let sorted = ordered(items, n);
    lemma_ordered(items, n);
    lemma_ordered_at_hand(items, n, original, files);
    lemma_sizes(sorted, original, files);
    if n > 0 {
        lemma_offsets_grow(sorted, prefix.len() as int, 0, n);
    }
    if let Some(f) = forest_of(paths_of(sorted), n) {
        lemma_flat_len(f, 1);
    }
}

proof fn lemma_sizes(sorted: Seq<PendingView>, original: Seq<u8>, files: Seq<Seq<u8>>)
    requires
        all_at_hand(sorted, original, files),
    ensures
        forall|k: int| 0 <= k < sorted.len() ==> 0 <= #[trigger] sorted[k].stored_size,
{
    assert forall|k: int| 0 <= k < sorted.len() implies 0 <= #[trigger] sorted[k].stored_size by {
        assert(at_hand(sorted[k], original, files));
    }
}

/// The index stands in a written archive where the layout tells, and the payloads in front of it.
proof fn lemma_made_parts(
    image: Seq<u8>,
    version: int,
    prefix: Seq<u8>,
    sorted: Seq<PendingView>,
    original: Seq<u8>,
    files: Seq<Seq<u8>>,
)
    requires
        8 <= prefix.len(),
        is_made(image, version, prefix, sorted, original, files),
    ensures
        ({
            let n = sorted.len() as int;
            let nodes = tree_nodes(paths_of(sorted))->Ok_0;
            let plan = layout(version, prefix.len() as int, sorted, nodes);
            let whole = body(prefix, sorted, original, files, n);
            &&& holds_at(image, 0, le32(plan.index))
            &&& holds_at(image, 4, le32(image.len() - plan.index))
            &&& holds_at(image, plan.index, plan.tail)
            &&& image.len() == plan.index + plan.tail.len()
            &&& whole.len() == plan.index
            &&& forall|k: int| 8 <= k < plan.index ==> #[trigger] image[k] == whole[k]
        }),
{
    let nodes = tree_nodes(paths_of(sorted))->Ok_0;
    let plan = layout(version, prefix.len() as int, sorted, nodes);
    lemma_image_parts(prefix, plan, original, files);
    assert(holds_at(image, 4, le32(image.len() - plan.index))) by {
        reveal(archive_bytes);
        assert(image.subrange(4, 8) =~= le32(plan.tail.len() as int));
    }
}

/// What is written stands in the archive: where the index is and how long it is in the first eight
/// bytes, behind them the wrapper, and at the start of the index the version and the number of
/// files. The files stand in the order of their hashes.
pub proof fn lemma_written_head(
    version: int,
    prefix: Seq<u8>,
    items: Seq<PendingView>,
    original: Seq<u8>,
    files: Seq<Seq<u8>>,
)
    requires
        8 <= prefix.len(),
        all_at_hand(items, original, files),
        written(version, prefix, items, original, files) is Ok,
    ensures
        ({
            let image = written(version, prefix, items, original, files)->Ok_0;
            let n = items.len() as int;
            let sorted = ordered(items, n);
            let index = end_of(sorted, prefix.len() as int, n);
            &&& sorted.len() == n <= 0x7fff
            &&& prefix.len() <= index <= 0x7fff_ffff
            &&& image.len() - index <= 0xffff_ffff
            &&& stands(image, 0, four(index))
            &&& stands(image, 4, four(image.len() - index))
            &&& forall|k: int| 8 <= k < prefix.len() ==> #[trigger] image[k] == prefix[k]
            &&& stands(image, index, four(version))
            &&& stands(image, index + 4, four(n))
            &&& forall|i: int, j: int|
                #![trigger sorted[i], sorted[j]]
                0 <= i < j < n ==> path_hash(sorted[i].path) < path_hash(sorted[j].path)
        }),
{
    let image = written(version, prefix, items, original, files)->Ok_0;
    let n = items.len() as int;
    let sorted = ordered(items, n);
    let nodes = tree_nodes(paths_of(sorted))->Ok_0;
    let plan = layout(version, prefix.len() as int, sorted, nodes);
    lemma_made(version, prefix, items, original, files);
    lemma_made_parts(image, version, prefix, sorted, original, files);
    lemma_tail_parts(version, prefix.len() as int, sorted, nodes);
    lemma_holds_in(image, plan.index, plan.tail, 0, le32(version));
    lemma_holds_in(image, plan.index, plan.tail, 4, le32(n));
    lemma_four(plan.index);
    lemma_four(image.len() - plan.index);
    lemma_four(version);
    lemma_four(n);
    assert forall|k: int| 8 <= k < prefix.len() implies #[trigger] image[k] == prefix[k] by {
        lemma_body_starts(prefix, sorted, original, files, n, k);
    }
    lemma_hashes_ascending(sorted);
    assert forall|i: int, j: int|
        #![trigger sorted[i], sorted[j]]
        0 <= i < j < n implies path_hash(sorted[i].path) < path_hash(sorted[j].path) by {
        let h = super::tail::item_hashes(sorted);
        assert(h[i] < h[j]);
    }
}

/// The record of a file stands in the index, its hash behind the tree, and its payload where the
/// record tells.
pub proof fn lemma_written_file(
    version: int,
    prefix: Seq<u8>,
    items: Seq<PendingView>,
    original: Seq<u8>,
    files: Seq<Seq<u8>>,
    i: int,
)
    requires
        8 <= prefix.len(),
        all_at_hand(items, original, files),
        written(version, prefix, items, original, files) is Ok,
        0 <= i < items.len(),
    ensures
        ({
            let image = written(version, prefix, items, original, files)->Ok_0;
            let n = items.len() as int;
            let sorted = ordered(items, n);
            let item = sorted[i];
            let index = end_of(sorted, prefix.len() as int, n);
            let at = offset_of(sorted, prefix.len() as int, i);
            let record = index + 8 + 16 * i;
            &&& stands(image, record, four(at / 0x100))
            &&& stands(image, record + 4, four(item.stored_size))
            &&& stands(image, record + 8, four(item.size))
            &&& stands(image, record + 12, four(mode(item.compression)))
            &&& stands(
                image,
                image.len() - 8 - 4 * n + 4 * i,
                four(path_hash(item.path) as int),
            )
            &&& prefix.len() <= at
            &&& at + item.stored_size <= index
            &&& at % 0x100 == 0
            &&& image.subrange(at, at + item.stored_size) == match item.source {
                Source::Stored { offset, size } => original.subrange(
                    offset as int,
                    offset + size,
                ),
                Source::Disk(number) => files[number as int],
            }
        }),
{
    let image = written(version, prefix, items, original, files)->Ok_0;
    let n = items.len() as int;
    let sorted = ordered(items, n);
    let item = sorted[i];
    let prefix_len = prefix.len() as int;
    let index = end_of(sorted, prefix_len, n);
    let place = offset_of(sorted, prefix_len, i);
    let whole = body(prefix, sorted, original, files, n);
    let infos = infos_bytes(sorted, prefix_len, n);
    let list = hashes_bytes(sorted, n);
    let last = list + le32(0) + le32(0);
    let nodes = tree_nodes(paths_of(sorted))->Ok_0;
    let plan = layout(version, prefix_len, sorted, nodes);
    lemma_made(version, prefix, items, original, files);
    lemma_made_parts(image, version, prefix, sorted, original, files);
    lemma_sizes(sorted, original, files);
    lemma_tail_parts(version, prefix_len, sorted, nodes);
    let end = 8 + 16 * n + tree_bytes(version, nodes).len();
    lemma_holds_in(image, index, plan.tail, 8, infos);
    lemma_holds_in(image, index, plan.tail, end, last);
    let hashes = image.len() - 8 - 4 * n;
    lemma_hashes_bytes_len(sorted, n);
    lemma_four(path_hash(item.path) as int);
    lemma_info_placed(sorted, prefix_len, n, i);
    lemma_record_stands(image, index + 8, infos, i, item, place);
    assert(last.subrange(0, 4 * n) =~= list);
    lemma_holds_in(image, hashes, last, 0, list);
    lemma_hash_placed(sorted, n, i);
    lemma_holds_in(image, hashes, list, 4 * i, le32(path_hash(item.path) as int));
    assert(at_hand(item, original, files));
    lemma_payload_in_body(prefix, sorted, original, files, n, i);
    lemma_offsets_grow(sorted, prefix_len, i, n);
    let payload = payload_of(item, original, files);
    assert(image.subrange(place, place + payload.len()) =~= whole.subrange(
        place,
        place + payload.len(),
    ));
}

/// The tree stands in the index behind the records: the number of nodes, the nodes one behind the
/// other, of eight bytes or, in an archive of Android, of twelve, the last four of them zero, the
/// length of the name table and the table. Behind it come the hashes and eight bytes that are
/// zero.
pub proof fn lemma_written_tree(
    version: int,
    prefix: Seq<u8>,
    items: Seq<PendingView>,
    original: Seq<u8>,
    files: Seq<Seq<u8>>,
)
    requires
        8 <= prefix.len(),
        all_at_hand(items, original, files),
        written(version, prefix, items, original, files) is Ok,
    ensures
        ({
            let image = written(version, prefix, items, original, files)->Ok_0;
            let n = items.len() as int;
            let sorted = ordered(items, n);
            let nodes = tree_nodes(paths_of(sorted))->Ok_0;
            let start = end_of(sorted, prefix.len() as int, n) + 8 + 16 * n;
            let count = nodes.len() as int;
            let names = name_table(nodes, count);
            let end = start + 8 + node_span(version, count) + names.len();
            &&& tree_nodes(paths_of(sorted)) is Ok
            &&& 1 <= count <= 0x8000
            &&& stands(image, start, four(count))
            &&& forall|i: int|
                0 <= i < count ==> node_is(
                    image,
                    start + 4 + node_span(version, i),
                    version,
                    #[trigger] nodes[i],
                    name_offset(nodes, i),
                )
            &&& stands(image, start + 4 + node_span(version, count), four(names.len() as int))
            &&& stands(image, start + 8 + node_span(version, count), names)
            &&& stands(image, end + 4 * n, seq![0u8, 0, 0, 0, 0, 0, 0, 0])
            &&& end + 4 * n + 8 == image.len()
        }),
{
    let image = written(version, prefix, items, original, files)->Ok_0;
    let n = items.len() as int;
    let sorted = ordered(items, n);
    let prefix_len = prefix.len() as int;
    let nodes = tree_nodes(paths_of(sorted))->Ok_0;
    let plan = layout(version, prefix_len, sorted, nodes);
    let start = plan.index + 8 + 16 * n;
    let tree = tree_bytes(version, nodes);
    let last = hashes_bytes(sorted, n) + le32(0) + le32(0);
    lemma_made(version, prefix, items, original, files);
    lemma_made_parts(image, version, prefix, sorted, original, files);
    lemma_tail_parts(version, prefix_len, sorted, nodes);
    lemma_holds_in(image, plan.index, plan.tail, 8 + 16 * n, tree);
    lemma_holds_in(image, plan.index, plan.tail, 8 + 16 * n + tree.len(), last);
    lemma_hashes_bytes_len(sorted, n);
    let zero = seq![0u8, 0, 0, 0, 0, 0, 0, 0];
    assert(last.subrange(4 * n, 4 * n + 8) =~= zero);
    lemma_holds_in(image, start + tree.len(), last, 4 * n, zero);
    lemma_tree_pieces(image, start, version, nodes);
}

/// A node stands at a position.
pub open spec fn node_is(image: Seq<u8>, at: int, version: int, node: FlatView, name: int) -> bool {
    &&& stands(image, at, two(node.child))
    &&& stands(image, at + 2, two(node.sibling))
    &&& stands(image, at + 4, four(name))
    &&& version == -5 ==> stands(image, at + 8, seq![0u8, 0, 0, 0])
}

proof fn lemma_four(v: int)
    ensures
        le32(v) == four(v),
{
}

proof fn lemma_tree_pieces(image: Seq<u8>, start: int, version: int, nodes: Seq<FlatView>)
    requires
        holds_at(image, start, tree_bytes(version, nodes)),
    ensures
        ({
            let count = nodes.len() as int;
            let names = name_table(nodes, count);
            &&& tree_bytes(version, nodes).len() == 8 + node_span(version, count) + names.len()
            &&& stands(image, start, four(count))
            &&& forall|i: int|
                0 <= i < count ==> node_is(
                    image,
                    start + 4 + node_span(version, i),
                    version,
                    #[trigger] nodes[i],
                    name_offset(nodes, i),
                )
            &&& stands(image, start + 4 + node_span(version, count), four(names.len() as int))
            &&& stands(image, start + 8 + node_span(version, count), names)
        }),
{
    let count = nodes.len() as int;
    let span = node_span(version, count);
    let tree = tree_bytes(version, nodes);
    let names = name_table(nodes, count);
    let list = nodes_bytes(version, nodes, count);
    lemma_nodes_bytes_len(version, nodes, count);
    lemma_span(version, count);
    lemma_four(count);
    lemma_four(names.len() as int);
    let (a, b) = (le32(count), le32(names.len() as int));
    assert(a.len() == 4 && b.len() == 4);
    assert(tree == a + list + b + names);
    lemma_four_pieces(a, list, b, names);
    lemma_holds_in(image, start, tree, 0, a);
    lemma_holds_in(image, start, tree, 4, list);
    lemma_holds_in(image, start, tree, 4 + span, b);
    lemma_holds_in(image, start, tree, 8 + span, names);
    assert forall|i: int| 0 <= i < count implies node_is(
        image,
        start + 4 + node_span(version, i),
        version,
        #[trigger] nodes[i],
        name_offset(nodes, i),
    ) by {
        lemma_node_placed(version, nodes, count, i);
        lemma_node_stands(image, start + 4, version, nodes, list, i);
    }
}

proof fn lemma_four_pieces(a: Seq<u8>, b: Seq<u8>, c: Seq<u8>, d: Seq<u8>)
    ensures
        ({
            let s = a + b + c + d;
            &&& holds_at(s, 0, a)
            &&& holds_at(s, a.len() as int, b)
            &&& holds_at(s, a.len() as int + b.len(), c)
            &&& holds_at(s, a.len() as int + b.len() + c.len(), d)
        }),
{
    lemma_five_parts(a, b, c, d, Seq::empty());
    assert(a + b + c + d + Seq::<u8>::empty() =~= a + b + c + d);
}

proof fn lemma_record_stands(
    image: Seq<u8>,
    at: int,
    infos: Seq<u8>,
    i: int,
    item: PendingView,
    place: int,
)
    requires
        holds_at(image, at, infos),
        holds_at(infos, 16 * i, crate::writer::info_bytes(item, place)),
    ensures
        stands(image, at + 16 * i, four(place / 0x100)),
        stands(image, at + 16 * i + 4, four(item.stored_size)),
        stands(image, at + 16 * i + 8, four(item.size)),
        stands(image, at + 16 * i + 12, four(mode(item.compression))),
{
    let record = crate::writer::info_bytes(item, place);
    let here = at + 16 * i;
    lemma_holds_in(image, at, infos, 16 * i, record);
    assert(record.subrange(0, 4) =~= four(place / 0x100));
    assert(record.subrange(4, 8) =~= four(item.stored_size));
    assert(record.subrange(8, 12) =~= four(item.size));
    assert(record.subrange(12, 16) =~= four(mode(item.compression)));
    lemma_holds_in(image, here, record, 0, four(place / 0x100));
    lemma_holds_in(image, here, record, 4, four(item.stored_size));
    lemma_holds_in(image, here, record, 8, four(item.size));
    lemma_holds_in(image, here, record, 12, four(mode(item.compression)));
}

proof fn lemma_node_stands(
    image: Seq<u8>,
    at: int,
    version: int,
    nodes: Seq<FlatView>,
    list: Seq<u8>,
    i: int,
)
    requires
        holds_at(image, at, list),
        holds_at(
            list,
            i * node_width(version),
            crate::writer::node_bytes(version, nodes[i], name_offset(nodes, i)),
        ),
    ensures
        node_is(
            image,
            at + node_span(version, i),
            version,
            nodes[i],
            name_offset(nodes, i),
        ),
{
    let node = crate::writer::node_bytes(version, nodes[i], name_offset(nodes, i));
    let here = at + node_span(version, i);
    lemma_span(version, i);
    lemma_holds_in(image, at, list, i * node_width(version), node);
    assert(node.subrange(0, 2) =~= two(nodes[i].child));
    assert(node.subrange(2, 4) =~= two(nodes[i].sibling));
    assert(node.subrange(4, 8) =~= four(name_offset(nodes, i)));
    lemma_holds_in(image, here, node, 0, two(nodes[i].child));
    lemma_holds_in(image, here, node, 2, two(nodes[i].sibling));
    lemma_holds_in(image, here, node, 4, four(name_offset(nodes, i)));
    if version == -5 {
        assert(node.subrange(8, 12) =~= seq![0u8, 0, 0, 0]);
        lemma_holds_in(image, here, node, 8, seq![0u8, 0, 0, 0]);
    }
}

proof fn lemma_body_starts(
    prefix: Seq<u8>,
    items: Seq<PendingView>,
    original: Seq<u8>,
    files: Seq<Seq<u8>>,
    n: int,
    k: int,
)
    requires
        0 <= n <= items.len(),
        0 <= k < prefix.len(),
    ensures
        k < body(prefix, items, original, files, n).len(),
        body(prefix, items, original, files, n)[k] == prefix[k],
    decreases n,
{
    if n > 0 {
        lemma_body_starts(prefix, items, original, files, n - 1, k);
    }
}

/// The name of a node that is not the root stands in the name table where the node tells, in front
/// of a zero byte. The names stand in the order of the nodes, behind a zero byte for the root.
pub proof fn lemma_names_stand(nodes: Seq<FlatView>, i: int)
    requires
        0 < i < nodes.len(),
    ensures
        ({
            let names = name_table(nodes, nodes.len() as int);
            let at = name_offset(nodes, i);
            &&& stands(names, at, nodes[i].name + seq![0u8])
            &&& names[0] == 0
            &&& name_offset(nodes, 0) == 0
            &&& name_offset(nodes, 1) == 1
            &&& i > 1 ==> at == name_offset(nodes, i - 1) + nodes[i - 1].name.len() + 1
        }),
{
    lemma_names_within(nodes, i, nodes.len() as int);
}

proof fn lemma_names_within(nodes: Seq<FlatView>, i: int, n: int)
    requires
        0 < i < n,
    ensures
        stands(name_table(nodes, n), name_offset(nodes, i), nodes[i].name + seq![0u8]),
        name_table(nodes, n)[0] == 0,
        name_table(nodes, n).len() > 0,
    decreases n,
{
    let before = name_table(nodes, n - 1);
    let all = name_table(nodes, n);
    let part = nodes[i].name + seq![0u8];
    if i < n - 1 {
        lemma_names_within(nodes, i, n - 1);
        let at = name_offset(nodes, i);
        assert(all.subrange(at, at + part.len()) =~= before.subrange(at, at + part.len()));
    } else {
        lemma_table_starts(nodes, n - 1);
        assert(all =~= before + part);
        assert(all.subrange(before.len() as int, all.len() as int) =~= part);
    }
}

proof fn lemma_table_starts(nodes: Seq<FlatView>, n: int)
    ensures
        name_table(nodes, n).len() > 0,
        name_table(nodes, n)[0] == 0,
    decreases n,
{
    if n > 1 {
        lemma_table_starts(nodes, n - 1);
    }
}

} // verus!
