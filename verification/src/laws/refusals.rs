//! Why an archive is not opened.

use super::layout::{
    lemma_numbers, lemma_span, node_span, signed_word, tree_stands, word,
};
use super::reading::{
    lemma_files_read, lemma_nodes_read, lemma_records_read, nodes_stand, record_fair,
};
use crate::archive::{opened, ArchiveView};
use crate::error::ErrorView;
use crate::index::{file_part, hash_part, info_at, infos_upto, tree_part, Info};
use crate::text::decimal;
use crate::walk::RawNode;
use vstd::prelude::*;

verus! {

/// An archive is not opened, for a reason that is told in words.
pub open spec fn refused(image: Seq<u8>, why: Seq<char>) -> bool {
    opened(image) == Err::<ArchiveView, ErrorView>(ErrorView::InvalidArchive(why))
}

/// The bytes from where the index starts on.
pub open spec fn index_part(image: Seq<u8>) -> Seq<u8> {
    image.subrange(word(image, 0), image.len() as int)
}

/// The image is long enough, and tells of an index inside it.
pub open spec fn has_index(image: Seq<u8>) -> bool {
    16 <= image.len() && 8 <= word(image, 0) <= image.len() - 8
}

/// An archive of fewer than sixteen bytes, or with an index outside, is not one.
pub proof fn lemma_no_index(image: Seq<u8>)
    ensures
        image.len() < 16 ==> refused(image, "file is too short to be a DAT archive"@),
        16 <= image.len() && !(8 <= word(image, 0) <= image.len() - 8) ==> refused(
            image,
            "DAT index offset is outside the file"@,
        ),
{
    lemma_numbers(image, 0);
}

/// Other versions than the two are refused, and numbers of files for which there is no room.
pub proof fn lemma_wrong_head(image: Seq<u8>)
    requires
        has_index(image),
    ensures
        ({
            let tail = index_part(image);
            let version = signed_word(tail, 0);
            let count = signed_word(tail, 4);
            &&& version != -3 && version != -5 ==> refused(
                image,
                "unsupported DAT version "@ + decimal(version),
            )
            &&& (version == -3 || version == -5) && (count < 0 || 16 * count > tail.len())
                ==> refused(image, "invalid DAT file count"@)
        }),
{
    let tail = index_part(image);
    lemma_numbers(image, 0);
    lemma_numbers(tail, 0);
    lemma_numbers(tail, 4);
    reveal(file_part);
}

/// Why a record that is whole is refused.
pub open spec fn record_fault(tail: Seq<u8>, at: int, index: int, why: Seq<char>) -> bool {
    let offset = signed_word(tail, at);
    let stored = signed_word(tail, at + 4);
    let size = signed_word(tail, at + 8);
    let kind = signed_word(tail, at + 12);
    if kind != 0 && kind != 2 && kind != 3 {
        why == "unsupported compression mode "@ + decimal(kind)
    } else if offset < 0 || stored < 0 || size < 0 {
        why == "negative DAT entry offset or length"@
    } else {
        256 * offset + stored > index && why == "DAT entry extends into the index"@
    }
}

proof fn lemma_error_stays(tail: Seq<u8>, index: int, n: int, m: int)
    requires
        0 <= n <= m,
        infos_upto(tail, index, n) is Err,
    ensures
        infos_upto(tail, index, m) == infos_upto(tail, index, n),
    decreases m - n,
{
    if n < m {
        lemma_error_stays(tail, index, n, m - 1);
    }
}

/// An archive is refused for the first record that cannot be: one with another encoding than the
/// three, with a number below zero, or with a payload that reaches into the index.
pub proof fn lemma_wrong_record(image: Seq<u8>, i: int, why: Seq<char>)
    requires
        has_index(image),
        ({
            let tail = index_part(image);
            let version = signed_word(tail, 0);
            let count = signed_word(tail, 4);
            &&& version == -3 || version == -5
            &&& 0 <= i < count
            &&& 16 * count <= tail.len()
            &&& 8 + 16 * (i + 1) <= tail.len()
            &&& forall|k: int|
                0 <= k < i ==> #[trigger] record_fair(tail, 8 + 16 * k, word(image, 0))
            &&& record_fault(tail, 8 + 16 * i, word(image, 0), why)
        }),
    ensures
        refused(image, why),
{
    let tail = index_part(image);
    let index = word(image, 0);
    let count = signed_word(tail, 4);
    let at = 8 + 16 * i;
    lemma_numbers(image, 0);
    lemma_numbers(tail, 0);
    lemma_numbers(tail, 4);
    lemma_numbers(tail, at);
    lemma_numbers(tail, at + 4);
    lemma_numbers(tail, at + 8);
    lemma_numbers(tail, at + 12);
    lemma_records_read(tail, index, i);
    assert(info_at(tail, at, index) == Err::<Info, ErrorView>(ErrorView::InvalidArchive(why)));
    assert(infos_upto(tail, index, i + 1) == Err::<Seq<Info>, ErrorView>(
        ErrorView::InvalidArchive(why),
    ));
    lemma_error_stays(tail, index, i + 1, count);
    reveal(file_part);
}

/// The files of an archive can be read.
pub open spec fn has_records(image: Seq<u8>) -> bool {
    let tail = index_part(image);
    let version = signed_word(tail, 0);
    let count = signed_word(tail, 4);
    &&& has_index(image)
    &&& version == -3 || version == -5
    &&& 0 <= count
    &&& 8 + 16 * count <= tail.len()
    &&& forall|k: int|
        0 <= k < count ==> #[trigger] record_fair(tail, 8 + 16 * k, word(image, 0))
}

/// A tree needs a node and has at most 32767 of them. The nodes and their names have to be there.
pub proof fn lemma_wrong_tree(image: Seq<u8>)
    requires
        has_records(image),
        8 + 16 * signed_word(index_part(image), 4) + 4 <= index_part(image).len(),
    ensures
        ({
            let tail = index_part(image);
            let at = 8 + 16 * signed_word(tail, 4);
            let nodes = signed_word(tail, at);
            let table = at + 4 + node_span(signed_word(tail, 0), nodes);
            let size = signed_word(tail, table);
            &&& !(1 <= nodes <= 0x7fff) ==> refused(image, "invalid DAT tree node count"@)
            &&& 1 <= nodes <= 0x7fff && table + 4 > tail.len() ==> refused(
                image,
                "truncated DAT tree"@,
            )
            &&& 1 <= nodes <= 0x7fff && table + 4 <= tail.len() && (size < 0 || table + 4 + size
                > tail.len()) ==> refused(image, "invalid DAT name table length"@)
        }),
{
    let tail = index_part(image);
    let version = signed_word(tail, 0);
    let n = signed_word(tail, 4);
    let at = 8 + 16 * n;
    lemma_numbers(image, 0);
    lemma_files_read(tail, word(image, 0), version, n);
    lemma_numbers(tail, at);
    let count = signed_word(tail, at);
    lemma_span(version, count);
    lemma_numbers(tail, at + 4 + node_span(version, count));
    reveal(tree_part);
}

/// The index ends with the hashes and what their names take, no sooner and no later.
pub proof fn lemma_wrong_end(image: Seq<u8>, nodes: Seq<RawNode>, names: Seq<Seq<u8>>)
    requires
        has_records(image),
        ({
            let tail = index_part(image);
            let version = signed_word(tail, 0);
            let at = 8 + 16 * signed_word(tail, 4);
            &&& tree_stands(tail, at, version, names)
            &&& nodes.len() == names.len()
            &&& nodes_stand(tail, at + 4, version, nodes)
        }),
    ensures
        ({
            let tail = index_part(image);
            let version = signed_word(tail, 0);
            let n = signed_word(tail, 4);
            let table = 8 + 16 * n + 4 + node_span(version, names.len() as int);
            let end = table + 4 + signed_word(tail, table) + 4 * n;
            let one = signed_word(tail, end);
            let more = signed_word(tail, end + 4);
            &&& end + 8 <= tail.len() && (one < 0 || more < 0 || end + 8 + more > tail.len())
                ==> refused(image, "invalid DAT hash-name table"@)
            &&& end + 8 <= tail.len() && one >= 0 && more >= 0 && end + 8 + more < tail.len()
                ==> refused(image, "unexpected trailing DAT index data"@)
        }),
{
    let tail = index_part(image);
    let version = signed_word(tail, 0);
    let n = signed_word(tail, 4);
    let at = 8 + 16 * n;
    let table = at + 4 + node_span(version, names.len() as int);
    let end = table + 4 + signed_word(tail, table) + 4 * n;
    lemma_numbers(image, 0);
    lemma_files_read(tail, word(image, 0), version, n);
    lemma_nodes_read(tail, at, version, nodes, names);
    lemma_numbers(tail, end);
    lemma_numbers(tail, end + 4);
    reveal(hash_part);
}

} // verus!
