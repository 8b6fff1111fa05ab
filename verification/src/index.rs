//! Reading the index of an archive.

use crate::bytes::{i16_at, i32_at, read_i16, read_i32, read_u32, u32_at};
use crate::entry::{compression_from, Compression, Entry, EntryView, ALIGN};
use crate::error::{
    fails, invalid, ErrorView, IndexFault, IoFault, NudatError, RecordField, Result,
};
use crate::payload::bad_archive;
use crate::text::{decimal, decimal_of, hash_bytes, path_hash, string_of, views};
use crate::walk::{all_texts, file_paths, find_paths, optional_views, RawNode};
use crate::RawFileInfo;
use vstd::prelude::*;
use vstd::utf8::{decode_utf8, valid_utf8};

verus! {

/// Wrappers are no longer than this.
pub const MAX_PREFIX: u64 = 0x10_0000;

/// Where a file's payload stands and how it is encoded.
#[derive(Clone, Copy, Debug)]
pub struct Info {
    pub offset: u64,
    pub stored_size: u32,
    pub size: u32,
    pub compression: Compression,
}

/// The bytes end before a number that was to be read of the index.
pub open spec fn cut_short<T>() -> core::result::Result<T, ErrorView> {
    Err(ErrorView::Binary(IndexFault::Number))
}

/// The first field of a file record that is not whole, where `room` bytes are left for it.
pub open spec fn cut_field(room: int) -> RecordField {
    if room < 4 {
        RecordField::Offset
    } else if room < 8 {
        RecordField::StoredSize
    } else if room < 12 {
        RecordField::Size
    } else {
        RecordField::Compression
    }
}

/// Where the index starts, from the first bytes of an archive of the given length.
pub open spec fn index_start(len: int, head: Seq<u8>) -> core::result::Result<int, ErrorView> {
    if len < 16 {
        bad_archive("file is too short to be a DAT archive"@)
    } else if u32_at(head, 0) < 8 || u32_at(head, 0) + 8 > len {
        bad_archive("DAT index offset is outside the file"@)
    } else {
        Ok(u32_at(head, 0))
    }
}

/// The file record at a position of an index that starts at `index`.
pub open spec fn info_at(tail: Seq<u8>, at: int, index: int) -> core::result::Result<
    Info,
    ErrorView,
> {
    let offset = i32_at(tail, at);
    let stored = i32_at(tail, at + 4);
    let size = i32_at(tail, at + 8);
    if at + 16 > tail.len() {
        Err(ErrorView::Binary(IndexFault::Record(cut_field(tail.len() - at))))
    } else {
        match compression_from(i32_at(tail, at + 12)) {
            Err(e) => Err(e),
            Ok(compression) => if offset < 0 || stored < 0 || size < 0 {
                bad_archive("negative DAT entry offset or length"@)
            } else if offset * ALIGN + stored > index {
                bad_archive("DAT entry extends into the index"@)
            } else {
                Ok(
                    Info {
                        offset: (offset * ALIGN) as u64,
                        stored_size: stored as u32,
                        size: size as u32,
                        compression,
                    },
                )
            },
        }
    }
}

/// The first `n` file records.
pub open spec fn infos_upto(tail: Seq<u8>, index: int, n: int) -> core::result::Result<
    Seq<Info>,
    ErrorView,
>
    decreases n,
{
    if n <= 0 {
        Ok(Seq::empty())
    } else {
        match infos_upto(tail, index, n - 1) {
            Err(e) => Err(e),
            Ok(infos) => match info_at(tail, 8 + 16 * (n - 1), index) {
                Err(e) => Err(e),
                Ok(info) => Ok(infos.push(info)),
            },
        }
    }
}

/// How many bytes a node takes.
pub open spec fn node_width(version: int) -> int {
    if version == -5 {
        12
    } else {
        8
    }
}

/// The node at a position.
pub open spec fn node_at(tail: Seq<u8>, at: int) -> RawNode {
    RawNode {
        child: i16_at(tail, at) as i16,
        sibling: i16_at(tail, at + 2) as i16,
        name_offset: u32_at(tail, at + 4) as u32,
    }
}

/// The nodes from a position on.
pub open spec fn nodes_at(tail: Seq<u8>, at: int, width: int, count: nat) -> Seq<RawNode> {
    Seq::new(count, |i: int| node_at(tail, at + i * width))
}

/// Where the first zero byte at or behind a position stands; the length where there is none.
pub open spec fn zero_from(s: Seq<u8>, at: int) -> int
    decreases s.len() - at,
{
    if at >= s.len() {
        s.len() as int
    } else if s[at] == 0 {
        at
    } else {
        zero_from(s, at + 1)
    }
}

/// The name at a position of the name table.
pub open spec fn name_at(names: Seq<u8>, at: int) -> core::result::Result<Seq<u8>, ErrorView> {
    if at > names.len() {
        bad_archive("invalid DAT name offset"@)
    } else if zero_from(names, at) == names.len() {
        bad_archive("unterminated DAT name"@)
    } else if !valid_utf8(names.subrange(at, zero_from(names, at))) {
        bad_archive("non-UTF-8 DAT filename"@)
    } else {
        Ok(names.subrange(at, zero_from(names, at)))
    }
}

/// The names of the first `n` nodes.
pub open spec fn names_upto(
    names: Seq<u8>,
    nodes: Seq<RawNode>,
    n: int,
) -> core::result::Result<Seq<Seq<u8>>, ErrorView>
    decreases n,
{
    if n <= 0 {
        Ok(Seq::empty())
    } else {
        match names_upto(names, nodes, n - 1) {
            Err(e) => Err(e),
            Ok(found) => match name_at(names, nodes[n - 1].name_offset as int) {
                Err(e) => Err(e),
                Ok(name) => Ok(found.push(name)),
            },
        }
    }
}

/// Each number is less than the next.
pub open spec fn ascending(hashes: Seq<u32>) -> bool {
    forall|i: int, j: int| 0 <= i < j < hashes.len() ==> hashes[i] < hashes[j]
}

/// Where a number stands.
pub open spec fn position(hashes: Seq<u32>, hash: u32) -> int {
    choose|i: int| 0 <= i < hashes.len() && hashes[i] == hash
}

pub open spec fn entry_for(path: Seq<u8>, info: Info) -> EntryView {
    EntryView {
        path,
        offset: info.offset as int,
        stored_size: info.stored_size as int,
        size: info.size as int,
        compression: info.compression,
    }
}

/// The entries that the first `n` paths take, each at the place of its hash.
pub open spec fn placed(
    paths: Seq<Option<Seq<u8>>>,
    hashes: Seq<u32>,
    infos: Seq<Info>,
    n: int,
) -> core::result::Result<Seq<Option<EntryView>>, ErrorView>
    decreases n,
{
    if n <= 0 {
        Ok(Seq::new(hashes.len(), |i: int| None::<EntryView>))
    } else {
        match placed(paths, hashes, infos, n - 1) {
            Err(e) => Err(e),
            Ok(slots) => {
                let path = paths[n - 1]->0;
                let hash = path_hash(path);
                let at = position(hashes, hash);
                if !hashes.contains(hash) {
                    bad_archive("DAT hash missing for "@ + decode_utf8(path))
                } else if slots[at] is Some {
                    bad_archive("duplicate DAT path hash"@)
                } else {
                    Ok(slots.update(at, Some(entry_for(path, infos[at]))))
                }
            },
        }
    }
}

/// No place is empty.
pub open spec fn all_some<T>(v: Seq<Option<T>>) -> bool {
    forall|i: int| 0 <= i < v.len() ==> #[trigger] v[i] is Some
}

pub open spec fn unwrapped<T>(v: Seq<Option<T>>) -> Seq<T> {
    Seq::new(v.len(), |i: int| v[i]->0)
}

/// The entries, in the order of their hashes.
pub open spec fn entries_of(
    paths: Seq<Option<Seq<u8>>>,
    hashes: Seq<u32>,
    infos: Seq<Info>,
) -> core::result::Result<Seq<EntryView>, ErrorView> {
    if !all_some(paths) {
        bad_archive("DAT tree does not name every file"@)
    } else if !ascending(hashes) {
        bad_archive("DAT hashes are unsorted or collide"@)
    } else {
        match placed(paths, hashes, infos, paths.len() as int) {
            Err(e) => Err(e),
            Ok(slots) => if !all_some(slots) {
                bad_archive("DAT hash table does not name every entry"@)
            } else {
                Ok(unwrapped(slots))
            },
        }
    }
}

/// The smallest offset of the first `n` entries, or the start of the index.
pub open spec fn least_offset(entries: Seq<EntryView>, index: int, n: int) -> int
    decreases n,
{
    if n <= 0 {
        index
    } else {
        let least = least_offset(entries, index, n - 1);
        if entries[n - 1].offset < least {
            entries[n - 1].offset
        } else {
            least
        }
    }
}

/// What an index holds.
pub ghost struct IndexView {
    pub version: int,
    pub entries: Seq<EntryView>,
    pub prefix_len: int,
}

/// The hashes, at a position.
pub open spec fn hashes_at(tail: Seq<u8>, at: int, count: nat) -> Seq<u32> {
    Seq::new(count, |i: int| u32_at(tail, at + 4 * i) as u32)
}

/// The part of the index from the hashes on.
#[verifier::opaque]
pub open spec fn hash_part(tail: Seq<u8>, at: int, count: nat) -> core::result::Result<
    Seq<u32>,
    ErrorView,
> {
    let after = at + 4 * count;
    let more = i32_at(tail, after + 4);
    if after > tail.len() {
        Err(ErrorView::Io(IoFault::UnexpectedEof))
    } else if after + 8 > tail.len() {
        cut_short()
    } else if i32_at(tail, after) < 0 || more < 0 || after + 8 + more > tail.len() {
        bad_archive("invalid DAT hash-name table"@)
    } else if after + 8 + more != tail.len() {
        bad_archive("unexpected trailing DAT index data"@)
    } else {
        Ok(hashes_at(tail, at, count))
    }
}

/// The nodes with their names, and where the hashes start.
#[verifier::opaque]
pub open spec fn tree_part(tail: Seq<u8>, at: int, version: int) -> core::result::Result<
    (Seq<RawNode>, Seq<Seq<u8>>, int),
    ErrorView,
> {
    let count = i32_at(tail, at);
    let width = node_width(version);
    let table = at + 4 + count * width;
    let names_len = i32_at(tail, table);
    let end = table + 4 + names_len;
    let nodes = nodes_at(tail, at + 4, width, count as nat);
    if at + 4 > tail.len() {
        cut_short()
    } else if count < 1 || count > i16::MAX {
        bad_archive("invalid DAT tree node count"@)
    } else if table + 4 > tail.len() {
        bad_archive("truncated DAT tree"@)
    } else if names_len < 0 || end > tail.len() {
        bad_archive("invalid DAT name table length"@)
    } else {
        match names_upto(tail.subrange(table + 4, end), nodes, count) {
            Err(e) => Err(e),
            Ok(names) => Ok((nodes, names, end)),
        }
    }
}

/// The version and the file records.
#[verifier::opaque]
pub open spec fn file_part(tail: Seq<u8>, index: int) -> core::result::Result<
    (int, Seq<Info>),
    ErrorView,
> {
    let version = i32_at(tail, 0);
    let count = i32_at(tail, 4);
    if version != -3 && version != -5 {
        bad_archive("unsupported DAT version "@ + decimal(version))
    } else if count < 0 || count > tail.len() as int / 16 {
        bad_archive("invalid DAT file count"@)
    } else {
        match infos_upto(tail, index, count) {
            Err(e) => Err(e),
            Ok(infos) => Ok((version, infos)),
        }
    }
}

/// What the tree, the hashes and the file records make together.
#[verifier::opaque]
pub open spec fn resolved(
    index: int,
    version: int,
    infos: Seq<Info>,
    nodes: Seq<RawNode>,
    names: Seq<Seq<u8>>,
    hashes: Seq<u32>,
) -> core::result::Result<IndexView, ErrorView> {
    match file_paths(nodes, names, infos.len()) {
        Err(e) => Err(e),
        Ok(paths) => match entries_of(paths, hashes, infos) {
            Err(e) => Err(e),
            Ok(entries) => {
                let prefix_len = least_offset(entries, index, entries.len() as int);
                if prefix_len < 8 || prefix_len > MAX_PREFIX {
                    bad_archive("invalid DAT wrapper length"@)
                } else {
                    Ok(IndexView { version, entries, prefix_len })
                }
            },
        },
    }
}

/// What an index that starts at `index` holds; `tail` are the bytes from there on.
pub open spec fn index_of(tail: Seq<u8>, index: int) -> core::result::Result<IndexView, ErrorView> {
    match file_part(tail, index) {
        Err(e) => Err(e),
        Ok((version, infos)) => match tree_part(tail, 8 + 16 * (infos.len() as int), version) {
            Err(e) => Err(e),
            Ok((nodes, names, at)) => match hash_part(tail, at, infos.len()) {
                Err(e) => Err(e),
                Ok(hashes) => resolved(index, version, infos, nodes, names, hashes),
            },
        },
    }
}

/// Where the index starts, from the first four bytes of an archive of the given length.
pub fn find_index(len: u64, head: &[u8]) -> (res: Result<u64>)
    requires
        len >= 16 ==> head@.len() >= 4,
    ensures
        match index_start(len as int, head@) {
            Ok(index) => res matches Ok(found) && found == index,
            Err(e) => fails(res, e),
        },
{
    if len < 16 {
        return Err(invalid("file is too short to be a DAT archive"));
    }
    let index: u64 = read_u32(head, 0) as u64;
    if index < 8 || index > len - 8 {
        return Err(invalid("DAT index offset is outside the file"));
    }
    Ok(index)
}

pub proof fn lemma_infos_len(tail: Seq<u8>, index: int, n: int)
    requires
        n >= 0,
    ensures
        infos_upto(tail, index, n) matches Ok(infos) ==> infos.len() == n,
    decreases n,
{
    if n > 0 {
        lemma_infos_len(tail, index, n - 1);
    }
}

proof fn lemma_infos_error(tail: Seq<u8>, index: int, n: int, m: int)
    requires
        infos_upto(tail, index, n) is Err,
        n <= m,
    ensures
        infos_upto(tail, index, m) == infos_upto(tail, index, n),
    decreases m - n,
{
    if n < m {
        lemma_infos_error(tail, index, n, m - 1);
    }
}

/// Reads a file record.
fn read_record(tail: &[u8], at: usize) -> (res: Result<RawFileInfo>)
    requires
        at <= tail@.len(),
    ensures
        if at + 16 <= tail@.len() {
            &&& res matches Ok(raw)
            &&& raw.offset == i32_at(tail@, at as int)
            &&& raw.stored_size == i32_at(tail@, at + 4)
            &&& raw.size == i32_at(tail@, at + 8)
            &&& raw.compression == i32_at(tail@, at + 12)
        } else {
            fails(
                res,
                ErrorView::Binary(IndexFault::Record(cut_field(tail@.len() - at))),
            )
        },
{
    let room: usize = tail.len() - at;
    if room < 16 {
        let field: RecordField = if room < 4 {
            RecordField::Offset
        } else if room < 8 {
            RecordField::StoredSize
        } else if room < 12 {
            RecordField::Size
        } else {
            RecordField::Compression
        };
        return Err(NudatError::Binary(IndexFault::Record(field)));
    }
    Ok(
        RawFileInfo {
            offset: read_i32(tail, at),
            stored_size: read_i32(tail, at + 4),
            size: read_i32(tail, at + 8),
            compression: read_i32(tail, at + 12),
        },
    )
}

fn read_info(tail: &[u8], at: usize, index: u64) -> (res: Result<Info>)
    requires
        at <= tail@.len(),
    ensures
        match info_at(tail@, at as int, index as int) {
            Ok(info) => res matches Ok(found) && found == info,
            Err(e) => fails(res, e),
        },
{
    let raw: RawFileInfo = match read_record(tail, at) {
        Err(e) => {
            return Err(e);
        },
        Ok(raw) => raw,
    };
    match Compression::from_raw(raw.compression) {
        Err(e) => Err(e),
        Ok(compression) => {
            if raw.offset < 0 || raw.stored_size < 0 || raw.size < 0 {
                return Err(invalid("negative DAT entry offset or length"));
            }
            let offset: u64 = raw.offset as u64 * ALIGN;
            if offset + raw.stored_size as u64 > index {
                return Err(invalid("DAT entry extends into the index"));
            }
            Ok(
                Info {
                    offset,
                    stored_size: raw.stored_size as u32,
                    size: raw.size as u32,
                    compression,
                },
            )
        },
    }
}

fn read_files(tail: &[u8], index: u64) -> (res: Result<(i32, Vec<Info>)>)
    requires
        tail@.len() >= 8,
    ensures
        match file_part(tail@, index as int) {
            Ok((version, infos)) => res matches Ok(found) && found.0 == version && found.1@
                == infos,
            Err(e) => fails(res, e),
        },
{
    proof {
        reveal(file_part);
    }
    let version: i32 = read_i32(tail, 0);
    if version != -3 && version != -5 {
        let text: String = "unsupported DAT version ".to_owned().concat(
            decimal_of(version).as_str(),
        );
        return Err(invalid(text.as_str()));
    }
    let count: i32 = read_i32(tail, 4);
    if count < 0 || count as usize > tail.len() / 16 {
        return Err(invalid("invalid DAT file count"));
    }
    let count: usize = count as usize;
    let mut infos: Vec<Info> = Vec::with_capacity(count);
    while infos.len() < count
        invariant
            infos@.len() <= count,
            count <= tail@.len() / 16,
            infos_upto(tail@, index as int, infos@.len() as int) == core::result::Result::<
                Seq<Info>,
                ErrorView,
            >::Ok(infos@),
            file_part(tail@, index as int) == (match infos_upto(
                tail@,
                index as int,
                count as int,
            ) {
                Err(e) => Err(e),
                Ok(all) => Ok((version as int, all)),
            }),
        decreases count - infos@.len(),
    {
        let n: usize = infos.len();
        let len: usize = tail.len();
        assert(16 * n + 16 <= len);
        let at: usize = 8 + 16 * n;
        let ghost before = infos@;
        assert(infos_upto(tail@, index as int, n + 1) == (match info_at(
            tail@,
            at as int,
            index as int,
        ) {
            Err(e) => Err(e),
            Ok(info) => Ok(before.push(info)),
        }));
        match read_info(tail, at, index) {
            Err(e) => {
                proof {
                    lemma_infos_error(tail@, index as int, n + 1, count as int);
                }
                return Err(e);
            },
            Ok(info) => {
                infos.push(info);
            },
        }
    }
    Ok((version, infos))
}

fn read_name(names: &[u8], at: usize) -> (res: Result<Vec<u8>>)
    ensures
        match name_at(names@, at as int) {
            Ok(name) => res matches Ok(found) && found@ == name && valid_utf8(name),
            Err(e) => fails(res, e),
        },
{
    if at > names.len() {
        return Err(invalid("invalid DAT name offset"));
    }
    let mut end: usize = at;
    while end < names.len() && names[end] != 0
        invariant
            at <= end <= names@.len(),
            zero_from(names@, at as int) == zero_from(names@, end as int),
        decreases names@.len() - end,
    {
        end = end + 1;
    }
    if end == names.len() {
        return Err(invalid("unterminated DAT name"));
    }
    let name: &[u8] = vstd::slice::slice_subrange(names, at, end);
    match core::str::from_utf8(name) {
        Err(_) => Err(invalid("non-UTF-8 DAT filename")),
        Ok(_) => Ok(vstd::slice::slice_to_vec(name)),
    }
}

proof fn lemma_names_error(names: Seq<u8>, nodes: Seq<RawNode>, n: int, m: int)
    requires
        names_upto(names, nodes, n) is Err,
        n <= m,
    ensures
        names_upto(names, nodes, m) == names_upto(names, nodes, n),
    decreases m - n,
{
    if n < m {
        lemma_names_error(names, nodes, n, m - 1);
    }
}

fn read_names(names: &[u8], nodes: &Vec<RawNode>) -> (res: Result<Vec<Vec<u8>>>)
    ensures
        match names_upto(names@, nodes@, nodes@.len() as int) {
            Ok(all) => res matches Ok(found) && views(found@) == all && all.len() == nodes@.len()
                && (forall|i: int| 0 <= i < found@.len() ==> valid_utf8(#[trigger] found@[i]@)),
            Err(e) => fails(res, e),
        },
{
    let mut found: Vec<Vec<u8>> = Vec::with_capacity(nodes.len());
    assert(views(found@) =~= Seq::<Seq<u8>>::empty());
    while found.len() < nodes.len()
        invariant
            found@.len() <= nodes@.len(),
            names_upto(names@, nodes@, found@.len() as int) == core::result::Result::<
                Seq<Seq<u8>>,
                ErrorView,
            >::Ok(views(found@)),
            forall|i: int| 0 <= i < found@.len() ==> valid_utf8(#[trigger] found@[i]@),
        decreases nodes@.len() - found@.len(),
    {
        let n: usize = found.len();
        let ghost before = views(found@);
        match read_name(names, nodes[n].name_offset as usize) {
            Err(e) => {
                proof {
                    lemma_names_error(names@, nodes@, n + 1, nodes@.len() as int);
                }
                return Err(e);
            },
            Ok(name) => {
                found.push(name);
                assert(views(found@) =~= before.push(name@));
            },
        }
    }
    assert(views(found@).len() == found@.len());
    Ok(found)
}

fn read_tree(tail: &[u8], at: usize, version: i32) -> (res: Result<
    (Vec<RawNode>, Vec<Vec<u8>>, usize),
>)
    requires
        at <= tail@.len(),
    ensures
        match tree_part(tail@, at as int, version as int) {
            Ok((nodes, names, end)) => {
                &&& res matches Ok(found)
                &&& found.0@ == nodes
                &&& views(found.1@) == names
                &&& found.2 == end
                &&& end <= tail@.len()
                &&& 1 <= nodes.len() <= i16::MAX
                &&& names.len() == nodes.len()
                &&& forall|i: int| 0 <= i < found.1@.len() ==> valid_utf8(#[trigger] found.1@[i]@)
            },
            Err(e) => fails(res, e),
        },
{
    proof {
        reveal(tree_part);
    }
    if tail.len() - at < 4 {
        return Err(NudatError::Binary(IndexFault::Number));
    }
    let count: i32 = read_i32(tail, at);
    if count < 1 || count > i16::MAX as i32 {
        return Err(invalid("invalid DAT tree node count"));
    }
    let count: usize = count as usize;
    let width: usize = if version == -5 {
        12
    } else {
        8
    };
    assert(count * width <= 12 * 0x7fff) by (nonlinear_arith)
        requires
            count <= 0x7fff,
            width <= 12,
    ;
    let room: usize = tail.len() - at - 4;
    if room < count * width || room - count * width < 4 {
        return Err(invalid("truncated DAT tree"));
    }
    let table: usize = at + 4 + count * width;
    let mut nodes: Vec<RawNode> = Vec::with_capacity(count);
    while nodes.len() < count
        invariant
            nodes@.len() <= count,
            width == node_width(version as int),
            table == at + 4 + count * width,
            table + 4 <= tail@.len(),
            nodes@ =~= nodes_at(tail@, at + 4, width as int, nodes@.len()),
        decreases count - nodes@.len(),
    {
        let n: usize = nodes.len();
        assert(n * width + width <= count * width) by (nonlinear_arith)
            requires
                n + 1 <= count,
        ;
        let here: usize = at + 4 + n * width;
        nodes.push(
            RawNode {
                child: read_i16(tail, here),
                sibling: read_i16(tail, here + 2),
                name_offset: read_u32(tail, here + 4),
            },
        );
    }
    let names_len: i32 = read_i32(tail, table);
    if names_len < 0 || names_len as usize > tail.len() - table - 4 {
        return Err(invalid("invalid DAT name table length"));
    }
    let end: usize = table + 4 + names_len as usize;
    let names: &[u8] = vstd::slice::slice_subrange(tail, table + 4, end);
    match read_names(names, &nodes) {
        Err(e) => Err(e),
        Ok(found) => Ok((nodes, found, end)),
    }
}

fn read_hashes(tail: &[u8], at: usize, count: usize) -> (res: Result<Vec<u32>>)
    requires
        at <= tail@.len(),
    ensures
        match hash_part(tail@, at as int, count as nat) {
            Ok(hashes) => res matches Ok(found) && found@ == hashes && hashes.len() == count,
            Err(e) => fails(res, e),
        },
{
    proof {
        reveal(hash_part);
    }
    let room: usize = tail.len() - at;
    if count > room / 4 {
        return Err(NudatError::Io(IoFault::UnexpectedEof));
    }
    let after: usize = at + 4 * count;
    let mut hashes: Vec<u32> = Vec::with_capacity(count);
    while hashes.len() < count
        invariant
            hashes@.len() <= count,
            after == at + 4 * count,
            after <= tail@.len(),
            hashes@ =~= hashes_at(tail@, at as int, hashes@.len()),
        decreases count - hashes@.len(),
    {
        let n: usize = hashes.len();
        hashes.push(read_u32(tail, at + 4 * n));
    }
    if tail.len() - after < 8 {
        return Err(NudatError::Binary(IndexFault::Number));
    }
    let entries: i32 = read_i32(tail, after);
    let more: i32 = read_i32(tail, after + 4);
    let left: usize = tail.len() - after - 8;
    if entries < 0 || more < 0 || more as usize > left {
        return Err(invalid("invalid DAT hash-name table"));
    }
    if more as usize != left {
        return Err(invalid("unexpected trailing DAT index data"));
    }
    Ok(hashes)
}

fn is_ascending(hashes: &Vec<u32>) -> (res: bool)
    ensures
        res == ascending(hashes@),
{
    if hashes.len() == 0 {
        return true;
    }
    let mut i: usize = 1;
    while i < hashes.len()
        invariant
            1 <= i <= hashes@.len(),
            forall|j: int, k: int| 0 <= j < k < i ==> hashes@[j] < hashes@[k],
        decreases hashes@.len() - i,
    {
        if hashes[i - 1] >= hashes[i] {
            assert(!(hashes@[i - 1] < hashes@[i as int]));
            return false;
        }
        i = i + 1;
    }
    true
}

/// Where a number stands among ascending ones.
fn find_hash(hashes: &Vec<u32>, hash: u32) -> (res: Option<usize>)
    requires
        ascending(hashes@),
    ensures
        match res {
            Some(at) => hashes@.contains(hash) && at == position(hashes@, hash) && at
                < hashes@.len(),
            None => !hashes@.contains(hash),
        },
{
    let mut low: usize = 0;
    let mut high: usize = hashes.len();
    while low < high
        invariant
            low <= high <= hashes@.len(),
            ascending(hashes@),
            forall|i: int| 0 <= i < low ==> hashes@[i] < hash,
            forall|i: int| high <= i < hashes@.len() ==> hashes@[i] > hash,
        decreases high - low,
    {
        let middle: usize = low + (high - low) / 2;
        if hashes[middle] == hash {
            assert(hashes@.contains(hashes@[middle as int]));
            assert(hashes@[position(hashes@, hash)] == hash);
            return Some(middle);
        }
        if hashes[middle] < hash {
            low = middle + 1;
        } else {
            high = middle;
        }
    }
    None
}

/// The contents of optional entries.
pub open spec fn optional_entries(v: Seq<Option<Entry>>) -> Seq<Option<EntryView>> {
    Seq::new(
        v.len(),
        |i: int|
            match v[i] {
                Some(entry) => Some(entry@),
                None => None,
            },
    )
}

/// The contents of entries.
pub open spec fn entry_views(v: Seq<Entry>) -> Seq<EntryView> {
    Seq::new(v.len(), |i: int| v[i]@)
}

proof fn lemma_placed_error(
    paths: Seq<Option<Seq<u8>>>,
    hashes: Seq<u32>,
    infos: Seq<Info>,
    n: int,
    m: int,
)
    requires
        placed(paths, hashes, infos, n) is Err,
        n <= m,
    ensures
        placed(paths, hashes, infos, m) == placed(paths, hashes, infos, n),
    decreases m - n,
{
    if n < m {
        lemma_placed_error(paths, hashes, infos, n, m - 1);
    }
}

/// The entries, in the order of their hashes.
fn place_entries(paths: Vec<Option<Vec<u8>>>, hashes: &Vec<u32>, infos: &Vec<Info>) -> (res: Result<
    Vec<Entry>,
>)
    requires
        all_texts(optional_views(paths@)),
        hashes@.len() == paths@.len(),
        infos@.len() == paths@.len(),
    ensures
        match entries_of(optional_views(paths@), hashes@, infos@) {
            Ok(entries) => res matches Ok(found) && entry_views(found@) == entries,
            Err(e) => fails(res, e),
        },
{
    let ghost all = optional_views(paths@);
    let mut i: usize = 0;
    while i < paths.len()
        invariant
            i <= paths@.len(),
            all == optional_views(paths@),
            forall|j: int| 0 <= j < i ==> #[trigger] all[j] is Some,
        decreases paths@.len() - i,
    {
        assert(all[i as int] is Some == paths@[i as int] is Some);
        if paths[i].is_none() {
            return Err(invalid("DAT tree does not name every file"));
        }
        i = i + 1;
    }
    if !is_ascending(hashes) {
        return Err(invalid("DAT hashes are unsorted or collide"));
    }
    let mut slots: Vec<Option<Entry>> = Vec::with_capacity(hashes.len());
    while slots.len() < hashes.len()
        invariant
            slots@.len() <= hashes@.len(),
            forall|j: int| 0 <= j < slots@.len() ==> slots@[j] is None,
        decreases hashes@.len() - slots@.len(),
    {
        slots.push(None);
    }
    assert(optional_entries(slots@) =~= Seq::new(hashes@.len(), |j: int| None::<EntryView>));
    let ghost goal = entries_of(all, hashes@, infos@);
    i = 0;
    while i < paths.len()
        invariant
            i <= paths@.len(),
            all == optional_views(paths@),
            all_some(all),
            all_texts(all),
            ascending(hashes@),
            hashes@.len() == paths@.len(),
            infos@.len() == paths@.len(),
            slots@.len() == hashes@.len(),
            goal == entries_of(all, hashes@, infos@),
            placed(all, hashes@, infos@, i as int) == core::result::Result::<
                Seq<Option<EntryView>>,
                ErrorView,
            >::Ok(optional_entries(slots@)),
        decreases paths@.len() - i,
    {
        assert(all[i as int] is Some);
        if let Some(path) = &paths[i] {
            assert(all[i as int] == Some(path@));
            match find_hash(hashes, hash_bytes(path.as_slice())) {
                None => {
                    proof {
                        lemma_placed_error(all, hashes@, infos@, i + 1, paths@.len() as int);
                    }
                    let text: String = "DAT hash missing for ".to_owned().concat(
                        string_of(path.as_slice()).as_str(),
                    );
                    return Err(invalid(text.as_str()));
                },
                Some(at) => {
                    let ghost before = optional_entries(slots@);
                    assert(before[at as int] is Some == slots@[at as int] is Some);
                    if slots[at].is_some() {
                        proof {
                            lemma_placed_error(all, hashes@, infos@, i + 1, paths@.len() as int);
                        }
                        return Err(invalid("duplicate DAT path hash"));
                    }
                    let info: Info = infos[at];
                    let entry: Entry = Entry {
                        path: string_of(path.as_slice()),
                        offset: info.offset,
                        stored_size: info.stored_size,
                        size: info.size,
                        compression: info.compression,
                    };
                    assert(entry@ == entry_for(path@, info));
                    slots.set(at, Some(entry));
                    assert(optional_entries(slots@) =~= before.update(
                        at as int,
                        Some(entry_for(path@, info)),
                    ));
                },
            }
        }
        i = i + 1;
    }
    let ghost full = optional_entries(slots@);
    let mut k: usize = 0;
    while k < slots.len()
        invariant
            k <= slots@.len(),
            full == optional_entries(slots@),
            goal == entries_of(all, hashes@, infos@),
            goal == (if all_some(full) {
                Ok(unwrapped(full))
            } else {
                bad_archive("DAT hash table does not name every entry"@)
            }),
            all == optional_views(paths@),
            forall|j: int| 0 <= j < k ==> #[trigger] full[j] is Some,
        decreases slots@.len() - k,
    {
        assert(full[k as int] is Some == slots@[k as int] is Some);
        if slots[k].is_none() {
            return Err(invalid("DAT hash table does not name every entry"));
        }
        k = k + 1;
    }
    let ghost slots_view = slots@;
    let mut entries: Vec<Entry> = Vec::with_capacity(slots.len());
    while slots.len() > 0
        invariant
            all_some(full),
            full == optional_entries(slots_view),
            slots@.len() <= slots_view.len(),
            slots@ =~= slots_view.take(slots@.len() as int),
            entries@.len() == slots_view.len() - slots@.len(),
            forall|j: int|
                0 <= j < entries@.len() ==> slots_view[slots_view.len() - 1 - j] == Some(
                    #[trigger] entries@[j],
                ),
        decreases slots@.len(),
    {
        assert(full[slots@.len() - 1] is Some);
        if let Some(Some(entry)) = slots.pop() {
            entries.push(entry);
        }
    }
    let entries: Vec<Entry> = reversed(entries);
    assert(entry_views(entries@) =~= unwrapped(full));
    Ok(entries)
}

/// The entries from the last to the first.
fn reversed(entries: Vec<Entry>) -> (res: Vec<Entry>)
    ensures
        res@ == entries@.reverse(),
{
    let ghost all = entries@;
    let mut left: Vec<Entry> = entries;
    let mut res: Vec<Entry> = Vec::with_capacity(left.len());
    while left.len() > 0
        invariant
            left@.len() <= all.len(),
            left@ =~= all.take(left@.len() as int),
            res@.len() == all.len() - left@.len(),
            forall|j: int| 0 <= j < res@.len() ==> res@[j] == all[all.len() - 1 - j],
        decreases left@.len(),
    {
        if let Some(entry) = left.pop() {
            res.push(entry);
        }
    }
    assert(res@ =~= all.reverse());
    res
}

fn smallest_offset(entries: &Vec<Entry>, index: u64) -> (res: u64)
    ensures
        res == least_offset(entry_views(entries@), index as int, entries@.len() as int),
{
    let ghost all = entry_views(entries@);
    let mut least: u64 = index;
    let mut i: usize = 0;
    while i < entries.len()
        invariant
            i <= entries@.len(),
            all == entry_views(entries@),
            least == least_offset(all, index as int, i as int),
        decreases entries@.len() - i,
    {
        assert(all[i as int] == entries@[i as int]@);
        if entries[i].offset < least {
            least = entries[i].offset;
        }
        i = i + 1;
    }
    least
}

/// What an index holds.
pub struct Parsed {
    pub version: i32,
    pub entries: Vec<Entry>,
    pub prefix_len: usize,
}

impl View for Parsed {
    type V = IndexView;

    open spec fn view(&self) -> IndexView {
        IndexView {
            version: self.version as int,
            entries: entry_views(self.entries@),
            prefix_len: self.prefix_len as int,
        }
    }
}

/// Reads the index that starts at `index`; `tail` are the bytes from there on.
pub fn parse_index(tail: &[u8], index: u64) -> (res: Result<Parsed>)
    requires
        tail@.len() >= 8,
    ensures
        match index_of(tail@, index as int) {
            Ok(view) => res matches Ok(found) && found@ == view,
            Err(e) => fails(res, e),
        },
{
    proof {
        reveal(resolved);
    }
    let (version, infos) = match read_files(tail, index) {
        Err(e) => {
            return Err(e);
        },
        Ok(found) => found,
    };
    proof {
        reveal(file_part);
        lemma_infos_len(tail@, index as int, i32_at(tail@, 4));
        lemma_infos_fit(tail@, index as int, infos@.len() as int);
    }
    let room: usize = tail.len();
    let count: usize = infos.len();
    assert(8 + 16 * count <= room);
    let (nodes, names, at) = match read_tree(tail, 8 + 16 * count, version) {
        Err(e) => {
            return Err(e);
        },
        Ok(found) => found,
    };
    let hashes: Vec<u32> = match read_hashes(tail, at, count) {
        Err(e) => {
            return Err(e);
        },
        Ok(found) => found,
    };
    assert(views(names@).len() == names@.len());
    let paths: Vec<Option<Vec<u8>>> = match find_paths(&nodes, &names, count) {
        Err(e) => {
            return Err(e);
        },
        Ok(found) => found,
    };
    assert(optional_views(paths@).len() == paths@.len());
    let entries: Vec<Entry> = match place_entries(paths, &hashes, &infos) {
        Err(e) => {
            return Err(e);
        },
        Ok(found) => found,
    };
    let prefix_len: u64 = smallest_offset(&entries, index);
    if prefix_len < 8 || prefix_len > MAX_PREFIX {
        return Err(invalid("invalid DAT wrapper length"));
    }
    let res: Parsed = Parsed { version, entries, prefix_len: prefix_len as usize };
    Ok(res)
}

/// Records that were read lie within the index.
proof fn lemma_infos_fit(tail: Seq<u8>, index: int, n: int)
    requires
        infos_upto(tail, index, n) is Ok,
        tail.len() >= 8,
        n >= 0,
    ensures
        8 + 16 * n <= tail.len(),
    decreases n,
{
}

/// Payloads lie in front of the index.
pub open spec fn in_front(info: Info, index: int) -> bool {
    &&& info.offset + info.stored_size <= index
    &&& info.stored_size <= i32::MAX
    &&& info.size <= i32::MAX
    &&& info.offset % 256 == 0
}

proof fn lemma_infos_in_front(tail: Seq<u8>, index: int, n: int)
    ensures
        infos_upto(tail, index, n) matches Ok(infos) ==> forall|i: int|
            0 <= i < infos.len() ==> in_front(#[trigger] infos[i], index),
    decreases n,
{
    if n > 0 {
        lemma_infos_in_front(tail, index, n - 1);
    }
}

pub proof fn lemma_placed(
    paths: Seq<Option<Seq<u8>>>,
    hashes: Seq<u32>,
    infos: Seq<Info>,
    n: int,
)
    ensures
        placed(paths, hashes, infos, n) matches Ok(slots) ==> slots.len() == hashes.len() && (
        forall|i: int|
            0 <= i < slots.len() ==> (#[trigger] slots[i] matches Some(e) ==> path_hash(e.path)
                == hashes[i] && e == entry_for(e.path, infos[i]))),
    decreases n,
{
    if n > 0 {
        lemma_placed(paths, hashes, infos, n - 1);
        if placed(paths, hashes, infos, n) is Ok {
            let hash = path_hash(paths[n - 1]->0);
            assert(hashes.contains(hash));
            let at = position(hashes, hash);
            assert(0 <= at < hashes.len() && hashes[at] == hash);
        }
    }
}

proof fn lemma_least_offset(entries: Seq<EntryView>, index: int, n: int)
    requires
        0 <= n <= entries.len(),
    ensures
        least_offset(entries, index, n) <= index,
        forall|i: int| 0 <= i < n ==> least_offset(entries, index, n)
            <= #[trigger] entries[i].offset,
    decreases n,
{
    if n > 0 {
        lemma_least_offset(entries, index, n - 1);
    }
}

/// What holds of every index that is read: the entries stand in ascending order of their path
/// hashes, so no two paths differ only in case; every payload starts at a multiple of the
/// alignment, behind the wrapper, and ends in front of the index.
pub proof fn lemma_index_sound(tail: Seq<u8>, index: int)
    requires
        index_of(tail, index) is Ok,
    ensures
        index_sound(index_of(tail, index)->Ok_0, index),
{
    reveal(file_part);
    reveal(tree_part);
    reveal(hash_part);
    reveal(resolved);
    let count = i32_at(tail, 4);
    lemma_infos_in_front(tail, index, count);
    lemma_infos_len(tail, index, count);
    let infos = infos_upto(tail, index, count)->Ok_0;
    let (nodes, names, at) = tree_part(tail, 8 + 16 * count, i32_at(tail, 0))->Ok_0;
    let hashes = hash_part(tail, at, infos.len())->Ok_0;
    let paths = file_paths(nodes, names, infos.len())->Ok_0;
    let entries = entries_of(paths, hashes, infos)->Ok_0;
    lemma_placed(paths, hashes, infos, paths.len() as int);
    let slots = placed(paths, hashes, infos, paths.len() as int)->Ok_0;
    assert forall|i: int| 0 <= i < entries.len() implies path_hash((#[trigger] entries[i]).path)
        == hashes[i] && entries[i] == entry_for(entries[i].path, infos[i]) by {
        assert(slots[i] is Some);
    }
    assert(hashes.len() == infos.len());
    assert forall|i: int| 0 <= i < entries.len() implies entry_in_front(
        #[trigger] entries[i],
        index,
    ) by {
        assert(in_front(infos[i], index));
    }
    lemma_least_offset(entries, index, entries.len() as int);
}

/// The payload of an entry lies in front of the index.
pub open spec fn entry_in_front(entry: EntryView, index: int) -> bool {
    &&& 0 <= entry.offset
    &&& entry.offset % 256 == 0
    &&& 0 <= entry.stored_size <= i32::MAX
    &&& 0 <= entry.size <= i32::MAX
    &&& entry.offset + entry.stored_size <= index
}

/// The entries stand in ascending order of their path hashes.
pub open spec fn by_hash(entries: Seq<EntryView>) -> bool {
    forall|i: int, j: int|
        #![trigger entries[i], entries[j]]
        0 <= i < j < entries.len() ==> path_hash(entries[i].path) < path_hash(entries[j].path)
}

pub open spec fn index_sound(view: IndexView, index: int) -> bool {
    &&& view.version == -3 || view.version == -5
    &&& 8 <= view.prefix_len <= MAX_PREFIX
    &&& view.prefix_len <= index
    &&& view.entries.len() <= i32::MAX
    &&& by_hash(view.entries)
    &&& forall|i: int|
        0 <= i < view.entries.len() ==> entry_in_front(#[trigger] view.entries[i], index)
            && view.prefix_len <= view.entries[i].offset
}

} // verus!
