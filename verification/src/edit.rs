//! Changing the files of an archive.

use crate::archive::{
    entry_number, entry_result, find_entry, in_image, Archive, ArchiveView,
};
use crate::entry::{Compression, Entry, EntryView};
use crate::error::{fails, input, ErrorView, Result};
use crate::index::entry_views;
use crate::pack::{
    check_unique, collect_files, collected, file_views, lemma_collected, plain_item, repeated,
    FileView, SourceFile,
};
use crate::pending::{pending_views, Pending, PendingView, Source};
use crate::text::{eq_bytes, eq_ignore_case, normalize, normalized, same_name, views};
use crate::writer::{all_at_hand, at_hand, written};
use vstd::prelude::*;
use vstd::utf8::encode_utf8;

verus! {

/// The bytes of strings.
pub open spec fn string_bytes(v: Seq<String>) -> Seq<Seq<u8>> {
    Seq::new(v.len(), |i: int| encode_utf8(v[i]@))
}

/// The contents of files.
pub open spec fn datas_of(files: Seq<FileView>) -> Seq<Seq<u8>> {
    Seq::new(files.len(), |i: int| files[i].data)
}

/// The first `n` paths to be removed.
pub open spec fn removed_paths(removals: Seq<Seq<u8>>, n: int) -> core::result::Result<
    Seq<Seq<u8>>,
    ErrorView,
>
    decreases n,
{
    if n <= 0 {
        Ok(Seq::empty())
    } else {
        match removed_paths(removals, n - 1) {
            Err(e) => Err(e),
            Ok(found) => match normalized(removals[n - 1]) {
                Err(e) => Err(e),
                Ok(path) => Ok(found.push(path)),
            },
        }
    }
}

/// One of the names is this one, in any case.
pub open spec fn has_name(names: Seq<Seq<u8>>, name: Seq<u8>) -> bool {
    exists|i: int| 0 <= i < names.len() && same_name(#[trigger] names[i], name)
}

/// An entry with its payload as it stands in the archive.
pub open spec fn unchanged(entry: EntryView) -> PendingView {
    PendingView {
        path: entry.path,
        source: Source::Stored {
            offset: entry.offset as u64,
            size: entry.stored_size as u32,
        },
        size: entry.size,
        stored_size: entry.stored_size,
        compression: entry.compression,
    }
}

/// Those of the first `n` entries that are not removed.
pub open spec fn kept(
    entries: Seq<EntryView>,
    removals: Seq<Seq<u8>>,
    n: int,
) -> Seq<PendingView>
    decreases n,
{
    if n <= 0 {
        Seq::empty()
    } else {
        let before = kept(entries, removals, n - 1);
        if has_name(removals, entries[n - 1].path) {
            before
        } else {
            before.push(unchanged(entries[n - 1]))
        }
    }
}

/// The number of the first file from the `i`th on with this path, in any case.
pub open spec fn item_from(items: Seq<PendingView>, path: Seq<u8>, i: int) -> Option<int>
    decreases items.len() - i,
{
    if i >= items.len() {
        None
    } else if same_name(items[i].path, path) {
        Some(i)
    } else {
        item_from(items, path, i + 1)
    }
}

/// The files with one put in the place of that with the same path, or added.
pub open spec fn with_item(items: Seq<PendingView>, item: PendingView) -> Seq<PendingView> {
    match item_from(items, item.path, 0) {
        Some(i) => items.update(i, item),
        None => items.push(item),
    }
}

/// The path under which a file is stored: that of the entry it replaces, if there is one.
pub open spec fn stored_path(entries: Seq<EntryView>, path: Seq<u8>) -> Seq<u8> {
    match entry_number(entries, path) {
        Some(i) => entries[i].path,
        None => path,
    }
}

/// The files with one more put under a path, the one with this number.
pub open spec fn with_file(
    entries: Seq<EntryView>,
    items: Seq<PendingView>,
    path: Seq<u8>,
    size: int,
    number: int,
) -> core::result::Result<Seq<PendingView>, ErrorView> {
    match normalized(path) {
        Err(e) => Err(e),
        Ok(found) => if size > i32::MAX {
            Err(ErrorView::InvalidInput("replacement file exceeds DAT entry size limit"@))
        } else {
            Ok(with_item(items, plain_item(stored_path(entries, found), size, number)))
        },
    }
}

/// The files with the first `n` replacements put.
pub open spec fn with_files(
    entries: Seq<EntryView>,
    items: Seq<PendingView>,
    files: Seq<FileView>,
    n: int,
) -> core::result::Result<Seq<PendingView>, ErrorView>
    decreases n,
{
    if n <= 0 {
        Ok(items)
    } else {
        match with_files(entries, items, files, n - 1) {
            Err(e) => Err(e),
            Ok(found) => with_file(
                entries,
                found,
                files[n - 1].path,
                files[n - 1].data.len() as int,
                n - 1,
            ),
        }
    }
}

/// The files of an archive after removals and replacements.
pub open spec fn edited(
    entries: Seq<EntryView>,
    files: Seq<FileView>,
    removals: Seq<Seq<u8>>,
) -> core::result::Result<Seq<PendingView>, ErrorView> {
    match removed_paths(removals, removals.len() as int) {
        Err(e) => Err(e),
        Ok(paths) => with_files(
            entries,
            kept(entries, paths, entries.len() as int),
            files,
            files.len() as int,
        ),
    }
}

/// The archive after removals and replacements.
pub open spec fn rewritten(
    archive: ArchiveView,
    files: Seq<FileView>,
    removals: Seq<Seq<u8>>,
) -> core::result::Result<Seq<u8>, ErrorView> {
    match edited(archive.entries, files, removals) {
        Err(e) => Err(e),
        Ok(items) => written(
            archive.version,
            archive.prefix,
            items,
            archive.image,
            datas_of(files),
        ),
    }
}

/// How a file is stored when an archive is rebuilt: with the payload of the entry that has its
/// path and its contents, else as it is.
pub open spec fn rebuilt_item(
    archive: ArchiveView,
    item: PendingView,
    data: Seq<u8>,
) -> core::result::Result<PendingView, ErrorView> {
    match entry_number(archive.entries, item.path) {
        None => Ok(item),
        Some(i) => {
            let entry = archive.entries[i];
            if entry.size != data.len() {
                Ok(PendingView { path: entry.path, ..item })
            } else {
                match entry_result(archive.image, entry) {
                    Err(e) => Err(e),
                    Ok(bytes) => if bytes == data {
                        Ok(unchanged(entry))
                    } else {
                        Ok(PendingView { path: entry.path, ..item })
                    },
                }
            }
        },
    }
}

/// How the first `n` files are stored when an archive is rebuilt.
pub open spec fn rebuilt_items(
    archive: ArchiveView,
    items: Seq<PendingView>,
    files: Seq<FileView>,
    n: int,
) -> core::result::Result<Seq<PendingView>, ErrorView>
    decreases n,
{
    if n <= 0 {
        Ok(Seq::empty())
    } else {
        match rebuilt_items(archive, items, files, n - 1) {
            Err(e) => Err(e),
            Ok(found) => match rebuilt_item(archive, items[n - 1], files[n - 1].data) {
                Err(e) => Err(e),
                Ok(item) => Ok(found.push(item)),
            },
        }
    }
}

/// An archive of these files in the wrapper of another, with the payloads of its unchanged files.
pub open spec fn repacked(archive: ArchiveView, files: Seq<FileView>) -> core::result::Result<
    Seq<u8>,
    ErrorView,
> {
    match collected(files, files.len() as int) {
        Err(e) => Err(e),
        Ok(items) => if repeated(items, 0) is Some {
            Err(repeated(items, 0)->0)
        } else {
            match rebuilt_items(archive, items, files, files.len() as int) {
                Err(e) => Err(e),
                Ok(rebuilt) => written(
                    archive.version,
                    archive.prefix,
                    rebuilt,
                    archive.image,
                    datas_of(files),
                ),
            }
        },
    }
}

proof fn lemma_removed_error(removals: Seq<Seq<u8>>, n: int, m: int)
    requires
        removed_paths(removals, n) is Err,
        n <= m,
    ensures
        removed_paths(removals, m) == removed_paths(removals, n),
    decreases m - n,
{
    if n < m {
        lemma_removed_error(removals, n, m - 1);
    }
}

fn normalize_all(removals: &Vec<String>) -> (res: Result<Vec<String>>)
    ensures
        match removed_paths(string_bytes(removals@), removals@.len() as int) {
            Ok(paths) => res matches Ok(found) && string_bytes(found@) == paths,
            Err(e) => fails(res, e),
        },
{
    let ghost all = string_bytes(removals@);
    let mut found: Vec<String> = Vec::with_capacity(removals.len());
    assert(string_bytes(found@) =~= Seq::<Seq<u8>>::empty());
    while found.len() < removals.len()
        invariant
            found@.len() <= removals@.len(),
            all == string_bytes(removals@),
            removed_paths(all, found@.len() as int) == Ok::<Seq<Seq<u8>>, ErrorView>(
                string_bytes(found@),
            ),
        decreases removals@.len() - found@.len(),
    {
        let n: usize = found.len();
        let ghost before = string_bytes(found@);
        match normalize(removals[n].as_str()) {
            Err(e) => {
                proof {
                    lemma_removed_error(all, n + 1, removals@.len() as int);
                }
                return Err(e);
            },
            Ok(path) => {
                found.push(path);
                assert(string_bytes(found@) =~= before.push(encode_utf8(path@)));
            },
        }
    }
    Ok(found)
}

fn is_named(names: &Vec<String>, name: &str) -> (res: bool)
    ensures
        res == has_name(string_bytes(names@), encode_utf8(name@)),
{
    let mut i: usize = 0;
    while i < names.len()
        invariant
            i <= names@.len(),
            forall|k: int|
                0 <= k < i ==> !same_name(
                    #[trigger] string_bytes(names@)[k],
                    encode_utf8(name@),
                ),
        decreases names@.len() - i,
    {
        assert(string_bytes(names@)[i as int] == encode_utf8(names@[i as int]@));
        if eq_ignore_case(names[i].as_str().as_bytes(), name.as_bytes()) {
            return true;
        }
        i = i + 1;
    }
    false
}

/// An entry with its payload as it stands in the archive.
pub fn keep_entry(entry: &Entry) -> (res: Pending)
    ensures
        res@ == unchanged(entry@),
{
    Pending {
        path: entry.path.clone(),
        source: Source::Stored { offset: entry.offset, size: entry.stored_size },
        size: entry.size,
        stored_size: entry.stored_size,
        compression: entry.compression,
    }
}

/// The entries that are not removed.
pub fn keep_entries(entries: &Vec<Entry>, removals: &Vec<String>) -> (res: Result<Vec<Pending>>)
    ensures
        match removed_paths(string_bytes(removals@), removals@.len() as int) {
            Ok(paths) => res matches Ok(found) && pending_views(found@) == kept(
                entry_views(entries@),
                paths,
                entries@.len() as int,
            ),
            Err(e) => fails(res, e),
        },
{
    let paths: Vec<String> = match normalize_all(removals) {
        Err(e) => {
            return Err(e);
        },
        Ok(paths) => paths,
    };
    let ghost all = entry_views(entries@);
    let ghost names = string_bytes(paths@);
    let mut found: Vec<Pending> = Vec::new();
    assert(pending_views(found@) =~= Seq::<PendingView>::empty());
    let mut i: usize = 0;
    while i < entries.len()
        invariant
            i <= entries@.len(),
            all == entry_views(entries@),
            names == string_bytes(paths@),
            pending_views(found@) == kept(all, names, i as int),
        decreases entries@.len() - i,
    {
        let ghost before = pending_views(found@);
        assert(all[i as int] == entries@[i as int]@);
        if !is_named(&paths, entries[i].path.as_str()) {
            found.push(keep_entry(&entries[i]));
            assert(pending_views(found@) =~= before.push(unchanged(all[i as int])));
        }
        i = i + 1;
    }
    Ok(found)
}

/// Puts a file in the place of that with the same path, or adds it.
fn put_item(items: &mut Vec<Pending>, item: Pending)
    ensures
        pending_views(final(items)@) == with_item(pending_views(old(items)@), item@),
{
    let ghost all = pending_views(items@);
    let ghost path = item@.path;
    let mut i: usize = 0;
    while i < items.len()
        invariant
            items@ == old(items)@,
            i <= items@.len(),
            all == pending_views(items@),
            path == encode_utf8(item.path@),
            item_from(all, path, 0) == item_from(all, path, i as int),
        decreases items@.len() - i,
    {
        assert(all[i as int] == items@[i as int]@);
        if eq_ignore_case(items[i].path.as_str().as_bytes(), item.path.as_str().as_bytes()) {
            let ghost view = item@;
            items.set(i, item);
            assert(pending_views(items@) =~= all.update(i as int, view));
            return;
        }
        i = i + 1;
    }
    let ghost view = item@;
    items.push(item);
    assert(pending_views(items@) =~= all.push(view));
}

/// Puts a file of the given size under a path, the one with this number.
pub fn put_file(
    entries: &Vec<Entry>,
    items: &mut Vec<Pending>,
    path: &str,
    size: u64,
    number: usize,
) -> (res: Result<()>)
    ensures
        match with_file(
            entry_views(entries@),
            pending_views(old(items)@),
            encode_utf8(path@),
            size as int,
            number as int,
        ) {
            Ok(found) => res is Ok && pending_views(final(items)@) == found,
            Err(e) => fails(res, e) && final(items)@ == old(items)@,
        },
{
    let requested: String = match normalize(path) {
        Err(e) => {
            return Err(e);
        },
        Ok(found) => found,
    };
    if size > i32::MAX as u64 {
        return Err(input("replacement file exceeds DAT entry size limit"));
    }
    let stored: String = match find_entry(entries, requested.as_str()) {
        Some(i) => {
            assert(entry_views(entries@)[i as int] == entries@[i as int]@);
            entries[i].path.clone()
        },
        None => requested,
    };
    put_item(
        items,
        Pending {
            path: stored,
            source: Source::Disk(number),
            size: size as u32,
            stored_size: size as u32,
            compression: Compression::Plain,
        },
    );
    Ok(())
}

pub proof fn lemma_kept_at_hand(
    archive: ArchiveView,
    removals: Seq<Seq<u8>>,
    datas: Seq<Seq<u8>>,
    n: int,
)
    requires
        archive.sound(),
        0 <= n <= archive.entries.len(),
    ensures
        all_at_hand(kept(archive.entries, removals, n), archive.image, datas),
    decreases n,
{
    if n > 0 {
        lemma_kept_at_hand(archive, removals, datas, n - 1);
        assert(in_image(archive.entries[n - 1], archive.image));
    }
}

proof fn lemma_with_files_error(
    entries: Seq<EntryView>,
    items: Seq<PendingView>,
    files: Seq<FileView>,
    n: int,
    m: int,
)
    requires
        with_files(entries, items, files, n) is Err,
        n <= m,
    ensures
        with_files(entries, items, files, m) == with_files(entries, items, files, n),
    decreases m - n,
{
    if n < m {
        lemma_with_files_error(entries, items, files, n, m - 1);
    }
}

pub proof fn lemma_item_from(items: Seq<PendingView>, path: Seq<u8>, i: int)
    requires
        0 <= i,
    ensures
        match item_from(items, path, i) {
            Some(k) => i <= k < items.len() && same_name(items[k].path, path),
            None => forall|k: int|
                i <= k < items.len() ==> !same_name(#[trigger] items[k].path, path),
        },
    decreases items.len() - i,
{
    if i < items.len() && !same_name(items[i].path, path) {
        lemma_item_from(items, path, i + 1);
    }
}

/// The contents of the files.
fn datas(files: &Vec<SourceFile>) -> (res: Vec<Vec<u8>>)
    ensures
        views(res@) == datas_of(file_views(files@)),
{
    let mut res: Vec<Vec<u8>> = Vec::with_capacity(files.len());
    while res.len() < files.len()
        invariant
            res@.len() <= files@.len(),
            forall|i: int| 0 <= i < res@.len() ==> (#[trigger] res@[i])@ == files@[i].data@,
        decreases files@.len() - res@.len(),
    {
        let n: usize = res.len();
        res.push(vstd::slice::slice_to_vec(files[n].data.as_slice()));
    }
    assert(views(res@) =~= datas_of(file_views(files@)));
    res
}

proof fn lemma_rebuilt_error(
    archive: ArchiveView,
    items: Seq<PendingView>,
    files: Seq<FileView>,
    n: int,
    m: int,
)
    requires
        rebuilt_items(archive, items, files, n) is Err,
        n <= m,
    ensures
        rebuilt_items(archive, items, files, m) == rebuilt_items(archive, items, files, n),
    decreases m - n,
{
    if n < m {
        lemma_rebuilt_error(archive, items, files, n, m - 1);
    }
}

/// How a file that has an entry's path is stored when the archive is rebuilt: with the entry's
/// payload where their contents are the same, else as it is, under the entry's path.
pub fn rebuild_with(entry: &Entry, item: &Pending, same: bool) -> (res: Pending)
    ensures
        res@ == (if same {
            unchanged(entry@)
        } else {
            PendingView { path: entry@.path, ..item@ }
        }),
{
    if same {
        keep_entry(entry)
    } else {
        Pending {
            path: entry.path.clone(),
            source: item.source,
            size: item.size,
            stored_size: item.stored_size,
            compression: item.compression,
        }
    }
}

impl<'a> Archive<'a> {
    /// Makes a new archive with files removed, replaced and added. Paths are case-insensitive;
    /// replacement paths may be new. An unchanged entry keeps its original compressed bytes and
    /// compression mode.
    pub fn rewrite(&self, replacements: &Vec<SourceFile>, removals: &Vec<String>) -> (res: Result<
        Vec<u8>,
    >)
        ensures
            match rewritten(self@, file_views(replacements@), string_bytes(removals@)) {
                Ok(image) => res matches Ok(found) && found@ == image,
                Err(e) => fails(res, e),
            },
    {
        let entries: &Vec<Entry> = self.entry_list();
        let ghost files = file_views(replacements@);
        let count: usize = replacements.len();
        assert(files.len() == count);
        let mut items: Vec<Pending> = match keep_entries(entries, removals) {
            Err(e) => {
                return Err(e);
            },
            Ok(items) => items,
        };
        proof {
            let paths = removed_paths(string_bytes(removals@), removals@.len() as int)->Ok_0;
            assert(self@.entries.len() == entries@.len());
            lemma_kept_at_hand(self@, paths, datas_of(files), entries@.len() as int);
            lemma_with_files_at_hand(self@, pending_views(items@), files, files.len() as int);
        }
        match put_files(entries, &mut items, replacements) {
            Err(e) => Err(e),
            Ok(_) => self.write_with(&items, &datas(replacements)),
        }
    }

    /// The files that a rebuilt archive is made of, as they are and as they are stored.
    pub(crate) fn compare_files(&self, files: &Vec<SourceFile>) -> (res: Result<
        (Vec<Pending>, Vec<Pending>),
    >)
        ensures
            ({
                let all = file_views(files@);
                match collected(all, all.len() as int) {
                    Err(e) => fails(res, e),
                    Ok(plain) => match repeated(plain, 0) {
                        Some(e) => fails(res, e),
                        None => match rebuilt_items(self@, plain, all, all.len() as int) {
                            Err(e) => fails(res, e),
                            Ok(rebuilt) => {
                                &&& res matches Ok(found)
                                &&& pending_views(found.0@) == plain
                                &&& pending_views(found.1@) == rebuilt
                                &&& found.0@.len() == files@.len()
                                &&& found.1@.len() == files@.len()
                                &&& all_at_hand(rebuilt, self@.image, datas_of(all))
                            },
                        },
                    },
                }
            }),
    {
        let entries: &Vec<Entry> = self.entry_list();
        let ghost all = file_views(files@);
        let items: Vec<Pending> = match collect_files(files) {
            Err(e) => {
                return Err(e);
            },
            Ok(items) => items,
        };
        match check_unique(&items) {
            Err(e) => {
                return Err(e);
            },
            Ok(_) => {},
        }
        proof {
            assert(all.len() == files@.len());
            lemma_collected(all, files@.len() as int);
            assert(pending_views(items@).len() == items@.len());
        }
        match self.rebuild_items(&items, files) {
            Err(e) => Err(e),
            Ok(rebuilt) => {
                let count: usize = files.len();
                proof {
                    lemma_rebuilt_at_hand(self@, pending_views(items@), all, count as int);
                }
                Ok((items, rebuilt))
            },
        }
    }

    /// Writes the files of a rebuilt archive.
    pub(crate) fn write_rebuilt(&self, rebuilt: &Vec<Pending>, files: &Vec<SourceFile>) -> (res:
        Result<Vec<u8>>)
        requires
            all_at_hand(pending_views(rebuilt@), self@.image, datas_of(file_views(files@))),
        ensures
            match written(
                self@.version,
                self@.prefix,
                pending_views(rebuilt@),
                self@.image,
                datas_of(file_views(files@)),
            ) {
                Ok(image) => res matches Ok(found) && found@ == image,
                Err(e) => fails(res, e),
            },
    {
        self.write_with(rebuilt, &datas(files))
    }

    /// Makes a new archive of these files in the wrapper of this one. The payloads of files that
    /// are unchanged are kept byte for byte; edited and added files are stored uncompressed.
    pub fn repack(&self, files: &Vec<SourceFile>) -> (res: Result<Vec<u8>>)
        ensures
            match repacked(self@, file_views(files@)) {
                Ok(image) => res matches Ok(found) && found@ == image,
                Err(e) => fails(res, e),
            },
    {
        match self.compare_files(files) {
            Err(e) => Err(e),
            Ok((_, rebuilt)) => self.write_rebuilt(&rebuilt, files),
        }
    }

    /// How the files are stored when the archive is rebuilt.
    fn rebuild_items(&self, items: &Vec<Pending>, files: &Vec<SourceFile>) -> (res: Result<
        Vec<Pending>,
    >)
        requires
            items@.len() == files@.len(),
        ensures
            match rebuilt_items(
                self@,
                pending_views(items@),
                file_views(files@),
                files@.len() as int,
            ) {
                Ok(found) => res matches Ok(rebuilt) && pending_views(rebuilt@) == found
                    && rebuilt@.len() == files@.len(),
                Err(e) => fails(res, e),
            },
    {
        let ghost plain = pending_views(items@);
        let ghost all = file_views(files@);
        let mut rebuilt: Vec<Pending> = Vec::with_capacity(files.len());
        assert(pending_views(rebuilt@) =~= Seq::<PendingView>::empty());
        while rebuilt.len() < files.len()
            invariant
                rebuilt@.len() <= files@.len(),
                items@.len() == files@.len(),
                plain == pending_views(items@),
                all == file_views(files@),
                rebuilt_items(self@, plain, all, rebuilt@.len() as int) == Ok::<
                    Seq<PendingView>,
                    ErrorView,
                >(pending_views(rebuilt@)),
            decreases files@.len() - rebuilt@.len(),
        {
            let n: usize = rebuilt.len();
            let ghost before = pending_views(rebuilt@);
            assert(all[n as int] == files@[n as int]@);
            assert(plain[n as int] == items@[n as int]@);
            match self.rebuild_item(&items[n], files[n].data.as_slice()) {
                Err(e) => {
                    proof {
                        lemma_rebuilt_error(self@, plain, all, n + 1, files@.len() as int);
                    }
                    return Err(e);
                },
                Ok(item) => {
                    rebuilt.push(item);
                    assert(pending_views(rebuilt@) =~= before.push(item@));
                },
            }
        }
        Ok(rebuilt)
    }

    /// How a file is stored when the archive is rebuilt.
    fn rebuild_item(&self, item: &Pending, data: &[u8]) -> (res: Result<Pending>)
        ensures
            match rebuilt_item(self@, item@, data@) {
                Ok(found) => res matches Ok(rebuilt) && rebuilt@ == found,
                Err(e) => fails(res, e),
            },
    {
        let entries: &Vec<Entry> = self.entry_list();
        match find_entry(entries, item.path.as_str()) {
            None => Ok(crate::order::copy_of(item)),
            Some(i) => {
                assert(self@.entries[i as int] == entries@[i as int]@);
                let same: bool = if entries[i].size as usize == data.len() {
                    match self.decoded(i) {
                        Err(e) => {
                            return Err(e);
                        },
                        Ok(bytes) => eq_bytes(bytes.as_slice(), data),
                    }
                } else {
                    false
                };
                Ok(rebuild_with(&entries[i], item, same))
            },
        }
    }
}

/// Rebuilding takes its payloads from the archive and the files.
pub proof fn lemma_rebuilt_at_hand(
    archive: ArchiveView,
    items: Seq<PendingView>,
    files: Seq<FileView>,
    n: int,
)
    requires
        archive.sound(),
        0 <= n <= files.len() <= usize::MAX,
        items.len() == files.len(),
        forall|i: int|
            0 <= i < items.len() ==> (#[trigger] items[i]) == plain_item(
                items[i].path,
                files[i].data.len() as int,
                i,
            ),
    ensures
        rebuilt_items(archive, items, files, n) matches Ok(found) ==> all_at_hand(
            found,
            archive.image,
            datas_of(files),
        ),
    decreases n,
{
    if n > 0 {
        lemma_rebuilt_at_hand(archive, items, files, n - 1);
        let item = items[n - 1];
        assert(item == plain_item(item.path, files[n - 1].data.len() as int, n - 1));
        assert(at_hand(item, archive.image, datas_of(files)));
        if let Some(i) = entry_number(archive.entries, item.path) {
            let key = normalized(item.path)->Ok_0;
            crate::archive::lemma_entry_from(archive.entries, key, 0);
            assert(in_image(archive.entries[i], archive.image));
        }
        if let Ok(found) = rebuilt_items(archive, items, files, n) {
            let before = rebuilt_items(archive, items, files, n - 1)->Ok_0;
            assert forall|k: int| 0 <= k < found.len() implies #[trigger] at_hand(
                found[k],
                archive.image,
                datas_of(files),
            ) by {
                if k < before.len() {
                    assert(at_hand(before[k], archive.image, datas_of(files)));
                }
            }
        }
    }
}

/// Replacing takes its payloads from the archive and the files.
pub proof fn lemma_with_files_at_hand(
    archive: ArchiveView,
    items: Seq<PendingView>,
    files: Seq<FileView>,
    n: int,
)
    requires
        0 <= n <= files.len() <= usize::MAX,
        all_at_hand(items, archive.image, datas_of(files)),
    ensures
        with_files(archive.entries, items, files, n) matches Ok(found) ==> all_at_hand(
            found,
            archive.image,
            datas_of(files),
        ),
    decreases n,
{
    if n > 0 {
        lemma_with_files_at_hand(archive, items, files, n - 1);
        if let Ok(found) = with_files(archive.entries, items, files, n) {
            let before = with_files(archive.entries, items, files, n - 1)->Ok_0;
            let path = stored_path(archive.entries, normalized(files[n - 1].path)->Ok_0);
            let item = plain_item(path, files[n - 1].data.len() as int, n - 1);
            lemma_item_from(before, path, 0);
            assert(at_hand(item, archive.image, datas_of(files)));
            assert forall|k: int| 0 <= k < found.len() implies #[trigger] at_hand(
                found[k],
                archive.image,
                datas_of(files),
            ) by {
                if k < before.len() {
                    assert(at_hand(before[k], archive.image, datas_of(files)));
                }
            }
        }
    }
}

/// Puts files in the places of those with the same paths, or adds them.
fn put_files(entries: &Vec<Entry>, items: &mut Vec<Pending>, files: &Vec<SourceFile>) -> (res:
    Result<()>)
    ensures
        match with_files(
            entry_views(entries@),
            pending_views(old(items)@),
            file_views(files@),
            files@.len() as int,
        ) {
            Ok(found) => res is Ok && pending_views(final(items)@) == found,
            Err(e) => fails(res, e),
        },
{
    let ghost all = file_views(files@);
    let ghost start = pending_views(items@);
    let ghost views = entry_views(entries@);
    let mut i: usize = 0;
    while i < files.len()
        invariant
            i <= files@.len(),
            all == file_views(files@),
            start == pending_views(old(items)@),
            views == entry_views(entries@),
            with_files(views, start, all, i as int) == Ok::<Seq<PendingView>, ErrorView>(
                pending_views(items@),
            ),
        decreases files@.len() - i,
    {
        assert(all[i as int] == files@[i as int]@);
        match put_file(entries, items, files[i].path.as_str(), files[i].data.len() as u64, i) {
            Err(e) => {
                proof {
                    lemma_with_files_error(views, start, all, i + 1, files@.len() as int);
                }
                return Err(e);
            },
            Ok(_) => {},
        }
        i = i + 1;
    }
    Ok(())
}

} // verus!
