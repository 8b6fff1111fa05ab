//! Unpacking all files of an archive.

use crate::archive::{entry_bytes, entry_marks, in_image, stored_bytes, Archive, ArchiveView};
use crate::entry::Entry;
use crate::error::{fails, ErrorView, Result};
use crate::index::entry_views;
use crate::pack::{file_views, FileView, SourceFile};
use crate::payload::{lemma_marks_bound, lemma_payload_bound};
use crate::text::{slashed, to_slashes};
use vstd::prelude::*;

verus! {

/// How far unpacking has come: the number of the current entry, how many files are complete,
/// and how many bytes have been written.
#[derive(Clone, Copy, Debug, PartialEq, Eq, Structural)]
pub struct Progress {
    pub entry: usize,
    pub files: usize,
    pub bytes: u64,
}

/// The reports on the writes of an entry, `before` bytes having been written of the entries in
/// front of it.
pub open spec fn write_reports(entry: int, before: int, marks: Seq<u64>) -> Seq<Progress> {
    Seq::new(
        marks.len(),
        |k: int|
            Progress {
                entry: entry as usize,
                files: entry as usize,
                bytes: (before + marks[k]) as u64,
            },
    )
}

/// How many bytes the first `n` entries decode to.
pub open spec fn decoded_len(archive: ArchiveView, n: int) -> int
    decreases n,
{
    if n <= 0 {
        0
    } else {
        decoded_len(archive, n - 1) + entry_bytes(archive.image, archive.entries[n - 1]).0.len()
    }
}

/// The error of the first of the first `n` entries that does not decode.
pub open spec fn unpack_error(archive: ArchiveView, n: int) -> Option<ErrorView>
    decreases n,
{
    if n <= 0 {
        None
    } else {
        match unpack_error(archive, n - 1) {
            Some(e) => Some(e),
            None => entry_bytes(archive.image, archive.entries[n - 1]).1,
        }
    }
}

/// The reports on an entry: one in front, one for every write, and one behind unless it fails.
pub open spec fn entry_reports(archive: ArchiveView, i: int) -> Seq<Progress> {
    let before = decoded_len(archive, i);
    let (data, error) = entry_bytes(archive.image, archive.entries[i]);
    let start = seq![Progress { entry: i as usize, files: i as usize, bytes: before as u64 }];
    let writes = write_reports(i, before, entry_marks(archive.image, archive.entries[i]));
    if error is Some {
        start + writes
    } else {
        start + writes + seq![
            Progress {
                entry: i as usize,
                files: (i + 1) as usize,
                bytes: (before + data.len()) as u64,
            },
        ]
    }
}

/// The reports on the first `n` entries, up to the first that fails.
pub open spec fn reports(archive: ArchiveView, n: int) -> Seq<Progress>
    decreases n,
{
    if n <= 0 {
        Seq::empty()
    } else if unpack_error(archive, n - 1) is Some {
        reports(archive, n - 1)
    } else {
        reports(archive, n - 1) + entry_reports(archive, n - 1)
    }
}

/// The file that an entry is unpacked to.
pub open spec fn unpacked_file(archive: ArchiveView, i: int) -> FileView {
    FileView {
        path: slashed(archive.entries[i].path),
        data: entry_bytes(archive.image, archive.entries[i]).0,
    }
}

/// The files that the first `n` entries are unpacked to.
pub open spec fn unpacked(archive: ArchiveView, n: int) -> Seq<FileView> {
    Seq::new(n as nat, |i: int| unpacked_file(archive, i))
}

proof fn lemma_unpack_error(archive: ArchiveView, n: int, m: int)
    requires
        unpack_error(archive, n) is Some,
        n <= m,
    ensures
        unpack_error(archive, m) == unpack_error(archive, n),
        reports(archive, m) == reports(archive, n),
    decreases m - n,
{
    if n < m {
        lemma_unpack_error(archive, n, m - 1);
    }
}

/// Entries decode to no more than they announce.
proof fn lemma_entry_len(archive: ArchiveView, i: int)
    requires
        archive.sound(),
        0 <= i < archive.entries.len(),
    ensures
        entry_bytes(archive.image, archive.entries[i]).0.len() <= i32::MAX,
        forall|k: int|
            0 <= k < entry_marks(archive.image, archive.entries[i]).len() ==> #[trigger] entry_marks(
                archive.image,
                archive.entries[i],
            )[k] <= i32::MAX,
{
    let entry = archive.entries[i];
    assert(in_image(entry, archive.image));
    let stored = stored_bytes(archive.image, entry);
    lemma_payload_bound(entry.compression, stored, entry.size);
    lemma_marks_bound(entry.compression, stored, entry.size);
}

/// Appends the reports on the writes of an entry.
fn report_writes(events: &mut Vec<Progress>, entry: usize, before: u64, marks: &Vec<u64>)
    requires
        forall|k: int|
            0 <= k < marks@.len() ==> before + #[trigger] marks@[k] <= u64::MAX,
    ensures
        final(events)@ == old(events)@ + write_reports(entry as int, before as int, marks@),
{
    let ghost start = events@;
    let ghost all = write_reports(entry as int, before as int, marks@);
    let mut k: usize = 0;
    assert(events@ =~= start + all.take(0));
    while k < marks.len()
        invariant
            k <= marks@.len(),
            all == write_reports(entry as int, before as int, marks@),
            forall|k: int|
                0 <= k < marks@.len() ==> before + #[trigger] marks@[k] <= u64::MAX,
            events@ == start + all.take(k as int),
        decreases marks@.len() - k,
    {
        events.push(Progress { entry, files: entry, bytes: before + marks[k] });
        assert(events@ =~= start + all.take(k + 1));
        k = k + 1;
    }
    assert(all.take(k as int) =~= all);
}

impl<'a> Archive<'a> {
    /// Decodes all files.
    pub fn unpack(&self) -> (res: Result<Vec<SourceFile>>)
        ensures
            match unpack_error(self@, self@.entries.len() as int) {
                None => res matches Ok(files) && file_views(files@) == unpacked(
                    self@,
                    self@.entries.len() as int,
                ),
                Some(e) => fails(res, e),
            },
    {
        let mut events: Vec<Progress> = Vec::new();
        self.unpack_with_progress(&mut events)
    }

    /// Decodes all files and reports the current entry, the number of complete files and the
    /// cumulative decoded bytes after each write and each file.
    pub fn unpack_with_progress(&self, events: &mut Vec<Progress>) -> (res: Result<Vec<SourceFile>>)
        ensures
            match unpack_error(self@, self@.entries.len() as int) {
                None => res matches Ok(files) && file_views(files@) == unpacked(
                    self@,
                    self@.entries.len() as int,
                ),
                Some(e) => fails(res, e),
            },
            final(events)@ == old(events)@ + reports(self@, self@.entries.len() as int),
    {
        let entries: &Vec<Entry> = self.entry_list();
        let ghost archive = self@;
        let ghost start = events@;
        let ghost n = archive.entries.len() as int;
        assert(n == entries@.len());
        let mut files: Vec<SourceFile> = Vec::with_capacity(entries.len());
        let mut total: u64 = 0;
        assert(start + Seq::<Progress>::empty() =~= start);
        assert(file_views(files@) =~= unpacked(archive, 0));
        while files.len() < entries.len()
            invariant
                files@.len() <= entries@.len(),
                archive == self@,
                archive.sound(),
                n == archive.entries.len(),
                n == entries@.len(),
                entry_views(entries@) == archive.entries,
                start == old(events)@,
                unpack_error(archive, files@.len() as int) is None,
                file_views(files@) == unpacked(archive, files@.len() as int),
                events@ == start + reports(archive, files@.len() as int),
                total == decoded_len(archive, files@.len() as int),
                total <= files@.len() * i32::MAX,
            decreases entries@.len() - files@.len(),
        {
            let i: usize = files.len();
            let ghost held = events@;
            let ghost before = file_views(files@);
            assert(archive.entries[i as int] == entries@[i as int]@);
            events.push(Progress { entry: i, files: i, bytes: total });
            let mut data: Vec<u8> = Vec::new();
            let mut marks: Vec<u64> = Vec::new();
            let outcome: Result<u64> = self.copy_entry_marked(i, &mut data, &mut marks);
            proof {
                let due = entry_bytes(archive.image, archive.entries[i as int]).0;
                assert(Seq::<u8>::empty() + due =~= due);
                assert(data@ == due);
                assert(marks@ =~= entry_marks(archive.image, archive.entries[i as int]));
                lemma_entry_len(archive, i as int);
                assert(i * i32::MAX + i32::MAX <= u64::MAX) by (nonlinear_arith)
                    requires
                        i <= i32::MAX,
                ;
            }
            let len: u64 = data.len() as u64;
            report_writes(events, i, total, &marks);
            match outcome {
                Err(e) => {
                    assert(events@ =~= held + entry_reports(archive, i as int));
                    assert(events@ =~= start + reports(archive, i + 1));
                    proof {
                        lemma_unpack_error(archive, i + 1, n);
                    }
                    return Err(e);
                },
                Ok(_) => {},
            }
            files.push(SourceFile { path: to_slashes(entries[i].path.as_str()), data });
            events.push(Progress { entry: i, files: i + 1, bytes: total + len });
            total = total + len;
            assert(events@ =~= held + entry_reports(archive, i as int));
            assert(events@ =~= start + reports(archive, i + 1));
            assert(file_views(files@) =~= unpacked(archive, i + 1)) by {
                assert forall|k: int| 0 <= k < i implies file_views(files@)[k] == unpacked(
                    archive,
                    i + 1,
                )[k] by {
                    assert(file_views(files@)[k] == before[k]);
                    assert(before[k] == unpacked(archive, i as int)[k]);
                }
            }
        }
        Ok(files)
    }
}

} // verus!
