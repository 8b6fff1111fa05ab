//! Reports on how far packing has come.

use crate::archive::{Archive, ArchiveView};
use crate::edit::{rebuilt_items, repacked};
use crate::entry::Format;
use crate::error::{fails, Result};
use crate::order::{ordered, sort_pending};
use crate::pack::{
    all_decode, collected, file_views, finish, is_encodable, lemma_collected, may_encode, packed,
    prepare, repeated, stored_items, FileView, SourceFile,
};
use crate::pending::{pending_views, Pending, PendingView};
use vstd::prelude::*;
use vstd::utf8::encode_utf8;

verus! {

/// A report is due when this many bytes have passed since the last one.
pub const REPORT_SIZE: u64 = 0x10_0000;

/// What packing is busy with.
#[derive(Clone, Copy, Debug, Eq, Hash, PartialEq, Structural)]
pub enum PackPhase {
    /// Comparing files with those of the archive that is rebuilt.
    Compare,
    /// Encoding files.
    Encode,
    /// Writing the archive.
    Write,
}

/// The name under which a phase is shown.
pub open spec fn phase_label(phase: PackPhase) -> Seq<char> {
    match phase {
        PackPhase::Compare => "compare"@,
        PackPhase::Encode => "compress"@,
        PackPhase::Write => "pack"@,
    }
}

impl PackPhase {
    pub fn label(self) -> (res: &'static str)
        ensures
            res@ == phase_label(self),
    {
        match self {
            PackPhase::Compare => "compare",
            PackPhase::Encode => "compress",
            PackPhase::Write => "pack",
        }
    }
}

/// Counts the bytes since the last report on a file.
pub struct Meter {
    pub since_report: u64,
}

impl Meter {
    pub fn new() -> (res: Self)
        ensures
            res.since_report == 0,
    {
        Meter { since_report: 0 }
    }

    /// Counts bytes, and tells whether a report is due. With it the count starts over.
    pub fn wrote(&mut self, bytes: u64) -> (res: bool)
        requires
            old(self).since_report + bytes <= u64::MAX,
        ensures
            res == (old(self).since_report + bytes >= REPORT_SIZE),
            final(self).since_report == if res {
                0
            } else {
                old(self).since_report + bytes
            },
    {
        self.since_report = self.since_report + bytes;
        if self.since_report >= REPORT_SIZE {
            self.since_report = 0;
            true
        } else {
            false
        }
    }
}

/// A report: the phase, the path of the current file, how many files are complete and how many
/// bytes have passed, and how many there are of both.
pub struct PackEvent {
    pub phase: PackPhase,
    pub path: String,
    pub completed: usize,
    pub bytes: u64,
    pub total_files: usize,
    pub total_bytes: u64,
}

/// A report, with its path as bytes.
pub ghost struct EventView {
    pub phase: PackPhase,
    pub path: Seq<u8>,
    pub completed: int,
    pub bytes: int,
    pub total_files: int,
    pub total_bytes: int,
}

impl View for PackEvent {
    type V = EventView;

    open spec fn view(&self) -> EventView {
        EventView {
            phase: self.phase,
            path: encode_utf8(self.path@),
            completed: self.completed as int,
            bytes: self.bytes as int,
            total_files: self.total_files as int,
            total_bytes: self.total_bytes as int,
        }
    }
}

/// The reports of a list.
pub open spec fn event_views(v: Seq<PackEvent>) -> Seq<EventView> {
    Seq::new(v.len(), |i: int| v[i]@)
}

/// A file as a phase goes over it: its path, its size, and whether it is reported on within.
pub ghost struct Step {
    pub path: Seq<u8>,
    pub size: int,
    pub within: bool,
}

/// The bytes of the first `n` files.
pub open spec fn passed(steps: Seq<Step>, n: int) -> int
    decreases n,
{
    if n <= 0 {
        0
    } else {
        passed(steps, n - 1) + steps[n - 1].size
    }
}

/// A number of bytes as it is counted: modulo 2 to the power 64.
pub open spec fn counted(bytes: int) -> int {
    bytes % 0x1_0000_0000_0000_0000
}

/// The report on the `i`th file.
pub open spec fn event(
    phase: PackPhase,
    steps: Seq<Step>,
    i: int,
    completed: int,
    bytes: int,
) -> EventView {
    EventView {
        phase,
        path: steps[i].path,
        completed,
        bytes: counted(bytes),
        total_files: steps.len() as int,
        total_bytes: counted(passed(steps, steps.len() as int)),
    }
}

/// The reports within a file, one whenever enough bytes have passed.
pub open spec fn reports_within(phase: PackPhase, steps: Seq<Step>, i: int) -> Seq<EventView> {
    if steps[i].within {
        Seq::new(
            (steps[i].size / REPORT_SIZE as int) as nat,
            |k: int| event(phase, steps, i, i, passed(steps, i) + (k + 1) * REPORT_SIZE),
        )
    } else {
        Seq::empty()
    }
}

/// The reports on the first `n` files: one in front of each, those within it, and one behind it.
pub open spec fn phase_events(phase: PackPhase, steps: Seq<Step>, n: int) -> Seq<EventView>
    decreases n,
{
    if n <= 0 {
        Seq::empty()
    } else {
        let i = n - 1;
        phase_events(phase, steps, i) + seq![event(phase, steps, i, i, passed(steps, i))]
            + reports_within(phase, steps, i) + seq![
            event(phase, steps, i, n, passed(steps, n)),
        ]
    }
}

/// Which files are reported on within.
#[derive(Clone, Copy)]
pub enum Within {
    /// All of them.
    All,
    /// Those that may be stored encoded.
    Encodable(Format),
    /// None of them.
    Nothing,
}

/// The files as a phase goes over them, by decoded or by stored size.
pub open spec fn steps_of(items: Seq<PendingView>, stored: bool, within: Within) -> Seq<Step> {
    Seq::new(
        items.len(),
        |i: int|
            Step {
                path: items[i].path,
                size: if stored {
                    items[i].stored_size
                } else {
                    items[i].size
                },
                within: match within {
                    Within::All => true,
                    Within::Encodable(format) => may_encode(items[i].path, items[i].size, format),
                    Within::Nothing => false,
                },
            },
    )
}

/// The reports of a phase.
pub open spec fn all_events(
    phase: PackPhase,
    items: Seq<PendingView>,
    stored: bool,
    within: Within,
) -> Seq<EventView> {
    phase_events(phase, steps_of(items, stored, within), items.len() as int)
}

/// The reports on packing: on encoding, and on writing where it comes to that.
pub open spec fn pack_events(files: Seq<FileView>, format: Format) -> Seq<EventView> {
    match collected(files, files.len() as int) {
        Err(_) => Seq::empty(),
        Ok(items) => if repeated(items, 0) is Some {
            Seq::empty()
        } else {
            let stored = stored_items(items, files, format);
            let sorted = ordered(stored, stored.len() as int);
            all_events(PackPhase::Encode, items, false, Within::Encodable(format)) + if packed(
                files,
                format,
            ) is Ok {
                all_events(PackPhase::Write, sorted, true, Within::All)
            } else {
                Seq::empty()
            }
        },
    }
}

/// The reports on rebuilding: on comparing, and on writing where it comes to that.
pub open spec fn repack_events(archive: ArchiveView, files: Seq<FileView>) -> Seq<EventView> {
    match collected(files, files.len() as int) {
        Err(_) => Seq::empty(),
        Ok(items) => if repeated(items, 0) is Some {
            Seq::empty()
        } else {
            match rebuilt_items(archive, items, files, files.len() as int) {
                Err(_) => Seq::empty(),
                Ok(rebuilt) => {
                    let sorted = ordered(rebuilt, rebuilt.len() as int);
                    all_events(PackPhase::Compare, items, false, Within::Nothing) + if repacked(
                        archive,
                        files,
                    ) is Ok {
                        all_events(PackPhase::Write, sorted, true, Within::All)
                    } else {
                        Seq::empty()
                    }
                },
            }
        },
    }
}

/// Adds to a count of bytes.
fn count_more(bytes: u64, more: u64, Ghost(exact): Ghost<int>) -> (res: u64)
    requires
        bytes == counted(exact),
    ensures
        res == counted(exact + more),
{
    assert(counted(exact + more) == counted(counted(exact) + more)) by {
        vstd::arithmetic::div_mod::lemma_add_mod_noop(
            exact,
            more as int,
            0x1_0000_0000_0000_0000,
        );
        vstd::arithmetic::div_mod::lemma_add_mod_noop(
            counted(exact),
            more as int,
            0x1_0000_0000_0000_0000,
        );
    }
    bytes.wrapping_add(more)
}

/// How many bytes there are, by decoded or by stored size.
fn total_size(items: &Vec<Pending>, stored: bool, Ghost(steps): Ghost<Seq<Step>>) -> (res: u64)
    requires
        matching(steps, pending_views(items@), stored),
    ensures
        res == counted(passed(steps, items@.len() as int)),
{
    let mut total: u64 = 0;
    let mut i: usize = 0;
    while i < items.len()
        invariant
            i <= items@.len(),
            matching(steps, pending_views(items@), stored),
            total == counted(passed(steps, i as int)),
        decreases items@.len() - i,
    {
        let size: u32 = if stored {
            items[i].stored_size
        } else {
            items[i].size
        };
        assert(steps[i as int].size == size);
        total = count_more(total, size as u64, Ghost(passed(steps, i as int)));
        i = i + 1;
    }
    total
}

/// The steps go over these files, by decoded or by stored size.
pub open spec fn matching(steps: Seq<Step>, items: Seq<PendingView>, stored: bool) -> bool {
    &&& steps.len() == items.len()
    &&& forall|i: int|
        0 <= i < items.len() ==> (#[trigger] steps[i]).path == items[i].path && steps[i].size == (
        if stored {
            items[i].stored_size
        } else {
            items[i].size
        })
}

/// Appends the reports of a phase over these files.
fn report_phase(
    events: &mut Vec<PackEvent>,
    phase: PackPhase,
    items: &Vec<Pending>,
    stored: bool,
    within: Within,
)
    ensures
        event_views(final(events)@) == event_views(old(events)@) + all_events(
            phase,
            pending_views(items@),
            stored,
            within,
        ),
{
    let ghost steps = steps_of(pending_views(items@), stored, within);
    let ghost start = event_views(events@);
    assert(matching(steps, pending_views(items@), stored));
    let total_files: usize = items.len();
    let total_bytes: u64 = total_size(items, stored, Ghost(steps));
    let mut bytes: u64 = 0;
    let mut i: usize = 0;
    assert(start + Seq::<EventView>::empty() =~= start);
    while i < items.len()
        invariant
            i <= items@.len(),
            steps == steps_of(pending_views(items@), stored, within),
            total_files == items@.len(),
            steps.len() == items@.len(),
            total_bytes == counted(passed(steps, steps.len() as int)),
            bytes == counted(passed(steps, i as int)),
            event_views(events@) == start + phase_events(phase, steps, i as int),
        decreases items@.len() - i,
    {
        let ghost exact = passed(steps, i as int);
        let size: u32 = if stored {
            items[i].stored_size
        } else {
            items[i].size
        };
        let inner: bool = match within {
            Within::All => true,
            Within::Encodable(format) => is_encodable(items[i].path.as_str(), items[i].size, format),
            Within::Nothing => false,
        };
        assert(steps[i as int].path == encode_utf8(items@[i as int].path@));
        assert(steps[i as int].within == inner);
        assert(steps[i as int].size == size);
        let ghost held = event_views(events@);
        let ghost front = event(phase, steps, i as int, i as int, exact);
        let ghost behind = event(phase, steps, i as int, i + 1, exact + size);
        report_one(events, phase, &items[i], i, bytes, total_files, total_bytes);
        assert(event_views(events@) =~= held.push(front));
        if inner {
            report_within(
                events,
                phase,
                &items[i],
                i,
                bytes,
                size,
                total_files,
                total_bytes,
                Ghost(exact),
            );
        }
        assert(event_views(events@) =~= held + seq![front] + reports_within(
            phase,
            steps,
            i as int,
        )) by {
            if inner {
                let n = (size as int / REPORT_SIZE as int) as nat;
                assert(marks(
                    phase,
                    items@[i as int]@.path,
                    i as int,
                    exact,
                    n,
                    total_files as int,
                    total_bytes as int,
                ) =~= reports_within(phase, steps, i as int));
            }
        }
        let ghost most = event_views(events@);
        let after: u64 = count_more(bytes, size as u64, Ghost(exact));
        report_one(events, phase, &items[i], i + 1, after, total_files, total_bytes);
        assert(event_views(events@) =~= most.push(behind));
        assert(event_views(events@) =~= start + phase_events(phase, steps, i + 1));
        bytes = after;
        i = i + 1;
    }
}

/// Appends one report.
fn report_one(
    events: &mut Vec<PackEvent>,
    phase: PackPhase,
    item: &Pending,
    completed: usize,
    bytes: u64,
    total_files: usize,
    total_bytes: u64,
)
    ensures
        event_views(final(events)@) == event_views(old(events)@).push(
            (EventView {
                phase,
                path: item@.path,
                completed: completed as int,
                bytes: bytes as int,
                total_files: total_files as int,
                total_bytes: total_bytes as int,
            }),
        ),
{
    let ghost before = event_views(events@);
    events.push(
        PackEvent { phase, path: item.path.clone(), completed, bytes, total_files, total_bytes },
    );
    assert(event_views(events@) =~= before.push(
        EventView {
            phase,
            path: item@.path,
            completed: completed as int,
            bytes: bytes as int,
            total_files: total_files as int,
            total_bytes: total_bytes as int,
        },
    ));
}

/// Reports on a file whenever enough bytes have passed.
spec fn marks(
    phase: PackPhase,
    path: Seq<u8>,
    completed: int,
    bytes: int,
    n: nat,
    total_files: int,
    total_bytes: int,
) -> Seq<EventView> {
    Seq::new(
        n,
        |k: int|
            EventView {
                phase,
                path,
                completed,
                bytes: counted(bytes + (k + 1) * REPORT_SIZE),
                total_files,
                total_bytes,
            },
    )
}

fn report_within(
    events: &mut Vec<PackEvent>,
    phase: PackPhase,
    item: &Pending,
    completed: usize,
    bytes: u64,
    size: u32,
    total_files: usize,
    total_bytes: u64,
    Ghost(exact): Ghost<int>,
)
    requires
        bytes == counted(exact),
    ensures
        event_views(final(events)@) == event_views(old(events)@) + marks(
            phase,
            item@.path,
            completed as int,
            exact,
            (size as int / REPORT_SIZE as int) as nat,
            total_files as int,
            total_bytes as int,
        ),
{
    let ghost start = event_views(events@);
    let count: u64 = size as u64 / REPORT_SIZE;
    let mut k: u64 = 0;
    assert(start =~= start + marks(
        phase,
        item@.path,
        completed as int,
        exact,
        0,
        total_files as int,
        total_bytes as int,
    ));
    while k < count
        invariant
            k <= count,
            count == size as u64 / REPORT_SIZE,
            bytes == counted(exact),
            event_views(events@) == start + marks(
                phase,
                item@.path,
                completed as int,
                exact,
                k as nat,
                total_files as int,
                total_bytes as int,
            ),
        decreases count - k,
    {
        let reached: u64 = (k + 1) * REPORT_SIZE;
        assert(reached <= size);
        let now: u64 = count_more(bytes, reached, Ghost(exact));
        report_one(events, phase, item, completed, now, total_files, total_bytes);
        assert(event_views(events@) =~= start + marks(
            phase,
            item@.path,
            completed as int,
            exact,
            (k + 1) as nat,
            total_files as int,
            total_bytes as int,
        ));
        k = k + 1;
    }
}

/// Packs files one after the other, and reports on it.
pub fn pack_with_progress(files: &Vec<SourceFile>, format: Format, events: &mut Vec<PackEvent>) -> (res:
    Result<Vec<u8>>)
    ensures
        match packed(file_views(files@), format) {
            Ok(image) => res matches Ok(found) && found@ == image && all_decode(
                file_views(files@),
                format,
            ),
            Err(e) => fails(res, e),
        },
        event_views(final(events)@) == event_views(old(events)@) + pack_events(
            file_views(files@),
            format,
        ),
{
    let ghost all = file_views(files@);
    let ghost start = event_views(events@);
    assert(start + Seq::<EventView>::empty() =~= start);
    match prepare(files, format) {
        Err(e) => Err(e),
        Ok((items, datas)) => {
            let ghost plain = collected(all, all.len() as int)->Ok_0;
            proof {
                lemma_collected(all, all.len() as int);
                assert(pending_views(items@).len() == items@.len());
            }
            report_phase(events, PackPhase::Encode, &items, false, Within::Encodable(format));
            assert(steps_of(pending_views(items@), false, Within::Encodable(format)) =~= steps_of(
                plain,
                false,
                Within::Encodable(format),
            ));
            match finish(&items, &datas, format) {
                Err(e) => {
                    assert(event_views(events@) =~= start + pack_events(all, format));
                    Err(e)
                },
                Ok(image) => {
                    report_write(events, &items);
                    assert(event_views(events@) =~= start + pack_events(all, format));
                    Ok(image)
                },
            }
        },
    }
}

/// Appends the reports on writing these files.
fn report_write(events: &mut Vec<PackEvent>, items: &Vec<Pending>)
    ensures
        event_views(final(events)@) == event_views(old(events)@) + all_events(
            PackPhase::Write,
            ordered(pending_views(items@), items@.len() as int),
            true,
            Within::All,
        ),
{
    let sorted: Vec<Pending> = sort_pending(items);
    proof {
        crate::order::lemma_ordered(pending_views(items@), items@.len() as int);
        assert(pending_views(sorted@).len() == sorted@.len());
    }
    report_phase(events, PackPhase::Write, &sorted, true, Within::All);
}

impl<'a> Archive<'a> {
    /// Makes a new archive of these files in the wrapper of this one, and reports on it.
    pub fn repack_with_progress(&self, files: &Vec<SourceFile>, events: &mut Vec<PackEvent>) -> (res:
        Result<Vec<u8>>)
        ensures
            match repacked(self@, file_views(files@)) {
                Ok(image) => res matches Ok(found) && found@ == image,
                Err(e) => fails(res, e),
            },
            event_views(final(events)@) == event_views(old(events)@) + repack_events(
                self@,
                file_views(files@),
            ),
    {
        let ghost all = file_views(files@);
        let ghost start = event_views(events@);
        assert(start + Seq::<EventView>::empty() =~= start);
        match self.compare_files(files) {
            Err(e) => Err(e),
            Ok((items, rebuilt)) => {
                report_phase(events, PackPhase::Compare, &items, false, Within::Nothing);
                match self.write_rebuilt(&rebuilt, files) {
                    Err(e) => {
                        assert(event_views(events@) =~= start + repack_events(self@, all));
                        Err(e)
                    },
                    Ok(image) => {
                        report_write(events, &rebuilt);
                        assert(event_views(events@) =~= start + repack_events(self@, all));
                        Ok(image)
                    },
                }
            },
        }
    }
}

} // verus!
