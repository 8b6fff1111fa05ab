//! What holds of the reports on packing and unpacking.

use super::contents::lemma_from_ordered;
use super::editing::lemma_rebuilt;
use crate::archive::{entry_number, in_image, lemma_entry_from, ArchiveView};
use crate::edit::{rebuilt_item, rebuilt_items, repacked};
use crate::entry::{Compression, Format};
use crate::error::ErrorView;
use crate::order::{lemma_ordered, ordered};
use crate::pack::{
    collected, lemma_collected, packed, repeated, stored_item, stored_items, FileView,
};
use crate::payload::{
    block_bytes, block_marks, blocks_from, header_lengths, payload_bytes, payload_marks, piece_marks,
};
use crate::pending::PendingView;
use crate::progress::{
    all_events, event, pack_events, passed, phase_events, repack_events, reports_within, steps_of,
    EventView, PackPhase, Step, Within, REPORT_SIZE,
};
use crate::text::normalized;
use crate::transfer::{next_state, TransferReport, TransferState};
use crate::unpack::{decoded_len, entry_reports, reports, unpack_error, Progress};
use crate::writer::{written, MAX_FILES};
use vstd::prelude::*;

verus! {

proof fn lemma_passed_grows(steps: Seq<Step>, n: int, m: int)
    requires
        0 <= n <= m <= steps.len(),
        forall|i: int| 0 <= i < steps.len() ==> 0 <= (#[trigger] steps[i]).size,
    ensures
        0 <= passed(steps, n) <= passed(steps, m),
    decreases m,
{
    if n < m {
        lemma_passed_grows(steps, n, m - 1);
    } else if m > 0 {
        lemma_passed_grows(steps, m - 1, m - 1);
    }
}

/// A report tells of no more than the steps hold.
pub open spec fn bounded(event: EventView, steps: Seq<Step>) -> bool {
    &&& 0 <= event.completed <= event.total_files
    &&& 0 <= event.bytes <= event.total_bytes
    &&& event.total_files == steps.len()
    &&& event.total_bytes == passed(steps, steps.len() as int)
}

/// No report of a phase tells of more than there is, and the last one tells of all. The bytes of
/// all files can be counted.
pub proof fn lemma_phase_reports(phase: PackPhase, steps: Seq<Step>, n: int)
    requires
        0 <= n <= steps.len(),
        passed(steps, steps.len() as int) <= u64::MAX,
        forall|i: int| 0 <= i < steps.len() ==> 0 <= (#[trigger] steps[i]).size,
    ensures
        forall|i: int|
            0 <= i < phase_events(phase, steps, n).len() ==> bounded(
                #[trigger] phase_events(phase, steps, n)[i],
                steps,
            ),
        n > 0 ==> phase_events(phase, steps, n).last() == event(
            phase,
            steps,
            n - 1,
            n,
            passed(steps, n),
        ),
    decreases n,
{
    if n > 0 {
        let i = n - 1;
        let total = steps.len() as int;
        lemma_phase_reports(phase, steps, i);
        lemma_passed_grows(steps, i, n);
        lemma_passed_grows(steps, n, total);
        let before = phase_events(phase, steps, i);
        let front = seq![event(phase, steps, i, i, passed(steps, i))];
        let inner = reports_within(phase, steps, i);
        let behind = seq![event(phase, steps, i, n, passed(steps, n))];
        let all = phase_events(phase, steps, n);
        assert(all == before + front + inner + behind);
        assert forall|k: int| 0 <= k < all.len() implies bounded(#[trigger] all[k], steps) by {
            if k < before.len() {
                assert(all[k] == before[k]);
            } else if k == before.len() {
                assert(all[k] == front[0]);
            } else if k < before.len() + 1 + inner.len() {
                let m = k - before.len() - 1;
                assert(all[k] == inner[m]);
                assert((m + 1) * REPORT_SIZE <= steps[i].size) by (nonlinear_arith)
                    requires
                        m + 1 <= steps[i].size / REPORT_SIZE as int,
                        REPORT_SIZE == 0x10_0000,
                ;
            } else {
                assert(all[k] == behind[0]);
            }
        }
    }
}

/// A report tells of no more than there is.
pub open spec fn modest(event: EventView) -> bool {
    0 <= event.completed <= event.total_files && 0 <= event.bytes <= event.total_bytes
}

/// The last report tells of everything.
pub open spec fn ends(events: Seq<EventView>, phase: PackPhase, files: int) -> bool {
    let last = events.last();
    &&& events.len() > 0
    &&& last.phase == phase
    &&& last.completed == files
    &&& last.total_files == files
    &&& last.bytes == last.total_bytes
}

/// The bytes of the first `n` files.
pub open spec fn data_total(files: Seq<FileView>, n: int) -> int
    decreases n,
{
    if n <= 0 {
        0
    } else {
        data_total(files, n - 1) + files[n - 1].data.len()
    }
}

/// By decoded size the files that are collected pass the bytes that they hold.
proof fn lemma_collected_total(
    files: Seq<FileView>,
    items: Seq<PendingView>,
    within: Within,
    n: int,
)
    requires
        items.len() == files.len(),
        forall|i: int|
            0 <= i < items.len() ==> (#[trigger] items[i]).size == files[i].data.len(),
        0 <= n <= items.len(),
    ensures
        passed(steps_of(items, false, within), n) == data_total(files, n),
    decreases n,
{
    if n > 0 {
        lemma_collected_total(files, items, within, n - 1);
        assert(items[n - 1].size == files[n - 1].data.len());
    }
}

/// The files of an archive can be counted by stored size.
proof fn lemma_stored_total(items: Seq<PendingView>, within: Within, n: int)
    requires
        forall|i: int|
            0 <= i < items.len() ==> (#[trigger] items[i]).stored_size <= i32::MAX,
        0 <= n <= items.len(),
    ensures
        passed(steps_of(items, true, within), n) <= n * i32::MAX,
    decreases n,
{
    if n > 0 {
        lemma_stored_total(items, within, n - 1);
        assert(items[n - 1].stored_size <= i32::MAX);
    }
}

proof fn lemma_items_reports(
    phase: PackPhase,
    items: Seq<PendingView>,
    stored: bool,
    within: Within,
)
    requires
        forall|i: int|
            0 <= i < items.len() ==> 0 <= (#[trigger] items[i]).size && 0 <= items[i].stored_size,
        passed(steps_of(items, stored, within), items.len() as int) <= u64::MAX,
    ensures
        forall|k: int|
            0 <= k < all_events(phase, items, stored, within).len() ==> modest(
                #[trigger] all_events(phase, items, stored, within)[k],
            ),
        items.len() > 0 ==> ends(
            all_events(phase, items, stored, within),
            phase,
            items.len() as int,
        ),
{
    let steps = steps_of(items, stored, within);
    let n = items.len() as int;
    let all = phase_events(phase, steps, n);
    assert forall|i: int| 0 <= i < steps.len() implies 0 <= (#[trigger] steps[i]).size by {
        assert(0 <= items[i].size && 0 <= items[i].stored_size);
    }
    lemma_phase_reports(phase, steps, n);
    assert forall|k: int| 0 <= k < all.len() implies modest(#[trigger] all[k]) by {
        assert(bounded(all[k], steps));
    }
}

/// No report on packing tells of more than there is. Where packing succeeds, the last one tells
/// that everything has been written. The bytes of all files can be counted.
pub proof fn lemma_pack_reports(files: Seq<FileView>, format: Format)
    requires
        data_total(files, files.len() as int) <= u64::MAX,
    ensures
        forall|k: int|
            0 <= k < pack_events(files, format).len() ==> modest(
                #[trigger] pack_events(files, format)[k],
            ),
        packed(files, format) is Ok && files.len() > 0 ==> ends(
            pack_events(files, format),
            PackPhase::Write,
            files.len() as int,
        ),
{
    let n = files.len() as int;
    lemma_collected(files, n);
    if let Ok(items) = collected(files, n) {
        let within = Within::Encodable(format);
        let first = all_events(PackPhase::Encode, items, false, within);
        assert forall|i: int| 0 <= i < items.len() implies 0 <= (#[trigger] items[i]).size && 0
            <= items[i].stored_size && items[i].size == files[i].data.len() by {}
        lemma_collected_total(files, items, within, n);
        lemma_items_reports(PackPhase::Encode, items, false, within);
        assert(first + Seq::<EventView>::empty() =~= first);
        if packed(files, format) is Ok && repeated(items, 0) is None {
            let stored = stored_items(items, files, format);
            let sorted = ordered(stored, stored.len() as int);
            lemma_ordered(stored, stored.len() as int);
            assert(stored.len() <= MAX_FILES) by {
                reveal(written);
            }
            assert forall|j: int| 0 <= j < sorted.len() implies 0 <= (#[trigger] sorted[j]).size
                && 0 <= sorted[j].stored_size <= i32::MAX by {
                let i = lemma_from_ordered(stored, j);
                assert(stored[i] == stored_item(items[i], files[i].data, format));
                assert(0 <= items[i].size && 0 <= items[i].stored_size);
            }
            lemma_stored_total(sorted, Within::All, n);
            lemma_items_reports(PackPhase::Write, sorted, true, Within::All);
            lemma_joined_reports(first, all_events(PackPhase::Write, sorted, true, Within::All));
        }
    }
}

proof fn lemma_joined_reports(a: Seq<EventView>, b: Seq<EventView>)
    requires
        forall|k: int| 0 <= k < a.len() ==> modest(#[trigger] a[k]),
        forall|k: int| 0 <= k < b.len() ==> modest(#[trigger] b[k]),
    ensures
        forall|k: int| 0 <= k < (a + b).len() ==> modest(#[trigger] (a + b)[k]),
        b.len() > 0 ==> (a + b).last() == b.last(),
{
    let all = a + b;
    assert forall|k: int| 0 <= k < all.len() implies modest(#[trigger] all[k]) by {
        if k < a.len() {
            assert(all[k] == a[k]);
        } else {
            assert(all[k] == b[k - a.len()]);
        }
    }
}

/// No report on rebuilding tells of more than there is. Where rebuilding succeeds, the last one
/// tells that everything has been written. The bytes of all files can be counted.
pub proof fn lemma_repack_reports(archive: ArchiveView, files: Seq<FileView>)
    requires
        archive.sound(),
        data_total(files, files.len() as int) <= u64::MAX,
    ensures
        forall|k: int|
            0 <= k < repack_events(archive, files).len() ==> modest(
                #[trigger] repack_events(archive, files)[k],
            ),
        repacked(archive, files) is Ok && files.len() > 0 ==> ends(
            repack_events(archive, files),
            PackPhase::Write,
            files.len() as int,
        ),
{
    let n = files.len() as int;
    lemma_collected(files, n);
    if let Ok(items) = collected(files, n) {
        let first = all_events(PackPhase::Compare, items, false, Within::Nothing);
        assert forall|i: int| 0 <= i < items.len() implies 0 <= (#[trigger] items[i]).size && 0
            <= items[i].stored_size <= i32::MAX && items[i].size == files[i].data.len() by {}
        lemma_collected_total(files, items, Within::Nothing, n);
        lemma_items_reports(PackPhase::Compare, items, false, Within::Nothing);
        assert(first + Seq::<EventView>::empty() =~= first);
        if repeated(items, 0) is None && repacked(archive, files) is Ok {
            let rebuilt = rebuilt_items(archive, items, files, n)->Ok_0;
            let sorted = ordered(rebuilt, rebuilt.len() as int);
            lemma_ordered(rebuilt, rebuilt.len() as int);
            lemma_rebuilt(archive, items, files, n);
            assert(rebuilt.len() <= MAX_FILES) by {
                reveal(written);
            }
            assert forall|j: int| 0 <= j < sorted.len() implies 0 <= (#[trigger] sorted[j]).size
                && 0 <= sorted[j].stored_size <= i32::MAX by {
                let i = lemma_from_ordered(rebuilt, j);
                assert(rebuilt_item(archive, items[i], files[i].data) == Ok::<
                    PendingView,
                    ErrorView,
                >(rebuilt[i]));
                assert(0 <= items[i].size && 0 <= items[i].stored_size <= i32::MAX);
                if let Ok(key) = normalized(items[i].path) {
                    lemma_entry_from(archive.entries, key, 0);
                    if let Some(k) = entry_number(archive.entries, items[i].path) {
                        assert(in_image(archive.entries[k], archive.image));
                    }
                }
            }
            lemma_stored_total(sorted, Within::All, n);
            lemma_items_reports(PackPhase::Write, sorted, true, Within::All);
            lemma_joined_reports(first, all_events(PackPhase::Write, sorted, true, Within::All));
        }
    }
}

/// Where unpacking succeeds, the first report tells of nothing and the last one of everything.
pub proof fn lemma_unpack_reports(archive: ArchiveView, n: int)
    requires
        0 < n <= archive.entries.len(),
        unpack_error(archive, n) is None,
    ensures
        reports(archive, n).len() > 0,
        reports(archive, n)[0] == (Progress { entry: 0, files: 0, bytes: 0 }),
        reports(archive, n).last() == (Progress {
            entry: (n - 1) as usize,
            files: n as usize,
            bytes: decoded_len(archive, n) as u64,
        }),
    decreases n,
{
    let before = reports(archive, n - 1);
    let own = entry_reports(archive, n - 1);
    assert(reports(archive, n) == before + own);
    if n > 1 {
        lemma_unpack_reports(archive, n - 1);
    } else {
        assert(own[0] == (Progress { entry: 0, files: 0, bytes: 0 }));
    }
}

/// Whatever order reports come in, what is shown never goes back.
pub proof fn lemma_transfer_forward(
    state: TransferState,
    report: TransferReport,
    due: bool,
    interactive: bool,
)
    ensures
        next_state(state, report, due, interactive).bytes_seen >= state.bytes_seen,
        next_state(state, report, due, interactive).files_seen >= state.files_seen,
        next_state(state, report, due, interactive).bytes_seen >= report.bytes,
        next_state(state, report, due, interactive).files_seen >= report.completed,
{
}

/// What is stored as it is comes out in pieces of 8192 bytes, the last one maybe shorter.
pub proof fn lemma_copy_marks(len: int, from: int)
    requires
        0 <= from,
        len <= u32::MAX,
        from <= len,
    ensures
        ({
            let marks = piece_marks(len, from);
            let n = marks.len() as int;
            &&& 8192 * (n - 1) < len - from <= 8192 * n
            &&& forall|k: int|
                0 <= k < n - 1 ==> (#[trigger] marks[k]) == from + 8192 * (k + 1)
            &&& n > 0 ==> marks[n - 1] == len
        }),
    decreases len - from,
{
    if from < len {
        let end = if len - from < 8192 {
            len
        } else {
            from + 8192
        };
        lemma_copy_marks(len, end);
        let rest = piece_marks(len, end);
        let marks = piece_marks(len, from);
        let n = marks.len() as int;
        assert(marks == seq![end as u64] + rest);
        assert(n == rest.len() + 1);
        assert forall|k: int| 0 <= k < n - 1 implies (#[trigger] marks[k]) == from + 8192 * (k
            + 1) by {
            if k > 0 {
                assert(marks[k] == rest[k - 1]);
            }
        }
        if n > 1 {
            assert(marks[n - 1] == rest[n - 2]);
        } else {
            assert(marks[0] == end);
        }
    }
}

/// A file that is reported on within is so at every whole MiB of it.
pub proof fn lemma_reports_within(phase: PackPhase, steps: Seq<Step>, i: int)
    requires
        0 <= i < steps.len(),
        0 <= steps[i].size,
    ensures
        ({
            let inner = reports_within(phase, steps, i);
            let n = inner.len() as int;
            &&& !steps[i].within ==> n == 0
            &&& steps[i].within ==> 1048576 * n <= steps[i].size < 1048576 * (n + 1)
            &&& forall|k: int|
                0 <= k < n ==> {
                    let event = #[trigger] inner[k];
                    &&& event.phase == phase
                    &&& event.path == steps[i].path
                    &&& event.completed == i
                    &&& event.total_files == steps.len()
                    &&& passed(steps, i) + 1048576 * (k + 1) < 0x1_0000_0000_0000_0000 && 0
                        <= passed(steps, i) ==> event.bytes == passed(steps, i) + 1048576 * (k + 1)
                }
        }),
{
}

/// Each report tells of as many files and bytes as the one before it, or more.
pub open spec fn forward(events: Seq<EventView>) -> bool {
    forall|a: int, b: int|
        #![trigger events[a], events[b]]
        0 <= a < b < events.len() ==> events[a].completed <= events[b].completed
            && events[a].bytes <= events[b].bytes
}

/// The reports of a phase never go back, and behind the reports on the first files all of these are
/// complete. The bytes of all files can be counted.
pub proof fn lemma_phase_forward(phase: PackPhase, steps: Seq<Step>, n: int)
    requires
        0 <= n <= steps.len(),
        passed(steps, steps.len() as int) <= u64::MAX,
        forall|i: int| 0 <= i < steps.len() ==> 0 <= (#[trigger] steps[i]).size,
    ensures
        forward(phase_events(phase, steps, n)),
        forall|k: int|
            0 <= k < phase_events(phase, steps, n).len() ==> {
                let event = #[trigger] phase_events(phase, steps, n)[k];
                event.completed <= n && event.bytes <= passed(steps, n)
            },
        n > 0 ==> phase_events(phase, steps, n).last().completed == n,
        n > 0 ==> phase_events(phase, steps, n).last().bytes == passed(steps, n),
        n > 0 ==> phase_events(phase, steps, n).last().path == steps[n - 1].path,
    decreases n,
{
    if n > 0 {
        let i = n - 1;
        lemma_phase_forward(phase, steps, i);
        lemma_passed_grows(steps, 0, i);
        lemma_passed_grows(steps, i, n);
        lemma_passed_grows(steps, n, steps.len() as int);
        let before = phase_events(phase, steps, i);
        let front = seq![event(phase, steps, i, i, passed(steps, i))];
        let inner = reports_within(phase, steps, i);
        let behind = seq![event(phase, steps, i, n, passed(steps, n))];
        let all = phase_events(phase, steps, n);
        lemma_reports_within(phase, steps, i);
        assert(all == before + front + inner + behind);
        assert(passed(steps, n) == passed(steps, i) + steps[i].size);
        assert forall|k: int| before.len() <= k < all.len() implies {
            let event = #[trigger] all[k];
            &&& k < all.len() - 1 ==> event.completed == i
            &&& k == all.len() - 1 ==> event.completed == n && event.bytes == passed(steps, n)
            &&& passed(steps, i) <= event.bytes <= passed(steps, n)
            &&& before.len() < k < all.len() - 1 ==> event.bytes == passed(steps, i) + 1048576 * (k
                - before.len())
            &&& k == before.len() && k < all.len() - 1 ==> event.bytes == passed(steps, i)
        } by {
            if k == before.len() {
                assert(all[k] == front[0]);
            } else if k < all.len() - 1 {
                assert(all[k] == inner[k - before.len() - 1]);
            } else {
                assert(all[k] == behind[0]);
            }
        }
        assert forall|k: int| 0 <= k < before.len() implies #[trigger] all[k] == before[k] by {}
        assert forall|a: int, b: int|
            #![trigger all[a], all[b]]
            0 <= a < b < all.len() implies all[a].completed <= all[b].completed && all[a].bytes
            <= all[b].bytes by {
            if b < before.len() {
                assert(all[a] == before[a] && all[b] == before[b]);
            } else if a < before.len() {
                assert(all[a] == before[a]);
            }
        }
        assert forall|k: int| 0 <= k < all.len() implies (#[trigger] all[k]).completed <= n
            && all[k].bytes <= passed(steps, n) by {
            if k < before.len() {
                assert(all[k] == before[k]);
            }
        }
    }
}

/// The lengths grow from a start on, up to an end.
pub open spec fn climbs(marks: Seq<u64>, start: int, end: int) -> bool {
    &&& forall|a: int, b: int|
        #![trigger marks[a], marks[b]]
        0 <= a < b < marks.len() ==> marks[a] < marks[b]
    &&& marks.len() == 0 ==> start == end
    &&& marks.len() > 0 ==> start < marks[0] && marks.last() == end
}

proof fn lemma_block_marks_climb(
    compression: Compression,
    stored: Seq<u8>,
    at: int,
    out: Seq<u8>,
    size: int,
)
    requires
        0 <= at,
        out.len() <= size <= u32::MAX,
    ensures
        climbs(
            block_marks(compression, stored, at, out.len() as int, size),
            out.len() as int,
            blocks_from(compression, stored, at, out, size).0.len() as int,
        ),
    decreases stored.len() - at,
{
    let body = at + 12;
    if body <= stored.len() {
        if let Ok((decoded, compressed)) = header_lengths(
            compression,
            stored.subrange(at, body),
            stored.len() - body,
            out.len() as int,
            size,
        ) {
            if let Ok(block) = block_bytes(
                compression,
                stored.subrange(body, body + compressed),
                decoded,
            ) {
                assert(block.len() == decoded);
                let next = out + block;
                lemma_block_marks_climb(compression, stored, body + compressed, next, size);
                let rest = block_marks(
                    compression,
                    stored,
                    body + compressed,
                    next.len() as int,
                    size,
                );
                let all = block_marks(compression, stored, at, out.len() as int, size);
                if decoded != 0 {
                    assert(all == seq![next.len() as u64] + rest);
                    assert forall|a: int, b: int|
                        #![trigger all[a], all[b]]
                        0 <= a < b < all.len() implies all[a] < all[b] by {
                        assert(all[b] == rest[b - 1]);
                        if a > 0 {
                            assert(all[a] == rest[a - 1]);
                        } else {
                            assert(rest[0] <= rest[b - 1]);
                        }
                    }
                    if rest.len() > 0 {
                        assert(all.last() == rest.last());
                    }
                }
            }
        }
    }
}

/// The reports on a payload climb, write by write, up to the length of what came out of it, also
/// where an error stops it.
pub proof fn lemma_marks_climb(compression: Compression, stored: Seq<u8>, size: int)
    requires
        0 <= size <= u32::MAX,
    ensures
        climbs(
            payload_marks(compression, stored, size),
            0,
            payload_bytes(compression, stored, size).0.len() as int,
        ),
{
    if compression != Compression::Plain {
        lemma_block_marks_climb(compression, stored, 0, Seq::empty(), size);
    } else if stored.len() == size {
        lemma_copy_marks(size, 0);
        let marks = piece_marks(size, 0);
        let n = marks.len() as int;
        assert forall|a: int, b: int|
            #![trigger marks[a], marks[b]]
            0 <= a < b < n implies marks[a] < marks[b] by {
            if b == n - 1 {
                assert(marks[a] == 8192 * (a + 1));
            }
        }
    }
}

} // verus!
