//! What to show of a transfer while it runs.

use crate::progress::REPORT_SIZE;
use crate::text::{digits, digits_of};
use vstd::prelude::*;

verus! {

/// Paths with more characters than this are shortened.
pub const MAX_SHOWN: usize = 48;

/// A path as it is shown: of a long one the last 47 characters behind an ellipsis.
pub open spec fn shown_path(path: Seq<char>) -> Seq<char> {
    if path.len() > MAX_SHOWN {
        "…"@ + path.subrange(path.len() - 47, path.len() as int)
    } else {
        path
    }
}

/// How far a transfer has come: how much has been seen of it and shown.
#[derive(Clone, Copy, Debug)]
pub struct TransferState {
    pub bytes_seen: u64,
    pub files_seen: usize,
    /// The percentage from which on the next line is written.
    pub next_report: u64,
    pub last_rendered_bytes: u64,
}

/// A report on a transfer.
pub struct TransferReport<'a> {
    pub path: &'a str,
    pub completed: usize,
    pub bytes: u64,
    pub total_files: usize,
    pub total_bytes: u64,
}

/// What to show: how far the bar stands with a message beside it, and a line of text.
pub struct Shown {
    pub bar: Option<(u64, String)>,
    pub line: Option<String>,
}

/// The larger of two numbers.
pub open spec fn larger(a: int, b: int) -> int {
    if a < b {
        b
    } else {
        a
    }
}

/// The bytes of a transfer, as far as any report told.
pub open spec fn bytes_now(state: TransferState, report: TransferReport) -> int {
    larger(report.bytes as int, state.bytes_seen as int)
}

/// The complete files of a transfer, as far as any report told.
pub open spec fn files_now(state: TransferState, report: TransferReport) -> int {
    larger(report.completed as int, state.files_seen as int)
}

/// The report is the first on which all files are complete.
pub open spec fn newly_complete(state: TransferState, report: TransferReport) -> bool {
    files_now(state, report) == report.total_files && state.files_seen < report.total_files
}

/// The bar is drawn anew: when it is time, when enough bytes have passed, and at the end.
pub open spec fn draws(state: TransferState, report: TransferReport, due: bool) -> bool {
    due || bytes_now(state, report) - state.last_rendered_bytes >= REPORT_SIZE || newly_complete(
        state,
        report,
    )
}

/// A number of bytes times a hundred, as far as that can be counted.
pub open spec fn hundredfold(bytes: int) -> int {
    if bytes * 100 <= u64::MAX {
        bytes * 100
    } else {
        u64::MAX as int
    }
}

/// How much of a transfer is done: of the bytes, or of the files where there are no bytes.
pub open spec fn percent(state: TransferState, report: TransferReport) -> int {
    if report.total_bytes != 0 {
        hundredfold(bytes_now(state, report)) / report.total_bytes as int
    } else {
        files_now(state, report) * 100 / larger(report.total_files as int, 1)
    }
}

/// A line is written: whenever another tenth is done, and at the end.
pub open spec fn writes(state: TransferState, report: TransferReport, interactive: bool) -> bool {
    !interactive && (percent(state, report) >= state.next_report || newly_complete(state, report))
}

/// The message beside the bar.
pub open spec fn message(state: TransferState, report: TransferReport) -> Seq<char> {
    digits(files_now(state, report) as nat) + "/"@ + digits(report.total_files as nat) + " "@
        + shown_path(report.path@)
}

/// The line of text.
pub open spec fn line(label: Seq<char>, state: TransferState, report: TransferReport) -> Seq<char> {
    label + ": "@ + digits(percent(state, report) as nat) + "% ("@ + digits(
        files_now(state, report) as nat,
    ) + "/"@ + digits(report.total_files as nat) + " files, "@ + digits(
        bytes_now(state, report) as nat,
    ) + "/"@ + digits(report.total_bytes as nat) + " bytes)"@
}

/// The state behind a report.
pub open spec fn next_state(
    state: TransferState,
    report: TransferReport,
    due: bool,
    interactive: bool,
) -> TransferState {
    TransferState {
        bytes_seen: bytes_now(state, report) as u64,
        files_seen: files_now(state, report) as usize,
        next_report: if writes(state, report, interactive) {
            ((percent(state, report) / 10 + 1) * 10) as u64
        } else {
            state.next_report
        },
        last_rendered_bytes: if draws(state, report, due) {
            bytes_now(state, report) as u64
        } else {
            state.last_rendered_bytes
        },
    }
}

/// The percentage, and that of the next line, can be counted.
pub open spec fn countable(
    state: TransferState,
    report: TransferReport,
    interactive: bool,
) -> bool {
    interactive || {
        &&& report.total_bytes == 0 ==> files_now(state, report) * 100 <= u64::MAX
        &&& writes(state, report, interactive) ==> (percent(state, report) / 10 + 1) * 10
            <= u64::MAX
    }
}

/// A path as it is shown.
pub fn shorten(path: &str) -> (res: String)
    ensures
        res@ == shown_path(path@),
{
    let n: usize = path.unicode_len();
    if n > MAX_SHOWN {
        "…".to_owned().concat(path.substring_char(n - 47, n))
    } else {
        path.to_owned()
    }
}

/// How much of a transfer is done, if it can be counted.
fn percent_of(bytes: u64, completed: usize, total_files: usize, total_bytes: u64) -> (res: Option<
    u64,
>)
    ensures
        if total_bytes != 0 {
            res == Some((hundredfold(bytes as int) / total_bytes as int) as u64) && hundredfold(
                bytes as int,
            ) / total_bytes as int <= u64::MAX
        } else if completed * 100 <= u64::MAX {
            res == Some((completed * 100 / larger(total_files as int, 1)) as u64) && completed * 100
                / larger(total_files as int, 1) <= u64::MAX
        } else {
            res is None
        },
{
    if total_bytes != 0 {
        let all: u64 = match bytes.checked_mul(100) {
            Some(all) => all,
            None => u64::MAX,
        };
        assert(all as int / total_bytes as int <= all) by (nonlinear_arith)
            requires
                total_bytes > 0,
        ;
        Some(all / total_bytes)
    } else {
        let parts: u64 = if total_files == 0 {
            1
        } else {
            total_files as u64
        };
        match (completed as u64).checked_mul(100) {
            Some(all) => {
                assert(all as int / parts as int <= all) by (nonlinear_arith)
                    requires
                        parts > 0,
                ;
                Some(all / parts)
            },
            None => None,
        }
    }
}

impl TransferState {
    /// A transfer of which nothing has been seen or shown.
    pub fn new() -> (res: Self)
        ensures
            res == (TransferState {
                bytes_seen: 0,
                files_seen: 0,
                next_report: 10,
                last_rendered_bytes: 0,
            }),
    {
        TransferState { bytes_seen: 0, files_seen: 0, next_report: 10, last_rendered_bytes: 0 }
    }

    /// The bytes and the complete files behind a report, whether it is the first on which all
    /// files are complete, and the percentage.
    fn count(&self, report: &TransferReport) -> (res: (u64, usize, bool, Option<u64>))
        ensures
            res.0 == bytes_now(*self, *report),
            res.1 == files_now(*self, *report),
            res.2 == newly_complete(*self, *report),
            match res.3 {
                Some(n) => n == percent(*self, *report) && (report.total_bytes == 0 ==> files_now(
                    *self,
                    *report,
                ) * 100 <= u64::MAX),
                None => report.total_bytes == 0 && files_now(*self, *report) * 100 > u64::MAX,
            },
    {
        let bytes: u64 = if report.bytes < self.bytes_seen {
            self.bytes_seen
        } else {
            report.bytes
        };
        let completed: usize = if report.completed < self.files_seen {
            self.files_seen
        } else {
            report.completed
        };
        let complete: bool = completed == report.total_files && self.files_seen
            < report.total_files;
        (
            bytes,
            completed,
            complete,
            percent_of(bytes, completed, report.total_files, report.total_bytes),
        )
    }

    /// Whether a report can be taken.
    pub fn can_report(&self, report: &TransferReport, interactive: bool) -> (res: bool)
        ensures
            res == countable(*self, *report, interactive),
    {
        if interactive {
            return true;
        }
        let (bytes, completed, complete, percent): (u64, usize, bool, Option<u64>) = self.count(
            report,
        );
        match percent {
            None => false,
            Some(n) => !(n >= self.next_report || complete) || n / 10 < u64::MAX / 10,
        }
    }

    /// Takes a report, and tells what to show. Reports may come out of order. `due` tells that
    /// the bar has not been drawn for a while; lines are written where there is no terminal.
    pub fn report(
        &mut self,
        label: &str,
        report: &TransferReport,
        due: bool,
        interactive: bool,
    ) -> (res: Shown)
        requires
            countable(*old(self), *report, interactive),
        ensures
            *final(self) == next_state(*old(self), *report, due, interactive),
            match res.bar {
                Some((position, text)) => draws(*old(self), *report, due) && position == bytes_now(
                    *old(self),
                    *report,
                ) && text@ == message(*old(self), *report),
                None => !draws(*old(self), *report, due),
            },
            match res.line {
                Some(text) => writes(*old(self), *report, interactive) && text@ == line(
                    label@,
                    *old(self),
                    *report,
                ),
                None => !writes(*old(self), *report, interactive),
            },
    {
        let (bytes, completed, complete, done): (u64, usize, bool, Option<u64>) = self.count(
            report,
        );
        let passed: u64 = if bytes < self.last_rendered_bytes {
            0
        } else {
            bytes - self.last_rendered_bytes
        };
        let files: String = digits_of(completed as u64).concat("/").concat(
            digits_of(report.total_files as u64).as_str(),
        );
        let mut bar: Option<(u64, String)> = None;
        let mut line: Option<String> = None;
        let mut rendered: u64 = self.last_rendered_bytes;
        let mut next: u64 = self.next_report;
        if due || passed >= REPORT_SIZE || complete {
            bar = Some((bytes, files.clone().concat(" ").concat(shorten(report.path).as_str())));
            rendered = bytes;
        }
        if let (false, Some(percent)) = (interactive, done) {
            if percent >= self.next_report || complete {
                let text: String = label.to_owned().concat(": ").concat(
                    digits_of(percent).as_str(),
                ).concat("% (").concat(digits_of(completed as u64).as_str()).concat("/").concat(
                    digits_of(report.total_files as u64).as_str(),
                ).concat(" files, ").concat(digits_of(bytes).as_str()).concat("/").concat(
                    digits_of(report.total_bytes).as_str(),
                ).concat(" bytes)");
                line = Some(text);
                next = (percent / 10 + 1) * 10;
            }
        }
        self.bytes_seen = bytes;
        self.files_seen = completed;
        self.last_rendered_bytes = rendered;
        self.next_report = next;
        Shown { bar, line }
    }
}

} // verus!
