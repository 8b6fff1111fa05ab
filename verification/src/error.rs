//! Errors of the library.

use crate::text::{digits, digits_of};
use vstd::prelude::*;

verus! {

/// Why a compressed block could not be decoded.
#[derive(Clone, Copy, Debug)]
pub struct CodecError {
    pub message: &'static str,
}

/// How reading bytes failed.
#[derive(Clone, Copy, Debug, PartialEq, Eq, Structural)]
pub enum IoFault {
    /// The bytes end before what was to be read.
    UnexpectedEof,
    /// A DEFLATE stream ends too early.
    IncompleteStream,
    /// A DEFLATE stream is damaged.
    CorruptStream,
}

/// The fields of a file record, in order.
#[derive(Clone, Copy, Debug, PartialEq, Eq, Structural)]
pub enum RecordField {
    Offset,
    StoredSize,
    Size,
    Compression,
}

/// Where the bytes of an index end too early.
#[derive(Clone, Copy, Debug, PartialEq, Eq, Structural)]
pub enum IndexFault {
    /// In front of or within a number.
    Number,
    /// In front of or within a field of a file record.
    Record(RecordField),
}

/// Errors returned by archive operations.
#[derive(Debug)]
pub enum NudatError {
    InvalidArchive(String),
    InvalidInput(String),
    MissingEntry(String),
    Entry { path: String, source: Box<NudatError> },
    Binary(IndexFault),
    Io(IoFault),
}

/// What an error says.
pub ghost enum ErrorView {
    InvalidArchive(Seq<char>),
    InvalidInput(Seq<char>),
    MissingEntry(Seq<char>),
    Entry { path: Seq<char>, source: Box<ErrorView> },
    Binary(IndexFault),
    Io(IoFault),
}

pub open spec fn error_view(e: NudatError) -> ErrorView
    decreases e,
{
    match e {
        NudatError::InvalidArchive(text) => ErrorView::InvalidArchive(text@),
        NudatError::InvalidInput(text) => ErrorView::InvalidInput(text@),
        NudatError::MissingEntry(text) => ErrorView::MissingEntry(text@),
        NudatError::Entry { path, source } => ErrorView::Entry {
            path: path@,
            source: Box::new(error_view(*source)),
        },
        NudatError::Binary(fault) => ErrorView::Binary(fault),
        NudatError::Io(fault) => ErrorView::Io(fault),
    }
}

impl View for NudatError {
    type V = ErrorView;

    open spec fn view(&self) -> ErrorView {
        error_view(*self)
    }
}

/// The text of a fault.
pub open spec fn fault_text(fault: IoFault) -> Seq<char> {
    match fault {
        IoFault::UnexpectedEof => "failed to fill whole buffer"@,
        IoFault::IncompleteStream => "incomplete deflate stream"@,
        IoFault::CorruptStream => "corrupt deflate stream"@,
    }
}

/// The name of a field.
pub open spec fn field_name(field: RecordField) -> Seq<char> {
    match field {
        RecordField::Offset => "offset"@,
        RecordField::StoredSize => "stored_size"@,
        RecordField::Size => "size"@,
        RecordField::Compression => "compression"@,
    }
}

/// The line of the crate's root file on which a field is declared.
pub open spec fn field_line(field: RecordField) -> u32 {
    match field {
        RecordField::Offset => 58,
        RecordField::StoredSize => 59,
        RecordField::Size => 60,
        RecordField::Compression => 61,
    }
}

/// The text of a fault in an index. For a record it is laid out as a backtrace of one frame, in
/// bold, between two bars, with the place where the field is declared.
pub open spec fn index_fault_text(fault: IndexFault) -> Seq<char> {
    match fault {
        IndexFault::Number => "failed to fill whole buffer"@,
        IndexFault::Record(field) => {
            "\n ╺━━━━━━━━━━━━━━━━━━━━┅ Backtrace ┅━━━━━━━━━━━━━━━━━━━━╸\n\n"@
                + " 0: \x1b[1m\x1b[1mError: failed to fill whole buffer\x1b[22m\n"@
                + "           \x1b[1mWhile parsing field '"@ + field_name(field)
                + "' in RawFileInfo\x1b[22m\x1b[22m\n     at src/lib.rs:"@ + digits(
                field_line(field) as nat,
            ) + "\n"@
                + "\n ╺━━━━━━━━━━━━━━━━━━━━━━━━━━━━━━━━━━━━━━━━━━━━━━━━━━━━━╸\n\n"@
        },
    }
}

/// The text of an error, the errors beneath it included.
pub open spec fn error_text(e: ErrorView) -> Seq<char>
    decreases e,
{
    match e {
        ErrorView::InvalidArchive(text) => "invalid DAT archive: "@ + text,
        ErrorView::InvalidInput(text) => "invalid request: "@ + text,
        ErrorView::MissingEntry(text) => "archive entry not found: "@ + text,
        ErrorView::Entry { path, source } => "failed to decode "@ + path + ": "@ + error_text(
            *source,
        ),
        ErrorView::Binary(fault) => "binary index error: "@ + index_fault_text(fault),
        ErrorView::Io(fault) => "I/O error: "@ + fault_text(fault),
    }
}

/// `res` is the error that `expected` names.
pub open spec fn fails<T>(res: Result<T>, expected: ErrorView) -> bool {
    res matches Err(e) && e@ == expected
}

pub type Result<T> = std::result::Result<T, NudatError>;

pub fn invalid(message: &str) -> (res: NudatError)
    ensures
        res@ == ErrorView::InvalidArchive(message@),
{
    NudatError::InvalidArchive(message.to_owned())
}

pub fn input(message: &str) -> (res: NudatError)
    ensures
        res@ == ErrorView::InvalidInput(message@),
{
    NudatError::InvalidInput(message.to_owned())
}

impl IoFault {
    pub fn message(&self) -> (res: String)
        ensures
            res@ == fault_text(*self),
    {
        match self {
            IoFault::UnexpectedEof => "failed to fill whole buffer".to_owned(),
            IoFault::IncompleteStream => "incomplete deflate stream".to_owned(),
            IoFault::CorruptStream => "corrupt deflate stream".to_owned(),
        }
    }
}

impl RecordField {
    pub fn name(&self) -> (res: &'static str)
        ensures
            res@ == field_name(*self),
    {
        match self {
            RecordField::Offset => "offset",
            RecordField::StoredSize => "stored_size",
            RecordField::Size => "size",
            RecordField::Compression => "compression",
        }
    }

    /// The line of the crate's root file on which the field is declared.
    pub fn line(&self) -> (res: u32)
        ensures
            res == field_line(*self),
    {
        match self {
            RecordField::Offset => 58,
            RecordField::StoredSize => 59,
            RecordField::Size => 60,
            RecordField::Compression => 61,
        }
    }
}

impl IndexFault {
    pub fn message(&self) -> (res: String)
        ensures
            res@ == index_fault_text(*self),
    {
        match self {
            IndexFault::Number => "failed to fill whole buffer".to_owned(),
            IndexFault::Record(field) => {
                "\n ╺━━━━━━━━━━━━━━━━━━━━┅ Backtrace ┅━━━━━━━━━━━━━━━━━━━━╸\n\n".to_owned().concat(
                    " 0: \x1b[1m\x1b[1mError: failed to fill whole buffer\x1b[22m\n",
                ).concat("           \x1b[1mWhile parsing field '").concat(field.name()).concat(
                    "' in RawFileInfo\x1b[22m\x1b[22m\n     at src/lib.rs:",
                ).concat(digits_of(field.line() as u64).as_str()).concat("\n").concat(
                    "\n ╺━━━━━━━━━━━━━━━━━━━━━━━━━━━━━━━━━━━━━━━━━━━━━━━━━━━━━╸\n\n",
                )
            },
        }
    }
}

impl NudatError {
    /// The text to show for the error.
    pub fn message(&self) -> (res: String)
        ensures
            res@ == error_text(self@),
        decreases self,
    {
        match self {
            NudatError::InvalidArchive(text) => {
                "invalid DAT archive: ".to_owned().concat(text.as_str())
            },
            NudatError::InvalidInput(text) => "invalid request: ".to_owned().concat(text.as_str()),
            NudatError::MissingEntry(text) => {
                "archive entry not found: ".to_owned().concat(text.as_str())
            },
            NudatError::Entry { path, source } => {
                let below: String = source.message();
                "failed to decode ".to_owned().concat(path.as_str()).concat(": ").concat(
                    below.as_str(),
                )
            },
            NudatError::Binary(fault) => {
                "binary index error: ".to_owned().concat(fault.message().as_str())
            },
            NudatError::Io(fault) => "I/O error: ".to_owned().concat(fault.message().as_str()),
        }
    }
}

} // verus!
