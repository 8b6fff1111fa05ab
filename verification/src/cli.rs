//! What the command line asks for.

use crate::entry::{Entry, EntryView, Format};
use crate::index::entry_views;
use crate::listing::lines;
use crate::text::{decimal, decimal_of, digits, digits_of, eq_ignore_case, same_name, string_of};
use vstd::prelude::*;
use vstd::utf8::{encode_utf8, encode_utf8_valid_utf8};

verus! {

/// The extension is that of an Android expansion file.
pub open spec fn is_obb_extension(extension: Option<Seq<char>>) -> bool {
    extension matches Some(text) && same_name(encode_utf8(text), encode_utf8("obb"@))
}

/// The contents of an optional text.
pub open spec fn text_view(text: Option<&str>) -> Option<Seq<char>> {
    match text {
        Some(t) => Some(t@),
        None => None,
    }
}

/// Whether an output file, told by its extension, is an Android expansion file.
pub fn is_obb(extension: Option<&str>) -> (res: bool)
    ensures
        res == is_obb_extension(text_view(extension)),
{
    match extension {
        Some(text) => eq_ignore_case(text.as_bytes(), "obb".as_bytes()),
        None => false,
    }
}

/// The format of a new archive: the one asked for, else OBB for an Android expansion file, else
/// that of the PC.
pub open spec fn chosen_format(asked: Option<Format>, extension: Option<Seq<char>>) -> Format {
    match asked {
        Some(format) => format,
        None => if is_obb_extension(extension) {
            Format::Obb
        } else {
            Format::Pc
        },
    }
}

/// The format of a new archive.
pub fn choose_format(asked: Option<Format>, extension: Option<&str>) -> (res: Format)
    ensures
        res == chosen_format(asked, text_view(extension)),
{
    match asked {
        Some(format) => format,
        None => if is_obb(extension) {
            Format::Obb
        } else {
            Format::Pc
        },
    }
}

/// Why an archive cannot be rebuilt from a base of the given format.
pub open spec fn base_conflict(
    asked: Option<Format>,
    extension: Option<Seq<char>>,
    base: Option<Format>,
) -> Option<Seq<char>> {
    if asked is Some && base != asked {
        Some("--format does not match the base archive"@)
    } else if is_obb_extension(extension) && base != Some(Format::Obb) {
        Some("an .obb output requires an OBB base archive"@)
    } else {
        None
    }
}

/// Why an archive cannot be rebuilt from a base of the given format.
pub fn check_base(asked: Option<Format>, extension: Option<&str>, base: Option<Format>) -> (res: Option<
    &'static str,
>)
    ensures
        match base_conflict(asked, text_view(extension), base) {
            Some(text) => res matches Some(found) && found@ == text,
            None => res is None,
        },
{
    if let Some(format) = asked {
        let same: bool = match base {
            Some(found) => found == format,
            None => false,
        };
        if !same {
            return Some("--format does not match the base archive");
        }
    }
    let base_is_obb: bool = match base {
        Some(found) => found == Format::Obb,
        None => false,
    };
    if is_obb(extension) && !base_is_obb {
        return Some("an .obb output requires an OBB base archive");
    }
    None
}

/// Why the number of workers cannot be used.
pub fn check_jobs(jobs: Option<usize>) -> (res: Option<&'static str>)
    ensures
        res matches Some(text) ==> jobs == Some(0usize) && text@ == "--jobs must be at least 1"@,
        res is None ==> jobs != Some(0usize),
{
    if let Some(count) = jobs {
        if count == 0 {
            return Some("--jobs must be at least 1");
        }
    }
    None
}

/// Why an archive cannot be edited with so many replacements and removals.
pub fn check_edit(replacements: usize, removals: usize) -> (res: Option<&'static str>)
    ensures
        if replacements == 0 && removals == 0 {
            res matches Some(text) && text@ == "specify at least one --put or --remove"@
        } else {
            res is None
        },
{
    if replacements == 0 && removals == 0 {
        Some("specify at least one --put or --remove")
    } else {
        None
    }
}

/// The byte between an archive path and a file.
pub const EQUALS: u8 = 0x3d;

/// Where a text is cut in two: at its first equals sign.
pub open spec fn cut_at(s: Seq<u8>, from: int) -> Option<int>
    decreases s.len() - from,
{
    if from >= s.len() {
        None
    } else if s[from] == EQUALS {
        Some(from)
    } else {
        cut_at(s, from + 1)
    }
}

/// Cuts a replacement, written `ARCHIVE_PATH=DISK_FILE`, at its first equals sign.
pub fn split_put(item: &str) -> (res: Option<(String, String)>)
    ensures
        match cut_at(encode_utf8(item@), 0) {
            Some(at) => {
                let s = encode_utf8(item@);
                &&& res matches Some(pair)
                &&& encode_utf8(pair.0@) == s.subrange(0, at)
                &&& encode_utf8(pair.1@) == s.subrange(at + 1, s.len() as int)
            },
            None => res is None,
        },
{
    let bytes: &[u8] = item.as_bytes();
    let ghost s = bytes@;
    let mut at: usize = 0;
    while at < bytes.len() && bytes[at] != EQUALS
        invariant
            s == bytes@,
            at <= s.len(),
            cut_at(s, 0) == cut_at(s, at as int),
        decreases s.len() - at,
    {
        at = at + 1;
    }
    if at == bytes.len() {
        return None;
    }
    proof {
        encode_utf8_valid_utf8(item@);
        crate::laws::paths::lemma_cut_text(s, 0, at as int);
        crate::laws::paths::lemma_cut_text(s, at + 1, s.len() as int);
    }
    let name: String = string_of(vstd::slice::slice_subrange(bytes, 0, at));
    let file: String = string_of(vstd::slice::slice_subrange(bytes, at + 1, bytes.len()));
    Some((name, file))
}

/// The stored bytes of the first `n` entries.
pub open spec fn stored_total(entries: Seq<EntryView>, n: int) -> int
    decreases n,
{
    if n <= 0 {
        0
    } else {
        stored_total(entries, n - 1) + entries[n - 1].stored_size
    }
}

/// The decoded bytes of the first `n` entries.
pub open spec fn decoded_total(entries: Seq<EntryView>, n: int) -> int
    decreases n,
{
    if n <= 0 {
        0
    } else {
        decoded_total(entries, n - 1) + entries[n - 1].size
    }
}

/// The stored and the decoded bytes of entries.
pub fn totals(entries: &[Entry]) -> (res: (u64, u64))
    requires
        entries@.len() <= u32::MAX,
    ensures
        res.0 == stored_total(entry_views(entries@), entries@.len() as int),
        res.1 == decoded_total(entry_views(entries@), entries@.len() as int),
{
    let ghost all = entry_views(entries@);
    let mut stored: u64 = 0;
    let mut decoded: u64 = 0;
    let mut i: usize = 0;
    while i < entries.len()
        invariant
            i <= entries@.len() <= u32::MAX,
            all == entry_views(entries@),
            stored == stored_total(all, i as int),
            decoded == decoded_total(all, i as int),
            stored <= i * u32::MAX,
            decoded <= i * u32::MAX,
        decreases entries@.len() - i,
    {
        assert(i * u32::MAX + u32::MAX <= u64::MAX) by (nonlinear_arith)
            requires
                i < u32::MAX,
        ;
        assert(all[i as int] == entries@[i as int]@);
        stored = stored + entries[i].stored_size as u64;
        decoded = decoded + entries[i].size as u64;
        i = i + 1;
    }
    (stored, decoded)
}

/// What is told of an archive.
pub open spec fn info(version: int, entries: Seq<EntryView>) -> Seq<Seq<char>> {
    let n = entries.len() as int;
    seq![
        "version: "@ + decimal(version),
        "files: "@ + digits(entries.len()),
        "stored bytes: "@ + digits(stored_total(entries, n) as nat),
        "decoded bytes: "@ + digits(decoded_total(entries, n) as nat),
    ]
}

/// The lines that tell of an archive.
pub fn info_lines(version: i32, entries: &[Entry]) -> (res: Vec<String>)
    requires
        entries@.len() <= u32::MAX,
    ensures
        lines(res@) == info(version as int, entry_views(entries@)),
{
    let (stored, decoded): (u64, u64) = totals(entries);
    let mut out: Vec<String> = Vec::with_capacity(4);
    out.push("version: ".to_owned().concat(decimal_of(version).as_str()));
    out.push("files: ".to_owned().concat(digits_of(entries.len() as u64).as_str()));
    out.push("stored bytes: ".to_owned().concat(digits_of(stored).as_str()));
    out.push("decoded bytes: ".to_owned().concat(digits_of(decoded).as_str()));
    assert(lines(out@) =~= info(version as int, entry_views(entries@)));
    out
}

/// The line that tells how many files something was done with.
pub fn done_line(done: &str, files: usize) -> (res: String)
    ensures
        res@ == done@ + " "@ + digits(files as nat) + " files"@,
{
    done.to_owned().concat(" ").concat(digits_of(files as u64).as_str()).concat(" files")
}

} // verus!
