//! What is shown, in numbers.

use crate::cli::{base_conflict, chosen_format, cut_at, decoded_total, stored_total};
use crate::entry::{EntryView, Format};
use crate::outline::{decoded_sum, stored_sum};
use crate::size::{nearest, rounded, scale, size_text, with_tenth};
use crate::text::{decimal, digit, digits, same_name};
use crate::transfer::{
    bytes_now, draws, files_now, next_state, percent, shown_path, writes, TransferReport,
    TransferState,
};
use crate::tree::lex_less;
use vstd::prelude::*;
use vstd::utf8::encode_utf8;

verus! {

/// The number that decimal digits spell, the highest first.
pub open spec fn spelled(s: Seq<char>) -> int
    decreases s.len(),
{
    if s.len() == 0 {
        0
    } else {
        10 * spelled(s.drop_last()) + (s.last() as u32 - 0x30)
    }
}

/// All characters are decimal digits.
pub open spec fn all_digits(s: Seq<char>) -> bool {
    forall|i: int| 0 <= i < s.len() ==> 0x30 <= (#[trigger] s[i]) as u32 <= 0x39
}

/// A number is written in decimal digits that spell it, without a zero in front of others.
pub proof fn lemma_digits(n: nat)
    ensures
        all_digits(digits(n)),
        spelled(digits(n)) == n,
        digits(n).len() > 0,
        digits(n).len() > 1 ==> digits(n)[0] != '0',
    decreases n,
{
    if n < 10 {
        let d = digits(n);
        assert(d.drop_last() =~= Seq::<char>::empty());
        assert(d.last() == digit(n));
        assert(spelled(d.drop_last()) == 0);
    } else {
        lemma_digits(n / 10);
        let d = digits(n);
        assert(d.drop_last() =~= digits(n / 10));
        assert(d.last() == digit(n % 10));
        assert(d[0] == digits(n / 10)[0]);
        if digits(n / 10).len() == 1 {
            assert(digits(n / 10).drop_last() =~= Seq::<char>::empty());
            assert(digits(n / 10).last() == digits(n / 10)[0]);
            assert(spelled(digits(n / 10).drop_last()) == 0);
        }
    }
}

/// A number below zero is written behind a minus sign, another as its digits.
pub proof fn lemma_decimal(n: int)
    ensures
        n >= 0 ==> all_digits(decimal(n)) && spelled(decimal(n)) == n,
        n < 0 ==> decimal(n)[0] == '-' && all_digits(decimal(n).drop_first()) && spelled(
            decimal(n).drop_first(),
        ) == -n,
{
    if n < 0 {
        reveal_strlit("-");
        lemma_digits((-n) as nat);
        assert(decimal(n).drop_first() =~= digits((-n) as nat));
        assert(decimal(n)[0] == "-"@[0]);
    } else {
        lemma_digits(n as nat);
    }
}

proof fn lemma_nearest(n: int, d: int)
    requires
        0 <= n,
        0 < d,
    ensures
        -d <= 2 * (nearest(n, d) * d - n) <= d,
        0 <= nearest(n, d),
        (nearest(n, d) * d - n) * 2 == d || (n - nearest(n, d) * d) * 2 == d ==> nearest(n, d) % 2
            == 0,
{
    let q = n / d;
    let r = n % d;
    vstd::arithmetic::div_mod::lemma_fundamental_div_mod(n, d);
    vstd::arithmetic::div_mod::lemma_mod_bound(n, d);
    vstd::arithmetic::div_mod::lemma_div_pos_is_pos(n, d);
    assert(d * q == q * d) by (nonlinear_arith);
    assert((q + 1) * d == q * d + d) by (nonlinear_arith);
}

proof fn lemma_scale(size: int, step: int)
    requires
        0 <= size,
        1 <= step,
        step == 1 || 0x10_0000_0000_0000 * step <= size,
    ensures
        ({
            let s = scale(size, step);
            &&& s >= 1
            &&& size < 0x20_0000_0000_0000 * s
            &&& s == 1 || 0x10_0000_0000_0000 * s <= size
        }),
    decreases size - step,
{
    if size >= 0x20_0000_0000_0000 * step {
        lemma_scale(size, 2 * step);
    }
}

/// A size that fits fifty-three bits is taken as it is; of a larger one not even that share is
/// lost or won.
pub proof fn lemma_rounded(size: int)
    requires
        0 <= size,
    ensures
        size < 0x20_0000_0000_0000 ==> rounded(size) == size,
        -size <= (rounded(size) - size) * 0x20_0000_0000_0000 <= size,
{
    lemma_scale(size, 1);
    let s = scale(size, 1);
    lemma_nearest(size, s);
    if size < 0x20_0000_0000_0000 {
        assert(s == 1);
        assert(nearest(size, 1) == size);
        assert(rounded(size) == size);
    } else {
        assert(s != 1);
    }
}

/// A text tells of a size in a unit: digits, a point, a digit and the name of the unit. It tells of
/// the tenths that are nearest.
pub open spec fn tells(text: Seq<char>, size: int, unit: int, name: Seq<char>) -> bool {
    exists|whole: nat, tenth: nat|
        {
            &&& tenth < 10
            &&& text == #[trigger] digits(whole) + seq!['.'] + #[trigger] digits(tenth) + name
            &&& -unit <= 2 * ((10 * whole + tenth) * unit - 10 * size) <= unit
        }
}

proof fn lemma_tenth(n: int, d: int, name: Seq<char>)
    requires
        0 <= n,
        0 < d,
    ensures
        tells(with_tenth(n, d) + name, n, d, name),
{
    lemma_nearest(10 * n, d);
    let tenths = nearest(10 * n, d);
    let whole = (tenths / 10) as nat;
    let tenth = (tenths % 10) as nat;
    reveal_strlit(".");
    assert("."@ =~= seq!['.']);
    assert(digits(tenth) =~= seq![digit(tenth)]);
    assert(10 * whole + tenth == tenths);
    assert(with_tenth(n, d) + name =~= digits(whole) + seq!['.'] + digits(tenth) + name);
}

/// A size is shown in the largest unit of which it makes at least one, each 1024 times the one
/// before, rounded to the nearest tenth; fewer than 1024 bytes are shown as they are.
pub proof fn lemma_size_text(size: int)
    requires
        0 <= size,
    ensures
        size < 1024 ==> size_text(size) == digits(size as nat) + " B"@,
        1024 <= size < 1024 * 1024 ==> tells(size_text(size), size, 1024, " KiB"@),
        1024 * 1024 <= size < 1024 * 1024 * 1024 ==> tells(
            size_text(size),
            size,
            0x10_0000,
            " MiB"@,
        ),
        1024 * 1024 * 1024 <= size < 1024 * 1024 * 1024 * 1024 ==> tells(
            size_text(size),
            size,
            0x4000_0000,
            " GiB"@,
        ),
        1024 * 1024 * 1024 * 1024 <= size ==> tells(
            size_text(size),
            rounded(size),
            0x100_0000_0000,
            " TiB"@,
        ),
{
    lemma_rounded(size);
    if size >= 1024 {
        let r = rounded(size);
        assert(r >= 0);
        lemma_tenth(r, 0x400, " KiB"@);
        lemma_tenth(r, 0x10_0000, " MiB"@);
        lemma_tenth(r, 0x4000_0000, " GiB"@);
        lemma_tenth(r, 0x100_0000_0000, " TiB"@);
    }
}

/// A path of at most 48 characters is shown as it is. Of a longer one an ellipsis and the end are
/// shown, 48 characters in all.
pub proof fn lemma_shown_path(path: Seq<char>)
    ensures
        path.len() <= 48 ==> shown_path(path) == path,
        path.len() > 48 ==> {
            &&& shown_path(path).len() == 48
            &&& shown_path(path)[0] == '\u{2026}'
            &&& forall|i: int|
                1 <= i < 48 ==> (#[trigger] shown_path(path)[i]) == path[path.len() - 48 + i]
        },
{
    reveal_strlit("…");
    if path.len() > 48 {
        let shown = shown_path(path);
        assert forall|i: int| 1 <= i < 48 implies (#[trigger] shown[i]) == path[path.len() - 48
            + i] by {
            assert(shown[i] == path.subrange(path.len() - 47, path.len() as int)[i - 1]);
        }
    }
}

/// Of the bytes, or of the files where there are no bytes, a transfer tells the hundredths that are
/// done, rounded down.
pub proof fn lemma_percent(state: TransferState, report: TransferReport)
    ensures
        ({
            let p = percent(state, report);
            let bytes = bytes_now(state, report);
            let files = files_now(state, report);
            &&& bytes >= report.bytes && bytes >= state.bytes_seen
            &&& bytes == report.bytes || bytes == state.bytes_seen
            &&& files >= report.completed && files >= state.files_seen
            &&& files == report.completed || files == state.files_seen
            &&& report.total_bytes > 0 && 100 * bytes < 0x1_0000_0000_0000_0000 ==> p
                * report.total_bytes <= 100 * bytes < (p + 1) * report.total_bytes
            &&& report.total_bytes == 0 && report.total_files > 0 ==> p * report.total_files <= 100
                * files < (p + 1) * report.total_files
            &&& report.total_bytes == 0 && report.total_files == 0 ==> p == 100 * files
        }),
{
    let bytes = bytes_now(state, report);
    let files = files_now(state, report);
    if report.total_bytes > 0 {
        lemma_quotient(100 * bytes, report.total_bytes as int);
        if 100 * bytes < 0x1_0000_0000_0000_0000 {
            assert(percent(state, report) == (100 * bytes) / report.total_bytes as int);
        }
    } else if report.total_files > 0 {
        lemma_quotient(100 * files, report.total_files as int);
        assert(percent(state, report) == (100 * files) / report.total_files as int);
    } else {
        assert(100 * files / 1 == 100 * files);
    }
}

proof fn lemma_quotient(n: int, d: int)
    requires
        0 < d,
    ensures
        (n / d) * d <= n < (n / d + 1) * d,
{
    vstd::arithmetic::div_mod::lemma_fundamental_div_mod(n, d);
    vstd::arithmetic::div_mod::lemma_mod_bound(n, d);
    let q = n / d;
    assert(d * q == q * d) by (nonlinear_arith);
    assert((q + 1) * d == q * d + d) by (nonlinear_arith);
}

/// The bar is drawn when it is time, behind another MiB, and when the last file is complete. Where
/// there is no bar a line is written whenever the percentage reaches the next multiple of ten, and
/// when the last file is complete.
pub proof fn lemma_shown_when(
    state: TransferState,
    report: TransferReport,
    due: bool,
    interactive: bool,
)
    ensures
        ({
            let last = files_now(state, report) == report.total_files && state.files_seen
                < report.total_files;
            let next = next_state(state, report, due, interactive);
            let p = percent(state, report);
            &&& draws(state, report, due) <==> (due || last || bytes_now(state, report)
                >= state.last_rendered_bytes + 1024 * 1024)
            &&& next.last_rendered_bytes == if draws(state, report, due) {
                bytes_now(state, report)
            } else {
                state.last_rendered_bytes as int
            }
            &&& writes(state, report, interactive) <==> (!interactive && (last || p
                >= state.next_report))
            &&& !writes(state, report, interactive) ==> next.next_report == state.next_report
            &&& writes(state, report, interactive) && p < 0x1000_0000_0000_0000 ==> next.next_report
                % 10 == 0 && p < next.next_report <= p + 10
        }),
{
    lemma_percent(state, report);
    let p = percent(state, report);
    assert(p >= 0) by {
        if report.total_bytes > 0 {
            vstd::arithmetic::div_mod::lemma_div_pos_is_pos(
                crate::transfer::hundredfold(bytes_now(state, report)),
                report.total_bytes as int,
            );
        } else if report.total_files > 0 {
            vstd::arithmetic::div_mod::lemma_div_pos_is_pos(
                files_now(state, report) * 100,
                report.total_files as int,
            );
        }
    }
}

/// A text is cut at its first equals sign, and only where it has one.
pub proof fn lemma_cut(s: Seq<u8>, from: int)
    requires
        0 <= from,
    ensures
        match cut_at(s, from) {
            Some(at) => from <= at < s.len() && s[at] == 0x3d && forall|i: int|
                from <= i < at ==> (#[trigger] s[i]) != 0x3d,
            None => forall|i: int| from <= i < s.len() ==> (#[trigger] s[i]) != 0x3d,
        },
    decreases s.len() - from,
{
    if from < s.len() && s[from] != 0x3d {
        lemma_cut(s, from + 1);
    }
}

/// Each entry adds its sizes to the totals, wherever it stands.
pub proof fn lemma_totals(entries: Seq<EntryView>, other: Seq<EntryView>)
    ensures
        ({
            let all = entries + other;
            &&& stored_total(all, all.len() as int) == stored_total(entries, entries.len() as int)
                + stored_total(other, other.len() as int)
            &&& decoded_total(all, all.len() as int) == decoded_total(
                entries,
                entries.len() as int,
            ) + decoded_total(other, other.len() as int)
        }),
        entries.len() == 1 ==> stored_total(entries, 1) == entries[0].stored_size && decoded_total(
            entries,
            1,
        ) == entries[0].size,
{
    reveal_with_fuel(stored_total, 2);
    reveal_with_fuel(decoded_total, 2);
    lemma_totals_upto(entries, other, entries.len() as int);
    lemma_totals_behind(entries, other, other.len() as int);
}

proof fn lemma_totals_upto(entries: Seq<EntryView>, other: Seq<EntryView>, n: int)
    requires
        0 <= n <= entries.len(),
    ensures
        stored_total(entries + other, n) == stored_total(entries, n),
        decoded_total(entries + other, n) == decoded_total(entries, n),
    decreases n,
{
    if n > 0 {
        lemma_totals_upto(entries, other, n - 1);
        assert((entries + other)[n - 1] == entries[n - 1]);
    }
}

proof fn lemma_totals_behind(entries: Seq<EntryView>, other: Seq<EntryView>, n: int)
    requires
        0 <= n <= other.len(),
    ensures
        stored_total(entries + other, entries.len() + n) == stored_total(
            entries,
            entries.len() as int,
        ) + stored_total(other, n),
        decoded_total(entries + other, entries.len() + n) == decoded_total(
            entries,
            entries.len() as int,
        ) + decoded_total(other, n),
    decreases n,
{
    if n > 0 {
        lemma_totals_behind(entries, other, n - 1);
        assert((entries + other)[entries.len() + n - 1] == other[n - 1]);
    } else {
        lemma_totals_upto(entries, other, entries.len() as int);
    }
}

/// One byte string comes before another where it is shorter and the other begins with it, or where
/// the first bytes that differ do.
pub proof fn lemma_lex(a: Seq<u8>, b: Seq<u8>, k: int)
    requires
        0 <= k <= a.len(),
        k <= b.len(),
        forall|i: int| 0 <= i < k ==> a[i] == #[trigger] b[i],
        k < a.len() && k < b.len() ==> a[k] != b[k],
    ensures
        lex_less(a, b) <==> k < b.len() && (k == a.len() || a[k] < b[k]),
    decreases k,
{
    if k > 0 {
        let c = a.drop_first();
        let d = b.drop_first();
        assert(a[0] == b[0]);
        assert forall|i: int| 0 <= i < k - 1 implies c[i] == #[trigger] d[i] by {
            assert(a[i + 1] == b[i + 1]);
        }
        lemma_lex(c, d, k - 1);
    }
}

/// The format that is asked for is chosen; else a file that ends in `obb`, in any case, is an Android
/// expansion file, and any other one for the PC.
pub proof fn lemma_chosen(asked: Option<Format>, extension: Option<Seq<char>>)
    ensures
        asked matches Some(format) ==> chosen_format(asked, extension) == format,
        asked is None ==> (chosen_format(asked, extension) == Format::Obb <==> (
        extension matches Some(text) && same_name(encode_utf8(text), encode_utf8("obb"@)))),
        asked is None ==> chosen_format(asked, extension) == Format::Obb || chosen_format(
            asked,
            extension,
        ) == Format::Pc,
{
}

/// An archive can be rebuilt where the format that is asked for is its own, and where an expansion
/// file comes of an expansion file. So one can always be rebuilt as what was chosen for it.
pub proof fn lemma_base(
    asked: Option<Format>,
    extension: Option<Seq<char>>,
    base: Option<Format>,
)
    ensures
        base_conflict(asked, extension, base) is None <==> (asked is None || asked == base) && (
        chosen_format(None, extension) == Format::Obb ==> base == Some(Format::Obb)),
        base_conflict(None, extension, Some(chosen_format(None, extension))) is None,
{
}

/// The bytes of members add up, wherever they stand.
pub proof fn lemma_sums(entries: Seq<EntryView>, a: Seq<int>, b: Seq<int>, n: int)
    requires
        0 <= n <= b.len(),
    ensures
        stored_sum(entries, a + b, a.len() + n) == stored_sum(entries, a, a.len() as int)
            + stored_sum(entries, b, n),
        decoded_sum(entries, a + b, a.len() + n) == decoded_sum(entries, a, a.len() as int)
            + decoded_sum(entries, b, n),
        b.len() == 1 && n == 1 ==> stored_sum(entries, b, 1) == entries[b[0]].stored_size
            && decoded_sum(entries, b, 1) == entries[b[0]].size,
    decreases n,
{
    reveal_with_fuel(stored_sum, 2);
    reveal_with_fuel(decoded_sum, 2);
    if n > 0 {
        lemma_sums(entries, a, b, n - 1);
        assert((a + b)[a.len() + n - 1] == b[n - 1]);
    } else {
        lemma_sums_front(entries, a, b, a.len() as int);
    }
}

proof fn lemma_sums_front(entries: Seq<EntryView>, a: Seq<int>, b: Seq<int>, n: int)
    requires
        0 <= n <= a.len(),
    ensures
        stored_sum(entries, a + b, n) == stored_sum(entries, a, n),
        decoded_sum(entries, a + b, n) == decoded_sum(entries, a, n),
    decreases n,
{
    if n > 0 {
        lemma_sums_front(entries, a, b, n - 1);
        assert((a + b)[n - 1] == a[n - 1]);
    }
}

} // verus!
