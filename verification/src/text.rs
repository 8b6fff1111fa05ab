//! Archive paths and the text of messages.

use crate::error::{fails, input, ErrorView, Result};
use vstd::prelude::*;
use vstd::utf8::{
    decode_utf8, encode_utf8, encode_utf8_valid_utf8, length_of_first_scalar, pop_first_scalar,
    valid_first_scalar, valid_utf8,
};

verus! {

pub const BACKSLASH: u8 = 0x5c;

pub const SLASH: u8 = 0x2f;

pub const DOT: u8 = 0x2e;

pub const COLON: u8 = 0x3a;

/// The error of `std::str::from_utf8`, of which nothing is looked at.
#[verifier::external_type_specification]
#[verifier::external_body]
pub struct ExUtf8Error(core::str::Utf8Error);

/// `std::str::from_utf8` takes exactly the well-formed UTF-8 sequences, and the text it gives
/// has the very bytes that it was handed.
pub assume_specification[ core::str::from_utf8 ](v: &[u8]) -> (res: core::result::Result<
    &str,
    core::str::Utf8Error,
>)
    ensures
        res is Ok <==> valid_utf8(v@),
        res matches Ok(text) ==> encode_utf8(text@) == v@,
;

/// ASCII letters in upper case.
pub open spec fn upper_byte(b: u8) -> u8 {
    if 0x61 <= b <= 0x7a {
        (b - 0x20) as u8
    } else {
        b
    }
}

/// A byte string with its ASCII letters in upper case.
pub open spec fn upper(s: Seq<u8>) -> Seq<u8> {
    Seq::new(s.len(), |i: int| upper_byte(s[i]))
}

/// The two byte strings differ at most in the case of ASCII letters.
pub open spec fn same_name(a: Seq<u8>, b: Seq<u8>) -> bool {
    upper(a) == upper(b)
}

/// The game's hash of a path, blind to the case of ASCII letters.
pub open spec fn path_hash(s: Seq<u8>) -> u32
    decreases s.len(),
{
    if s.len() == 0 {
        0x811c_9dc5
    } else {
        (path_hash(s.drop_last()) ^ (upper_byte(s.last()) as u32)).wrapping_mul(0x19_9933)
    }
}

/// A path with every slash turned into a backslash.
pub open spec fn backslashed(s: Seq<u8>) -> Seq<u8> {
    Seq::new(
        s.len(),
        |i: int|
            if s[i] == SLASH {
                BACKSLASH
            } else {
                s[i]
            },
    )
}

/// Where the first backslash at or behind `from` stands; the length where there is none.
pub open spec fn next_separator(s: Seq<u8>, from: int) -> int
    decreases s.len() - from,
{
    if from >= s.len() {
        s.len() as int
    } else if s[from] == BACKSLASH {
        from
    } else {
        next_separator(s, from + 1)
    }
}

/// The components of the path from `from` on.
pub open spec fn parts_from(s: Seq<u8>, from: int) -> Seq<Seq<u8>>
    decreases s.len() - from,
{
    let end = next_separator(s, from);
    if end >= s.len() || end < from {
        seq![s.subrange(from, s.len() as int)]
    } else {
        seq![s.subrange(from, end)] + parts_from(s, end + 1)
    }
}

/// The components of a path.
pub open spec fn parts(s: Seq<u8>) -> Seq<Seq<u8>> {
    parts_from(s, 0)
}

/// Components that no path may have.
pub open spec fn bad_part(part: Seq<u8>) -> bool {
    part.len() == 0 || part == seq![DOT] || part == seq![DOT, DOT]
}

/// What `normalize` makes of a path.
pub open spec fn normalized(path: Seq<u8>) -> core::result::Result<Seq<u8>, ErrorView> {
    let s = backslashed(path);
    if s.len() == 0 || s[0] == BACKSLASH || s.contains(COLON) || s.contains(0) {
        Err(ErrorView::InvalidInput("invalid archive path"@))
    } else if exists|i: int| 0 <= i < parts(s).len() && bad_part(#[trigger] parts(s)[i]) {
        Err(ErrorView::InvalidInput("invalid archive path component"@))
    } else {
        Ok(s)
    }
}

/// Replacing ASCII bytes by ASCII bytes leaves a text well-formed.
pub proof fn lemma_ascii_map_valid(s: Seq<u8>, t: Seq<u8>)
    requires
        valid_utf8(s),
        s.len() == t.len(),
        forall|i: int| 0 <= i < s.len() && s[i] >= 0x80 ==> t[i] == #[trigger] s[i],
        forall|i: int| 0 <= i < s.len() && #[trigger] s[i] < 0x80 ==> t[i] < 0x80,
    ensures
        valid_utf8(t),
    decreases s.len(),
{
    if s.len() > 0 {
        let n = length_of_first_scalar(s);
        assert(valid_first_scalar(t));
        assert(length_of_first_scalar(t) == n);
        lemma_ascii_map_valid(pop_first_scalar(s), pop_first_scalar(t));
    }
}

/// An ASCII byte is a text.
pub proof fn lemma_ascii_text(b: u8)
    requires
        b < 0x80,
    ensures
        valid_utf8(seq![b]),
{
    let s = seq![b];
    assert(s[0] == b);
    assert(valid_first_scalar(s));
    assert(pop_first_scalar(s) =~= Seq::<u8>::empty());
    assert(valid_utf8(Seq::<u8>::empty()));
}

/// Names that differ only in case have the same hash.
pub proof fn lemma_same_name_hash(a: Seq<u8>, b: Seq<u8>)
    requires
        same_name(a, b),
    ensures
        path_hash(a) == path_hash(b),
    decreases a.len(),
{
    assert(a.len() == upper(a).len() && b.len() == upper(b).len());
    if a.len() > 0 {
        assert(upper(a)[a.len() - 1] == upper(b)[b.len() - 1]);
        assert(upper(a.drop_last()) =~= upper(a).drop_last());
        assert(upper(b.drop_last()) =~= upper(b).drop_last());
        lemma_same_name_hash(a.drop_last(), b.drop_last());
    }
}

pub proof fn lemma_next_separator(s: Seq<u8>, from: int)
    requires
        0 <= from <= s.len(),
    ensures
        from <= next_separator(s, from) <= s.len(),
        next_separator(s, from) < s.len() ==> s[next_separator(s, from)] == BACKSLASH,
        forall|i: int| from <= i < next_separator(s, from) ==> s[i] != BACKSLASH,
    decreases s.len() - from,
{
    if from < s.len() && s[from] != BACKSLASH {
        lemma_next_separator(s, from + 1);
    }
}

/// The contents of byte vectors.
pub open spec fn views(v: Seq<Vec<u8>>) -> Seq<Seq<u8>> {
    Seq::new(v.len(), |i: int| v[i]@)
}

/// A string with exactly these bytes.
pub fn string_of(bytes: &[u8]) -> (res: String)
    requires
        valid_utf8(bytes@),
    ensures
        encode_utf8(res@) == bytes@,
        res@ == decode_utf8(bytes@),
{
    proof {
        broadcast use vstd::utf8::encode_utf8_decode_utf8;

    }
    match core::str::from_utf8(bytes) {
        Ok(text) => {
            assert(decode_utf8(encode_utf8(text@)) == text@);
            text.to_owned()
        },
        Err(_) => String::new(),
    }
}

pub fn to_upper_byte(b: u8) -> (res: u8)
    ensures
        res == upper_byte(b),
{
    if 0x61 <= b && b <= 0x7a {
        b - 0x20
    } else {
        b
    }
}

/// The byte string with its ASCII letters in upper case.
pub fn to_upper(s: &[u8]) -> (res: Vec<u8>)
    ensures
        res@ == upper(s@),
{
    let mut res: Vec<u8> = Vec::with_capacity(s.len());
    let mut i: usize = 0;
    while i < s.len()
        invariant
            i <= s@.len(),
            res@ =~= upper(s@).take(i as int),
        decreases s@.len() - i,
    {
        res.push(to_upper_byte(s[i]));
        i = i + 1;
    }
    assert(upper(s@).take(i as int) =~= upper(s@));
    res
}

/// Whether the two byte strings differ at most in the case of ASCII letters.
pub fn eq_ignore_case(a: &[u8], b: &[u8]) -> (res: bool)
    ensures
        res == same_name(a@, b@),
{
    if a.len() != b.len() {
        assert(upper(a@).len() != upper(b@).len());
        return false;
    }
    let mut i: usize = 0;
    while i < a.len()
        invariant
            a@.len() == b@.len(),
            i <= a@.len(),
            forall|j: int| 0 <= j < i ==> upper_byte(a@[j]) == #[trigger] upper_byte(b@[j]),
        decreases a@.len() - i,
    {
        if to_upper_byte(a[i]) != to_upper_byte(b[i]) {
            assert(upper(a@)[i as int] != upper(b@)[i as int]);
            return false;
        }
        i = i + 1;
    }
    assert(upper(a@) =~= upper(b@));
    true
}

/// Whether the two byte strings are the same.
pub fn eq_bytes(a: &[u8], b: &[u8]) -> (res: bool)
    ensures
        res == (a@ == b@),
{
    if a.len() != b.len() {
        return false;
    }
    let mut i: usize = 0;
    while i < a.len()
        invariant
            a@.len() == b@.len(),
            i <= a@.len(),
            forall|j: int| 0 <= j < i ==> a@[j] == b@[j],
        decreases a@.len() - i,
    {
        if a[i] != b[i] {
            return false;
        }
        i = i + 1;
    }
    assert(a@ =~= b@);
    true
}

/// The game's hash of a path given as bytes.
pub fn hash_bytes(s: &[u8]) -> (res: u32)
    ensures
        res == path_hash(s@),
{
    let mut hash: u32 = 0x811c_9dc5;
    let mut i: usize = 0;
    assert(s@.take(0) =~= Seq::<u8>::empty());
    while i < s.len()
        invariant
            i <= s@.len(),
            hash == path_hash(s@.take(i as int)),
        decreases s@.len() - i,
    {
        assert(s@.take(i + 1).drop_last() =~= s@.take(i as int));
        hash = (hash ^ (to_upper_byte(s[i]) as u32)).wrapping_mul(0x19_9933);
        i = i + 1;
    }
    assert(s@.take(i as int) =~= s@);
    hash
}

/// The game's case-insensitive hash of a path.
pub fn name_hash(path: &str) -> (res: u32)
    ensures
        res == path_hash(encode_utf8(path@)),
{
    hash_bytes(path.as_bytes())
}

/// The components of a path.
pub fn split(s: &[u8]) -> (res: Vec<Vec<u8>>)
    ensures
        views(res@) == parts(s@),
{
    let ghost p = s@;
    let mut res: Vec<Vec<u8>> = Vec::new();
    let mut from: usize = 0;
    assert(views(res@) + parts_from(p, 0) =~= parts(p));
    loop
        invariant
            p == s@,
            from <= p.len(),
            views(res@) + parts_from(p, from as int) == parts(p),
        decreases p.len() - from,
    {
        let mut end: usize = from;
        while end < s.len() && s[end] != BACKSLASH
            invariant
                p == s@,
                from <= end <= p.len(),
                next_separator(p, from as int) == next_separator(p, end as int),
            decreases p.len() - end,
        {
            end = end + 1;
        }
        let part: Vec<u8> = vstd::slice::slice_to_vec(
            vstd::slice::slice_subrange(s, from, end),
        );
        let ghost before = views(res@);
        res.push(part);
        assert(views(res@) =~= before.push(p.subrange(from as int, end as int)));
        if end >= s.len() {
            assert(views(res@) =~= parts(p));
            return res;
        }
        assert(views(res@) + parts_from(p, end + 1) =~= before + (seq![
            p.subrange(from as int, end as int),
        ] + parts_from(p, end + 1)));
        from = end + 1;
    }
}

fn is_bad_part(part: &Vec<u8>) -> (res: bool)
    ensures
        res == bad_part(part@),
{
    let n: usize = part.len();
    proof {
        if n == 1 && part@[0] == DOT {
            assert(part@ =~= seq![DOT]);
        }
        if n == 2 && part@[0] == DOT && part@[1] == DOT {
            assert(part@ =~= seq![DOT, DOT]);
        }
        assert(seq![DOT].len() == 1 && seq![DOT, DOT].len() == 2);
    }
    n == 0 || (n == 1 && part[0] == DOT) || (n == 2 && part[0] == DOT && part[1] == DOT)
}

/// Checks an archive path and turns its slashes into backslashes.
pub fn normalize(path: &str) -> (res: Result<String>)
    ensures
        match normalized(encode_utf8(path@)) {
            Ok(s) => res matches Ok(text) && encode_utf8(text@) == s,
            Err(e) => fails(res, e),
        },
{
    let bytes: &[u8] = path.as_bytes();
    let ghost s = backslashed(bytes@);
    let mut out: Vec<u8> = Vec::with_capacity(bytes.len());
    let mut i: usize = 0;
    let mut forbidden: bool = false;
    while i < bytes.len()
        invariant
            i <= bytes@.len(),
            s == backslashed(bytes@),
            out@ =~= s.take(i as int),
            forbidden == exists|j: int| 0 <= j < i && (#[trigger] s[j] == COLON || s[j] == 0),
        decreases bytes@.len() - i,
    {
        let b: u8 = if bytes[i] == SLASH {
            BACKSLASH
        } else {
            bytes[i]
        };
        assert(s[i as int] == b);
        if b == COLON || b == 0 {
            forbidden = true;
        }
        out.push(b);
        i = i + 1;
    }
    assert(out@ =~= s);
    proof {
        if s.contains(COLON) {
            let j = choose|j: int| 0 <= j < s.len() && s[j] == COLON;
            assert(s[j] == COLON);
        }
        if s.contains(0) {
            let j = choose|j: int| 0 <= j < s.len() && s[j] == 0;
            assert(s[j] == 0);
        }
        if forbidden {
            let j = choose|j: int| 0 <= j < s.len() && (#[trigger] s[j] == COLON || s[j] == 0);
            assert(s.contains(s[j]));
        }
    }
    if out.len() == 0 || out[0] == BACKSLASH || forbidden {
        return Err(input("invalid archive path"));
    }
    let pieces: Vec<Vec<u8>> = split(out.as_slice());
    let mut k: usize = 0;
    while k < pieces.len()
        invariant
            k <= pieces@.len(),
            views(pieces@) == parts(s),
            normalized(encode_utf8(path@)) == (if exists|j: int|
                0 <= j < parts(s).len() && bad_part(#[trigger] parts(s)[j]) {
                Err(ErrorView::InvalidInput("invalid archive path component"@))
            } else {
                Ok(s)
            }),
            forall|j: int| 0 <= j < k ==> !bad_part(#[trigger] parts(s)[j]),
        decreases pieces@.len() - k,
    {
        assert(views(pieces@)[k as int] == pieces@[k as int]@);
        if is_bad_part(&pieces[k]) {
            assert(bad_part(parts(s)[k as int]));
            return Err(input("invalid archive path component"));
        }
        k = k + 1;
    }
    assert(views(pieces@).len() == pieces@.len());
    proof {
        encode_utf8_valid_utf8(path@);
        lemma_ascii_map_valid(bytes@, s);
    }
    Ok(string_of(out.as_slice()))
}

/// A path with every backslash turned into a slash.
pub open spec fn slashed(s: Seq<u8>) -> Seq<u8> {
    Seq::new(
        s.len(),
        |i: int|
            if s[i] == BACKSLASH {
                SLASH
            } else {
                s[i]
            },
    )
}

/// The path with every backslash turned into a slash.
pub fn to_slashes(path: &str) -> (res: String)
    ensures
        encode_utf8(res@) == slashed(encode_utf8(path@)),
{
    let bytes: &[u8] = path.as_bytes();
    let ghost s = slashed(bytes@);
    let mut out: Vec<u8> = Vec::with_capacity(bytes.len());
    let mut i: usize = 0;
    while i < bytes.len()
        invariant
            i <= bytes@.len(),
            s == slashed(bytes@),
            out@ =~= s.take(i as int),
        decreases bytes@.len() - i,
    {
        out.push(
            if bytes[i] == BACKSLASH {
                SLASH
            } else {
                bytes[i]
            },
        );
        i = i + 1;
    }
    assert(out@ =~= s);
    proof {
        encode_utf8_valid_utf8(path@);
        lemma_ascii_map_valid(bytes@, s);
    }
    string_of(out.as_slice())
}

/// What follows the last dot of the last component, if it has a dot.
pub open spec fn extension(s: Seq<u8>) -> Option<Seq<u8>>
    decreases s.len(),
{
    if s.len() == 0 || s.last() == BACKSLASH {
        None
    } else if s.last() == DOT {
        Some(Seq::empty())
    } else {
        match extension(s.drop_last()) {
            None => None,
            Some(e) => Some(e.push(s.last())),
        }
    }
}

/// The extension is one of those listed, in upper or lower case.
pub open spec fn has_extension(path: Seq<u8>, known: Seq<Seq<char>>) -> bool {
    extension(path) matches Some(e) && exists|i: int|
        0 <= i < known.len() && same_name(e, encode_utf8(#[trigger] known[i]))
}

pub proof fn lemma_extension_none(s: Seq<u8>, at: int)
    requires
        0 <= at <= s.len(),
        forall|i: int| at <= i < s.len() ==> s[i] != DOT && s[i] != BACKSLASH,
        at > 0 ==> s[at - 1] == BACKSLASH,
    ensures
        extension(s) is None,
    decreases s.len() - at,
{
    if at < s.len() {
        lemma_extension_none(s.drop_last(), at);
    }
}

pub proof fn lemma_extension_some(s: Seq<u8>, at: int)
    requires
        0 < at <= s.len(),
        forall|i: int| at <= i < s.len() ==> s[i] != DOT && s[i] != BACKSLASH,
        s[at - 1] == DOT,
    ensures
        extension(s) == Some(s.subrange(at, s.len() as int)),
    decreases s.len() - at,
{
    if at < s.len() {
        lemma_extension_some(s.drop_last(), at);
        assert(s.drop_last().subrange(at, s.len() - 1).push(s.last()) =~= s.subrange(
            at,
            s.len() as int,
        ));
    } else {
        assert(s.subrange(at, s.len() as int) =~= Seq::<u8>::empty());
    }
}

/// The contents of string slices.
pub open spec fn texts(v: Seq<&str>) -> Seq<Seq<char>> {
    Seq::new(v.len(), |i: int| v[i]@)
}

/// Whether the path's extension is one of those listed.
pub fn extension_in(path: &str, known: &[&str]) -> (res: bool)
    ensures
        res == has_extension(encode_utf8(path@), texts(known@)),
{
    let bytes: &[u8] = path.as_bytes();
    let ghost s = bytes@;
    let mut at: usize = bytes.len();
    while at > 0 && bytes[at - 1] != DOT && bytes[at - 1] != BACKSLASH
        invariant
            s == bytes@,
            at <= s.len(),
            forall|i: int| at <= i < s.len() ==> s[i] != DOT && s[i] != BACKSLASH,
        decreases at,
    {
        at = at - 1;
    }
    if at == 0 || bytes[at - 1] == BACKSLASH {
        proof {
            lemma_extension_none(s, at as int);
        }
        return false;
    }
    proof {
        lemma_extension_some(s, at as int);
    }
    let ending: &[u8] = vstd::slice::slice_subrange(bytes, at, bytes.len());
    let mut i: usize = 0;
    while i < known.len()
        invariant
            i <= known@.len(),
            extension(s) == Some(ending@),
            s == encode_utf8(path@),
            forall|j: int|
                0 <= j < i ==> !same_name(ending@, encode_utf8(#[trigger] texts(known@)[j])),
        decreases known@.len() - i,
    {
        let name: &str = known[i];
        assert(texts(known@)[i as int] == name@);
        if eq_ignore_case(ending, name.as_bytes()) {
            return true;
        }
        i = i + 1;
    }
    false
}

/// The decimal digits of a number.
pub open spec fn digits(n: nat) -> Seq<char>
    decreases n,
{
    if n < 10 {
        seq![digit(n)]
    } else {
        digits(n / 10).push(digit(n % 10))
    }
}

pub open spec fn digit(n: nat) -> char {
    if n == 0 {
        '0'
    } else if n == 1 {
        '1'
    } else if n == 2 {
        '2'
    } else if n == 3 {
        '3'
    } else if n == 4 {
        '4'
    } else if n == 5 {
        '5'
    } else if n == 6 {
        '6'
    } else if n == 7 {
        '7'
    } else if n == 8 {
        '8'
    } else {
        '9'
    }
}

/// A number in decimal, with a sign where it is negative.
pub open spec fn decimal(n: int) -> Seq<char> {
    if n < 0 {
        "-"@ + digits((-n) as nat)
    } else {
        digits(n as nat)
    }
}

fn digit_text(n: u64) -> (res: &'static str)
    requires
        n < 10,
    ensures
        res@ == seq![digit(n as nat)],
{
    proof {
        reveal_strlit("0");
        reveal_strlit("1");
        reveal_strlit("2");
        reveal_strlit("3");
        reveal_strlit("4");
        reveal_strlit("5");
        reveal_strlit("6");
        reveal_strlit("7");
        reveal_strlit("8");
        reveal_strlit("9");
    }
    let res: &'static str = if n == 0 {
        "0"
    } else if n == 1 {
        "1"
    } else if n == 2 {
        "2"
    } else if n == 3 {
        "3"
    } else if n == 4 {
        "4"
    } else if n == 5 {
        "5"
    } else if n == 6 {
        "6"
    } else if n == 7 {
        "7"
    } else if n == 8 {
        "8"
    } else {
        "9"
    };
    assert(res@ =~= seq![digit(n as nat)]);
    res
}

/// A number in decimal.
pub fn digits_of(n: u64) -> (res: String)
    ensures
        res@ == digits(n as nat),
    decreases n,
{
    if n < 10 {
        digit_text(n).to_owned()
    } else {
        let res: String = digits_of(n / 10).concat(digit_text(n % 10));
        assert(res@ =~= digits(n as nat));
        res
    }
}

/// A number in decimal, with a sign where it is negative.
pub fn decimal_of(n: i32) -> (res: String)
    ensures
        res@ == decimal(n as int),
{
    if n < 0 {
        let magnitude: u64 = (-(n as i64)) as u64;
        "-".to_owned().concat(digits_of(magnitude).as_str())
    } else {
        digits_of(n as u64)
    }
}

} // verus!
