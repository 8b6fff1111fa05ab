//! Little-endian integers in byte strings.

use vstd::prelude::*;

verus! {

/// The two bytes of a number modulo 65536, the low one first.
pub open spec fn le16(v: int) -> Seq<u8> {
    seq![(v % 256) as u8, (v / 256 % 256) as u8]
}

/// The four bytes of a number modulo 2 to the power 32, the low one first.
pub open spec fn le32(v: int) -> Seq<u8> {
    seq![
        (v % 256) as u8,
        (v / 256 % 256) as u8,
        (v / 0x1_0000 % 256) as u8,
        (v / 0x100_0000 % 256) as u8,
    ]
}

/// The unsigned number in the four bytes at a position.
pub open spec fn u32_at(s: Seq<u8>, at: int) -> int {
    s[at] + 256 * s[at + 1] + 0x1_0000 * s[at + 2] + 0x100_0000 * s[at + 3]
}

/// The signed number in the four bytes at a position.
pub open spec fn i32_at(s: Seq<u8>, at: int) -> int {
    let v = u32_at(s, at);
    if v >= 0x8000_0000 {
        v - 0x1_0000_0000
    } else {
        v
    }
}

/// The signed number in the two bytes at a position.
pub open spec fn i16_at(s: Seq<u8>, at: int) -> int {
    let v = s[at] + 256 * s[at + 1];
    if v >= 0x8000 {
        v - 0x1_0000
    } else {
        v
    }
}

/// The four bytes `part` stand in `s` at a position.
pub open spec fn holds_at(s: Seq<u8>, at: int, part: Seq<u8>) -> bool {
    &&& 0 <= at
    &&& at + part.len() <= s.len()
    &&& s.subrange(at, at + part.len()) == part
}

/// Numbers that differ by 2 to the power 32 have the same four bytes.
proof fn lemma_le32_wrap(v: int)
    ensures
        le32(v + 0x1_0000_0000) == le32(v),
{
    let w = v + 0x1_0000_0000;
    assert(w / 256 == v / 256 + 0x100_0000);
    assert(w / 0x1_0000 == v / 0x1_0000 + 0x1_0000);
    assert(w / 0x100_0000 == v / 0x100_0000 + 0x100);
    assert(w % 256 == v % 256);
    assert(w / 256 % 256 == v / 256 % 256);
    assert(w / 0x1_0000 % 256 == v / 0x1_0000 % 256);
    assert(w / 0x100_0000 % 256 == v / 0x100_0000 % 256);
}

/// The four bytes of a number, weighted, add up to it.
proof fn lemma_le32_sum(v: int)
    requires
        0 <= v < 0x1_0000_0000,
    ensures
        v % 256 + 256 * (v / 256 % 256) + 0x1_0000 * (v / 0x1_0000 % 256) + 0x100_0000 * (v
            / 0x100_0000 % 256) == v,
{
    let a = v / 256;
    let b = v / 0x1_0000;
    let c = v / 0x100_0000;
    assert(b == a / 256);
    assert(c == b / 256);
    assert(c % 256 == c);
    assert(v == 256 * a + v % 256);
    assert(a == 256 * b + a % 256);
    assert(b == 256 * c + b % 256);
}

/// An unsigned number is read back from its four bytes.
pub proof fn lemma_u32_read_back(s: Seq<u8>, at: int, v: int)
    requires
        holds_at(s, at, le32(v)),
        0 <= v < 0x1_0000_0000,
    ensures
        u32_at(s, at) == v,
{
    let part = s.subrange(at, at + 4);
    assert(part == le32(v));
    assert(s[at] == part[0] && s[at + 1] == part[1] && s[at + 2] == part[2] && s[at + 3]
        == part[3]);
    lemma_le32_sum(v);
}

/// A signed number is read back from its four bytes.
pub proof fn lemma_i32_read_back(s: Seq<u8>, at: int, v: int)
    requires
        holds_at(s, at, le32(v)),
        -0x8000_0000 <= v < 0x8000_0000,
    ensures
        i32_at(s, at) == v,
{
    if v < 0 {
        lemma_le32_wrap(v);
        lemma_u32_read_back(s, at, v + 0x1_0000_0000);
    } else {
        lemma_u32_read_back(s, at, v);
    }
}

/// A signed number is read back from its two bytes.
pub proof fn lemma_i16_read_back(s: Seq<u8>, at: int, v: int)
    requires
        holds_at(s, at, le16(v)),
        -0x8000 <= v < 0x8000,
    ensures
        i16_at(s, at) == v,
{
    let part = s.subrange(at, at + 2);
    assert(part == le16(v));
    assert(s[at] == part[0] && s[at + 1] == part[1]);
}

/// What stands in a part of `s` stands in `s`.
pub proof fn lemma_holds_in(s: Seq<u8>, at: int, part: Seq<u8>, inner: int, piece: Seq<u8>)
    requires
        holds_at(s, at, part),
        holds_at(part, inner, piece),
    ensures
        holds_at(s, at + inner, piece),
{
    assert(s.subrange(at + inner, at + inner + piece.len()) =~= part.subrange(
        inner,
        inner + piece.len(),
    ));
}

pub fn read_u32(s: &[u8], at: usize) -> (res: u32)
    requires
        at + 4 <= s@.len(),
    ensures
        res == u32_at(s@, at as int),
{
    s[at] as u32 + 256 * (s[at + 1] as u32) + 0x1_0000 * (s[at + 2] as u32) + 0x100_0000 * (s[at
        + 3] as u32)
}

pub fn read_i32(s: &[u8], at: usize) -> (res: i32)
    requires
        at + 4 <= s@.len(),
    ensures
        res == i32_at(s@, at as int),
{
    let v: u32 = read_u32(s, at);
    if v >= 0x8000_0000 {
        (v as i64 - 0x1_0000_0000) as i32
    } else {
        v as i32
    }
}

pub fn read_i16(s: &[u8], at: usize) -> (res: i16)
    requires
        at + 2 <= s@.len(),
    ensures
        res == i16_at(s@, at as int),
{
    let v: i32 = s[at] as i32 + 256 * (s[at + 1] as i32);
    if v >= 0x8000 {
        (v - 0x1_0000) as i16
    } else {
        v as i16
    }
}

pub fn push_u32(out: &mut Vec<u8>, v: u32)
    ensures
        final(out)@ == old(out)@ + le32(v as int),
{
    out.push((v % 256) as u8);
    out.push((v / 256 % 256) as u8);
    out.push((v / 0x1_0000 % 256) as u8);
    out.push((v / 0x100_0000 % 256) as u8);
    assert(out@ =~= old(out)@ + le32(v as int));
}

pub fn push_i32(out: &mut Vec<u8>, v: i32)
    ensures
        final(out)@ == old(out)@ + le32(v as int),
{
    let u: u32 = if v < 0 {
        (v as i64 + 0x1_0000_0000) as u32
    } else {
        v as u32
    };
    push_u32(out, u);
    proof {
        lemma_le32_wrap(v as int);
    }
}

pub fn push_i16(out: &mut Vec<u8>, v: i16)
    ensures
        final(out)@ == old(out)@ + le16(v as int),
{
    let u: i32 = if v < 0 {
        v as i32 + 0x1_0000
    } else {
        v as i32
    };
    out.push((u % 256) as u8);
    out.push((u / 256) as u8);
    assert(out@ =~= old(out)@ + le16(v as int));
}

/// Appends a byte string.
pub fn append(out: &mut Vec<u8>, part: &[u8]) -> (res: bool)
    ensures
        res,
        final(out)@ == old(out)@ + part@,
{
    out.extend_from_slice(part);
    assert(out@ =~= old(out)@ + part@);
    true
}

} // verus!
