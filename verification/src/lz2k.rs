//! The LZ2K codec: LZ77 tokens behind canonical Huffman codes.

pub mod encoder;
pub mod matches;
pub mod refusals;
pub mod roundtrip;
pub mod tables;
pub mod trailing;

use crate::bits::{be_value, lemma_be_value_bound, stream, take_bits, Bits};
use crate::error::CodecError;
use crate::huffman::{code_from, read_symbol, Code, Huffman};
use vstd::arithmetic::power2::{lemma2_to64, lemma_pow2_strictly_increases, pow2};
use vstd::prelude::*;

verus! {

/// Literal and length symbols: the bytes, then match lengths from three on.
pub const LITERAL_SYMBOLS: usize = 510;

/// Symbols of the code that spells the literal code's lengths.
pub const LENGTH_SYMBOLS: usize = 19;

/// Distance classes.
pub const OFFSET_SYMBOLS: usize = 14;

/// A match symbol stands for its length plus this.
pub const MATCH_BASE: usize = 0xfd;

pub fn invalid(message: &'static str) -> (res: CodecError)
    ensures
        res.message@ == message@,
{
    CodecError { message }
}

/// A code length of seven or more: a one bit more for each unit above seven, then a zero bit.
pub open spec fn long_length(s: Seq<bool>, pos: int, value: nat, offset: int) -> Result<
    (nat, int),
    Seq<char>,
>
    decreases 17 - offset,
{
    match take_bits(s, pos, offset + 1) {
        Err(e) => Err(e),
        Ok((w, end)) => if w % 2 == 1 {
            if offset + 1 > 16 {
                Err("LZ2K code length overflow"@)
            } else {
                long_length(s, pos, value + 1, offset + 1)
            }
        } else {
            Ok((value, end))
        },
    }
}

/// One code length: three bits, or a longer form that begins with three one bits.
pub open spec fn read_length(s: Seq<bool>, pos: int) -> Result<(nat, int), Seq<char>> {
    match take_bits(s, pos, 3) {
        Err(e) => Err(e),
        Ok((v, end)) => if v == 7 {
            long_length(s, pos, 7, 3)
        } else {
            Ok((v, end))
        },
    }
}

/// The code lengths of symbols `i..n`; behind symbol `zero_after` a two-bit count of unused ones.
pub open spec fn offset_lengths(
    s: Seq<bool>,
    pos: int,
    lengths: Seq<u8>,
    i: int,
    n: int,
    zero_after: Option<usize>,
) -> Result<(Seq<u8>, int), Seq<char>>
    decreases (if i < n { n - i } else { 0 }),
{
    if i >= n {
        Ok((lengths, pos))
    } else {
        match read_length(s, pos) {
            Err(e) => Err(e),
            Ok((v, p)) => {
                let next = lengths.update(i, v as u8);
                if zero_after matches Some(z) && z == i + 1 {
                    match take_bits(s, p, 2) {
                        Err(e) => Err(e),
                        Ok((zeros, q)) => if i + 1 + zeros > lengths.len() {
                            Err("LZ2K offset table overflow"@)
                        } else {
                            offset_lengths(s, q, next, i + 1 + zeros, n, zero_after)
                        },
                    }
                } else {
                    offset_lengths(s, p, next, i + 1, n, zero_after)
                }
            },
        }
    }
}

pub open spec fn zeros(n: nat) -> Seq<u8> {
    Seq::new(n, |i: int| 0u8)
}

/// A code whose lengths are spelled directly.
pub open spec fn offset_code(
    s: Seq<bool>,
    pos: int,
    size: int,
    count_bits: int,
    zero_after: Option<usize>,
) -> Result<(Code, int), Seq<char>> {
    match take_bits(s, pos, count_bits) {
        Err(e) => Err(e),
        Ok((n, p)) => if n == 0 {
            match take_bits(s, p, count_bits) {
                Err(e) => Err(e),
                Ok((v, q)) => Ok((Code::Constant(v as u16), q)),
            }
        } else if n > size {
            Err("LZ2K offset table is too large"@)
        } else {
            match offset_lengths(s, p, zeros(size as nat), 0, n as int, zero_after) {
                Err(e) => Err(e),
                Ok((lengths, q)) => match code_from(lengths) {
                    Err(e) => Err(e),
                    Ok(code) => Ok((code, q)),
                },
            }
        },
    }
}

/// How many symbols a run symbol skips.
pub open spec fn read_run(s: Seq<bool>, pos: int, value: u16) -> Result<(nat, int), Seq<char>> {
    if value == 0 {
        Ok((1, pos))
    } else {
        match take_bits(s, pos, if value == 1 {
            4
        } else {
            9
        }) {
            Err(e) => Err(e),
            Ok((v, p)) => Ok((v + (if value == 1 {
                3nat
            } else {
                20nat
            }), p)),
        }
    }
}

/// The code lengths of symbols `i..n`, spelled in the code `code_lengths`.
pub open spec fn literal_lengths(
    s: Seq<bool>,
    pos: int,
    code_lengths: Code,
    lengths: Seq<u8>,
    i: int,
    n: int,
) -> Result<(Seq<u8>, int), Seq<char>>
    decreases (if i < n { n - i } else { 0 }),
{
    if i >= n {
        Ok((lengths, pos))
    } else {
        match read_symbol(code_lengths, s, pos) {
            Err(e) => Err(e),
            Ok((value, p)) => if value < 3 {
                match read_run(s, p, value) {
                    Err(e) => Err(e),
                    Ok((skip, q)) => if i + skip > LITERAL_SYMBOLS {
                        Err("LZ2K literal table overflow"@)
                    } else {
                        literal_lengths(s, q, code_lengths, lengths, i + skip, n)
                    },
                }
            } else {
                literal_lengths(
                    s,
                    p,
                    code_lengths,
                    lengths.update(i, (value - 2) as u8),
                    i + 1,
                    n,
                )
            },
        }
    }
}

/// The literal code, whose lengths are spelled in the code `code_lengths`.
pub open spec fn literal_code(s: Seq<bool>, pos: int, code_lengths: Code) -> Result<
    (Code, int),
    Seq<char>,
> {
    match take_bits(s, pos, 9) {
        Err(e) => Err(e),
        Ok((n, p)) => if n == 0 {
            match take_bits(s, p, 9) {
                Err(e) => Err(e),
                Ok((v, q)) => Ok((Code::Constant(v as u16), q)),
            }
        } else if n > LITERAL_SYMBOLS {
            Err("LZ2K literal table is too large"@)
        } else {
            match literal_lengths(s, p, code_lengths, zeros(LITERAL_SYMBOLS as nat), 0, n as int) {
                Err(e) => Err(e),
                Ok((lengths, q)) => match code_from(lengths) {
                    Err(e) => Err(e),
                    Ok(code) => Ok((code, q)),
                },
            }
        },
    }
}

/// What stands at the start of a block: its token count, the literal code, the distance code.
#[verifier::opaque]
pub open spec fn block_header(s: Seq<bool>, pos: int) -> Result<(nat, Code, Code, int), Seq<char>> {
    match take_bits(s, pos, 16) {
        Err(e) => Err(e),
        Ok((count, p)) => if count == 0 {
            Err("empty LZ2K block"@)
        } else {
            match offset_code(s, p, LENGTH_SYMBOLS as int, 5, Some(3)) {
                Err(e) => Err(e),
                Ok((code_lengths, q)) => match literal_code(s, q, code_lengths) {
                    Err(e) => Err(e),
                    Ok((literals, r)) => match offset_code(s, r, OFFSET_SYMBOLS as int, 4, None) {
                        Err(e) => Err(e),
                        Ok((offsets, t)) => Ok((count, literals, offsets, t)),
                    },
                },
            }
        },
    }
}

/// `out` with `count` more bytes, each a copy of the one `distance` before it.
pub open spec fn copy_back(out: Seq<u8>, distance: int, count: nat) -> Seq<u8>
    decreases count,
{
    if count == 0 {
        out
    } else {
        copy_back(out.push(out[out.len() - distance]), distance, (count - 1) as nat)
    }
}

/// The distance, less one, of the class `class`.
pub open spec fn read_offset(s: Seq<bool>, pos: int, class: u16) -> Result<(nat, int), Seq<char>> {
    if class == 0 {
        Ok((0, pos))
    } else {
        match take_bits(s, pos, class - 1) {
            Err(e) => Err(e),
            Ok((v, p)) => Ok((pow2((class - 1) as nat) + v, p)),
        }
    }
}

/// `out` with what the token at `pos` adds to it, where `n` bytes are due in all.
#[verifier::opaque]
pub open spec fn read_token(
    s: Seq<bool>,
    pos: int,
    literals: Code,
    offsets: Code,
    out: Seq<u8>,
    n: int,
) -> Result<(Seq<u8>, int), Seq<char>> {
    match read_symbol(literals, s, pos) {
        Err(e) => Err(e),
        Ok((symbol, p)) => if symbol < 256 {
            Ok((out.push(symbol as u8), p))
        } else {
            match read_symbol(offsets, s, p) {
                Err(e) => Err(e),
                Ok((class, q)) => match read_offset(s, q, class) {
                    Err(e) => Err(e),
                    Ok((offset, r)) => if offset + 1 > out.len() || symbol - MATCH_BASE > n
                        - out.len() {
                        Err("invalid LZ2K back-reference"@)
                    } else {
                        Ok((copy_back(out, (offset + 1) as int, (symbol - MATCH_BASE) as nat), r))
                    },
                },
            }
        },
    }
}

/// The bytes that tokens from `pos` on complete `out` to, `left` tokens of the block remaining.
pub open spec fn decode_from(
    s: Seq<bool>,
    pos: int,
    left: nat,
    literals: Code,
    offsets: Code,
    out: Seq<u8>,
    n: int,
) -> Result<Seq<u8>, Seq<char>>
    decreases n - out.len(), (if left == 0 { 1int } else { 0int }),
{
    if out.len() >= n {
        Ok(out)
    } else if left == 0 {
        match block_header(s, pos) {
            Err(e) => Err(e),
            Ok((count, literals, offsets, p)) => {
                proof {
                    reveal(block_header);
                }
                decode_from(s, p, count, literals, offsets, out, n)
            },
        }
    } else {
        match read_token(s, pos, literals, offsets, out, n) {
            Err(e) => Err(e),
            Ok((next, p)) => {
                proof {
                    lemma_token_grows(s, pos, literals, offsets, out, n);
                }
                decode_from(s, p, (left - 1) as nat, literals, offsets, next, n)
            },
        }
    }
}

/// The `n` bytes that an LZ2K chunk decodes to.
pub open spec fn decoded(data: Seq<u8>, n: int) -> Result<Seq<u8>, Seq<char>> {
    decode_from(stream(data), 0, 0, Code::Constant(0), Code::Constant(0), Seq::empty(), n)
}

pub proof fn lemma_copy_back_len(out: Seq<u8>, distance: int, count: nat)
    ensures
        copy_back(out, distance, count).len() == out.len() + count,
    decreases count,
{
    if count > 0 {
        lemma_copy_back_len(
            out.push(out[out.len() - distance]),
            distance,
            (count - 1) as nat,
        );
    }
}

/// Each token adds at least one byte, and never more than are due.
pub proof fn lemma_token_grows(
    s: Seq<bool>,
    pos: int,
    literals: Code,
    offsets: Code,
    out: Seq<u8>,
    n: int,
)
    requires
        out.len() < n,
    ensures
        read_token(s, pos, literals, offsets, out, n) matches Ok((next, _)) ==> out.len()
            < next.len() <= n,
{
    reveal(read_token);
    if let Ok((symbol, p)) = read_symbol(literals, s, pos) {
        if symbol >= 256 {
            if let Ok((class, q)) = read_symbol(offsets, s, p) {
                if let Ok((offset, r)) = read_offset(s, q, class) {
                    lemma_copy_back_len(out, (offset + 1) as int, (symbol - MATCH_BASE) as nat);
                }
            }
        }
    }
}

/// What decodes at all decodes to exactly the length that was asked for.
pub proof fn lemma_decoded_len(data: Seq<u8>, n: int)
    requires
        n >= 0,
    ensures
        decoded(data, n) matches Ok(out) ==> out.len() == n,
{
    lemma_decode_from_len(
        stream(data),
        0,
        0,
        Code::Constant(0),
        Code::Constant(0),
        Seq::empty(),
        n,
    );
}

proof fn lemma_decode_from_len(
    s: Seq<bool>,
    pos: int,
    left: nat,
    literals: Code,
    offsets: Code,
    out: Seq<u8>,
    n: int,
)
    requires
        out.len() <= n,
    ensures
        decode_from(s, pos, left, literals, offsets, out, n) matches Ok(full) ==> full.len() == n,
    decreases n - out.len(), (if left == 0 { 1int } else { 0int }),
{
    if out.len() < n {
        if left == 0 {
            reveal(block_header);
            if let Ok((count, literals, offsets, p)) = block_header(s, pos) {
                lemma_decode_from_len(s, p, count, literals, offsets, out, n);
            }
        } else {
            lemma_token_grows(s, pos, literals, offsets, out, n);
            if let Ok((next, p)) = read_token(s, pos, literals, offsets, out, n) {
                lemma_decode_from_len(s, p, (left - 1) as nat, literals, offsets, next, n);
            }
        }
    }
}

/// No symbol of the code exceeds `max`.
pub open spec fn code_within(code: Code, max: int) -> bool {
    match code {
        Code::Constant(v) => v <= max,
        Code::Lengths(lengths) => lengths.len() <= max + 1,
    }
}

proof fn lemma_scan_within(lengths: Seq<u8>, s: Seq<bool>, pos: int, n: int)
    requires
        lengths.len() <= 0x1_0000,
    ensures
        crate::huffman::scan(lengths, s, pos, n) matches Ok((symbol, _)) ==> symbol < lengths.len(),
    decreases crate::huffman::MAX_CODE_BITS + 1 - n,
{
    if n <= crate::huffman::MAX_CODE_BITS && pos + n <= s.len() {
        let code = be_value(s.subrange(pos, pos + n));
        if exists|i: int| crate::huffman::assigned(lengths, i, n, code) {
            let i = choose|i: int| crate::huffman::assigned(lengths, i, n, code);
        } else {
            lemma_scan_within(lengths, s, pos, n + 1);
        }
    }
}

pub proof fn lemma_symbol_within(code: Code, s: Seq<bool>, pos: int, max: int)
    requires
        code_within(code, max),
        max < 0x1_0000,
    ensures
        read_symbol(code, s, pos) matches Ok((symbol, _)) ==> symbol <= max,
{
    if let Code::Lengths(lengths) = code {
        lemma_scan_within(lengths, s, pos, 1);
    }
}

/// The error that `message` names.
pub open spec fn failed<T>(res: Result<T, CodecError>, message: Seq<char>) -> bool {
    res matches Err(e) && e.message@ == message
}

fn read_code_length(bits: &mut Bits<'_>) -> (res: Result<u8, CodecError>)
    requires
        old(bits).wf(),
    ensures
        final(bits).wf(),
        final(bits).data == old(bits).data,
        match read_length(stream(old(bits).data@), old(bits).pos as int) {
            Ok((v, end)) => v < 256 && res == Ok::<u8, CodecError>(v as u8) && final(bits).pos
                == end,
            Err(message) => failed(res, message),
        },
{
    let ghost s = stream(bits.data@);
    let ghost start = bits.pos as int;
    let first: u32 = match bits.peek(3) {
        Ok(first) => first,
        Err(e) => {
            return Err(e);
        },
    };
    proof {
        lemma2_to64();
        lemma_be_value_bound(s.subrange(start, start + 3));
    }
    if first != 7 {
        return match bits.get(3) {
            Ok(_) => Ok(first as u8),
            Err(e) => Err(e),
        };
    }
    let mut value: u8 = 7;
    let mut offset: usize = 3;
    loop
        invariant
            bits.wf(),
            bits.data == old(bits).data,
            bits.pos == old(bits).pos,
            s == stream(bits.data@),
            start == bits.pos,
            3 <= offset <= 16,
            value == offset + 4,
            read_length(s, start) == long_length(s, start, value as nat, offset as int),
        decreases 17 - offset,
    {
        let w: u32 = match bits.peek(offset + 1) {
            Ok(w) => w,
            Err(e) => {
                return Err(e);
            },
        };
        assert((w & 1 != 0) == (w % 2 == 1)) by (bit_vector);
        if w & 1 != 0 {
            value = value + 1;
            offset = offset + 1;
            if offset > 16 {
                return Err(invalid("LZ2K code length overflow"));
            }
        } else {
            return match bits.get(offset + 1) {
                Ok(_) => Ok(value),
                Err(e) => Err(e),
            };
        }
    }
}

/// Reads a code whose lengths are spelled directly.
pub fn read_offset_lengths(
    bits: &mut Bits<'_>,
    size: usize,
    count_bits: usize,
    zero_after: Option<usize>,
) -> (res: Result<Huffman, CodecError>)
    requires
        old(bits).wf(),
        size <= u32::MAX - 0x1_0000 - 4,
    ensures
        final(bits).wf(),
        final(bits).data == old(bits).data,
        match offset_code(
            stream(old(bits).data@),
            old(bits).pos as int,
            size as int,
            count_bits as int,
            zero_after,
        ) {
            Ok((code, end)) => (res matches Ok(table) && table@ == code) && final(bits).pos == end,
            Err(message) => failed(res, message),
        },
{
    let ghost s = stream(bits.data@);
    let n: u32 = match bits.get(count_bits) {
        Ok(n) => n,
        Err(e) => {
            return Err(e);
        },
    };
    if n == 0 {
        return match bits.get(count_bits) {
            Ok(v) => Ok(Huffman::constant(v as u16)),
            Err(e) => Err(e),
        };
    }
    if n as usize > size {
        return Err(invalid("LZ2K offset table is too large"));
    }
    let n: usize = n as usize;
    let mut lengths: Vec<u8> = vec![0; size];
    let mut i: usize = 0;
    let ghost p = bits.pos as int;
    assert(lengths@ =~= zeros(size as nat));
    let ghost goal = offset_lengths(s, p, zeros(size as nat), 0, n as int, zero_after);
    while i < n
        invariant
            bits.wf(),
            bits.data == old(bits).data,
            s == stream(bits.data@),
            n <= size <= u32::MAX - 0x1_0000 - 4,
            i <= size,
            lengths@.len() == size,
            offset_lengths(s, bits.pos as int, lengths@, i as int, n as int, zero_after) == goal,
            goal is Err ==> offset_code(
                s,
                old(bits).pos as int,
                size as int,
                count_bits as int,
                zero_after,
            ) == Err::<(Code, int), Seq<char>>(goal->Err_0),
        decreases size - i,
    {
        let value: u8 = match read_code_length(bits) {
            Ok(value) => value,
            Err(e) => {
                return Err(e);
            },
        };
        lengths.set(i, value);
        i = i + 1;
        if let Some(z) = zero_after {
            if z == i {
                let skip: u32 = match bits.get(2) {
                    Ok(skip) => skip,
                    Err(e) => {
                        return Err(e);
                    },
                };
                proof {
                    lemma2_to64();
                    lemma_be_value_bound(s.subrange(bits.pos - 2, bits.pos as int));
                }
                if i + skip as usize > size {
                    return Err(invalid("LZ2K offset table overflow"));
                }
                i = i + skip as usize;
            }
        }
    }
    Huffman::new(lengths.as_slice())
}

/// Reads the literal code.
pub fn read_literal_lengths(bits: &mut Bits<'_>, code_lengths: &Huffman) -> (res: Result<
    Huffman,
    CodecError,
>)
    requires
        old(bits).wf(),
    ensures
        final(bits).wf(),
        final(bits).data == old(bits).data,
        match literal_code(stream(old(bits).data@), old(bits).pos as int, code_lengths@) {
            Ok((code, end)) => (res matches Ok(table) && table@ == code) && final(bits).pos == end,
            Err(message) => failed(res, message),
        },
{
    let ghost s = stream(bits.data@);
    let n: u32 = match bits.get(9) {
        Ok(n) => n,
        Err(e) => {
            return Err(e);
        },
    };
    if n == 0 {
        return match bits.get(9) {
            Ok(v) => Ok(Huffman::constant(v as u16)),
            Err(e) => Err(e),
        };
    }
    if n as usize > LITERAL_SYMBOLS {
        return Err(invalid("LZ2K literal table is too large"));
    }
    let n: usize = n as usize;
    let mut lengths: Vec<u8> = vec![0; LITERAL_SYMBOLS];
    let mut i: usize = 0;
    let ghost p = bits.pos as int;
    assert(lengths@ =~= zeros(LITERAL_SYMBOLS as nat));
    let ghost goal = literal_lengths(
        s,
        p,
        code_lengths@,
        zeros(LITERAL_SYMBOLS as nat),
        0,
        n as int,
    );
    while i < n
        invariant
            bits.wf(),
            bits.data == old(bits).data,
            s == stream(bits.data@),
            n <= LITERAL_SYMBOLS,
            i <= LITERAL_SYMBOLS,
            lengths@.len() == LITERAL_SYMBOLS,
            literal_lengths(s, bits.pos as int, code_lengths@, lengths@, i as int, n as int)
                == goal,
            goal is Err ==> literal_code(s, old(bits).pos as int, code_lengths@) == Err::<
                (Code, int),
                Seq<char>,
            >(goal->Err_0),
        decreases LITERAL_SYMBOLS - i,
    {
        let value: u16 = match code_lengths.decode(bits) {
            Ok(value) => value,
            Err(e) => {
                return Err(e);
            },
        };
        if value < 3 {
            let skip: usize = if value == 0 {
                1
            } else {
                let width: usize = if value == 1 {
                    4
                } else {
                    9
                };
                let ghost at = bits.pos as int;
                match bits.get(width) {
                    Ok(v) => {
                        proof {
                            lemma2_to64();
                            lemma_be_value_bound(s.subrange(at, at + width));
                        }
                        v as usize + (if value == 1 {
                            3
                        } else {
                            20
                        })
                    },
                    Err(e) => {
                        return Err(e);
                    },
                }
            };
            i = i + skip;
            if i > LITERAL_SYMBOLS {
                return Err(invalid("LZ2K literal table overflow"));
            }
        } else {
            lengths.set(i, (value - 2) as u8);
            i = i + 1;
        }
    }
    Huffman::new(lengths.as_slice())
}

/// Reads what stands at the start of a block.
fn read_block_header(bits: &mut Bits<'_>) -> (res: Result<(u32, Huffman, Huffman), CodecError>)
    requires
        old(bits).wf(),
    ensures
        final(bits).wf(),
        final(bits).data == old(bits).data,
        match block_header(stream(old(bits).data@), old(bits).pos as int) {
            Ok((count, literals, offsets, end)) => {
                &&& res matches Ok(header) && header.0 == count && header.1@ == literals
                    && header.2@ == offsets
                &&& count > 0
                &&& code_within(offsets, 15)
                &&& final(bits).pos == end
            },
            Err(message) => failed(res, message),
        },
{
    reveal(block_header);
    let ghost s = stream(bits.data@);
    let count: u32 = match bits.get(16) {
        Ok(count) => count,
        Err(e) => {
            return Err(e);
        },
    };
    if count == 0 {
        return Err(invalid("empty LZ2K block"));
    }
    let length_codes: Huffman = match read_offset_lengths(bits, LENGTH_SYMBOLS, 5, Some(3)) {
        Ok(table) => table,
        Err(e) => {
            return Err(e);
        },
    };
    let literals: Huffman = match read_literal_lengths(bits, &length_codes) {
        Ok(table) => table,
        Err(e) => {
            return Err(e);
        },
    };
    proof {
        lemma2_to64();
        lemma_offset_code_within(s, bits.pos as int, OFFSET_SYMBOLS as int, 4, None, 15);
    }
    match read_offset_lengths(bits, OFFSET_SYMBOLS, 4, None) {
        Ok(offsets) => Ok((count, literals, offsets)),
        Err(e) => Err(e),
    }
}

/// Reads the distance, less one, of a match.
fn read_distance(bits: &mut Bits<'_>, offsets: &Huffman) -> (res: Result<usize, CodecError>)
    requires
        old(bits).wf(),
        code_within(offsets@, 15),
    ensures
        final(bits).wf(),
        final(bits).data == old(bits).data,
        match read_symbol(offsets@, stream(old(bits).data@), old(bits).pos as int) {
            Ok((class, p)) => match read_offset(stream(old(bits).data@), p, class) {
                Ok((offset, end)) => offset < 0x1_0000 && res == Ok::<usize, CodecError>(
                    offset as usize,
                ) && final(bits).pos == end,
                Err(message) => failed(res, message),
            },
            Err(message) => failed(res, message),
        },
{
    let ghost s = stream(bits.data@);
    proof {
        lemma_symbol_within(offsets@, s, bits.pos as int, 15);
    }
    let class: u16 = match offsets.decode(bits) {
        Ok(class) => class,
        Err(e) => {
            return Err(e);
        },
    };
    if class == 0 {
        return Ok(0);
    }
    let width: usize = class as usize - 1;
    let ghost at = bits.pos as int;
    let low: u32 = match bits.get(width) {
        Ok(low) => low,
        Err(e) => {
            return Err(e);
        },
    };
    proof {
        lemma2_to64();
        lemma_be_value_bound(s.subrange(at, at + width));
        lemma_pow2_strictly_increases(width as nat, 15);
        vstd::bits::lemma_u32_shl_is_mul(1, width as u32);
    }
    Ok((1u32 << (width as u32)) as usize + low as usize)
}

/// Reads one token and appends what it stands for.
fn apply_token(
    bits: &mut Bits<'_>,
    literals: &Huffman,
    offsets: &Huffman,
    output: &mut Vec<u8>,
    output_len: usize,
) -> (res: Result<(), CodecError>)
    requires
        old(bits).wf(),
        code_within(offsets@, 15),
        old(output)@.len() < output_len,
    ensures
        final(bits).wf(),
        final(bits).data == old(bits).data,
        match read_token(
            stream(old(bits).data@),
            old(bits).pos as int,
            literals@,
            offsets@,
            old(output)@,
            output_len as int,
        ) {
            Ok((out, end)) => res is Ok && final(output)@ == out && final(bits).pos == end,
            Err(message) => failed(res, message),
        },
{
    reveal(read_token);
    let symbol: u16 = match literals.decode(bits) {
        Ok(symbol) => symbol,
        Err(e) => {
            return Err(e);
        },
    };
    if symbol < 256 {
        output.push(symbol as u8);
        return Ok(());
    }
    let distance: usize = match read_distance(bits, offsets) {
        Ok(offset) => offset + 1,
        Err(e) => {
            return Err(e);
        },
    };
    let count: usize = symbol as usize - MATCH_BASE;
    if distance > output.len() || count > output_len - output.len() {
        return Err(invalid("invalid LZ2K back-reference"));
    }
    let mut copied: usize = 0;
    while copied < count
        invariant
            1 <= distance <= output@.len(),
            copied <= count,
            copy_back(output@, distance as int, (count - copied) as nat) == copy_back(
                old(output)@,
                distance as int,
                count as nat,
            ),
        decreases count - copied,
    {
        let byte: u8 = output[output.len() - distance];
        output.push(byte);
        copied = copied + 1;
    }
    Ok(())
}

/// Decodes one LZ2K chunk to exactly `output_len` bytes.
pub fn decode(data: &[u8], output_len: usize) -> (res: Result<Vec<u8>, CodecError>)
    requires
        data@.len() < 0x1000_0000_0000_0000,
    ensures
        match decoded(data@, output_len as int) {
            Ok(out) => res matches Ok(v) && v@ == out,
            Err(message) => failed(res, message),
        },
{
    let ghost s = stream(data@);
    let mut bits: Bits = Bits { data, pos: 0 };
    let mut output: Vec<u8> = Vec::with_capacity(output_len);
    let mut block_left: u32 = 0;
    let mut literals: Huffman = Huffman::constant(0);
    let mut offsets: Huffman = Huffman::constant(0);
    while output.len() < output_len
        invariant
            bits.wf(),
            bits.data == data,
            s == stream(data@),
            output@.len() <= output_len,
            code_within(offsets@, 15),
            decode_from(
                s,
                bits.pos as int,
                block_left as nat,
                literals@,
                offsets@,
                output@,
                output_len as int,
            ) == decoded(data@, output_len as int),
        decreases output_len - output@.len(),
    {
        if block_left == 0 {
            match read_block_header(&mut bits) {
                Ok(header) => {
                    block_left = header.0;
                    literals = header.1;
                    offsets = header.2;
                },
                Err(e) => {
                    return Err(e);
                },
            }
        }
        assert(decode_from(
            s,
            bits.pos as int,
            block_left as nat,
            literals@,
            offsets@,
            output@,
            output_len as int,
        ) == decoded(data@, output_len as int));
        proof {
            lemma_token_grows(
                s,
                bits.pos as int,
                literals@,
                offsets@,
                output@,
                output_len as int,
            );
        }
        block_left = block_left - 1;
        match apply_token(&mut bits, &literals, &offsets, &mut output, output_len) {
            Ok(_) => {},
            Err(e) => {
                return Err(e);
            },
        }
    }
    Ok(output)
}

proof fn lemma_offset_lengths_len(
    s: Seq<bool>,
    pos: int,
    lengths: Seq<u8>,
    i: int,
    n: int,
    zero_after: Option<usize>,
)
    requires
        0 <= i,
        n <= lengths.len(),
    ensures
        offset_lengths(s, pos, lengths, i, n, zero_after) matches Ok((l, _)) ==> l.len()
            == lengths.len(),
    decreases (if i < n { n - i } else { 0 }),
{
    if i < n {
        if let Ok((v, p)) = read_length(s, pos) {
            let next = lengths.update(i, v as u8);
            if zero_after matches Some(z) && z == i + 1 {
                if let Ok((skip, q)) = take_bits(s, p, 2) {
                    lemma_offset_lengths_len(s, q, next, i + 1 + skip, n, zero_after);
                }
            } else {
                lemma_offset_lengths_len(s, p, next, i + 1, n, zero_after);
            }
        }
    }
}

proof fn lemma_offset_code_within(
    s: Seq<bool>,
    pos: int,
    size: int,
    count_bits: int,
    zero_after: Option<usize>,
    max: int,
)
    requires
        0 <= pos,
        0 <= size <= max + 1 <= 0x1_0000,
        0 <= count_bits <= 16,
        pow2(count_bits as nat) <= max + 1,
    ensures
        offset_code(s, pos, size, count_bits, zero_after) matches Ok((code, _)) ==> code_within(
            code,
            max,
        ),
{
    if let Ok((n, p)) = take_bits(s, pos, count_bits) {
        if n == 0 {
            if p + count_bits <= s.len() {
                lemma_be_value_bound(s.subrange(p, p + count_bits));
            }
        } else if n <= size {
            lemma_offset_lengths_len(s, p, zeros(size as nat), 0, n as int, zero_after);
        }
    }
}

} // verus!
