//! Decoding looks at no more than it needs: what stands behind the last token does not matter,
//! and fewer bytes are the first of more.

use super::{
    block_header, copy_back, decode_from, decoded, lemma_copy_back_len,
    lemma_token_grows, literal_code, literal_lengths, long_length, offset_code, offset_lengths,
    read_length, read_offset, read_run, read_token, zeros, LENGTH_SYMBOLS, LITERAL_SYMBOLS,
    MATCH_BASE, OFFSET_SYMBOLS,
};
use crate::bits::{be_value, stream, take_bits};
use crate::huffman::{read_symbol, scan, symbol_of, Code, MAX_CODE_BITS};
use vstd::prelude::*;

verus! {

/// The second stream begins with the first.
spec fn begins(s: Seq<bool>, t: Seq<bool>) -> bool {
    s.len() <= t.len() && forall|i: int| 0 <= i < s.len() ==> s[i] == t[i]
}

proof fn lemma_take_more(s: Seq<bool>, t: Seq<bool>, pos: int, count: int)
    requires
        begins(s, t),
        0 <= pos,
        0 <= count,
    ensures
        take_bits(s, pos, count) matches Ok((_, end)) ==> 0 <= end && take_bits(t, pos, count)
            == take_bits(s, pos, count),
{
    if pos + count <= s.len() {
        assert(s.subrange(pos, pos + count) =~= t.subrange(pos, pos + count));
    }
}

proof fn lemma_scan_more(lengths: Seq<u8>, s: Seq<bool>, t: Seq<bool>, pos: int, n: int)
    requires
        begins(s, t),
        0 <= pos,
        0 <= n,
    ensures
        scan(lengths, s, pos, n) matches Ok((_, end)) ==> 0 <= end && scan(lengths, t, pos, n)
            == scan(lengths, s, pos, n),
    decreases MAX_CODE_BITS + 1 - n,
{
    if n <= MAX_CODE_BITS && pos + n <= s.len() {
        assert(s.subrange(pos, pos + n) =~= t.subrange(pos, pos + n));
        if symbol_of(lengths, n, be_value(s.subrange(pos, pos + n))) is None {
            lemma_scan_more(lengths, s, t, pos, n + 1);
        }
    }
}

proof fn lemma_symbol_more(code: Code, s: Seq<bool>, t: Seq<bool>, pos: int)
    requires
        begins(s, t),
        0 <= pos,
    ensures
        read_symbol(code, s, pos) matches Ok((_, end)) ==> 0 <= end && read_symbol(code, t, pos)
            == read_symbol(code, s, pos),
{
    if let Code::Lengths(lengths) = code {
        lemma_scan_more(lengths, s, t, pos, 1);
    }
}

proof fn lemma_long_more(s: Seq<bool>, t: Seq<bool>, pos: int, value: nat, offset: int)
    requires
        begins(s, t),
        0 <= pos,
        0 <= offset,
    ensures
        long_length(s, pos, value, offset) matches Ok((_, end)) ==> 0 <= end && long_length(
            t,
            pos,
            value,
            offset,
        ) == long_length(s, pos, value, offset),
    decreases 17 - offset,
{
    lemma_take_more(s, t, pos, offset + 1);
    if offset + 1 <= 16 {
        lemma_long_more(s, t, pos, value + 1, offset + 1);
    }
}

proof fn lemma_length_more(s: Seq<bool>, t: Seq<bool>, pos: int)
    requires
        begins(s, t),
        0 <= pos,
    ensures
        read_length(s, pos) matches Ok((_, end)) ==> 0 <= end && read_length(t, pos)
            == read_length(s, pos),
{
    lemma_take_more(s, t, pos, 3);
    lemma_long_more(s, t, pos, 7, 3);
}

proof fn lemma_offset_lengths_more(
    s: Seq<bool>,
    t: Seq<bool>,
    pos: int,
    lengths: Seq<u8>,
    i: int,
    n: int,
    zero_after: Option<usize>,
)
    requires
        begins(s, t),
        0 <= pos,
    ensures
        offset_lengths(s, pos, lengths, i, n, zero_after) matches Ok((_, end)) ==> 0 <= end
            && offset_lengths(t, pos, lengths, i, n, zero_after) == offset_lengths(
            s,
            pos,
            lengths,
            i,
            n,
            zero_after,
        ),
    decreases (if i < n { n - i } else { 0 }),
{
    if i < n {
        lemma_length_more(s, t, pos);
        if let Ok((v, p)) = read_length(s, pos) {
            let next = lengths.update(i, v as u8);
            if zero_after matches Some(z) && z == i + 1 {
                lemma_take_more(s, t, p, 2);
                if let Ok((skip, q)) = take_bits(s, p, 2) {
                    lemma_offset_lengths_more(s, t, q, next, i + 1 + skip, n, zero_after);
                }
            } else {
                lemma_offset_lengths_more(s, t, p, next, i + 1, n, zero_after);
            }
        }
    }
}

proof fn lemma_offset_code_more(
    s: Seq<bool>,
    t: Seq<bool>,
    pos: int,
    size: int,
    count_bits: int,
    zero_after: Option<usize>,
)
    requires
        begins(s, t),
        0 <= pos,
        0 <= count_bits,
    ensures
        offset_code(s, pos, size, count_bits, zero_after) matches Ok((_, end)) ==> 0 <= end
            && offset_code(t, pos, size, count_bits, zero_after) == offset_code(
            s,
            pos,
            size,
            count_bits,
            zero_after,
        ),
{
    lemma_take_more(s, t, pos, count_bits);
    if let Ok((n, p)) = take_bits(s, pos, count_bits) {
        lemma_take_more(s, t, p, count_bits);
        lemma_offset_lengths_more(s, t, p, zeros(size as nat), 0, n as int, zero_after);
    }
}

proof fn lemma_run_more(s: Seq<bool>, t: Seq<bool>, pos: int, value: u16)
    requires
        begins(s, t),
        0 <= pos,
    ensures
        read_run(s, pos, value) matches Ok((_, end)) ==> 0 <= end && read_run(t, pos, value)
            == read_run(s, pos, value),
{
    lemma_take_more(s, t, pos, 4);
    lemma_take_more(s, t, pos, 9);
}

proof fn lemma_literal_lengths_more(
    s: Seq<bool>,
    t: Seq<bool>,
    pos: int,
    code_lengths: Code,
    lengths: Seq<u8>,
    i: int,
    n: int,
)
    requires
        begins(s, t),
        0 <= pos,
    ensures
        literal_lengths(s, pos, code_lengths, lengths, i, n) matches Ok((_, end)) ==> 0 <= end
            && literal_lengths(t, pos, code_lengths, lengths, i, n) == literal_lengths(
            s,
            pos,
            code_lengths,
            lengths,
            i,
            n,
        ),
    decreases (if i < n { n - i } else { 0 }),
{
    if i < n {
        lemma_symbol_more(code_lengths, s, t, pos);
        if let Ok((value, p)) = read_symbol(code_lengths, s, pos) {
            if value < 3 {
                lemma_run_more(s, t, p, value);
                if let Ok((skip, q)) = read_run(s, p, value) {
                    if skip > 0 {
                        lemma_literal_lengths_more(s, t, q, code_lengths, lengths, i + skip, n);
                    }
                }
            } else {
                lemma_literal_lengths_more(
                    s,
                    t,
                    p,
                    code_lengths,
                    lengths.update(i, (value - 2) as u8),
                    i + 1,
                    n,
                );
            }
        }
    }
}

proof fn lemma_literal_code_more(s: Seq<bool>, t: Seq<bool>, pos: int, code_lengths: Code)
    requires
        begins(s, t),
        0 <= pos,
    ensures
        literal_code(s, pos, code_lengths) matches Ok((_, end)) ==> 0 <= end && literal_code(
            t,
            pos,
            code_lengths,
        ) == literal_code(s, pos, code_lengths),
{
    lemma_take_more(s, t, pos, 9);
    if let Ok((n, p)) = take_bits(s, pos, 9) {
        lemma_take_more(s, t, p, 9);
        lemma_literal_lengths_more(
            s,
            t,
            p,
            code_lengths,
            zeros(LITERAL_SYMBOLS as nat),
            0,
            n as int,
        );
    }
}

proof fn lemma_header_more(s: Seq<bool>, t: Seq<bool>, pos: int)
    requires
        begins(s, t),
        0 <= pos,
    ensures
        block_header(s, pos) matches Ok((count, _, _, end)) ==> 0 < count && 0 <= end
            && block_header(t, pos) == block_header(s, pos),
{
    reveal(block_header);
    lemma_take_more(s, t, pos, 16);
    if let Ok((count, p)) = take_bits(s, pos, 16) {
        lemma_offset_code_more(s, t, p, LENGTH_SYMBOLS as int, 5, Some(3));
        if let Ok((code_lengths, q)) = offset_code(s, p, LENGTH_SYMBOLS as int, 5, Some(3)) {
            lemma_literal_code_more(s, t, q, code_lengths);
            if let Ok((literals, r)) = literal_code(s, q, code_lengths) {
                lemma_offset_code_more(s, t, r, OFFSET_SYMBOLS as int, 4, None);
            }
        }
    }
}

/// A token is read in the same way where more bits follow, or where more bytes are due.
proof fn lemma_token_more(
    s: Seq<bool>,
    t: Seq<bool>,
    pos: int,
    literals: Code,
    offsets: Code,
    out: Seq<u8>,
    m: int,
    n: int,
)
    requires
        begins(s, t),
        0 <= pos,
        m <= n,
    ensures
        read_token(s, pos, literals, offsets, out, m) matches Ok((_, end)) ==> 0 <= end
            && read_token(t, pos, literals, offsets, out, n) == read_token(
            s,
            pos,
            literals,
            offsets,
            out,
            m,
        ),
{
    reveal(read_token);
    lemma_symbol_more(literals, s, t, pos);
    if let Ok((symbol, p)) = read_symbol(literals, s, pos) {
        lemma_symbol_more(offsets, s, t, p);
        if let Ok((class, q)) = read_symbol(offsets, s, p) {
            if class > 0 {
                lemma_take_more(s, t, q, class - 1);
            }
        }
    }
}

/// Decoding goes on in the same way where more bits follow.
proof fn lemma_decode_more(
    s: Seq<bool>,
    t: Seq<bool>,
    pos: int,
    left: nat,
    literals: Code,
    offsets: Code,
    out: Seq<u8>,
    n: int,
)
    requires
        begins(s, t),
        0 <= pos,
        decode_from(s, pos, left, literals, offsets, out, n) is Ok,
    ensures
        decode_from(t, pos, left, literals, offsets, out, n) == decode_from(
            s,
            pos,
            left,
            literals,
            offsets,
            out,
            n,
        ),
    decreases n - out.len(), (if left == 0 { 1int } else { 0int }),
{
    if out.len() < n {
        if left == 0 {
            lemma_header_more(s, t, pos);
            let (count, literals, offsets, p) = block_header(s, pos)->Ok_0;
            lemma_decode_more(s, t, p, count, literals, offsets, out, n);
        } else {
            lemma_token_more(s, t, pos, literals, offsets, out, n, n);
            lemma_token_grows(s, pos, literals, offsets, out, n);
            let (next, p) = read_token(s, pos, literals, offsets, out, n)->Ok_0;
            lemma_decode_more(s, t, p, (left - 1) as nat, literals, offsets, next, n);
        }
    }
}

proof fn lemma_copy_back_keeps(out: Seq<u8>, distance: int, count: nat)
    ensures
        copy_back(out, distance, count).take(out.len() as int) == out,
    decreases count,
{
    lemma_copy_back_len(out, distance, count);
    if count > 0 {
        let next = out.push(out[out.len() - distance]);
        lemma_copy_back_keeps(next, distance, (count - 1) as nat);
        let all = copy_back(out, distance, count);
        assert(all.take(out.len() as int) =~= all.take(next.len() as int).take(out.len() as int));
        assert(next.take(out.len() as int) =~= out);
    } else {
        assert(out.take(out.len() as int) =~= out);
    }
}

/// A token leaves what is decoded already as it is.
proof fn lemma_token_keeps(
    s: Seq<bool>,
    pos: int,
    literals: Code,
    offsets: Code,
    out: Seq<u8>,
    n: int,
)
    ensures
        read_token(s, pos, literals, offsets, out, n) matches Ok((next, _)) ==> out.len()
            <= next.len() && next.take(out.len() as int) == out,
{
    reveal(read_token);
    if let Ok((symbol, p)) = read_symbol(literals, s, pos) {
        if symbol < 256 {
            assert(out.push(symbol as u8).take(out.len() as int) =~= out);
        } else if let Ok((class, q)) = read_symbol(offsets, s, p) {
            if let Ok((offset, r)) = read_offset(s, q, class) {
                let count = (symbol - MATCH_BASE) as nat;
                lemma_copy_back_keeps(out, (offset + 1) as int, count);
                lemma_copy_back_len(out, (offset + 1) as int, count);
            }
        }
    }
}

/// Decoding leaves what is decoded already as it is.
proof fn lemma_decode_keeps(
    s: Seq<bool>,
    pos: int,
    left: nat,
    literals: Code,
    offsets: Code,
    out: Seq<u8>,
    n: int,
)
    ensures
        decode_from(s, pos, left, literals, offsets, out, n) matches Ok(full) ==> out.len()
            <= full.len() && full.take(out.len() as int) == out,
    decreases n - out.len(), (if left == 0 { 1int } else { 0int }),
{
    if out.len() >= n {
        assert(out.take(out.len() as int) =~= out);
    } else if left == 0 {
        reveal(block_header);
        if let Ok((count, literals, offsets, p)) = block_header(s, pos) {
            lemma_decode_keeps(s, p, count, literals, offsets, out, n);
        }
    } else {
        lemma_token_keeps(s, pos, literals, offsets, out, n);
        lemma_token_grows(s, pos, literals, offsets, out, n);
        if let Ok((next, p)) = read_token(s, pos, literals, offsets, out, n) {
            lemma_decode_keeps(s, p, (left - 1) as nat, literals, offsets, next, n);
            if let Ok(full) = decode_from(
                s,
                p,
                (left - 1) as nat,
                literals,
                offsets,
                next,
                n,
            ) {
                assert(full.take(out.len() as int) =~= full.take(next.len() as int).take(
                    out.len() as int,
                ));
            }
        }
    }
}

/// Fewer bytes are the first of more.
proof fn lemma_decode_fewer(
    s: Seq<bool>,
    pos: int,
    left: nat,
    literals: Code,
    offsets: Code,
    out: Seq<u8>,
    m: int,
    n: int,
)
    requires
        0 <= pos,
        out.len() <= m <= n,
        decode_from(s, pos, left, literals, offsets, out, m) is Ok,
        decode_from(s, pos, left, literals, offsets, out, n) is Ok,
    ensures
        decode_from(s, pos, left, literals, offsets, out, m)->Ok_0 == decode_from(
            s,
            pos,
            left,
            literals,
            offsets,
            out,
            n,
        )->Ok_0.take(m),
    decreases m - out.len(), (if left == 0 { 1int } else { 0int }),
{
    if out.len() >= m {
        lemma_decode_keeps(s, pos, left, literals, offsets, out, n);
    } else if left == 0 {
        lemma_header_more(s, s, pos);
        let (count, literals, offsets, p) = block_header(s, pos)->Ok_0;
        lemma_decode_fewer(s, p, count, literals, offsets, out, m, n);
    } else {
        lemma_token_more(s, s, pos, literals, offsets, out, m, n);
        lemma_token_grows(s, pos, literals, offsets, out, m);
        let (next, p) = read_token(s, pos, literals, offsets, out, m)->Ok_0;
        lemma_decode_fewer(s, p, (left - 1) as nat, literals, offsets, next, m, n);
    }
}

/// Bytes behind those that a chunk takes are ignored, and what comes out where fewer bytes are
/// due is the first part of what comes out where more are.
pub proof fn lemma_decode_trailing(data: Seq<u8>, more: Seq<u8>, m: int, n: int)
    requires
        decoded(data, n) is Ok,
        0 <= m <= n,
    ensures
        decoded(data + more, n) == decoded(data, n),
        decoded(data + more, m) matches Ok(part) ==> part == decoded(data, n)->Ok_0.take(m),
{
    let s = stream(data);
    let t = stream(data + more);
    let start = Code::Constant(0);
    assert forall|i: int| 0 <= i < s.len() implies s[i] == t[i] by {
        assert((data + more)[i / 8] == data[i / 8]);
    }
    lemma_decode_more(s, t, 0, 0, start, start, Seq::empty(), n);
    if decoded(data + more, m) is Ok {
        lemma_decode_fewer(t, 0, 0, start, start, Seq::empty(), m, n);
    }
}

} // verus!
