//! Which chunks are not decoded.

use super::tables::{adds, lemma_copied, piece_end, piece_stands, spells, Piece};
use super::{
    block_header, code_within, decode_from, decoded, lemma_symbol_within, literal_code, offset_code,
    read_offset, read_token,
};
use crate::bits::{lemma_be_value_bound, stream};
use crate::huffman::{code_from, read_symbol, scan, Code};
use vstd::arithmetic::power2::{lemma2_to64, lemma_pow2_unfold};
use vstd::prelude::*;

verus! {

/// A symbol ends behind where it begins.
proof fn lemma_scan_behind(lengths: Seq<u8>, s: Seq<bool>, at: int, n: int)
    requires
        1 <= n,
    ensures
        scan(lengths, s, at, n) matches Ok((_, end)) ==> at < end,
    decreases 17 - n,
{
    if n <= 16 && at + n <= s.len() {
        lemma_scan_behind(lengths, s, at, n + 1);
    }
}

proof fn lemma_symbol_behind(code: Code, s: Seq<bool>, at: int)
    ensures
        read_symbol(code, s, at) matches Ok((_, end)) ==> at <= end,
{
    if let Code::Lengths(lengths) = code {
        lemma_scan_behind(lengths, s, at, 1);
    }
}

/// A token that is read stands where it is read, adds what it should, and no more than is due.
pub proof fn lemma_token_stands(
    s: Seq<bool>,
    at: int,
    literals: Code,
    offsets: Code,
    out: Seq<u8>,
    n: int,
) -> (piece: Piece)
    requires
        0 <= at,
        out.len() < n,
        code_within(offsets, 15),
        read_token(s, at, literals, offsets, out, n) is Ok,
    ensures
        ({
            let (next, end) = read_token(s, at, literals, offsets, out, n)->Ok_0;
            &&& piece_stands(s, at, literals, offsets, piece)
            &&& end == piece_end(s, at, literals, offsets, piece)
            &&& adds(out, piece, next)
            &&& next.len() <= n
        }),
{
    reveal(read_token);
    lemma2_to64();
    let (symbol, p) = read_symbol(literals, s, at)->Ok_0;
    lemma_symbol_behind(literals, s, at);
    if symbol < 256 {
        Piece::Byte(symbol as u8)
    } else {
        lemma_symbol_behind(offsets, s, p);
        lemma_symbol_within(offsets, s, p, 15);
        let (class, q) = read_symbol(offsets, s, p)->Ok_0;
        let (offset, r) = read_offset(s, q, class)->Ok_0;
        let length = symbol - 253;
        let distance = offset + 1;
        if class > 0 {
            let bits = s.subrange(q, q + class - 1);
            lemma_be_value_bound(bits);
            lemma_pow2_unfold(class as nat);
        }
        lemma_copied(out, distance as int, length as nat);
        Piece::Back { length: length as int, distance: distance as int }
    }
}

/// A token that reaches back behind the start, or adds more than is due, is refused.
pub proof fn lemma_reference_refused(
    s: Seq<bool>,
    at: int,
    literals: Code,
    offsets: Code,
    length: int,
    distance: int,
    out: Seq<u8>,
    n: int,
)
    requires
        piece_stands(s, at, literals, offsets, Piece::Back { length, distance }),
        distance > out.len() || length > n - out.len(),
    ensures
        read_token(s, at, literals, offsets, out, n) == Err::<(Seq<u8>, int), Seq<char>>(
            "invalid LZ2K back-reference"@,
        ),
{
    reveal(read_token);
    lemma2_to64();
}

/// A block that tells of no token is refused, and one that ends within the number of its tokens.
pub proof fn lemma_block_start_refused(
    s: Seq<bool>,
    at: int,
    literals: Code,
    offsets: Code,
    out: Seq<u8>,
    n: int,
)
    requires
        0 <= at,
        out.len() < n,
    ensures
        spells(s, at, 16, 0) ==> decode_from(s, at, 0, literals, offsets, out, n) == Err::<
            Seq<u8>,
            Seq<char>,
        >("empty LZ2K block"@),
        at + 16 > s.len() ==> decode_from(s, at, 0, literals, offsets, out, n) == Err::<
            Seq<u8>,
            Seq<char>,
        >("truncated LZ2K block"@),
{
    reveal(block_header);
}

/// A table of more symbols than there are is refused: 510 for literals and lengths, and as many as
/// are due for the others.
pub proof fn lemma_table_refused(
    s: Seq<bool>,
    at: int,
    code: Code,
    size: int,
    bits: int,
    zero_after: Option<usize>,
    count: int,
)
    requires
        0 < bits <= 24,
        0 <= size,
    ensures
        spells(s, at, 9, count) && count > 510 ==> literal_code(s, at, code) == Err::<
            (Code, int),
            Seq<char>,
        >("LZ2K literal table is too large"@),
        spells(s, at, bits, count) && count > size ==> offset_code(
            s,
            at,
            size,
            bits,
            zero_after,
        ) == Err::<(Code, int), Seq<char>>("LZ2K offset table is too large"@),
{
}

/// A chunk that has ended too soon is not decoded, and nothing is decoded where nothing is due.
pub proof fn lemma_chunk_ends(data: Seq<u8>, n: int)
    ensures
        n <= 0 ==> decoded(data, n) == Ok::<Seq<u8>, Seq<char>>(Seq::empty()),
        n > 0 && data.len() < 2 ==> decoded(data, n) == Err::<Seq<u8>, Seq<char>>(
            "truncated LZ2K block"@,
        ),
{
    if n > 0 && data.len() < 2 {
        lemma_block_start_refused(
            stream(data),
            0,
            Code::Constant(0),
            Code::Constant(0),
            Seq::empty(),
            n,
        );
    }
}

/// A code with a word of more than sixteen bits is refused.
pub proof fn lemma_length_refused(lengths: Seq<u8>, i: int)
    requires
        0 <= i < lengths.len(),
        lengths[i] > 16,
    ensures
        code_from(lengths) == Err::<Code, Seq<char>>("invalid LZ2K Huffman length"@),
{
}

} // verus!
