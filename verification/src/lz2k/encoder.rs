//! The LZ2K encoder: greedy matching over hash chains, behind one fixed pair of codes.

use super::roundtrip::{
    lemma_class_read_back, lemma_literal_read_back, literal_code_lengths, offset_code_lengths,
};
use super::{LITERAL_SYMBOLS, MATCH_BASE, OFFSET_SYMBOLS};
use crate::bits::{holds_bits, stream, to_bits, BitWriter};
use crate::huffman::{read_symbol, Code};
use crate::text::{extension_in, has_extension, texts};
use vstd::arithmetic::power2::{lemma2_to64, lemma_pow2_strictly_increases, lemma_pow2_unfold, pow2};
use vstd::prelude::*;
use vstd::slice::slice_to_vec;
use vstd::utf8::encode_utf8;

verus! {

/// The longest chunk that one block can hold: each byte may need a token of its own, and tokens
/// are counted in sixteen bits.
pub const PACK_BLOCK_SIZE: usize = 0xffff;

pub const WINDOW_SIZE: usize = 8 * 1024;

pub const MAX_MATCH: usize = 256;

pub const MIN_MATCH: usize = 3;

pub const HASH_BITS: usize = 14;

pub const HASH_SIZE: usize = 16 * 1024;

/// How many earlier positions are tried for a match.
pub const MAX_TRIES: usize = 64;

/// What a block holds: a byte, or a run that occurred `distance` bytes before.
#[derive(Clone, Copy, Debug, PartialEq, Eq)]
pub enum Token {
    Literal(u8),
    Match { length: usize, distance: usize },
}

/// Hash of three bytes.
pub open spec fn hash_of(b0: u8, b1: u8, b2: u8) -> int {
    (((b0 + 0x100 * b1 + 0x1_0000 * b2) * 0x1e35_a7bd) % 0x1_0000_0000) / 0x4_0000
}

/// Hash of the three bytes at `pos`.
pub open spec fn hash_at(input: Seq<u8>, pos: int) -> int {
    hash_of(input[pos], input[pos + 1], input[pos + 2])
}

/// The last position before `pos` whose three bytes hash to `hash`, or -1.
pub open spec fn last_with_hash(input: Seq<u8>, hash: int, pos: int) -> int
    decreases pos,
{
    if pos <= 0 {
        -1
    } else if pos + 1 < input.len() && hash_at(input, pos - 1) == hash {
        pos - 1
    } else {
        last_with_hash(input, hash, pos - 1)
    }
}

/// How far the bytes at `a` and `b` agree, at least `k` and at most `limit` long.
pub open spec fn common(input: Seq<u8>, a: int, b: int, k: int, limit: int) -> int
    decreases limit - k,
{
    if k < limit && input[a + k] == input[b + k] {
        common(input, a, b, k + 1, limit)
    } else {
        k
    }
}

/// The longest match that can begin at `pos`.
pub open spec fn match_limit(input: Seq<u8>, pos: int) -> int {
    if input.len() - pos < MAX_MATCH {
        input.len() - pos
    } else {
        MAX_MATCH as int
    }
}

/// The best match for `pos` among `candidate` and the positions with the same hash before it.
pub open spec fn search(
    input: Seq<u8>,
    pos: int,
    candidate: int,
    tries: nat,
    best: (int, int),
) -> (int, int)
    decreases tries,
{
    if tries == 0 || candidate < 0 || pos - candidate > WINDOW_SIZE {
        best
    } else {
        let length = common(input, candidate, pos, 0, match_limit(input, pos));
        if length > best.0 && length == match_limit(input, pos) {
            (length, pos - candidate)
        } else {
            search(
                input,
                pos,
                last_with_hash(input, hash_at(input, candidate), candidate),
                (tries - 1) as nat,
                if length > best.0 {
                    (length, pos - candidate)
                } else {
                    best
                },
            )
        }
    }
}

/// Length and distance of the match that is taken at `pos`; length zero where there is none.
pub open spec fn best_match(input: Seq<u8>, pos: int) -> (int, int) {
    if pos + 2 < input.len() {
        search(
            input,
            pos,
            last_with_hash(input, hash_at(input, pos), pos),
            MAX_TRIES as nat,
            (0, 0),
        )
    } else {
        (0, 0)
    }
}

/// The token that is written for position `pos`.
pub open spec fn token_at(input: Seq<u8>, pos: int) -> Token {
    let (length, distance) = best_match(input, pos);
    if length >= MIN_MATCH {
        Token::Match { length: length as usize, distance: distance as usize }
    } else {
        Token::Literal(input[pos])
    }
}

/// How many bytes a token stands for.
pub open spec fn token_len(token: Token) -> int {
    match token {
        Token::Literal(_) => 1,
        Token::Match { length, .. } => length as int,
    }
}

/// The tokens from position `pos` on.
pub open spec fn tokens_from(input: Seq<u8>, pos: int) -> Seq<Token>
    decreases input.len() - pos,
{
    if pos < 0 || pos >= input.len() {
        Seq::empty()
    } else {
        proof {
            lemma_token_at(input, pos);
        }
        seq![token_at(input, pos)] + tokens_from(input, pos + token_len(token_at(input, pos)))
    }
}

/// The bits of a literal or length symbol: two codes of eight bits, the others of nine.
pub open spec fn literal_bits(symbol: nat) -> Seq<bool> {
    if symbol < 2 {
        to_bits(symbol, 8)
    } else {
        to_bits(symbol + 2, 9)
    }
}

/// The bits of a distance class: two codes of three bits, the others of four.
pub open spec fn class_bits(class: nat) -> Seq<bool> {
    if class < 2 {
        to_bits(class, 3)
    } else {
        to_bits(class + 2, 4)
    }
}

/// How many bits the number needs.
pub open spec fn bit_length(n: nat) -> nat
    decreases n,
{
    if n == 0 {
        0
    } else {
        1 + bit_length(n / 2)
    }
}

/// The bits of a distance less one: its class, then what the class leaves open.
pub open spec fn offset_bits(offset: nat) -> Seq<bool> {
    let class = bit_length(offset);
    if class == 0 {
        class_bits(0)
    } else {
        class_bits(class) + to_bits(
            (offset - pow2((class - 1) as nat)) as nat,
            (class - 1) as nat,
        )
    }
}

pub open spec fn token_bits(token: Token) -> Seq<bool> {
    match token {
        Token::Literal(byte) => literal_bits(byte as nat),
        Token::Match { length, distance } => literal_bits((length + MATCH_BASE) as nat)
            + offset_bits((distance - 1) as nat),
    }
}

pub open spec fn all_token_bits(tokens: Seq<Token>) -> Seq<bool>
    decreases tokens.len(),
{
    if tokens.len() == 0 {
        Seq::empty()
    } else {
        all_token_bits(tokens.drop_last()) + token_bits(tokens.last())
    }
}

/// `n` fields of three bits, the first two holding `a` and the others `b`.
pub open spec fn three_bit_fields(a: nat, b: nat, n: nat) -> Seq<bool>
    decreases n,
{
    if n == 0 {
        Seq::empty()
    } else {
        three_bit_fields(a, b, (n - 1) as nat) + to_bits(
            if n <= 2 {
                a
            } else {
                b
            },
            3,
        )
    }
}

/// The code that spells the literal code's lengths: symbols 10 and 11 have a one-bit code.
pub open spec fn length_code_bits() -> Seq<bool> {
    to_bits(12, 5) + three_bit_fields(0, 0, 3) + to_bits(3, 2) + three_bit_fields(0, 0, 4)
        + three_bit_fields(1, 1, 2)
}

/// One bit for each of the literal code's first `n` lengths.
pub open spec fn literal_length_bits(n: nat) -> Seq<bool> {
    Seq::new(n, |i: int| i >= 2)
}

/// The literal code: two codes of eight bits and all others of nine.
pub open spec fn literal_code_bits() -> Seq<bool> {
    to_bits(LITERAL_SYMBOLS as nat, 9) + literal_length_bits(LITERAL_SYMBOLS as nat)
}

/// The distance code: two codes of three bits and twelve of four.
pub open spec fn offset_code_bits() -> Seq<bool> {
    to_bits(OFFSET_SYMBOLS as nat, 4) + three_bit_fields(3, 4, OFFSET_SYMBOLS as nat)
}

/// What stands before the tokens of a block.
pub open spec fn block_header_bits(count: nat) -> Seq<bool> {
    to_bits(count, 16) + length_code_bits() + literal_code_bits() + offset_code_bits()
}

/// A chunk as one block of tokens.
pub open spec fn encoded_bits(input: Seq<u8>) -> Seq<bool> {
    let tokens = tokens_from(input, 0);
    block_header_bits(tokens.len()) + all_token_bits(tokens)
}

/// How many bytes the block of tokens takes.
pub open spec fn encoded_len(input: Seq<u8>) -> int {
    (encoded_bits(input).len() + 7) as int / 8
}

proof fn lemma_last_with_hash(input: Seq<u8>, hash: int, pos: int)
    requires
        pos <= input.len(),
    ensures
        -1 <= last_with_hash(input, hash, pos),
        pos > 0 ==> last_with_hash(input, hash, pos) < pos,
        last_with_hash(input, hash, pos) >= 0 ==> last_with_hash(input, hash, pos) + 2
            < input.len(),
    decreases pos,
{
    if pos > 0 {
        lemma_last_with_hash(input, hash, pos - 1);
    }
}

pub proof fn lemma_common(input: Seq<u8>, a: int, b: int, k: int, limit: int)
    requires
        0 <= k <= limit,
        forall|i: int| 0 <= i < k ==> input[a + i] == #[trigger] input[b + i],
    ensures
        k <= common(input, a, b, k, limit) <= limit,
        forall|i: int|
            0 <= i < common(input, a, b, k, limit) ==> input[a + i] == #[trigger] input[b + i],
    decreases limit - k,
{
    if k < limit && input[a + k] == input[b + k] {
        lemma_common(input, a, b, k + 1, limit);
    }
}

/// The run at `pos` occurred `distance` bytes before.
pub open spec fn repeats(input: Seq<u8>, pos: int, length: int, distance: int) -> bool {
    &&& 1 <= distance <= pos
    &&& distance <= WINDOW_SIZE
    &&& 0 <= length <= match_limit(input, pos)
    &&& forall|i: int| 0 <= i < length ==> input[pos - distance + i] == #[trigger] input[pos + i]
}

proof fn lemma_search(input: Seq<u8>, pos: int, candidate: int, tries: nat, best: (int, int))
    requires
        0 <= pos < input.len(),
        candidate < pos,
        best.0 > 0 ==> repeats(input, pos, best.0, best.1),
        best.0 >= 0,
    ensures
        ({
            let found = search(input, pos, candidate, tries, best);
            &&& found.0 >= 0
            &&& found.0 > 0 ==> repeats(input, pos, found.0, found.1)
        }),
    decreases tries,
{
    if tries == 0 || candidate < 0 || pos - candidate > WINDOW_SIZE {
    } else {
        let limit = match_limit(input, pos);
        let length = common(input, candidate, pos, 0, limit);
        lemma_common(input, candidate, pos, 0, limit);
        assert(repeats(input, pos, length, pos - candidate));
        if !(length > best.0 && length == limit) {
            let next = last_with_hash(input, hash_at(input, candidate), candidate);
            lemma_last_with_hash(input, hash_at(input, candidate), candidate);
            if candidate == 0 {
                assert(next == -1);
            }
            lemma_search(
                input,
                pos,
                next,
                (tries - 1) as nat,
                if length > best.0 {
                    (length, pos - candidate)
                } else {
                    best
                },
            );
        }
    }
}

/// A match that is taken is a true repetition, and every token stands for at least one byte.
pub proof fn lemma_token_at(input: Seq<u8>, pos: int)
    requires
        0 <= pos < input.len(),
    ensures
        best_match(input, pos).0 >= 0,
        best_match(input, pos).0 > 0 ==> repeats(
            input,
            pos,
            best_match(input, pos).0,
            best_match(input, pos).1,
        ),
        1 <= token_len(token_at(input, pos)) <= input.len() - pos,
        token_at(input, pos) matches Token::Match { length, distance } ==> MIN_MATCH <= length
            <= MAX_MATCH && repeats(input, pos, length as int, distance as int),
{
    if pos + 2 < input.len() {
        lemma_last_with_hash(input, hash_at(input, pos), pos);
        lemma_search(
            input,
            pos,
            last_with_hash(input, hash_at(input, pos), pos),
            MAX_TRIES as nat,
            (0, 0),
        );
    }
}

pub proof fn lemma_tokens_len(input: Seq<u8>, pos: int)
    requires
        0 <= pos <= input.len(),
    ensures
        tokens_from(input, pos).len() <= input.len() - pos,
        pos < input.len() ==> tokens_from(input, pos).len() > 0,
    decreases input.len() - pos,
{
    if pos < input.len() {
        lemma_token_at(input, pos);
        lemma_tokens_len(input, pos + token_len(token_at(input, pos)));
    }
}

/// Extensions of the asset types that shrink well.
pub open spec fn extensions() -> Seq<Seq<char>> {
    seq!["an3"@, "bsa"@, "dds"@, "fpk"@, "ghg"@, "gsc"@, "pak"@, "ter"@]
}

/// Whether the file is of a type that shrinks well.
pub fn should_compress(path: &str) -> (res: bool)
    ensures
        res == has_extension(encode_utf8(path@), extensions()),
{
    let known: [&str; 8] = ["an3", "bsa", "dds", "fpk", "ghg", "gsc", "pak", "ter"];
    assert(texts(known@) =~= extensions());
    extension_in(path, known.as_slice())
}

/// Hash of the first three bytes.
pub fn hash3(input: &[u8]) -> (res: usize)
    requires
        input@.len() >= 3,
    ensures
        res == hash_of(input@[0], input@[1], input@[2]),
        res < HASH_SIZE,
{
    let value: u32 = input[0] as u32 + 0x100 * input[1] as u32 + 0x1_0000 * input[2] as u32;
    let product: u64 = value as u64 * 0x1e35_a7bd;
    ((product % 0x1_0000_0000) / 0x4_0000) as usize
}

/// A position or, for -1, the mark of no position.
spec fn slot(at: int) -> usize {
    if at < 0 {
        usize::MAX
    } else {
        at as usize
    }
}

/// The chains hold every position before `pos`.
spec fn chained(input: Seq<u8>, head: Seq<usize>, previous: Seq<usize>, pos: int) -> bool {
    &&& head.len() == HASH_SIZE
    &&& previous.len() == input.len()
    &&& forall|h: int|
        0 <= h < HASH_SIZE ==> #[trigger] head[h] == slot(last_with_hash(input, h, pos))
    &&& forall|q: int|
        0 <= q < pos && q + 2 < input.len() ==> #[trigger] previous[q] == slot(
            last_with_hash(input, hash_at(input, q), q),
        )
}

/// Adds position `pos` to the chain of its hash.
pub fn insert(input: &[u8], pos: usize, head: &mut Vec<usize>, previous: &mut Vec<usize>)
    requires
        pos < input@.len(),
        old(head)@.len() == HASH_SIZE,
        old(previous)@.len() == input@.len(),
    ensures
        pos + 2 >= input@.len() ==> final(head)@ == old(head)@ && final(previous)@ == old(
            previous,
        )@,
        pos + 2 < input@.len() ==> {
            &&& final(head)@ == old(head)@.update(hash_at(input@, pos as int), pos)
            &&& final(previous)@ == old(previous)@.update(
                pos as int,
                old(head)@[hash_at(input@, pos as int)],
            )
        },
{
    if input.len() - pos > 2 {
        let hash: usize = hash3(vstd::slice::slice_subrange(input, pos, input.len()));
        let last: usize = head[hash];
        previous.set(pos, last);
        head.set(hash, pos);
    }
}

proof fn lemma_chained_step(
    input: Seq<u8>,
    head: Seq<usize>,
    previous: Seq<usize>,
    head2: Seq<usize>,
    previous2: Seq<usize>,
    pos: int,
)
    requires
        0 <= pos < input.len() <= PACK_BLOCK_SIZE,
        chained(input, head, previous, pos),
        pos + 2 >= input.len() ==> head2 == head && previous2 == previous,
        pos + 2 < input.len() ==> {
            &&& 0 <= hash_at(input, pos) < HASH_SIZE
            &&& head2 == head.update(hash_at(input, pos), pos as usize)
            &&& previous2 == previous.update(pos, head[hash_at(input, pos)])
        },
    ensures
        chained(input, head2, previous2, pos + 1),
{
    assert forall|h: int| 0 <= h < HASH_SIZE implies #[trigger] head2[h] == slot(
        last_with_hash(input, h, pos + 1),
    ) by {
        assert(head[h] == slot(last_with_hash(input, h, pos)));
    }
    assert forall|q: int| 0 <= q < pos + 1 && q + 2 < input.len() implies #[trigger] previous2[q]
        == slot(last_with_hash(input, hash_at(input, q), q)) by {
        if q < pos {
            assert(previous[q] == slot(last_with_hash(input, hash_at(input, q), q)));
        }
    }
}

/// Length and distance of the match to take at `pos`.
fn find_match(input: &[u8], pos: usize, head: &Vec<usize>, previous: &Vec<usize>) -> (res: (
    usize,
    usize,
))
    requires
        pos < input@.len() <= PACK_BLOCK_SIZE,
        chained(input@, head@, previous@, pos as int),
    ensures
        (res.0 as int, res.1 as int) == best_match(input@, pos as int),
{
    if pos + 2 >= input.len() {
        return (0, 0);
    }
    let ghost s = input@;
    let hash: usize = hash3(vstd::slice::slice_subrange(input, pos, input.len()));
    let mut candidate: usize = head[hash];
    let limit: usize = if input.len() - pos < MAX_MATCH {
        input.len() - pos
    } else {
        MAX_MATCH
    };
    let mut best_length: usize = 0;
    let mut best_distance: usize = 0;
    let mut tries: usize = MAX_TRIES;
    let ghost mut at = last_with_hash(s, hash as int, pos as int);
    proof {
        lemma_last_with_hash(s, hash as int, pos as int);
    }
    while tries > 0
        invariant
            s == input@,
            pos + 2 < s.len() <= PACK_BLOCK_SIZE,
            chained(s, head@, previous@, pos as int),
            limit == match_limit(s, pos as int),
            tries <= MAX_TRIES,
            -1 <= at,
            at < pos,
            at >= 0 ==> at + 2 < s.len(),
            candidate == slot(at),
            search(
                s,
                pos as int,
                at,
                tries as nat,
                (best_length as int, best_distance as int),
            ) == best_match(s, pos as int),
        decreases tries,
    {
        if candidate == usize::MAX || pos - candidate > WINDOW_SIZE {
            return (best_length, best_distance);
        }
        let mut length: usize = 0;
        while length < limit && input[candidate + length] == input[pos + length]
            invariant
                s == input@,
                length <= limit,
                limit == match_limit(s, pos as int),
                candidate < pos < s.len() <= PACK_BLOCK_SIZE,
                common(s, candidate as int, pos as int, length as int, limit as int) == common(
                    s,
                    candidate as int,
                    pos as int,
                    0,
                    limit as int,
                ),
            decreases limit - length,
        {
            length = length + 1;
        }
        if length > best_length {
            best_length = length;
            best_distance = pos - candidate;
            if length == limit {
                return (best_length, best_distance);
            }
        }
        proof {
            lemma_last_with_hash(s, hash_at(s, at), at);
            at = last_with_hash(s, hash_at(s, at), at);
        }
        candidate = previous[candidate];
        tries = tries - 1;
    }
    (best_length, best_distance)
}

/// Splits a chunk into tokens.
fn find_tokens(input: &[u8]) -> (res: Vec<Token>)
    requires
        input@.len() <= PACK_BLOCK_SIZE,
    ensures
        res@ == tokens_from(input@, 0),
{
    let ghost s = input@;
    let mut head: Vec<usize> = vec![usize::MAX; HASH_SIZE];
    let mut previous: Vec<usize> = vec![usize::MAX; input.len()];
    let mut tokens: Vec<Token> = Vec::new();
    let mut pos: usize = 0;
    while pos < input.len()
        invariant
            s == input@,
            pos <= s.len() <= PACK_BLOCK_SIZE,
            chained(s, head@, previous@, pos as int),
            tokens@ + tokens_from(s, pos as int) == tokens_from(s, 0),
        decreases s.len() - pos,
    {
        let ghost start = pos as int;
        let (length, distance): (usize, usize) = find_match(input, pos, &head, &previous);
        let ghost token = token_at(s, start);
        proof {
            lemma_token_at(s, start);
        }
        let (token, end): (Token, usize) = if length >= MIN_MATCH {
            (Token::Match { length, distance }, pos + length)
        } else {
            (Token::Literal(input[pos]), pos + 1)
        };
        while pos < end
            invariant
                s == input@,
                pos <= end <= s.len() <= PACK_BLOCK_SIZE,
                chained(s, head@, previous@, pos as int),
            decreases end - pos,
        {
            let ghost head0 = head@;
            let ghost previous0 = previous@;
            insert(input, pos, &mut head, &mut previous);
            proof {
                lemma_chained_step(s, head0, previous0, head@, previous@, pos as int);
            }
            pos = pos + 1;
        }
        let ghost before = tokens@;
        tokens.push(token);
        assert(tokens@ + tokens_from(s, pos as int) =~= before + (seq![token] + tokens_from(
            s,
            pos as int,
        )));
    }
    tokens
}

/// Writes a literal or length symbol.
pub fn write_literal(writer: &mut BitWriter, symbol: u32)
    requires
        old(writer).wf(),
        symbol < LITERAL_SYMBOLS,
        old(writer).bits + (if symbol < 2 {
            8int
        } else {
            9
        }) <= usize::MAX,
    ensures
        final(writer).wf(),
        final(writer)@ == old(writer)@ + literal_bits(symbol as nat),
        final(writer).bits == old(writer).bits + (if symbol < 2 {
            8int
        } else {
            9
        }),
        read_symbol(
            Code::Lengths(literal_code_lengths()),
            stream(final(writer).bytes@),
            old(writer).bits as int,
        ) == Ok::<(u16, int), Seq<char>>((symbol as u16, final(writer).bits as int)),
{
    proof {
        lemma2_to64();
    }
    if symbol < 2 {
        writer.put(symbol, 8);
    } else {
        writer.put(symbol + 2, 9);
    }
    proof {
        lemma_literal_read_back(*old(writer), *writer, symbol as nat);
    }
}

/// Writes a distance class.
pub fn write_offset(writer: &mut BitWriter, code: u32)
    requires
        old(writer).wf(),
        code < OFFSET_SYMBOLS,
        old(writer).bits + (if code < 2 {
            3int
        } else {
            4
        }) <= usize::MAX,
    ensures
        final(writer).wf(),
        final(writer)@ == old(writer)@ + class_bits(code as nat),
        final(writer).bits == old(writer).bits + (if code < 2 {
            3int
        } else {
            4
        }),
        read_symbol(
            Code::Lengths(offset_code_lengths()),
            stream(final(writer).bytes@),
            old(writer).bits as int,
        ) == Ok::<(u16, int), Seq<char>>((code as u16, final(writer).bits as int)),
{
    proof {
        lemma2_to64();
    }
    if code < 2 {
        writer.put(code, 3);
    } else {
        writer.put(code + 2, 4);
    }
    proof {
        lemma_class_read_back(*old(writer), *writer, code as nat);
    }
}

pub proof fn lemma_bit_length(n: nat, max: nat)
    requires
        n < pow2(max),
    ensures
        bit_length(n) <= max,
        n > 0 ==> bit_length(n) > 0 && pow2((bit_length(n) - 1) as nat) <= n < pow2(bit_length(n)),
    decreases n,
{
    lemma2_to64();
    if n > 0 {
        if max == 0 {
            assert(false);
        }
        lemma_pow2_unfold(max);
        lemma_bit_length(n / 2, (max - 1) as nat);
        let k = bit_length(n / 2);
        lemma_pow2_unfold(k + 1);
        if k > 0 {
            lemma_pow2_unfold(k);
        }
    }
}

/// Writes one token.
fn write_token(writer: &mut BitWriter, token: Token)
    requires
        old(writer).wf(),
        old(writer).bits + 40 <= usize::MAX,
        token matches Token::Match { length, distance } ==> MIN_MATCH <= length <= MAX_MATCH && 1
            <= distance <= WINDOW_SIZE,
    ensures
        final(writer).wf(),
        final(writer)@ == old(writer)@ + token_bits(token),
        final(writer).bits <= old(writer).bits + 40,
{
    match token {
        Token::Literal(byte) => {
            write_literal(writer, byte as u32);
        },
        Token::Match { length, distance } => {
            let ghost before = writer@;
            write_literal(writer, (length + MATCH_BASE) as u32);
            let ghost middle = writer@;
            let offset: u32 = (distance - 1) as u32;
            let mut class: u32 = 0;
            let mut rest: u32 = offset;
            proof {
                lemma2_to64();
                lemma_bit_length(offset as nat, 13);
            }
            while rest > 0
                invariant
                    class + bit_length(rest as nat) == bit_length(offset as nat),
                    bit_length(offset as nat) <= 13,
                decreases rest,
            {
                rest = rest / 2;
                class = class + 1;
            }
            write_offset(writer, class);
            if class > 0 {
                proof {
                    lemma_pow2_unfold(class as nat);
                    vstd::bits::lemma_u32_shl_is_mul(1, (class - 1) as u32);
                    lemma_pow2_strictly_increases((class - 1) as nat, 13);
                }
                writer.put(offset - (1u32 << (class - 1)), (class - 1) as usize);
            }
            assert(writer@ =~= before + token_bits(token));
        },
    }
}

/// Writes `n` fields of three bits, the first two holding `a` and the others `b`.
fn write_fields(writer: &mut BitWriter, a: u32, b: u32, n: usize)
    requires
        old(writer).wf(),
        a < 8,
        b < 8,
        n <= OFFSET_SYMBOLS,
        old(writer).bits + 42 <= usize::MAX,
    ensures
        final(writer).wf(),
        final(writer)@ == old(writer)@ + three_bit_fields(a as nat, b as nat, n as nat),
        final(writer).bits == old(writer).bits + 3 * n,
{
    proof {
        lemma2_to64();
        assert(writer@ + three_bit_fields(a as nat, b as nat, 0) =~= writer@);
    }
    let mut i: usize = 0;
    while i < n
        invariant
            writer.wf(),
            i <= n <= OFFSET_SYMBOLS,
            a < 8,
            b < 8,
            pow2(3) == 8,
            writer.bits == old(writer).bits + 3 * i,
            old(writer).bits + 42 <= usize::MAX,
            writer@ == old(writer)@ + three_bit_fields(a as nat, b as nat, i as nat),
        decreases n - i,
    {
        let ghost before = writer@;
        let value: u32 = if i < 2 {
            a
        } else {
            b
        };
        writer.put(value, 3);
        i = i + 1;
        assert(writer@ =~= old(writer)@ + three_bit_fields(a as nat, b as nat, i as nat));
    }
}

/// Writes what stands before the tokens of a block.
fn write_block_header(writer: &mut BitWriter, count: u32)
    requires
        old(writer).wf(),
        old(writer)@ == Seq::<bool>::empty(),
        old(writer).bits == 0,
        count <= PACK_BLOCK_SIZE,
    ensures
        final(writer).wf(),
        final(writer)@ == block_header_bits(count as nat),
        final(writer).bits <= 1000,
{
    proof {
        lemma2_to64();
    }
    writer.put(count, 16);
    writer.put(12, 5);
    write_fields(writer, 0, 0, 3);
    writer.put(3, 2);
    write_fields(writer, 0, 0, 4);
    write_fields(writer, 1, 1, 2);
    writer.put(LITERAL_SYMBOLS as u32, 9);
    let ghost before = writer@;
    let mut symbol: usize = 0;
    assert(before + literal_length_bits(0) =~= before);
    while symbol < LITERAL_SYMBOLS
        invariant
            writer.wf(),
            symbol <= LITERAL_SYMBOLS,
            writer.bits == 59 + symbol,
            pow2(1) == 2,
            writer@ == before + literal_length_bits(symbol as nat),
        decreases LITERAL_SYMBOLS - symbol,
    {
        let ghost now = writer@;
        let value: u32 = if symbol >= 2 {
            1
        } else {
            0
        };
        writer.put(value, 1);
        symbol = symbol + 1;
        proof {
            assert(to_bits((value / 2) as nat, 0) =~= Seq::<bool>::empty());
            assert(to_bits(value as nat, 1) =~= seq![value == 1]);
            assert(writer@ =~= before + literal_length_bits(symbol as nat));
        }
    }
    writer.put(OFFSET_SYMBOLS as u32, 4);
    write_fields(writer, 3, 4, OFFSET_SYMBOLS);
    assert(writer@ =~= block_header_bits(count as nat));
}

/// Every match among the tokens is one that a block can hold.
spec fn writable(tokens: Seq<Token>) -> bool {
    forall|i: int|
        0 <= i < tokens.len() ==> (#[trigger] tokens[i] matches Token::Match { length, distance }
            ==> MIN_MATCH <= length <= MAX_MATCH && 1 <= distance <= WINDOW_SIZE)
}

proof fn lemma_tokens_writable(input: Seq<u8>, pos: int)
    requires
        0 <= pos,
    ensures
        writable(tokens_from(input, pos)),
    decreases input.len() - pos,
{
    if pos < input.len() {
        lemma_token_at(input, pos);
        lemma_tokens_writable(input, pos + token_len(token_at(input, pos)));
    }
}

/// Encodes one chunk. A chunk that would grow is kept as it is.
pub fn encode_block(input: &[u8]) -> (res: Vec<u8>)
    requires
        input@.len() <= PACK_BLOCK_SIZE,
    ensures
        input@.len() == 0 ==> res@.len() == 0,
        input@.len() > 0 && encoded_len(input@) < input@.len() ==> holds_bits(
            res@,
            encoded_bits(input@),
        ),
        encoded_len(input@) >= input@.len() ==> res@ == input@,
        res@.len() <= input@.len(),
{
    if input.len() == 0 {
        return Vec::new();
    }
    let tokens: Vec<Token> = find_tokens(input);
    proof {
        lemma_tokens_len(input@, 0);
        lemma_tokens_writable(input@, 0);
    }
    let mut writer: BitWriter = BitWriter::new(input.len());
    assert(writer.bits == 0);
    write_block_header(&mut writer, tokens.len() as u32);
    let ghost header = writer@;
    let mut i: usize = 0;
    assert(header + all_token_bits(tokens@.take(0)) =~= header);
    while i < tokens.len()
        invariant
            writer.wf(),
            i <= tokens@.len() <= PACK_BLOCK_SIZE,
            writable(tokens@),
            writer.bits <= 1000 + 40 * i,
            writer@ == header + all_token_bits(tokens@.take(i as int)),
        decreases tokens@.len() - i,
    {
        let ghost before = writer@;
        write_token(&mut writer, tokens[i]);
        i = i + 1;
        proof {
            assert(tokens@.take(i as int).drop_last() =~= tokens@.take(i - 1));
            assert(writer@ =~= header + all_token_bits(tokens@.take(i as int)));
        }
    }
    assert(tokens@.take(i as int) =~= tokens@);
    if writer.bytes.len() < input.len() {
        writer.bytes
    } else {
        slice_to_vec(input)
    }
}

} // verus!
