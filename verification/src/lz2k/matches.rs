//! Which match the encoder takes.

use super::encoder::{
    all_token_bits, best_match, bit_length, block_header_bits, common, encoded_bits, encoded_len,
    hash_at, hash_of, last_with_hash, lemma_common, match_limit, search, three_bit_fields, token_at,
    token_bits, tokens_from, Token,
};
use crate::bits::lemma_to_bits_len;
use vstd::arithmetic::power2::pow2;
use vstd::prelude::*;

verus! {

/// The same bytes stand at two positions, `n` of them.
pub open spec fn agrees(input: Seq<u8>, a: int, b: int, n: int) -> bool {
    forall|i: int| 0 <= i < n ==> input[a + i] == #[trigger] input[b + i]
}

/// How many of the positions from `from` up to `to` have three bytes with this hash.
pub open spec fn among(input: Seq<u8>, hash: int, from: int, to: int) -> nat
    decreases to - from,
{
    if from >= to {
        0
    } else if hash_at(input, from) == hash && from + 2 < input.len() {
        1 + among(input, hash, from + 1, to)
    } else {
        among(input, hash, from + 1, to)
    }
}

/// A match may begin at the position `q`: at most 8192 bytes in front, its three bytes have the
/// same hash, and fewer than 64 positions in between have it too.
pub open spec fn eligible(input: Seq<u8>, pos: int, q: int) -> bool {
    &&& 0 <= q < pos
    &&& pos - q <= 8192
    &&& hash_at(input, q) == hash_at(input, pos)
    &&& among(input, hash_at(input, pos), q + 1, pos) < 64
}

proof fn lemma_among_more(input: Seq<u8>, hash: int, a: int, b: int, to: int)
    requires
        a <= b,
    ensures
        among(input, hash, a, to) >= among(input, hash, b, to),
    decreases b - a,
{
    if a < b {
        lemma_among_more(input, hash, a + 1, b, to);
        if a >= to {
            assert(among(input, hash, b, to) == 0);
        }
    }
}

proof fn lemma_last(input: Seq<u8>, hash: int, from: int)
    requires
        from <= input.len(),
    ensures
        ({
            let c = last_with_hash(input, hash, from);
            &&& -1 <= c
            &&& c >= 0 ==> c < from && c + 2 < input.len() && hash_at(input, c) == hash
            &&& forall|p: int|
                #![trigger hash_at(input, p)]
                c < p < from && 0 <= p && p + 2 < input.len() ==> hash_at(input, p) != hash
        }),
    decreases from,
{
    if from > 0 {
        if from + 1 < input.len() && hash_at(input, from - 1) == hash {
        } else {
            lemma_last(input, hash, from - 1);
        }
    }
}

proof fn lemma_among_none(input: Seq<u8>, hash: int, from: int, to: int, end: int)
    requires
        0 <= from <= to <= end,
        forall|p: int|
            #![trigger hash_at(input, p)]
            from <= p < to && p + 2 < input.len() ==> hash_at(input, p) != hash,
    ensures
        among(input, hash, from, end) == among(input, hash, to, end),
    decreases to - from,
{
    if from < to {
        lemma_among_none(input, hash, from + 1, to, end);
        assert(from < end);
        assert(hash_at(input, from) != hash || from + 2 >= input.len());
    }
}

/// No eligible position from `from` on does better than a length, and one that is as good is no
/// nearer than the position that it was found at.
pub open spec fn unbeaten(input: Seq<u8>, pos: int, from: int, best: (int, int)) -> bool {
    forall|q: int, n: int|
        #![trigger agrees(input, q, pos, n)]
        from <= q < pos && eligible(input, pos, q) && 0 < n <= 256 && n <= input.len() - pos
            && agrees(input, q, pos, n) ==> n < best.0 || (n == best.0 && q <= pos - best.1)
}

/// A match was found where one may begin.
pub open spec fn is_found(input: Seq<u8>, pos: int, best: (int, int)) -> bool {
    &&& best.0 <= 256
    &&& best.0 <= input.len() - pos
    &&& eligible(input, pos, pos - best.1)
    &&& agrees(input, pos - best.1, pos, best.0)
}

proof fn lemma_run(input: Seq<u8>, a: int, b: int, k: int, limit: int, n: int)
    requires
        0 <= k <= limit,
        n <= limit,
        agrees(input, a, b, n),
    ensures
        n <= common(input, a, b, k, limit) || n <= k,
    decreases limit - k,
{
    if k < limit && input[a + k] == input[b + k] {
        lemma_run(input, a, b, k + 1, limit, n);
        lemma_common_grows(input, a, b, k + 1, limit);
    } else if k < n {
        assert(input[a + k] == input[b + k]);
    }
}

proof fn lemma_common_grows(input: Seq<u8>, a: int, b: int, k: int, limit: int)
    requires
        k <= limit,
    ensures
        k <= common(input, a, b, k, limit) <= limit,
    decreases limit - k,
{
    if k < limit && input[a + k] == input[b + k] {
        lemma_common_grows(input, a, b, k + 1, limit);
    }
}

proof fn lemma_search_best(
    input: Seq<u8>,
    pos: int,
    from: int,
    tries: nat,
    best: (int, int),
)
    requires
        0 <= from <= pos,
        pos + 2 < input.len(),
        among(input, hash_at(input, pos), from, pos) + tries == 64,
        best.0 >= 0,
        best.0 > 0 ==> is_found(input, pos, best) && from <= pos - best.1,
        unbeaten(input, pos, from, best),
    ensures
        ({
            let hash = hash_at(input, pos);
            let found = search(input, pos, last_with_hash(input, hash, from), tries, best);
            &&& found.0 >= 0
            &&& found.0 > 0 ==> is_found(input, pos, found)
            &&& unbeaten(input, pos, 0, found)
        }),
    decreases tries,
{
    let hash = hash_at(input, pos);
    let c = last_with_hash(input, hash, from);
    lemma_last(input, hash, from);
    let found = search(input, pos, c, tries, best);
    if tries == 0 || c < 0 || pos - c > 8192 {
        assert forall|q: int, n: int|
            #![trigger agrees(input, q, pos, n)]
            0 <= q < pos && eligible(input, pos, q) && 0 < n <= 256 && n <= input.len() - pos
                && agrees(input, q, pos, n) implies n < best.0 || (n == best.0 && q <= pos
            - best.1) by {
            if q < from {
                lemma_among_more(input, hash, q + 1, from, pos);
                assert(hash_at(input, q) == hash);
                assert(false);
            }
        }
    } else {
        let limit = match_limit(input, pos);
        let length = common(input, c, pos, 0, limit);
        lemma_common(input, c, pos, 0, limit);
        lemma_among_none(input, hash, c + 1, from, pos);
        assert(among(input, hash, c, pos) == 1 + among(input, hash, c + 1, pos));
        assert(eligible(input, pos, c));
        assert(agrees(input, c, pos, length));
        let better = if length > best.0 {
            (length, pos - c)
        } else {
            best
        };
        assert forall|q: int, n: int|
            #![trigger agrees(input, q, pos, n)]
            c <= q < pos && eligible(input, pos, q) && 0 < n <= 256 && n <= input.len() - pos
                && agrees(input, q, pos, n) implies n < better.0 || (n == better.0 && q <= pos
            - better.1) by {
            if q == c {
                lemma_run(input, c, pos, 0, limit, n);
            } else if q < from {
                assert(hash_at(input, q) == hash);
                assert(false);
            }
        }
        if length > best.0 && length == limit {
            assert(found == better);
            assert forall|q: int, n: int|
                #![trigger agrees(input, q, pos, n)]
                0 <= q < pos && eligible(input, pos, q) && 0 < n <= 256 && n <= input.len() - pos
                    && agrees(input, q, pos, n) implies n < better.0 || (n == better.0 && q <= pos
                - better.1) by {
                assert(n <= limit);
                if q < c {
                    assert(pos - better.1 == c);
                }
            }
        } else {
            lemma_search_best(input, pos, c, (tries - 1) as nat, better);
        }
    }
}

/// The match that is taken is the longest one that may be, and the nearest of those as long. It
/// has at most 256 bytes, and does not go beyond the end.
pub proof fn lemma_best_match(input: Seq<u8>, pos: int)
    requires
        0 <= pos,
        pos + 2 < input.len(),
    ensures
        ({
            let found = best_match(input, pos);
            &&& found.0 >= 0
            &&& found.0 > 0 ==> is_found(input, pos, found)
            &&& unbeaten(input, pos, 0, found)
        }),
{
    lemma_search_best(input, pos, pos, 64, (0, 0));
}

/// A match is taken wherever three bytes or more occurred at a place where one may begin, and a
/// byte is left as it is everywhere else.
pub proof fn lemma_token_taken(input: Seq<u8>, pos: int)
    requires
        0 <= pos < input.len(),
    ensures
        match token_at(input, pos) {
            Token::Match { length, distance } => 3 <= length && is_found(
                input,
                pos,
                (length as int, distance as int),
            ) && unbeaten(input, pos, 0, (length as int, distance as int)),
            Token::Literal(byte) => byte == input[pos] && (pos + 2 < input.len() ==> forall|q: int|
                #![trigger eligible(input, pos, q)]
                eligible(input, pos, q) ==> !agrees(input, q, pos, 3)),
        },
{
    if pos + 2 < input.len() {
        lemma_best_match(input, pos);
        let found = best_match(input, pos);
        if found.0 < 3 {
            assert forall|q: int|
                #![trigger eligible(input, pos, q)]
                eligible(input, pos, q) implies !agrees(input, q, pos, 3) by {
                if agrees(input, q, pos, 3) {
                    assert(3 < found.0 || 3 == found.0);
                }
            }
        }
    }
}

/// The hash of three bytes are the fourteen high bits of a product in thirty-two.
pub proof fn lemma_hash_bits(a: u8, b: u8, c: u8)
    ensures
        ({
            let key: int = a + 0x100 * b + 0x1_0000 * c;
            let product: int = key * 506_832_829 % 0x1_0000_0000;
            &&& 0 <= hash_of(a, b, c) < 0x4000
            &&& hash_of(a, b, c) * 0x4_0000 <= product < (hash_of(a, b, c) + 1) * 0x4_0000
        }),
{
}

/// A chunk costs 615 bits, and for each token as many as it takes: eight or nine for a byte, and for
/// a match nine, three or four for the class of its distance, and what the class leaves open.
pub proof fn lemma_encoded_size(input: Seq<u8>)
    ensures
        encoded_bits(input).len() == 615 + all_token_bits(tokens_from(input, 0)).len(),
        8 * (encoded_len(input) - 1) < encoded_bits(input).len() <= 8 * encoded_len(input),
{
    lemma_header_size(tokens_from(input, 0).len());
}

proof fn lemma_header_size(count: nat)
    ensures
        block_header_bits(count).len() == 615,
{
    lemma_to_bits_len(count, 16);
    lemma_to_bits_len(12, 5);
    lemma_to_bits_len(3, 2);
    lemma_to_bits_len(510, 9);
    lemma_to_bits_len(14, 4);
    lemma_fields_size(0, 0, 3);
    lemma_fields_size(0, 0, 4);
    lemma_fields_size(1, 1, 2);
    lemma_fields_size(3, 4, 14);
}

proof fn lemma_fields_size(a: nat, b: nat, n: nat)
    ensures
        three_bit_fields(a, b, n).len() == 3 * n,
    decreases n,
{
    if n > 0 {
        lemma_fields_size(a, b, (n - 1) as nat);
        lemma_to_bits_len(a, 3);
        lemma_to_bits_len(b, 3);
    }
}

/// How many bits a token takes.
pub proof fn lemma_token_size(token: Token)
    requires
        token matches Token::Match { length, distance } ==> 3 <= length <= 256 && 1 <= distance
            <= 8192,
    ensures
        match token {
            Token::Literal(byte) => token_bits(token).len() == if byte < 2 {
                8int
            } else {
                9
            },
            Token::Match { length, distance } => {
                let bits = token_bits(token).len();
                &&& distance == 1 ==> bits == 12
                &&& distance == 2 ==> bits == 12
                &&& 3 <= distance <= 4 ==> bits == 14
                &&& 5 <= distance <= 8 ==> bits == 15
                &&& 9 <= distance <= 16 ==> bits == 16
                &&& 17 <= distance <= 32 ==> bits == 17
                &&& 33 <= distance <= 64 ==> bits == 18
                &&& 65 <= distance <= 128 ==> bits == 19
                &&& 129 <= distance <= 256 ==> bits == 20
                &&& 257 <= distance <= 512 ==> bits == 21
                &&& 513 <= distance <= 1024 ==> bits == 22
                &&& 1025 <= distance <= 2048 ==> bits == 23
                &&& 2049 <= distance <= 4096 ==> bits == 24
                &&& 4097 <= distance ==> bits == 25
            },
        },
{
    match token {
        Token::Literal(byte) => {
            lemma_to_bits_len(byte as nat, 8);
            lemma_to_bits_len((byte + 2) as nat, 9);
        },
        Token::Match { length, distance } => {
            let offset = (distance - 1) as nat;
            let class = bit_length(offset);
            lemma_to_bits_len((length + 0xfd + 2) as nat, 9);
            lemma_to_bits_len(class, 3);
            lemma_to_bits_len(class + 2, 4);
            reveal_with_fuel(bit_length, 15);
            if class > 0 {
                lemma_to_bits_len(
                    (offset - pow2((class - 1) as nat)) as nat,
                    (class - 1) as nat,
                );
            }
        },
    }
}

} // verus!
