//! Bits and prefix codes, by the weight of their words.

use crate::bits::{be_value, bit_of, stream};
use crate::huffman::{
    code_from, code_of, complete, count_before, count_of, first_code, lemma_symbol_of, oversubscribed,
    read_symbol, scan, symbol_of, assigned, Code, MAX_CODE_BITS,
};
use crate::lz2k::tables::spells;
use vstd::arithmetic::power2::{lemma2_to64, lemma_pow2_adds, lemma_pow2_pos, lemma_pow2_unfold, pow2};
use vstd::prelude::*;

verus! {

/// Bits behind others count less: a number in two parts is the first, moved up by as many bits as
/// the second has, and the second.
pub proof fn lemma_bits_split(a: Seq<bool>, b: Seq<bool>)
    ensures
        be_value(a + b) == be_value(a) * pow2(b.len()) + be_value(b),
        be_value(seq![true]) == 1,
        be_value(seq![false]) == 0,
    decreases b.len(),
{
    lemma2_to64();
    reveal_with_fuel(be_value, 2);
    if b.len() == 0 {
        assert(a + b =~= a);
        assert(be_value(a) * 1 == be_value(a));
    } else {
        let c = b.drop_last();
        lemma_bits_split(a, c);
        assert((a + b).drop_last() =~= a + c);
        assert((a + b).last() == b.last());
        lemma_pow2_unfold(b.len());
        let (x, y) = (be_value(a) as int, pow2(c.len()) as int);
        assert(2 * (x * y) == x * (2 * y)) by (nonlinear_arith);
    }
}

/// The bits of a byte string spell its bytes, one after the other.
pub proof fn lemma_byte_spelled(data: Seq<u8>, i: int)
    requires
        0 <= i < data.len(),
    ensures
        stream(data).len() == 8 * data.len(),
        spells(stream(data), 8 * i, 8, data[i] as int),
{
    let s = stream(data);
    let b = data[i];
    let bits = s.subrange(8 * i, 8 * i + 8);
    assert forall|k: int| 0 <= k < 8 implies #[trigger] bits[k] == bit_of(b, k) by {
        assert((8 * i + k) / 8 == i && (8 * i + k) % 8 == k);
    }
    let v = |k: int|
        if bits[k] {
            1nat
        } else {
            0nat
        };
    assert(be_value(bits) == 128 * v(0) + 64 * v(1) + 32 * v(2) + 16 * v(3) + 8 * v(4) + 4 * v(5)
        + 2 * v(6) + v(7)) by {
        reveal_with_fuel(be_value, 9);
    }
    assert(bits[0] == bit_of(b, 0) && bits[1] == bit_of(b, 1) && bits[2] == bit_of(b, 2) && bits[3]
        == bit_of(b, 3) && bits[4] == bit_of(b, 4) && bits[5] == bit_of(b, 5) && bits[6] == bit_of(
        b,
        6,
    ) && bits[7] == bit_of(b, 7));
    let (b0, b1, b2, b3, b4, b5, b6, b7) = (
        (b >> 7u8) & 1u8,
        (b >> 6u8) & 1u8,
        (b >> 5u8) & 1u8,
        (b >> 4u8) & 1u8,
        (b >> 3u8) & 1u8,
        (b >> 2u8) & 1u8,
        (b >> 1u8) & 1u8,
        (b >> 0u8) & 1u8,
    );
    assert(b0 <= 1 && b1 <= 1 && b2 <= 1 && b3 <= 1 && b4 <= 1 && b5 <= 1 && b6 <= 1 && b7 <= 1
        && b == 128 * b0 + 64 * b1 + 32 * b2 + 16 * b3 + 8 * b4 + 4 * b5 + 2 * b6 + b7)
        by (bit_vector)
        requires
            b0 == (b >> 7u8) & 1u8,
            b1 == (b >> 6u8) & 1u8,
            b2 == (b >> 5u8) & 1u8,
            b3 == (b >> 4u8) & 1u8,
            b4 == (b >> 3u8) & 1u8,
            b5 == (b >> 2u8) & 1u8,
            b6 == (b >> 1u8) & 1u8,
            b7 == (b >> 0u8) & 1u8,
    ;
}

/// The weight of a word of some length: the part of all sequences of sixteen bits that begin with
/// it. A length of zero stands for no word.
pub open spec fn weight(length: u8) -> int {
    if 1 <= length <= 16 {
        pow2((16 - length) as nat) as int
    } else {
        0
    }
}

/// The weight of the words of the first `upto` symbols.
pub open spec fn weight_of(lengths: Seq<u8>, upto: int) -> int
    decreases upto,
{
    if upto <= 0 {
        0
    } else {
        weight_of(lengths, upto - 1) + weight(lengths[upto - 1])
    }
}

/// Symbol `j` comes before `i`: its word is shorter, or as long and its number less.
pub open spec fn comes_before(lengths: Seq<u8>, j: int, i: int) -> bool {
    lengths[j] < lengths[i] || (lengths[j] == lengths[i] && j < i)
}

/// The weight of the words, among those of the first `upto` symbols, that come before that of `i`.
pub open spec fn weight_before(lengths: Seq<u8>, i: int, upto: int) -> int
    decreases upto,
{
    if upto <= 0 {
        0
    } else {
        weight_before(lengths, i, upto - 1) + if comes_before(lengths, upto - 1, i) {
            weight(lengths[upto - 1])
        } else {
            0
        }
    }
}

/// The weight of the words with fewer than `n` bits among those of the first `upto` symbols.
spec fn weight_below(lengths: Seq<u8>, n: int, upto: int) -> int
    decreases upto,
{
    if upto <= 0 {
        0
    } else {
        weight_below(lengths, n, upto - 1) + if lengths[upto - 1] < n {
            weight(lengths[upto - 1])
        } else {
            0
        }
    }
}

proof fn lemma_no_times(x: int, w: int)
    ensures
        x == 0 ==> x * w == 0,
        w == 1 ==> x * w == x,
{
    assert(x == 0 ==> x * w == 0) by (nonlinear_arith);
    assert(w == 1 ==> x * w == x) by (nonlinear_arith);
}

proof fn lemma_below_step(lengths: Seq<u8>, n: int, upto: int)
    requires
        1 <= n <= 16,
    ensures
        weight_below(lengths, n + 1, upto) == weight_below(lengths, n, upto) + count_before(
            lengths,
            upto,
            n,
        ) * pow2((16 - n) as nat),
    decreases upto,
{
    if upto > 0 {
        lemma_below_step(lengths, n, upto - 1);
        let (c, w) = (count_before(lengths, upto - 1, n) as int, pow2((16 - n) as nat) as int);
        assert((c + 1) * w == c * w + w) by (nonlinear_arith);
    } else {
        lemma_no_times(count_before(lengths, upto, n) as int, pow2((16 - n) as nat) as int);
    }
}

proof fn lemma_below_one(lengths: Seq<u8>, upto: int)
    ensures
        weight_below(lengths, 1, upto) == 0,
    decreases upto,
{
    if upto > 0 {
        lemma_below_one(lengths, upto - 1);
    }
}

proof fn lemma_first_weight(lengths: Seq<u8>, n: int)
    requires
        1 <= n <= 16,
    ensures
        first_code(lengths, n) * pow2((16 - n) as nat) == weight_below(
            lengths,
            n,
            lengths.len() as int,
        ),
    decreases n,
{
    let m = lengths.len() as int;
    if n == 1 {
        lemma_below_one(lengths, m);
        lemma_no_times(first_code(lengths, 1) as int, pow2(15) as int);
    } else {
        lemma_first_weight(lengths, n - 1);
        lemma_below_step(lengths, n - 1, m);
        lemma_pow2_unfold((17 - n) as nat);
        let (f, c, w) = (
            first_code(lengths, n - 1) as int,
            count_of(lengths, n - 1) as int,
            pow2((16 - n) as nat) as int,
        );
        assert((2 * (f + c)) * w == f * (2 * w) + c * (2 * w)) by (nonlinear_arith);
    }
}

proof fn lemma_before_split(lengths: Seq<u8>, i: int, upto: int)
    requires
        0 <= i < lengths.len(),
        1 <= lengths[i] <= 16,
        0 <= upto <= lengths.len(),
    ensures
        weight_before(lengths, i, upto) == weight_below(lengths, lengths[i] as int, upto)
            + count_before(
            lengths,
            if upto < i {
                upto
            } else {
                i
            },
            lengths[i] as int,
        ) * pow2((16 - lengths[i]) as nat),
    decreases upto,
{
    if upto > 0 {
        lemma_before_split(lengths, i, upto - 1);
        let w = pow2((16 - lengths[i]) as nat) as int;
        if upto <= i {
            let c = count_before(lengths, upto - 1, lengths[i] as int) as int;
            assert((c + 1) * w == c * w + w) by (nonlinear_arith);
        }
    } else {
        lemma_no_times(
            count_before(lengths, 0, lengths[i] as int) as int,
            pow2((16 - lengths[i]) as nat) as int,
        );
    }
}

/// The word of a symbol, filled up to sixteen bits, is the weight of all words before it: shorter
/// words come first, and words of one length in the order of their symbols.
pub proof fn lemma_canonical(lengths: Seq<u8>, i: int)
    requires
        0 <= i < lengths.len(),
        1 <= lengths[i] <= 16,
    ensures
        code_of(lengths, i) * pow2((16 - lengths[i]) as nat) == weight_before(
            lengths,
            i,
            lengths.len() as int,
        ),
{
    let n = lengths[i] as int;
    let m = lengths.len() as int;
    lemma_first_weight(lengths, n);
    lemma_before_split(lengths, i, m);
    let (f, c, w) = (
        first_code(lengths, n) as int,
        count_before(lengths, i, n) as int,
        pow2((16 - n) as nat) as int,
    );
    assert((f + c) * w == f * w + c * w) by (nonlinear_arith);
}

proof fn lemma_below_all(lengths: Seq<u8>, n: int, upto: int)
    requires
        0 <= upto <= lengths.len(),
    ensures
        0 <= weight_below(lengths, n, upto) <= weight_of(lengths, upto),
        n > 16 ==> weight_below(lengths, n, upto) == weight_of(lengths, upto),
    decreases upto,
{
    if upto > 0 {
        lemma_below_all(lengths, n, upto - 1);
    }
}

/// Lengths are those of a code if none is above sixteen and their words together weigh as much as
/// all sequences of sixteen bits: nothing is left over, and nothing is missing.
pub proof fn lemma_code_accepted(lengths: Seq<u8>)
    ensures
        code_from(lengths) is Ok <==> weight_of(lengths, lengths.len() as int) == 0x1_0000
            && forall|i: int| 0 <= i < lengths.len() ==> (#[trigger] lengths[i]) <= 16,
        code_from(lengths) matches Ok(code) ==> code == Code::Lengths(lengths),
{
    let m = lengths.len() as int;
    lemma2_to64();
    assert forall|n: int| 1 <= n <= 16 implies (first_code(lengths, n) + count_of(lengths, n))
        * pow2((16 - n) as nat) == #[trigger] weight_below(lengths, n + 1, m) by {
        lemma_first_weight(lengths, n);
        lemma_below_step(lengths, n, m);
        let (f, c, w) = (
            first_code(lengths, n) as int,
            count_of(lengths, n) as int,
            pow2((16 - n) as nat) as int,
        );
        assert((f + c) * w == f * w + c * w) by (nonlinear_arith);
    }
    lemma_below_all(lengths, 17, m);
    assert(weight_below(lengths, 16int + 1, m) == weight_of(lengths, m));
    lemma_no_times((first_code(lengths, 16) + count_of(lengths, 16)) as int, pow2(0) as int);
    assert(complete(lengths) <==> weight_of(lengths, m) == 0x1_0000);
    if complete(lengths) && oversubscribed(lengths) {
        let n = choose|n: int|
            1 <= n <= MAX_CODE_BITS && #[trigger] first_code(lengths, n) + count_of(lengths, n)
                > pow2(n as nat);
        lemma_below_all(lengths, n + 1, m);
        assert(weight_below(lengths, n + 1, m) <= 0x1_0000);
        lemma_pow2_adds(n as nat, (16 - n) as nat);
        lemma_pow2_pos((16 - n) as nat);
        let (x, y, w) = (
            first_code(lengths, n) + count_of(lengths, n),
            pow2(n as nat) as int,
            pow2((16 - n) as nat) as int,
        );
        assert(x * w > y * w) by (nonlinear_arith)
            requires
                x > y,
                w > 0,
        ;
    }
}

proof fn lemma_before_grows(lengths: Seq<u8>, j: int, i: int, upto: int)
    requires
        0 <= i < lengths.len(),
        0 <= j < lengths.len(),
        comes_before(lengths, j, i),
        0 <= upto <= lengths.len(),
    ensures
        weight_before(lengths, j, upto) + (if j < upto {
            weight(lengths[j])
        } else {
            0
        }) <= weight_before(lengths, i, upto),
    decreases upto,
{
    if upto > 0 {
        lemma_before_grows(lengths, j, i, upto - 1);
    }
}

/// No word is the beginning of another that is longer.
proof fn lemma_no_shorter(lengths: Seq<u8>, s: Seq<bool>, at: int, i: int, n: int)
    requires
        0 <= i < lengths.len(),
        1 <= n < lengths[i] <= 16,
        spells(s, at, lengths[i] as int, code_of(lengths, i) as int),
    ensures
        symbol_of(lengths, n, be_value(s.subrange(at, at + n))) is None,
{
    let m = lengths.len() as int;
    let len = lengths[i] as int;
    let a = s.subrange(at, at + n);
    let b = s.subrange(at + n, at + len);
    let v = be_value(a) as int;
    assert(s.subrange(at, at + len) =~= a + b);
    lemma_bits_split(a, b);
    crate::bits::lemma_be_value_bound(b);
    if exists|j: int| assigned(lengths, j, n, be_value(a)) {
        let j = choose|j: int| assigned(lengths, j, n, be_value(a));
        lemma_canonical(lengths, j);
        lemma_canonical(lengths, i);
        lemma_before_grows(lengths, j, i, m);
        lemma_pow2_adds((len - n) as nat, (16 - len) as nat);
        let (x, y) = (pow2((len - n) as nat) as int, pow2((16 - len) as nat) as int);
        let w = be_value(b) as int;
        let c = code_of(lengths, i) as int;
        lemma_pow2_pos((16 - len) as nat);
        assert(c * y < (v + 1) * (x * y)) by (nonlinear_arith)
            requires
                c == v * x + w,
                w < x,
                y > 0,
        ;
        assert((v + 1) * (x * y) == v * (x * y) + x * y) by (nonlinear_arith);
        assert(weight(lengths[j]) == x * y);
    }
}

proof fn lemma_scan_to(lengths: Seq<u8>, s: Seq<bool>, at: int, i: int, n: int)
    requires
        0 <= i < lengths.len() <= 0x1_0000,
        1 <= n <= lengths[i] <= 16,
        spells(s, at, lengths[i] as int, code_of(lengths, i) as int),
    ensures
        scan(lengths, s, at, n) == Ok::<(u16, int), Seq<char>>((i as u16, at + lengths[i])),
    decreases lengths[i] - n,
{
    if n < lengths[i] {
        lemma_no_shorter(lengths, s, at, i, n);
        lemma_scan_to(lengths, s, at, i, n + 1);
    } else {
        lemma_symbol_of(lengths, i, n, code_of(lengths, i));
    }
}

/// A symbol is read where its word stands: the bits that, filled up to sixteen, are the weight of
/// the words before it.
pub proof fn lemma_word_read(lengths: Seq<u8>, s: Seq<bool>, at: int, i: int, word: int)
    requires
        0 <= i < lengths.len() <= 0x1_0000,
        1 <= lengths[i] <= 16,
        word * pow2((16 - lengths[i]) as nat) == weight_before(lengths, i, lengths.len() as int),
        spells(s, at, lengths[i] as int, word),
    ensures
        read_symbol(Code::Lengths(lengths), s, at) == Ok::<(u16, int), Seq<char>>(
            (i as u16, at + lengths[i]),
        ),
{
    lemma_canonical(lengths, i);
    lemma_pow2_pos((16 - lengths[i]) as nat);
    let (c, w) = (code_of(lengths, i) as int, pow2((16 - lengths[i]) as nat) as int);
    assert(word == c) by (nonlinear_arith)
        requires
            word * w == c * w,
            w > 0,
    ;
    lemma_scan_to(lengths, s, at, i, 1);
}

} // verus!
