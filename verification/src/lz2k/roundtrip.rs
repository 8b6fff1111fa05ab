//! Decoding undoes encoding.

use super::encoder::{
    all_token_bits, bit_length, block_header_bits, class_bits, encoded_bits, lemma_bit_length,
    lemma_token_at, lemma_tokens_len, length_code_bits, literal_bits, literal_code_bits,
    literal_length_bits, offset_bits, offset_code_bits, repeats, three_bit_fields, token_at,
    token_bits, token_len, tokens_from, Token, PACK_BLOCK_SIZE,
};
use super::{
    block_header, copy_back, decode_from, decoded, literal_code, literal_lengths, offset_code,
    offset_lengths, read_token, zeros, LENGTH_SYMBOLS, LITERAL_SYMBOLS, MATCH_BASE, OFFSET_SYMBOLS,
};
use crate::bits::{
    be_value, holds_bits, lemma_to_bits_len, lemma_to_bits_value, lemma_written_bits, stream,
    take_bits, to_bits, BitWriter,
};
use crate::huffman::{
    assigned, code_from, count_before, count_of, first_code, lemma_symbol_of, read_symbol, scan,
    symbol_of, Code, MAX_CODE_BITS,
};
use vstd::arithmetic::power2::{lemma2_to64, lemma_pow2_strictly_increases, lemma_pow2_unfold, pow2};
use vstd::prelude::*;

verus! {

/// The bits `b` stand at `pos` of the stream.
pub open spec fn has(s: Seq<bool>, pos: int, b: Seq<bool>) -> bool {
    0 <= pos && pos + b.len() <= s.len() && s.subrange(pos, pos + b.len()) == b
}

proof fn lemma_has_concat(s: Seq<bool>, pos: int, a: Seq<bool>, b: Seq<bool>)
    requires
        has(s, pos, a + b),
    ensures
        has(s, pos, a),
        has(s, pos + a.len(), b),
{
    let ab = s.subrange(pos, pos + a.len() + b.len());
    assert(s.subrange(pos, pos + a.len()) =~= ab.subrange(0, a.len() as int));
    assert(ab.subrange(0, a.len() as int) =~= a);
    assert(s.subrange(pos + a.len(), pos + a.len() + b.len()) =~= ab.subrange(
        a.len() as int,
        ab.len() as int,
    ));
    assert(ab.subrange(a.len() as int, ab.len() as int) =~= b);
}

proof fn lemma_take(s: Seq<bool>, pos: int, value: nat, count: nat)
    requires
        has(s, pos, to_bits(value, count)),
        value < pow2(count),
        count <= 24,
    ensures
        take_bits(s, pos, count as int) == Ok::<(nat, int), Seq<char>>((value, pos + count)),
{
    lemma_to_bits_value(value, count);
}

/// Lengths of which the first two are `a` and the others one more.
pub open spec fn two_level(a: u8, m: nat) -> Seq<u8> {
    Seq::new(
        m,
        |i: int|
            if i < 2 {
                a
            } else {
                (a + 1) as u8
            },
    )
}

proof fn lemma_two_level_count(a: u8, m: nat, upto: int, n: int)
    requires
        0 <= upto <= m,
        a < 255,
    ensures
        count_before(two_level(a, m), upto, n) == if n == a {
            if upto < 2 {
                upto
            } else {
                2
            }
        } else if n == a + 1 && upto > 2 {
            upto - 2
        } else {
            0
        },
    decreases upto,
{
    if upto > 0 {
        lemma_two_level_count(a, m, upto - 1, n);
    }
}

/// A code that is full at `b` bits stays full.
proof fn lemma_full_after(l: Seq<u8>, b: int, n: int)
    requires
        1 <= b <= n,
        first_code(l, b) + count_of(l, b) == pow2(b as nat),
        forall|k: int| b < k <= n ==> #[trigger] count_of(l, k) == 0,
    ensures
        first_code(l, n) + count_of(l, n) == pow2(n as nat),
    decreases n,
{
    if b < n {
        lemma_full_after(l, b, n - 1);
        lemma_pow2_unfold(n as nat);
    }
}

proof fn lemma_two_level_first(a: u8, m: nat, n: int)
    requires
        1 <= a < 15,
        1 <= n <= a + 1,
        m >= 2,
    ensures
        first_code(two_level(a, m), n) == if n <= a {
            0int
        } else {
            4
        },
    decreases n,
{
    if n > 1 {
        lemma_two_level_first(a, m, n - 1);
        lemma_two_level_count(a, m, m as int, n - 1);
    }
}

proof fn lemma_two_level_code(a: u8, m: nat)
    requires
        1 <= a < 15,
        m >= 2,
        m + 2 == pow2((a + 1) as nat),
    ensures
        code_from(two_level(a, m)) == Ok::<Code, Seq<char>>(Code::Lengths(two_level(a, m))),
{
    let l = two_level(a, m);
    assert forall|n: int| 1 <= n <= MAX_CODE_BITS implies #[trigger] first_code(l, n) + count_of(
        l,
        n,
    ) <= pow2(n as nat) by {
        lemma_two_level_count(a, m, m as int, n);
        lemma2_to64();
        if n < a {
            lemma_two_level_first(a, m, n);
        } else if n == a {
            lemma_two_level_first(a, m, n);
            if n > 1 {
                lemma_pow2_strictly_increases(1, n as nat);
            }
        } else {
            lemma_two_level_first(a, m, a + 1);
            lemma_two_level_count(a, m, m as int, a + 1);
            assert forall|k: int| a + 1 < k <= n implies #[trigger] count_of(l, k) == 0 by {
                lemma_two_level_count(a, m, m as int, k);
            }
            lemma_full_after(l, a + 1, n);
        }
    }
    lemma_two_level_first(a, m, a + 1);
    lemma_two_level_count(a, m, m as int, a + 1);
    assert forall|k: int| a + 1 < k <= MAX_CODE_BITS implies #[trigger] count_of(l, k) == 0 by {
        lemma_two_level_count(a, m, m as int, k);
    }
    lemma_full_after(l, a + 1, MAX_CODE_BITS as int);
}

/// Codes of fewer than `a` bits do not occur.
proof fn lemma_scan_up(l: Seq<u8>, s: Seq<bool>, pos: int, n: int, a: int)
    requires
        1 <= n <= a <= MAX_CODE_BITS,
        pos + a <= s.len(),
        forall|i: int| 0 <= i < l.len() ==> l[i] == 0 || l[i] >= a,
    ensures
        scan(l, s, pos, n) == scan(l, s, pos, a),
    decreases a - n,
{
    if n < a {
        assert(symbol_of(l, n, be_value(s.subrange(pos, pos + n))) is None);
        lemma_scan_up(l, s, pos, n + 1, a);
    }
}

/// The bits that the writer spends on a symbol are read back as that symbol.
proof fn lemma_two_level_symbol(s: Seq<bool>, pos: int, a: u8, m: nat, symbol: nat)
    requires
        1 <= a < 15,
        2 <= m <= 0x1_0000,
        m + 2 == pow2((a + 1) as nat),
        symbol < m,
        has(
            s,
            pos,
            if symbol < 2 {
                to_bits(symbol, a as nat)
            } else {
                to_bits(symbol + 2, (a + 1) as nat)
            },
        ),
    ensures
        read_symbol(Code::Lengths(two_level(a, m)), s, pos) == Ok::<(u16, int), Seq<char>>(
            (
                symbol as u16,
                if symbol < 2 {
                    pos + a
                } else {
                    pos + a + 1
                },
            ),
        ),
{
    let l = two_level(a, m);
    lemma2_to64();
    lemma_two_level_first(a, m, a as int);
    lemma_two_level_first(a, m, a + 1);
    lemma_two_level_count(a, m, symbol as int, l[symbol as int] as int);
    if symbol < 2 {
        if a > 1 {
            lemma_pow2_strictly_increases(1, a as nat);
        }
        lemma_to_bits_value(symbol, a as nat);
        lemma_scan_up(l, s, pos, 1, a as int);
        assert(assigned(l, symbol as int, a as int, symbol));
        lemma_symbol_of(l, symbol as int, a as int, symbol);
    } else {
        lemma_to_bits_value(symbol + 2, (a + 1) as nat);
        lemma_scan_up(l, s, pos, 1, a as int);
        let whole = s.subrange(pos, pos + a + 1);
        assert(s.subrange(pos, pos + a) =~= whole.drop_last());
        let top = be_value(s.subrange(pos, pos + a));
        assert(2 * top <= symbol + 2 <= 2 * top + 1);
        assert forall|i: int| !assigned(l, i, a as int, top) by {
            if assigned(l, i, a as int, top) {
                lemma_two_level_count(a, m, i, a as int);
            }
        }
        assert(scan(l, s, pos, a as int) == scan(l, s, pos, a + 1));
        assert(assigned(l, symbol as int, a + 1, symbol + 2));
        lemma_symbol_of(l, symbol as int, a + 1, symbol + 2);
    }
}

/// The lengths of the literal code: two words of eight bits, and 508 of nine.
pub open spec fn literal_code_lengths() -> Seq<u8> {
    two_level(8, LITERAL_SYMBOLS as nat)
}

/// The lengths of the distance code: two words of three bits, and twelve of four.
pub open spec fn offset_code_lengths() -> Seq<u8> {
    two_level(3, OFFSET_SYMBOLS as nat)
}

/// What is written behind other bits stands in the stream where they end.
proof fn lemma_written_has(before: BitWriter, after: BitWriter, b: Seq<bool>)
    requires
        before.wf(),
        after.wf(),
        after@ == before@ + b,
    ensures
        has(stream(after.bytes@), before.bits as int, b),
        after.bits == before.bits + b.len(),
        stream(after.bytes@).take(before.bits as int) == before@,
{
    let s = stream(after.bytes@);
    let at = before.bits as int;
    lemma_written_bits(before);
    lemma_written_bits(after);
    assert(s.subrange(at, at + b.len()) =~= b) by {
        assert forall|i: int| 0 <= i < b.len() implies s[at + i] == b[i] by {
            assert(after@[at + i] == b[i]);
        }
    }
    assert(s.take(at) =~= before@) by {
        assert forall|i: int| 0 <= i < at implies s[i] == before@[i] by {
            assert(after@[i] == before@[i]);
        }
    }
}

/// A literal or length symbol that was written is decoded, where it was written, by the code with
/// two words of eight bits and 508 of nine, up to where the next one goes. What stood in front
/// stays.
pub proof fn lemma_literal_read_back(before: BitWriter, after: BitWriter, symbol: nat)
    requires
        before.wf(),
        after.wf(),
        symbol < LITERAL_SYMBOLS,
        after@ == before@ + literal_bits(symbol),
    ensures
        code_from(literal_code_lengths()) == Ok::<Code, Seq<char>>(
            Code::Lengths(literal_code_lengths()),
        ),
        after.bits == before.bits + (if symbol < 2 {
            8int
        } else {
            9
        }),
        read_symbol(
            Code::Lengths(literal_code_lengths()),
            stream(after.bytes@),
            before.bits as int,
        ) == Ok::<(u16, int), Seq<char>>((symbol as u16, after.bits as int)),
        stream(after.bytes@).take(before.bits as int) == before@,
{
    let s = stream(after.bytes@);
    lemma2_to64();
    lemma_to_bits_len(symbol, 8);
    lemma_to_bits_len(symbol + 2, 9);
    lemma_written_has(before, after, literal_bits(symbol));
    lemma_two_level_code(8, LITERAL_SYMBOLS as nat);
    lemma_two_level_symbol(s, before.bits as int, 8, LITERAL_SYMBOLS as nat, symbol);
}

/// A distance class that was written is decoded, where it was written, by the code with two words
/// of three bits and twelve of four, up to where the next one goes. What stood in front stays.
pub proof fn lemma_class_read_back(before: BitWriter, after: BitWriter, class: nat)
    requires
        before.wf(),
        after.wf(),
        class < OFFSET_SYMBOLS,
        after@ == before@ + class_bits(class),
    ensures
        code_from(offset_code_lengths()) == Ok::<Code, Seq<char>>(
            Code::Lengths(offset_code_lengths()),
        ),
        after.bits == before.bits + (if class < 2 {
            3int
        } else {
            4
        }),
        read_symbol(
            Code::Lengths(offset_code_lengths()),
            stream(after.bytes@),
            before.bits as int,
        ) == Ok::<(u16, int), Seq<char>>((class as u16, after.bits as int)),
        stream(after.bytes@).take(before.bits as int) == before@,
{
    let s = stream(after.bytes@);
    lemma2_to64();
    lemma_to_bits_len(class, 3);
    lemma_to_bits_len(class + 2, 4);
    lemma_written_has(before, after, class_bits(class));
    lemma_two_level_code(3, OFFSET_SYMBOLS as nat);
    lemma_two_level_symbol(s, before.bits as int, 3, OFFSET_SYMBOLS as nat, class);
}

/// One directly spelled length below seven.
proof fn lemma_offset_step(
    s: Seq<bool>,
    pos: int,
    value: nat,
    lengths: Seq<u8>,
    i: int,
    n: int,
    zero_after: Option<usize>,
)
    requires
        has(s, pos, to_bits(value, 3)),
        value < 7,
        i < n,
    ensures
        !(zero_after matches Some(z) && z == i + 1) ==> offset_lengths(
            s,
            pos,
            lengths,
            i,
            n,
            zero_after,
        ) == offset_lengths(s, pos + 3, lengths.update(i, value as u8), i + 1, n, zero_after),
        super::read_length(s, pos) == Ok::<(nat, int), Seq<char>>((value, pos + 3)),
{
    lemma2_to64();
    lemma_take(s, pos, value, 3);
}

proof fn lemma_fields_len(a: nat, b: nat, n: nat)
    ensures
        three_bit_fields(a, b, n).len() == 3 * n,
    decreases n,
{
    if n > 0 {
        lemma_fields_len(a, b, (n - 1) as nat);
        lemma_to_bits_len(
            if n <= 2 {
                a
            } else {
                b
            },
            3,
        );
    }
}

proof fn lemma_field(s: Seq<bool>, pos: int, a: nat, b: nat, n: nat, i: int)
    requires
        has(s, pos, three_bit_fields(a, b, n)),
        0 <= i < n,
    ensures
        has(
            s,
            pos + 3 * i,
            to_bits(
                if i < 2 {
                    a
                } else {
                    b
                },
                3,
            ),
        ),
    decreases n,
{
    let m = (n - 1) as nat;
    lemma_fields_len(a, b, m);
    lemma_has_concat(
        s,
        pos,
        three_bit_fields(a, b, m),
        to_bits(
            if n <= 2 {
                a
            } else {
                b
            },
            3,
        ),
    );
    if i < m {
        lemma_field(s, pos, a, b, m, i);
    }
}

/// The lengths of the code for literal code lengths.
spec fn length_lengths() -> Seq<u8> {
    Seq::new(
        LENGTH_SYMBOLS as nat,
        |i: int|
            if i == 10 || i == 11 {
                1u8
            } else {
                0u8
            },
    )
}

proof fn lemma_length_count(upto: int, n: int)
    requires
        0 <= upto <= LENGTH_SYMBOLS,
        n >= 1,
    ensures
        count_before(length_lengths(), upto, n) == if n == 1 && upto > 10 {
            if upto == 11 {
                1
            } else {
                2int
            }
        } else {
            0
        },
    decreases upto,
{
    if upto > 0 {
        lemma_length_count(upto - 1, n);
    }
}

proof fn lemma_length_code()
    ensures
        code_from(length_lengths()) == Ok::<Code, Seq<char>>(Code::Lengths(length_lengths())),
{
    let l = length_lengths();
    lemma2_to64();
    assert forall|n: int| 1 <= n <= MAX_CODE_BITS implies #[trigger] first_code(l, n) + count_of(
        l,
        n,
    ) == pow2(n as nat) by {
        lemma_length_count(LENGTH_SYMBOLS as int, 1);
        assert forall|k: int| 1 < k <= n implies #[trigger] count_of(l, k) == 0 by {
            lemma_length_count(LENGTH_SYMBOLS as int, k);
        }
        lemma_full_after(l, 1, n);
    }
}

proof fn lemma_length_symbol(s: Seq<bool>, pos: int)
    requires
        0 <= pos < s.len(),
    ensures
        read_symbol(Code::Lengths(length_lengths()), s, pos) == Ok::<(u16, int), Seq<char>>(
            (
                if s[pos] {
                    11u16
                } else {
                    10u16
                },
                pos + 1,
            ),
        ),
{
    let l = length_lengths();
    let one = s.subrange(pos, pos + 1);
    assert(one.drop_last() =~= Seq::<bool>::empty());
    assert(be_value(one.drop_last()) == 0);
    let symbol: int = if s[pos] {
        11
    } else {
        10
    };
    lemma_length_count(10, 1);
    lemma_length_count(11, 1);
    assert(assigned(l, symbol, 1, be_value(one)));
    lemma_symbol_of(l, symbol, 1, be_value(one));
}

proof fn lemma_read_length_code(s: Seq<bool>, pos: int)
    requires
        has(s, pos, length_code_bits()),
    ensures
        offset_code(s, pos, LENGTH_SYMBOLS as int, 5, Some(3)) == Ok::<(Code, int), Seq<char>>(
            (Code::Lengths(length_lengths()), pos + 34),
        ),
        length_code_bits().len() == 34,
{
    lemma2_to64();
    let za = Some(3usize);
    let f0 = to_bits(12, 5);
    let f1 = three_bit_fields(0, 0, 3);
    let f2 = to_bits(3, 2);
    let f3 = three_bit_fields(0, 0, 4);
    let f4 = three_bit_fields(1, 1, 2);
    lemma_to_bits_len(12, 5);
    lemma_to_bits_len(3, 2);
    lemma_fields_len(0, 0, 3);
    lemma_fields_len(0, 0, 4);
    lemma_fields_len(1, 1, 2);
    lemma_has_concat(s, pos, f0 + f1 + f2 + f3, f4);
    lemma_has_concat(s, pos, f0 + f1 + f2, f3);
    lemma_has_concat(s, pos, f0 + f1, f2);
    lemma_has_concat(s, pos, f0, f1);
    lemma_take(s, pos, 12, 5);
    let z = zeros(19);
    let p = pos + 5;
    lemma_field(s, p, 0, 0, 3, 0);
    lemma_field(s, p, 0, 0, 3, 1);
    lemma_field(s, p, 0, 0, 3, 2);
    lemma_offset_step(s, p, 0, z, 0, 12, za);
    assert(z.update(0, 0) =~= z);
    lemma_offset_step(s, p + 3, 0, z, 1, 12, za);
    assert(z.update(1, 0) =~= z);
    lemma_offset_step(s, p + 6, 0, z, 2, 12, za);
    assert(z.update(2, 0) =~= z);
    lemma_take(s, p + 9, 3, 2);
    assert(offset_lengths(s, p + 6, z, 2, 12, za) == offset_lengths(s, p + 11, z, 6, 12, za));
    let q = p + 11;
    lemma_field(s, q, 0, 0, 4, 0);
    lemma_field(s, q, 0, 0, 4, 1);
    lemma_field(s, q, 0, 0, 4, 2);
    lemma_field(s, q, 0, 0, 4, 3);
    lemma_offset_step(s, q, 0, z, 6, 12, za);
    assert(z.update(6, 0) =~= z);
    lemma_offset_step(s, q + 3, 0, z, 7, 12, za);
    assert(z.update(7, 0) =~= z);
    lemma_offset_step(s, q + 6, 0, z, 8, 12, za);
    assert(z.update(8, 0) =~= z);
    lemma_offset_step(s, q + 9, 0, z, 9, 12, za);
    assert(z.update(9, 0) =~= z);
    let r = q + 12;
    lemma_field(s, r, 1, 1, 2, 0);
    lemma_field(s, r, 1, 1, 2, 1);
    lemma_offset_step(s, r, 1, z, 10, 12, za);
    let z1 = z.update(10, 1);
    lemma_offset_step(s, r + 3, 1, z1, 11, 12, za);
    let z2 = z1.update(11, 1);
    assert(z2 =~= length_lengths());
    assert(offset_lengths(s, r + 6, z2, 12, 12, za) == Ok::<(Seq<u8>, int), Seq<char>>(
        (z2, r + 6),
    ));
    lemma_length_code();
}

/// The literal lengths once the first `i` are read.
spec fn partial_lengths(a: u8, m: nat, i: int) -> Seq<u8> {
    Seq::new(
        m,
        |j: int|
            if j >= i {
                0u8
            } else if j < 2 {
                a
            } else {
                (a + 1) as u8
            },
    )
}

proof fn lemma_read_literal_lengths(s: Seq<bool>, pos: int, i: int)
    requires
        has(s, pos, literal_length_bits(LITERAL_SYMBOLS as nat)),
        0 <= i <= LITERAL_SYMBOLS,
    ensures
        literal_lengths(
            s,
            pos + i,
            Code::Lengths(length_lengths()),
            partial_lengths(8, LITERAL_SYMBOLS as nat, i),
            i,
            LITERAL_SYMBOLS as int,
        ) == Ok::<(Seq<u8>, int), Seq<char>>(
            (two_level(8, LITERAL_SYMBOLS as nat), pos + LITERAL_SYMBOLS),
        ),
    decreases LITERAL_SYMBOLS - i,
{
    let m = LITERAL_SYMBOLS as nat;
    if i == LITERAL_SYMBOLS {
        assert(partial_lengths(8, m, i) =~= two_level(8, m));
    } else {
        lemma_length_symbol(s, pos + i);
        assert(s.subrange(pos, pos + m)[i] == (i >= 2));
        let value: u16 = if i >= 2 {
            11
        } else {
            10
        };
        assert(partial_lengths(8, m, i).update(i, (value - 2) as u8) =~= partial_lengths(
            8,
            m,
            i + 1,
        ));
        lemma_read_literal_lengths(s, pos, i + 1);
    }
}

proof fn lemma_read_literal_code(s: Seq<bool>, pos: int)
    requires
        has(s, pos, literal_code_bits()),
    ensures
        literal_code(s, pos, Code::Lengths(length_lengths())) == Ok::<(Code, int), Seq<char>>(
            (Code::Lengths(two_level(8, LITERAL_SYMBOLS as nat)), pos + 519),
        ),
        literal_code_bits().len() == 519,
{
    lemma2_to64();
    lemma_to_bits_len(510, 9);
    lemma_has_concat(s, pos, to_bits(510, 9), literal_length_bits(510));
    lemma_take(s, pos, 510, 9);
    assert(partial_lengths(8, 510, 0) =~= zeros(510));
    lemma_read_literal_lengths(s, pos + 9, 0);
    lemma_two_level_code(8, 510);
}

proof fn lemma_read_offset_lengths(s: Seq<bool>, pos: int, i: int)
    requires
        has(s, pos, three_bit_fields(3, 4, OFFSET_SYMBOLS as nat)),
        0 <= i <= OFFSET_SYMBOLS,
    ensures
        offset_lengths(
            s,
            pos + 3 * i,
            partial_lengths(3, OFFSET_SYMBOLS as nat, i),
            i,
            OFFSET_SYMBOLS as int,
            None,
        ) == Ok::<(Seq<u8>, int), Seq<char>>((two_level(3, OFFSET_SYMBOLS as nat), pos + 42)),
    decreases OFFSET_SYMBOLS - i,
{
    let m = OFFSET_SYMBOLS as nat;
    if i == OFFSET_SYMBOLS {
        assert(partial_lengths(3, m, i) =~= two_level(3, m));
    } else {
        let value: nat = if i < 2 {
            3
        } else {
            4
        };
        lemma_field(s, pos, 3, 4, m, i);
        lemma_offset_step(
            s,
            pos + 3 * i,
            value,
            partial_lengths(3, m, i),
            i,
            m as int,
            None,
        );
        assert(partial_lengths(3, m, i).update(i, value as u8) =~= partial_lengths(3, m, i + 1));
        lemma_read_offset_lengths(s, pos, i + 1);
    }
}

proof fn lemma_read_offset_code(s: Seq<bool>, pos: int)
    requires
        has(s, pos, offset_code_bits()),
    ensures
        offset_code(s, pos, OFFSET_SYMBOLS as int, 4, None) == Ok::<(Code, int), Seq<char>>(
            (Code::Lengths(two_level(3, OFFSET_SYMBOLS as nat)), pos + 46),
        ),
        offset_code_bits().len() == 46,
{
    lemma2_to64();
    lemma_to_bits_len(14, 4);
    lemma_fields_len(3, 4, 14);
    lemma_has_concat(s, pos, to_bits(14, 4), three_bit_fields(3, 4, 14));
    lemma_take(s, pos, 14, 4);
    assert(partial_lengths(3, 14, 0) =~= zeros(14));
    lemma_read_offset_lengths(s, pos + 4, 0);
    lemma_two_level_code(3, 14);
}

proof fn lemma_read_header(s: Seq<bool>, pos: int, count: nat)
    requires
        has(s, pos, block_header_bits(count)),
        0 < count <= PACK_BLOCK_SIZE,
    ensures
        block_header(s, pos) == Ok::<(nat, Code, Code, int), Seq<char>>(
            (
                count,
                Code::Lengths(two_level(8, LITERAL_SYMBOLS as nat)),
                Code::Lengths(two_level(3, OFFSET_SYMBOLS as nat)),
                pos + block_header_bits(count).len(),
            ),
        ),
{
    reveal(block_header);
    lemma2_to64();
    let a = to_bits(count, 16);
    lemma_to_bits_len(count, 16);
    lemma_has_concat(s, pos, a + length_code_bits() + literal_code_bits(), offset_code_bits());
    lemma_has_concat(s, pos, a + length_code_bits(), literal_code_bits());
    lemma_has_concat(s, pos, a, length_code_bits());
    lemma_take(s, pos, count, 16);
    lemma_read_length_code(s, pos + 16);
    lemma_read_literal_code(s, pos + 50);
    lemma_read_offset_code(s, pos + 569);
}

/// Copying a repetition continues the chunk.
proof fn lemma_copy_back(input: Seq<u8>, pos: int, length: int, distance: int, done: int)
    requires
        0 <= pos,
        pos + length <= input.len(),
        repeats(input, pos, length, distance),
        0 <= done <= length,
    ensures
        copy_back(input.take(pos + done), distance, (length - done) as nat) == input.take(
            pos + length,
        ),
    decreases length - done,
{
    if done < length {
        let out = input.take(pos + done);
        assert(input[pos - distance + done] == input[pos + done]);
        assert(out.push(out[out.len() - distance]) =~= input.take(pos + done + 1));
        lemma_copy_back(input, pos, length, distance, done + 1);
    }
}

proof fn lemma_read_token(s: Seq<bool>, at: int, input: Seq<u8>, pos: int)
    requires
        0 <= pos < input.len(),
        has(s, at, token_bits(token_at(input, pos))),
    ensures
        read_token(
            s,
            at,
            Code::Lengths(two_level(8, LITERAL_SYMBOLS as nat)),
            Code::Lengths(two_level(3, OFFSET_SYMBOLS as nat)),
            input.take(pos),
            input.len() as int,
        ) == Ok::<(Seq<u8>, int), Seq<char>>(
            (
                input.take(pos + token_len(token_at(input, pos))),
                at + token_bits(token_at(input, pos)).len(),
            ),
        ),
{
    reveal(read_token);
    lemma2_to64();
    lemma_token_at(input, pos);
    match token_at(input, pos) {
        Token::Literal(byte) => {
            lemma_two_level_symbol(s, at, 8, 510, byte as nat);
            lemma_to_bits_len(byte as nat, 8);
            lemma_to_bits_len((byte + 2) as nat, 9);
            assert(input.take(pos).push(byte) =~= input.take(pos + 1));
        },
        Token::Match { length, distance } => {
            let symbol = (length + MATCH_BASE) as nat;
            let offset = (distance - 1) as nat;
            let class = bit_length(offset);
            lemma_bit_length(offset, 13);
            lemma_has_concat(s, at, literal_bits(symbol), offset_bits(offset));
            lemma_to_bits_len(symbol + 2, 9);
            lemma_two_level_symbol(s, at, 8, 510, symbol);
            lemma_to_bits_len(class, 3);
            lemma_to_bits_len(class + 2, 4);
            let p = at + 9;
            if class == 0 {
                lemma_two_level_symbol(s, p, 3, 14, class);
                assert(offset == 0);
            } else {
                let rest = (offset - pow2((class - 1) as nat)) as nat;
                lemma_pow2_unfold(class);
                lemma_to_bits_len(rest, (class - 1) as nat);
                lemma_has_concat(s, p, class_bits(class), to_bits(rest, (class - 1) as nat));
                lemma_two_level_symbol(s, p, 3, 14, class);
                lemma_take(s, p + class_bits(class).len(), rest, (class - 1) as nat);
            }
            lemma_copy_back(input, pos, length as int, distance as int, 0);
        },
    }
}

proof fn lemma_token_bits_first(token: Token, rest: Seq<Token>)
    ensures
        all_token_bits(seq![token] + rest) == token_bits(token) + all_token_bits(rest),
    decreases rest.len(),
{
    let all = seq![token] + rest;
    if rest.len() == 0 {
        assert(all.drop_last() =~= Seq::<Token>::empty());
        assert(all_token_bits(all.drop_last()) =~= Seq::<bool>::empty());
        assert(all_token_bits(all) =~= token_bits(token) + all_token_bits(rest));
    } else {
        assert(all.drop_last() =~= seq![token] + rest.drop_last());
        lemma_token_bits_first(token, rest.drop_last());
        assert(all_token_bits(all) =~= token_bits(token) + all_token_bits(rest));
    }
}

proof fn lemma_decode_tokens(s: Seq<bool>, at: int, input: Seq<u8>, pos: int)
    requires
        0 <= pos <= input.len(),
        has(s, at, all_token_bits(tokens_from(input, pos))),
    ensures
        decode_from(
            s,
            at,
            tokens_from(input, pos).len(),
            Code::Lengths(two_level(8, LITERAL_SYMBOLS as nat)),
            Code::Lengths(two_level(3, OFFSET_SYMBOLS as nat)),
            input.take(pos),
            input.len() as int,
        ) == Ok::<Seq<u8>, Seq<char>>(input),
    decreases input.len() - pos,
{
    if pos == input.len() {
        assert(input.take(pos) =~= input);
    } else {
        let token = token_at(input, pos);
        let next = pos + token_len(token);
        lemma_token_at(input, pos);
        lemma_tokens_len(input, pos);
        lemma_token_bits_first(token, tokens_from(input, next));
        lemma_has_concat(s, at, token_bits(token), all_token_bits(tokens_from(input, next)));
        lemma_read_token(s, at, input, pos);
        lemma_decode_tokens(s, at + token_bits(token).len(), input, next);
    }
}

/// Decoding the bytes that hold an encoded chunk gives back the chunk.
pub proof fn lemma_decode_encode(input: Seq<u8>, data: Seq<u8>)
    requires
        0 < input.len() <= PACK_BLOCK_SIZE,
        holds_bits(data, encoded_bits(input)),
    ensures
        decoded(data, input.len() as int) == Ok::<Seq<u8>, Seq<char>>(input),
{
    let s = stream(data);
    let bits = encoded_bits(input);
    let tokens = tokens_from(input, 0);
    assert(s.subrange(0, bits.len() as int) =~= bits);
    lemma_tokens_len(input, 0);
    lemma_has_concat(s, 0, block_header_bits(tokens.len()), all_token_bits(tokens));
    lemma_read_header(s, 0, tokens.len());
    lemma_decode_tokens(s, block_header_bits(tokens.len()).len() as int, input, 0);
    assert(input.take(0) =~= Seq::<u8>::empty());
}

} // verus!
