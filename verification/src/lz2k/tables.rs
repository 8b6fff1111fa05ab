//! The wire form of a chunk: its tables of code lengths and its tokens, read as they are spelled.

use super::{
    block_header, copy_back, decode_from, decoded, lemma_copy_back_len, literal_code,
    literal_lengths, long_length, offset_code, offset_lengths, read_length, read_offset,
    read_token, zeros,
};
use crate::bits::{be_value, stream};
use crate::huffman::{code_from, read_symbol, Code};
use vstd::arithmetic::power2::{lemma2_to64, pow2};
use vstd::prelude::*;

verus! {

/// The bits from `at` on, `count` of them, spell a number.
pub open spec fn spells(s: Seq<bool>, at: int, count: int, value: int) -> bool {
    0 <= at && 0 <= count && at + count <= s.len() && be_value(s.subrange(at, at + count)) == value
}

/// One step of the literal table: one unused symbol, a short or a long run of unused symbols, or
/// a symbol with a code of some length.
pub ghost enum Step {
    Unused,
    Short(int),
    Long(int),
    Used(int),
}

/// The symbol by which a step begins.
pub open spec fn step_symbol(step: Step) -> int {
    match step {
        Step::Unused => 0,
        Step::Short(_) => 1,
        Step::Long(_) => 2,
        Step::Used(length) => length + 2,
    }
}

/// Where the symbol at a position ends.
pub open spec fn symbol_end(s: Seq<bool>, code: Code, at: int) -> int {
    read_symbol(code, s, at)->Ok_0.1
}

/// Where a step ends: behind its symbol, four bits or nine bits more.
pub open spec fn step_end(s: Seq<bool>, code: Code, at: int, step: Step) -> int {
    match step {
        Step::Short(_) => symbol_end(s, code, at) + 4,
        Step::Long(_) => symbol_end(s, code, at) + 9,
        _ => symbol_end(s, code, at),
    }
}

/// A step stands at a position. A short run of 3 to 18 symbols is its length less 3 in four bits,
/// a long one of 20 to 531 is its length less 20 in nine.
pub open spec fn step_stands(s: Seq<bool>, code: Code, at: int, step: Step) -> bool {
    &&& read_symbol(code, s, at) matches Ok((symbol, p)) && symbol == step_symbol(step) && match step {
        Step::Unused => true,
        Step::Short(run) => 3 <= run <= 18 && spells(s, p, 4, run - 3),
        Step::Long(run) => 20 <= run <= 531 && spells(s, p, 9, run - 20),
        Step::Used(length) => 1 <= length <= 255,
    }
}

/// Steps stand one behind the other.
pub open spec fn steps_stand(s: Seq<bool>, code: Code, at: int, steps: Seq<Step>) -> bool
    decreases steps.len(),
{
    steps.len() > 0 ==> step_stands(s, code, at, steps[0]) && steps_stand(
        s,
        code,
        step_end(s, code, at, steps[0]),
        steps.drop_first(),
    )
}

/// Where steps end.
pub open spec fn steps_end(s: Seq<bool>, code: Code, at: int, steps: Seq<Step>) -> int
    decreases steps.len(),
{
    if steps.len() == 0 {
        at
    } else {
        steps_end(s, code, step_end(s, code, at, steps[0]), steps.drop_first())
    }
}

/// As many unused symbols.
pub open spec fn unused(n: int) -> Seq<u8> {
    Seq::new(n as nat, |i: int| 0u8)
}

/// The code lengths that a step stands for.
pub open spec fn step_lengths(step: Step) -> Seq<u8> {
    match step {
        Step::Unused => unused(1),
        Step::Short(run) => unused(run),
        Step::Long(run) => unused(run),
        Step::Used(length) => seq![length as u8],
    }
}

/// The code lengths that steps stand for.
pub open spec fn steps_lengths(steps: Seq<Step>) -> Seq<u8>
    decreases steps.len(),
{
    if steps.len() == 0 {
        Seq::empty()
    } else {
        step_lengths(steps[0]) + steps_lengths(steps.drop_first())
    }
}

proof fn lemma_steps_read(
    s: Seq<bool>,
    code: Code,
    at: int,
    steps: Seq<Step>,
    done: Seq<u8>,
    n: int,
)
    requires
        steps_stand(s, code, at, steps),
        done.len() + steps_lengths(steps).len() == n,
        n <= 510,
    ensures
        literal_lengths(s, at, code, done + unused(510 - done.len()), done.len() as int, n) == Ok::<
            (Seq<u8>, int),
            Seq<char>,
        >((done + steps_lengths(steps) + unused(510 - n), steps_end(s, code, at, steps))),
    decreases steps.len(),
{
    let before = done + unused(510 - done.len());
    let i = done.len() as int;
    if steps.len() == 0 {
        assert(done + steps_lengths(steps) + unused(510 - n) =~= before);
    } else {
        let step = steps[0];
        let rest = steps.drop_first();
        let next = step_end(s, code, at, step);
        let now = done + step_lengths(step);
        assert(step_stands(s, code, at, step));
        assert(steps_stand(s, code, next, rest));
        assert(step_lengths(step).len() >= 1);
        lemma_steps_read(s, code, next, rest, now, n);
        assert(now + steps_lengths(rest) + unused(510 - n) =~= done + steps_lengths(steps) + unused(
            510 - n,
        ));
        match step {
            Step::Used(length) => {
                assert(before.update(i, length as u8) =~= now + unused(510 - now.len()));
            },
            _ => {
                assert(before =~= now + unused(510 - now.len()));
            },
        }
    }
}

/// A literal table is read as it is spelled: the number of symbols it tells of in nine bits, then
/// steps that stand for as many lengths. The symbols behind them are unused.
pub proof fn lemma_literal_table(s: Seq<bool>, at: int, code: Code, steps: Seq<Step>)
    requires
        1 <= steps_lengths(steps).len() <= 510,
        spells(s, at, 9, steps_lengths(steps).len() as int),
        steps_stand(s, code, at + 9, steps),
    ensures
        ({
            let lengths = steps_lengths(steps) + unused(510 - steps_lengths(steps).len());
            literal_code(s, at, code) == match code_from(lengths) {
                Ok(found) => Ok::<(Code, int), Seq<char>>(
                    (found, steps_end(s, code, at + 9, steps)),
                ),
                Err(e) => Err(e),
            }
        }),
{
    let n = steps_lengths(steps).len() as int;
    let none = Seq::<u8>::empty();
    lemma_steps_read(s, code, at + 9, steps, none, n);
    assert(none + unused(510) =~= zeros(510));
    assert(none + steps_lengths(steps) =~= steps_lengths(steps));
}

/// How many bits spell a code length on its own: three up to six, and one more for every unit
/// above that.
pub open spec fn length_size(length: int) -> int {
    if length < 7 {
        3
    } else {
        length - 3
    }
}

/// A code length stands at a position: in three bits up to six; from seven on as ones, three and
/// one more for every unit above seven, and a zero.
pub open spec fn length_stands(s: Seq<bool>, at: int, length: int) -> bool {
    &&& 0 <= length <= 20
    &&& 0 <= at
    &&& at + length_size(length) <= s.len()
    &&& if length < 7 {
        spells(s, at, 3, length)
    } else {
        (forall|i: int| at <= i < at + length - 4 ==> #[trigger] s[i]) && !s[at + length - 4]
    }
}

proof fn lemma_last_bit(bits: Seq<bool>)
    requires
        bits.len() > 0,
    ensures
        be_value(bits) % 2 == (if bits.last() {
            1int
        } else {
            0
        }),
{
}

proof fn lemma_long_read(s: Seq<bool>, at: int, length: int, offset: int)
    requires
        length_stands(s, at, length),
        7 <= length,
        3 <= offset <= length - 4,
    ensures
        long_length(s, at, (offset + 4) as nat, offset) == Ok::<(nat, int), Seq<char>>(
            (length as nat, at + length - 3),
        ),
    decreases length - offset,
{
    let bits = s.subrange(at, at + offset + 1);
    lemma_last_bit(bits);
    assert(bits.last() == s[at + offset]);
    if offset < length - 4 {
        lemma_long_read(s, at, length, offset + 1);
    }
}

proof fn lemma_length_read(s: Seq<bool>, at: int, length: int)
    requires
        length_stands(s, at, length),
    ensures
        read_length(s, at) == Ok::<(nat, int), Seq<char>>(
            (length as nat, at + length_size(length)),
        ),
{
    let bits = s.subrange(at, at + 3);
    if length >= 7 {
        assert(bits[0] == s[at] && bits[1] == s[at + 1] && bits[2] == s[at + 2]);
        assert(be_value(bits) == 7) by {
            reveal_with_fuel(be_value, 4);
        }
        lemma_long_read(s, at, length, 3);
    }
}

/// Where code lengths that follow each other end.
pub open spec fn lengths_end(at: int, lengths: Seq<int>) -> int
    decreases lengths.len(),
{
    if lengths.len() == 0 {
        at
    } else {
        lengths_end(at + length_size(lengths[0]), lengths.drop_first())
    }
}

/// Code lengths stand one behind the other.
pub open spec fn lengths_stand(s: Seq<bool>, at: int, lengths: Seq<int>) -> bool
    decreases lengths.len(),
{
    lengths.len() > 0 ==> length_stands(s, at, lengths[0]) && lengths_stand(
        s,
        at + length_size(lengths[0]),
        lengths.drop_first(),
    )
}

/// Code lengths as bytes.
pub open spec fn small(lengths: Seq<int>) -> Seq<u8> {
    Seq::new(lengths.len(), |i: int| lengths[i] as u8)
}

/// Lengths are read one behind the other, where no gap comes among them.
proof fn lemma_lengths_read(
    s: Seq<bool>,
    at: int,
    lengths: Seq<int>,
    done: Seq<u8>,
    size: int,
    n: int,
    zero_after: Option<usize>,
)
    requires
        lengths_stand(s, at, lengths),
        done.len() + lengths.len() == n,
        n <= size,
        zero_after matches Some(z) ==> z <= done.len(),
    ensures
        offset_lengths(
            s,
            at,
            done + unused(size - done.len()),
            done.len() as int,
            n,
            zero_after,
        ) == Ok::<(Seq<u8>, int), Seq<char>>(
            (done + small(lengths) + unused(size - n), lengths_end(at, lengths)),
        ),
    decreases lengths.len(),
{
    let before = done + unused(size - done.len());
    if lengths.len() == 0 {
        assert(done + small(lengths) + unused(size - n) =~= before);
    } else {
        let v = lengths[0];
        let rest = lengths.drop_first();
        let now = done.push(v as u8);
        assert(length_stands(s, at, v));
        lemma_length_read(s, at, v);
        lemma_lengths_read(s, at + length_size(v), rest, now, size, n, zero_after);
        assert(before.update(done.len() as int, v as u8) =~= now + unused(size - now.len()));
        assert(now + small(rest) + unused(size - n) =~= done + small(lengths) + unused(size - n));
    }
}

/// The table of distance classes is read as it is spelled: the number of classes it tells of in
/// four bits, then as many lengths. There are fourteen classes.
pub proof fn lemma_distance_table(s: Seq<bool>, at: int, lengths: Seq<int>)
    requires
        1 <= lengths.len() <= 14,
        spells(s, at, 4, lengths.len() as int),
        lengths_stand(s, at + 4, lengths),
    ensures
        offset_code(s, at, 14, 4, None) == match code_from(
            small(lengths) + unused(14 - lengths.len()),
        ) {
            Ok(found) => Ok::<(Code, int), Seq<char>>((found, lengths_end(at + 4, lengths))),
            Err(e) => Err(e),
        },
{
    let none = Seq::<u8>::empty();
    lemma_lengths_read(s, at + 4, lengths, none, 14, lengths.len() as int, None);
    assert(none + unused(14) =~= zeros(14));
    assert(none + small(lengths) =~= small(lengths));
}

/// The table of the code that spells the literal table is read as it is spelled: the number of
/// symbols it tells of in five bits, three lengths, in two bits how many symbols behind them are
/// unused, then the other lengths. There are nineteen symbols.
pub proof fn lemma_length_table(s: Seq<bool>, at: int, head: Seq<int>, gap: int, rest: Seq<int>)
    requires
        head.len() == 3,
        0 <= gap <= 3,
        3 + gap + rest.len() <= 19,
        spells(s, at, 5, 3 + gap + rest.len()),
        lengths_stand(s, at + 5, head),
        spells(s, lengths_end(at + 5, head), 2, gap),
        lengths_stand(s, lengths_end(at + 5, head) + 2, rest),
    ensures
        ({
            let n = 3 + gap + rest.len();
            let lengths = small(head) + unused(gap) + small(rest) + unused(19 - n);
            offset_code(s, at, 19, 5, Some(3)) == match code_from(lengths) {
                Ok(found) => Ok::<(Code, int), Seq<char>>(
                    (found, lengths_end(lengths_end(at + 5, head) + 2, rest)),
                ),
                Err(e) => Err(e),
            }
        }),
{
    let n = 3 + gap + rest.len() as int;
    let (a, b, c) = (head[0], head[1], head[2]);
    let p0 = at + 5;
    let p1 = p0 + length_size(a);
    let p2 = p1 + length_size(b);
    let p3 = p2 + length_size(c);
    reveal_with_fuel(lengths_stand, 4);
    reveal_with_fuel(lengths_end, 4);
    let one = head.drop_first();
    let two = one.drop_first();
    assert(one[0] == b && two[0] == c && two.drop_first().len() == 0);
    assert(lengths_end(p0, head) == p3);
    lemma_length_read(s, p0, a);
    lemma_length_read(s, p1, b);
    lemma_length_read(s, p2, c);
    let z = zeros(19);
    let la = z.update(0, a as u8);
    let lb = la.update(1, b as u8);
    let lc = lb.update(2, c as u8);
    let done = small(head) + unused(gap);
    assert(lc =~= done + unused(19 - done.len()));
    lemma_lengths_read(s, p3 + 2, rest, done, 19, n, Some(3));
    assert(offset_lengths(s, p2, lb, 2, n, Some(3)) == offset_lengths(
        s,
        p3 + 2,
        lc,
        3 + gap,
        n,
        Some(3),
    ));
    assert(offset_lengths(s, p1, la, 1, n, Some(3)) == offset_lengths(s, p2, lb, 2, n, Some(3)));
    assert(offset_lengths(s, p0, z, 0, n, Some(3)) == offset_lengths(s, p1, la, 1, n, Some(3)));
}

/// A table that tells of no symbols is followed by the one symbol that the code has, which takes
/// no bits: in five bits, nine or four.
pub proof fn lemma_single_symbol(s: Seq<bool>, at: int, code: Code, symbol: int)
    ensures
        spells(s, at, 5, 0) && spells(s, at + 5, 5, symbol) ==> offset_code(s, at, 19, 5, Some(3))
            == Ok::<(Code, int), Seq<char>>((Code::Constant(symbol as u16), at + 10)),
        spells(s, at, 9, 0) && spells(s, at + 9, 9, symbol) ==> literal_code(s, at, code) == Ok::<
            (Code, int),
            Seq<char>,
        >((Code::Constant(symbol as u16), at + 18)),
        spells(s, at, 4, 0) && spells(s, at + 4, 4, symbol) ==> offset_code(s, at, 14, 4, None)
            == Ok::<(Code, int), Seq<char>>((Code::Constant(symbol as u16), at + 8)),
        read_symbol(Code::Constant(symbol as u16), s, at) == Ok::<(u16, int), Seq<char>>(
            (symbol as u16, at),
        ),
{
}

/// A block begins with the number of its tokens in sixteen bits, the code that spells the literal
/// table, the literal code and the code of the distance classes.
pub proof fn lemma_header(
    s: Seq<bool>,
    at: int,
    count: int,
    lengths: (Code, int),
    literals: (Code, int),
    offsets: (Code, int),
)
    requires
        spells(s, at, 16, count),
        count > 0,
        offset_code(s, at + 16, 19, 5, Some(3)) == Ok::<(Code, int), Seq<char>>(lengths),
        literal_code(s, lengths.1, lengths.0) == Ok::<(Code, int), Seq<char>>(literals),
        offset_code(s, literals.1, 14, 4, None) == Ok::<(Code, int), Seq<char>>(offsets),
    ensures
        block_header(s, at) == Ok::<(nat, Code, Code, int), Seq<char>>(
            (count as nat, literals.0, offsets.0, offsets.1),
        ),
{
    reveal(block_header);
}

/// One token: a byte, or a number of bytes from a distance back.
pub ghost enum Piece {
    Byte(u8),
    Back { length: int, distance: int },
}

/// The class of a distance: 0 for 1, else the number of bits of the distance less one.
pub open spec fn in_class(class: int, distance: int) -> bool {
    if class == 0 {
        distance == 1
    } else {
        1 <= class <= 15 && pow2((class - 1) as nat) <= distance - 1 < pow2(class as nat)
    }
}

/// A token stands at a position: a byte as its symbol; else 253 more than the length as a symbol,
/// the class of the distance, and behind its highest bit the other bits of the distance less one.
pub open spec fn piece_stands(
    s: Seq<bool>,
    at: int,
    literals: Code,
    offsets: Code,
    piece: Piece,
) -> bool {
    match piece {
        Piece::Byte(b) => read_symbol(literals, s, at) matches Ok((symbol, _)) && symbol == b,
        Piece::Back { length, distance } => {
            &&& 3 <= length
            &&& read_symbol(literals, s, at) matches Ok((symbol, p))
            &&& symbol == length + 253
            &&& read_symbol(offsets, s, p) matches Ok((class, q))
            &&& in_class(class as int, distance)
            &&& class > 0 ==> spells(s, q, class - 1, distance - 1 - pow2((class - 1) as nat))
        },
    }
}

/// Where a token ends.
pub open spec fn piece_end(
    s: Seq<bool>,
    at: int,
    literals: Code,
    offsets: Code,
    piece: Piece,
) -> int {
    let p = symbol_end(s, literals, at);
    match piece {
        Piece::Byte(_) => p,
        Piece::Back { .. } => {
            let class = read_symbol(offsets, s, p)->Ok_0.0;
            symbol_end(s, offsets, p) + if class > 0 {
                class - 1
            } else {
                0
            }
        },
    }
}

/// `next` is `out` with what a token adds: the byte, or bytes each of which is the same as the one
/// at the distance before it.
pub open spec fn adds(out: Seq<u8>, piece: Piece, next: Seq<u8>) -> bool {
    match piece {
        Piece::Byte(b) => next == out.push(b),
        Piece::Back { length, distance } => {
            &&& 1 <= distance <= out.len()
            &&& 1 <= length
            &&& next.len() == out.len() + length
            &&& next.take(out.len() as int) == out
            &&& forall|i: int|
                out.len() <= i < next.len() ==> #[trigger] next[i] == next[i - distance]
        },
    }
}

pub proof fn lemma_copied(out: Seq<u8>, distance: int, count: nat)
    requires
        1 <= distance <= out.len(),
    ensures
        ({
            let next = copy_back(out, distance, count);
            &&& next.len() == out.len() + count
            &&& next.take(out.len() as int) == out
            &&& forall|i: int|
                out.len() <= i < next.len() ==> #[trigger] next[i] == next[i - distance]
        }),
    decreases count,
{
    lemma_copy_back_len(out, distance, count);
    if count > 0 {
        let more = out.push(out[out.len() - distance]);
        lemma_copied(more, distance, (count - 1) as nat);
        let next = copy_back(out, distance, count);
        assert(next.take(more.len() as int) == more);
        assert(next.take(out.len() as int) =~= out) by {
            assert forall|i: int| 0 <= i < out.len() implies next[i] == out[i] by {
                assert(next.take(more.len() as int)[i] == more[i]);
            }
        }
        assert forall|i: int| out.len() <= i < next.len() implies #[trigger] next[i] == next[i
            - distance] by {
            if i == out.len() {
                assert(next.take(more.len() as int)[i] == more[i]);
                assert(next.take(more.len() as int)[i - distance] == more[i - distance]);
            }
        }
    } else {
        assert(out.take(out.len() as int) =~= out);
    }
}

/// Two results of adding the same token are the same.
proof fn lemma_adds_once(out: Seq<u8>, piece: Piece, a: Seq<u8>, b: Seq<u8>)
    requires
        adds(out, piece, a),
        adds(out, piece, b),
    ensures
        a == b,
{
    if let Piece::Back { length, distance } = piece {
        lemma_adds_upto(out, distance, a, b, a.len() as int);
        assert(a =~= b);
    }
}

proof fn lemma_adds_upto(out: Seq<u8>, distance: int, a: Seq<u8>, b: Seq<u8>, n: int)
    requires
        1 <= distance <= out.len(),
        a.len() == b.len(),
        0 <= n <= a.len(),
        out.len() <= a.len(),
        a.take(out.len() as int) == out,
        b.take(out.len() as int) == out,
        forall|i: int| out.len() <= i < a.len() ==> #[trigger] a[i] == a[i - distance],
        forall|i: int| out.len() <= i < b.len() ==> #[trigger] b[i] == b[i - distance],
    ensures
        forall|i: int| 0 <= i < n ==> a[i] == b[i],
    decreases n,
{
    if n > 0 {
        lemma_adds_upto(out, distance, a, b, n - 1);
        let i = n - 1;
        if i < out.len() {
            assert(a.take(out.len() as int)[i] == out[i]);
            assert(b.take(out.len() as int)[i] == out[i]);
        } else {
            assert(a[i] == a[i - distance]);
            assert(b[i] == b[i - distance]);
        }
    }
}

/// A token is read as it is spelled, where what it adds is due and reaches back no further than
/// what is there.
pub proof fn lemma_piece_read(
    s: Seq<bool>,
    at: int,
    literals: Code,
    offsets: Code,
    piece: Piece,
    out: Seq<u8>,
    next: Seq<u8>,
    n: int,
)
    requires
        piece_stands(s, at, literals, offsets, piece),
        adds(out, piece, next),
        next.len() <= n,
    ensures
        read_token(s, at, literals, offsets, out, n) == Ok::<(Seq<u8>, int), Seq<char>>(
            (next, piece_end(s, at, literals, offsets, piece)),
        ),
{
    reveal(read_token);
    lemma2_to64();
    if let Piece::Back { length, distance } = piece {
        lemma_copied(out, distance, length as nat);
        lemma_adds_once(out, piece, next, copy_back(out, distance, length as nat));
        let (symbol, p) = read_symbol(literals, s, at)->Ok_0;
        let (class, q) = read_symbol(offsets, s, p)->Ok_0;
        assert(read_offset(s, q, class) == Ok::<(nat, int), Seq<char>>(
            (
                (distance - 1) as nat,
                q + if class > 0 {
                    class - 1
                } else {
                    0
                },
            ),
        ));
    }
}

/// Tokens of a block stand one behind the other, and what they add to `out`, step by step, is
/// listed in `outs`.
pub open spec fn pieces_stand(
    s: Seq<bool>,
    at: int,
    literals: Code,
    offsets: Code,
    pieces: Seq<Piece>,
    outs: Seq<Seq<u8>>,
) -> bool
    decreases pieces.len(),
{
    &&& outs.len() == pieces.len() + 1
    &&& pieces.len() > 0 ==> piece_stands(s, at, literals, offsets, pieces[0]) && adds(
        outs[0],
        pieces[0],
        outs[1],
    ) && pieces_stand(
        s,
        piece_end(s, at, literals, offsets, pieces[0]),
        literals,
        offsets,
        pieces.drop_first(),
        outs.drop_first(),
    )
}

proof fn lemma_outs_grow(
    s: Seq<bool>,
    at: int,
    literals: Code,
    offsets: Code,
    pieces: Seq<Piece>,
    outs: Seq<Seq<u8>>,
)
    requires
        pieces_stand(s, at, literals, offsets, pieces, outs),
    ensures
        outs[0].len() + pieces.len() <= outs.last().len(),
    decreases pieces.len(),
{
    if pieces.len() > 0 {
        lemma_outs_grow(
            s,
            piece_end(s, at, literals, offsets, pieces[0]),
            literals,
            offsets,
            pieces.drop_first(),
            outs.drop_first(),
        );
        assert(outs.drop_first().last() == outs.last());
        assert(outs.drop_first()[0] == outs[1]);
    }
}

/// Where the tokens of a block end.
pub open spec fn pieces_end(
    s: Seq<bool>,
    at: int,
    literals: Code,
    offsets: Code,
    pieces: Seq<Piece>,
) -> int
    decreases pieces.len(),
{
    if pieces.len() == 0 {
        at
    } else {
        pieces_end(
            s,
            piece_end(s, at, literals, offsets, pieces[0]),
            literals,
            offsets,
            pieces.drop_first(),
        )
    }
}

/// The tokens of a block are read as they are spelled.
pub proof fn lemma_pieces_read(
    s: Seq<bool>,
    at: int,
    left: nat,
    literals: Code,
    offsets: Code,
    pieces: Seq<Piece>,
    outs: Seq<Seq<u8>>,
    n: int,
)
    requires
        pieces_stand(s, at, literals, offsets, pieces, outs),
        pieces.len() <= left,
        outs.last().len() <= n,
    ensures
        decode_from(s, at, left, literals, offsets, outs[0], n) == decode_from(
            s,
            pieces_end(s, at, literals, offsets, pieces),
            (left - pieces.len()) as nat,
            literals,
            offsets,
            outs.last(),
            n,
        ),
    decreases pieces.len(),
{
    if pieces.len() > 0 {
        let rest = pieces.drop_first();
        let more = outs.drop_first();
        let next = piece_end(s, at, literals, offsets, pieces[0]);
        lemma_outs_grow(s, at, literals, offsets, pieces, outs);
        lemma_outs_grow(s, next, literals, offsets, rest, more);
        assert(more[0] == outs[1] && more.last() == outs.last());
        lemma_piece_read(s, at, literals, offsets, pieces[0], outs[0], outs[1], n);
        lemma_pieces_read(s, next, (left - 1) as nat, literals, offsets, rest, more, n);
    }
}

/// A block of a chunk: its codes, where its tokens start, its tokens, and what has come out before
/// and behind each of them.
pub ghost struct Block {
    pub literals: Code,
    pub offsets: Code,
    pub start: int,
    pub pieces: Seq<Piece>,
    pub outs: Seq<Seq<u8>>,
}

/// Blocks stand one behind the other from a position on and carry `out` on.
pub open spec fn blocks_stand(s: Seq<bool>, at: int, blocks: Seq<Block>, out: Seq<u8>) -> bool
    decreases blocks.len(),
{
    blocks.len() > 0 ==> {
        let b = blocks[0];
        &&& b.pieces.len() > 0
        &&& block_header(s, at) == Ok::<(nat, Code, Code, int), Seq<char>>(
            (b.pieces.len(), b.literals, b.offsets, b.start),
        )
        &&& pieces_stand(s, b.start, b.literals, b.offsets, b.pieces, b.outs)
        &&& b.outs[0] == out
        &&& blocks_stand(
            s,
            pieces_end(s, b.start, b.literals, b.offsets, b.pieces),
            blocks.drop_first(),
            b.outs.last(),
        )
    }
}

/// What blocks make of `out`.
pub open spec fn blocks_out(blocks: Seq<Block>, out: Seq<u8>) -> Seq<u8> {
    if blocks.len() == 0 {
        out
    } else {
        blocks.last().outs.last()
    }
}

proof fn lemma_blocks_read(
    s: Seq<bool>,
    at: int,
    literals: Code,
    offsets: Code,
    blocks: Seq<Block>,
    out: Seq<u8>,
    n: int,
)
    requires
        blocks_stand(s, at, blocks, out),
        blocks_out(blocks, out).len() == n,
    ensures
        decode_from(s, at, 0, literals, offsets, out, n) == Ok::<Seq<u8>, Seq<char>>(
            blocks_out(blocks, out),
        ),
        out.len() <= n,
    decreases blocks.len(),
{
    if blocks.len() > 0 {
        let b = blocks[0];
        let rest = blocks.drop_first();
        let end = pieces_end(s, b.start, b.literals, b.offsets, b.pieces);
        assert(blocks_out(rest, b.outs.last()) == blocks_out(blocks, out)) by {
            if rest.len() > 0 {
                assert(rest.last() == blocks.last());
            } else {
                assert(blocks.last() == b);
            }
        }
        lemma_blocks_read(s, end, b.literals, b.offsets, rest, b.outs.last(), n);
        lemma_outs_grow(s, b.start, b.literals, b.offsets, b.pieces, b.outs);
        lemma_pieces_read(
            s,
            b.start,
            b.pieces.len(),
            b.literals,
            b.offsets,
            b.pieces,
            b.outs,
            n,
        );
    }
}

/// A chunk decodes to what its blocks spell.
pub proof fn lemma_chunk_read(data: Seq<u8>, blocks: Seq<Block>)
    requires
        blocks_stand(stream(data), 0, blocks, Seq::empty()),
    ensures
        decoded(data, blocks_out(blocks, Seq::empty()).len() as int) == Ok::<Seq<u8>, Seq<char>>(
            blocks_out(blocks, Seq::empty()),
        ),
{
    lemma_blocks_read(
        stream(data),
        0,
        Code::Constant(0),
        Code::Constant(0),
        blocks,
        Seq::empty(),
        blocks_out(blocks, Seq::empty()).len() as int,
    );
}

} // verus!
