//! Bit streams, most significant bit of each byte first.

use vstd::arithmetic::power2::{lemma2_to64, lemma_pow2_unfold, pow2};
use crate::error::CodecError;
use vstd::prelude::*;

verus! {

/// Bit `k` of a byte, counted from the most significant one.
pub open spec fn bit_of(byte: u8, k: int) -> bool {
    (byte >> ((7 - k) as u8)) & 1u8 == 1u8
}

/// The bits of a byte sequence in stream order.
pub open spec fn stream(data: Seq<u8>) -> Seq<bool> {
    Seq::new(8 * data.len(), |i: int| bit_of(data[i / 8], i % 8))
}

/// The number that a run of bits spells, most significant bit first.
pub open spec fn be_value(bits: Seq<bool>) -> nat
    decreases bits.len(),
{
    if bits.len() == 0 {
        0
    } else {
        2 * be_value(bits.drop_last()) + (if bits.last() {
            1nat
        } else {
            0nat
        })
    }
}

/// The low `count` bits of `value`, most significant bit first.
pub open spec fn to_bits(value: nat, count: nat) -> Seq<bool>
    decreases count,
{
    if count == 0 {
        seq![]
    } else {
        to_bits(value / 2, (count - 1) as nat).push(value % 2 == 1)
    }
}

/// The largest field that is read at once.
pub const MAX_BITS: usize = 24;

/// The number in the `count` bits at `pos`, with the position behind them.
pub open spec fn take_bits(s: Seq<bool>, pos: int, count: int) -> Result<(nat, int), Seq<char>> {
    if count > MAX_BITS {
        Err("invalid LZ2K bit count"@)
    } else if pos + count <= s.len() {
        Ok((be_value(s.subrange(pos, pos + count)), pos + count))
    } else {
        Err("truncated LZ2K block"@)
    }
}

/// `res` is the number, or the error, that `expected` calls for.
pub open spec fn took(
    expected: Result<(nat, int), Seq<char>>,
    res: Result<u32, CodecError>,
) -> bool {
    match expected {
        Ok((value, _)) => res matches Ok(v) && v == value,
        Err(message) => res matches Err(e) && e.message@ == message,
    }
}

/// Bytes that hold `bits`, the last byte padded with zero bits.
pub open spec fn holds_bits(data: Seq<u8>, bits: Seq<bool>) -> bool {
    &&& data.len() == (bits.len() + 7) / 8
    &&& forall|i: int|
        0 <= i < 8 * data.len() ==> #[trigger] stream(data)[i] == (i < bits.len() && bits[i])
}

pub proof fn lemma_to_bits_len(value: nat, count: nat)
    ensures
        to_bits(value, count).len() == count,
    decreases count,
{
    if count > 0 {
        lemma_to_bits_len(value / 2, (count - 1) as nat);
    }
}

/// A number that fits in `count` bits is read back from the bits that spell it.
pub proof fn lemma_to_bits_value(value: nat, count: nat)
    requires
        value < pow2(count),
    ensures
        be_value(to_bits(value, count)) == value,
        to_bits(value, count).len() == count,
    decreases count,
{
    lemma2_to64();
    if count > 0 {
        lemma_pow2_unfold(count);
        lemma_to_bits_value(value / 2, (count - 1) as nat);
        let b = to_bits(value, count);
        assert(b.drop_last() =~= to_bits(value / 2, (count - 1) as nat));
    }
}

pub proof fn lemma_be_value_bound(bits: Seq<bool>)
    ensures
        be_value(bits) < pow2(bits.len()),
    decreases bits.len(),
{
    lemma2_to64();
    if bits.len() > 0 {
        lemma_be_value_bound(bits.drop_last());
        lemma_pow2_unfold(bits.len());
    }
}

/// Setting bit `k` of a byte changes that bit alone.
proof fn lemma_set_bit(byte: u8, k: u8)
    requires
        k < 8,
    ensures
        forall|j: int|
            0 <= j < 8 ==> #[trigger] bit_of(byte | (1u8 << ((7 - k) as u8)), j) == (j == k
                || bit_of(byte, j)),
{
    let m = (7 - k) as u8;
    let w = byte | (1u8 << m);
    assert forall|j: int| 0 <= j < 8 implies #[trigger] bit_of(w, j) == (j == k || bit_of(byte, j)) by {
        let s = (7 - j) as u8;
        assert((((byte | (1u8 << m)) >> s) & 1u8 == 1u8) <==> (s == m || (byte >> s) & 1u8 == 1u8))
            by (bit_vector)
            requires
                m < 8,
                s < 8,
        ;
    }
}

/// Reads bits from a byte slice.
pub struct Bits<'a> {
    pub data: &'a [u8],
    pub pos: u64,
}

impl<'a> Bits<'a> {
    pub open spec fn wf(&self) -> bool {
        &&& self.data@.len() < 0x1000_0000_0000_0000
        &&& self.pos <= 8 * self.data@.len()
    }

    /// The bit at the read position.
    fn next(&mut self) -> (bit: bool)
        requires
            old(self).wf(),
            old(self).pos < 8 * old(self).data@.len(),
        ensures
            final(self).wf(),
            final(self).data == old(self).data,
            final(self).pos == old(self).pos + 1,
            bit == stream(old(self).data@)[old(self).pos as int],
    {
        let byte: u8 = self.data[(self.pos / 8) as usize];
        let shift: u8 = 7 - (self.pos % 8) as u8;
        self.pos = self.pos + 1;
        (byte >> shift) & 1 == 1
    }

    /// The number that the next `count` bits spell.
    pub fn get(&mut self, count: usize) -> (res: Result<u32, CodecError>)
        requires
            old(self).wf(),
        ensures
            final(self).wf(),
            final(self).data == old(self).data,
            took(take_bits(stream(old(self).data@), old(self).pos as int, count as int), res),
            match take_bits(stream(old(self).data@), old(self).pos as int, count as int) {
                Ok((_, end)) => final(self).pos == end,
                Err(_) => final(self).pos == (if count > MAX_BITS {
                    old(self).pos as int
                } else {
                    (8 * old(self).data@.len()) as int
                }),
            },
    {
        if count > MAX_BITS {
            return Err(CodecError { message: "invalid LZ2K bit count" });
        }
        let total: u64 = 8 * self.data.len() as u64;
        if (count as u64) > total - self.pos {
            self.pos = total;
            return Err(CodecError { message: "truncated LZ2K block" });
        }
        let ghost start = self.pos as int;
        let ghost bits = stream(self.data@);
        let mut value: u32 = 0;
        let mut done: usize = 0;
        proof {
            lemma2_to64();
            assert(bits.subrange(start, start) =~= Seq::<bool>::empty());
        }
        while done < count
            invariant
                self.wf(),
                self.data == old(self).data,
                bits == stream(self.data@),
                start == old(self).pos,
                start + count <= bits.len(),
                done <= count <= MAX_BITS,
                self.pos == start + done,
                value == be_value(bits.subrange(start, start + done)),
                value < pow2(done as nat),
            decreases count - done,
        {
            let bit: bool = self.next();
            proof {
                lemma2_to64();
                lemma_pow2_unfold((done + 1) as nat);
                vstd::arithmetic::power2::lemma_pow2_strictly_increases(done as nat, 25);
                assert(bits.subrange(start, start + done + 1).drop_last() =~= bits.subrange(
                    start,
                    start + done,
                ));
            }
            value = value * 2 + (if bit {
                1
            } else {
                0
            });
            done = done + 1;
        }
        Ok(value)
    }

    /// The number that the next `count` bits spell, without moving past them.
    pub fn peek(&self, count: usize) -> (res: Result<u32, CodecError>)
        requires
            self.wf(),
        ensures
            took(take_bits(stream(self.data@), self.pos as int, count as int), res),
    {
        let mut copy: Bits = Bits { data: self.data, pos: self.pos };
        copy.get(count)
    }
}

/// What is put is read back where it was put. What stood in front stays, and the bits behind the
/// last one are zero.
pub proof fn lemma_put_read_back(before: BitWriter, after: BitWriter, value: nat, count: nat)
    requires
        before.wf(),
        after.wf(),
        count <= MAX_BITS,
        value < pow2(count),
        after@ == before@ + to_bits(value, count),
    ensures
        after.bits == before.bits + count,
        after.bytes@.len() == (after.bits + 7) / 8,
        stream(after.bytes@).take(before.bits as int) == before@,
        take_bits(stream(after.bytes@), before.bits as int, count as int) == Ok::<
            (nat, int),
            Seq<char>,
        >((value, after.bits as int)),
        forall|i: int|
            after.bits <= i < 8 * after.bytes@.len() ==> !#[trigger] stream(after.bytes@)[i],
{
    let s = stream(after.bytes@);
    let at = before.bits as int;
    lemma_to_bits_value(value, count);
    lemma_written_bits(before);
    lemma_written_bits(after);
    assert(s.take(at) =~= before@) by {
        assert forall|i: int| 0 <= i < at implies s[i] == before@[i] by {
            assert(after@[i] == before@[i]);
        }
    }
    assert(s.subrange(at, at + count) =~= to_bits(value, count)) by {
        assert forall|i: int| 0 <= i < count implies s[at + i] == to_bits(value, count)[i] by {
            assert(after@[at + i] == to_bits(value, count)[i]);
        }
    }
}

/// As many bits are written as are counted.
pub proof fn lemma_written_bits(writer: BitWriter)
    requires
        writer.wf(),
    ensures
        writer@.len() == writer.bits,
{
}

/// Appends bits to a byte vector.
pub struct BitWriter {
    pub bytes: Vec<u8>,
    pub bits: usize,
}

impl View for BitWriter {
    type V = Seq<bool>;

    open spec fn view(&self) -> Seq<bool> {
        stream(self.bytes@).take(self.bits as int)
    }
}

impl BitWriter {
    pub open spec fn wf(&self) -> bool {
        &&& self.bytes@.len() == (self.bits + 7) / 8
        &&& holds_bits(self.bytes@, self@)
    }

    pub fn new(capacity: usize) -> (res: Self)
        ensures
            res.wf(),
            res.bits == 0,
            res@ == Seq::<bool>::empty(),
    {
        let res = BitWriter { bytes: Vec::with_capacity(capacity), bits: 0 };
        assert(res@ =~= Seq::<bool>::empty());
        res
    }

    fn push(&mut self, bit: bool)
        requires
            old(self).wf(),
            old(self).bits < usize::MAX,
        ensures
            final(self).wf(),
            final(self).bits == old(self).bits + 1,
            final(self)@ == old(self)@.push(bit),
    {
        let ghost before = self@;
        let ghost bits0 = self.bits as int;
        if self.bits % 8 == 0 {
            self.bytes.push(0);
            assert forall|i: int| 0 <= i < 8 * self.bytes@.len() implies #[trigger] stream(
                self.bytes@,
            )[i] == (i < bits0 && before[i]) by {
                if i < 8 * (self.bytes@.len() - 1) {
                    assert(stream(old(self).bytes@)[i] == stream(self.bytes@)[i]);
                } else {
                    let s = (7 - i % 8) as u8;
                    assert((0u8 >> s) & 1u8 == 0u8) by (bit_vector);
                }
            }
        }
        let at: usize = self.bits / 8;
        let k: u8 = (self.bits % 8) as u8;
        let ghost prior = self.bytes@;
        if bit {
            let byte: u8 = self.bytes[at];
            proof {
                lemma_set_bit(byte, k);
            }
            self.bytes.set(at, byte | (1u8 << (7 - k)));
        }
        self.bits = self.bits + 1;
        proof {
            assert forall|i: int| 0 <= i < 8 * self.bytes@.len() implies #[trigger] stream(
                self.bytes@,
            )[i] == (if i == bits0 {
                bit
            } else {
                i < bits0 && before[i]
            }) by {
                assert(stream(prior)[i] == (i < bits0 && before[i]));
                if i / 8 == at {
                    assert(bit_of(self.bytes@[at as int], i % 8) == (bit && i % 8 == k || bit_of(
                        prior[at as int],
                        i % 8,
                    )));
                }
            }
            assert(self@ =~= before.push(bit));
        }
    }

    /// Appends the low `count` bits of `value`.
    pub fn put(&mut self, value: u32, count: usize)
        requires
            old(self).wf(),
            count <= 16,
            value < pow2(count as nat),
            old(self).bits + count <= usize::MAX,
        ensures
            final(self).wf(),
            final(self).bits == old(self).bits + count,
            final(self)@ == old(self)@ + to_bits(value as nat, count as nat),
            take_bits(stream(final(self).bytes@), old(self).bits as int, count as int) == Ok::<
                (nat, int),
                Seq<char>,
            >((value as nat, final(self).bits as int)),
    {
        let mut left: usize = count;
        proof {
            lemma2_to64();
            vstd::arithmetic::power2::lemma_pow2_strictly_increases(count as nat, 17);
            vstd::bits::lemma_u32_shr_is_div(value, count as u32);
            assert(value >> (count as u32) == 0) by {
                vstd::arithmetic::div_mod::lemma_basic_div(value as int, pow2(count as nat) as int);
            }
            assert(self@ + to_bits(0, 0) =~= self@);
        }
        while left > 0
            invariant
                self.wf(),
                left <= count <= 16,
                self.bits == old(self).bits + (count - left),
                old(self).bits + count <= usize::MAX,
                self@ == old(self)@ + to_bits(
                    (value >> (left as u32)) as nat,
                    (count - left) as nat,
                ),
            decreases left,
        {
            let shift: u32 = (left - 1) as u32;
            let bit: bool = (value >> shift) & 1 == 1;
            let ghost before = self@;
            self.push(bit);
            left = left - 1;
            proof {
                let cur = value >> shift;
                assert(value >> ((shift + 1) as u32) == cur / 2) by (bit_vector)
                    requires
                        shift < 16,
                        cur == value >> shift,
                ;
                assert((cur & 1 == 1) == (cur % 2 == 1)) by (bit_vector);
                assert(self@ =~= old(self)@ + to_bits(cur as nat, (count - left) as nat));
            }
        }
        assert(value >> 0u32 == value) by (bit_vector);
        proof {
            lemma_put_read_back(*old(self), *self, value as nat, count as nat);
        }
    }
}

} // verus!
