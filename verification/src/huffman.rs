//! Canonical Huffman codes of at most sixteen bits.

use crate::bits::{be_value, stream, Bits};
use crate::error::CodecError;
use vstd::arithmetic::power2::{lemma2_to64, lemma_pow2_strictly_increases, lemma_pow2_unfold, pow2};
use vstd::prelude::*;

verus! {

pub const MAX_CODE_BITS: usize = 16;

/// How many of the first `upto` symbols have a code of `n` bits.
pub open spec fn count_before(lengths: Seq<u8>, upto: int, n: int) -> nat
    decreases upto,
{
    if upto <= 0 {
        0
    } else {
        count_before(lengths, upto - 1, n) + (if lengths[upto - 1] == n {
            1nat
        } else {
            0nat
        })
    }
}

/// How many symbols have a code of `n` bits.
pub open spec fn count_of(lengths: Seq<u8>, n: int) -> nat {
    count_before(lengths, lengths.len() as int, n)
}

/// The numerically first code of `n` bits.
pub open spec fn first_code(lengths: Seq<u8>, n: int) -> nat
    decreases n,
{
    if n <= 1 {
        0
    } else {
        2 * (first_code(lengths, n - 1) + count_of(lengths, n - 1))
    }
}

/// The code of symbol `i`: codes of one length follow each other in symbol order.
pub open spec fn code_of(lengths: Seq<u8>, i: int) -> nat {
    first_code(lengths, lengths[i] as int) + count_before(lengths, i, lengths[i] as int)
}

/// Symbol `i` has the `n`-bit code `code`.
pub open spec fn assigned(lengths: Seq<u8>, i: int, n: int, code: nat) -> bool {
    0 <= i < lengths.len() && lengths[i] == n && code_of(lengths, i) == code
}

/// The symbol with the `n`-bit code `code`.
pub open spec fn symbol_of(lengths: Seq<u8>, n: int, code: nat) -> Option<u16> {
    if exists|i: int| assigned(lengths, i, n, code) {
        Some((choose|i: int| assigned(lengths, i, n, code)) as u16)
    } else {
        None
    }
}

/// Too many codes of some length.
pub open spec fn oversubscribed(lengths: Seq<u8>) -> bool {
    exists|n: int|
        1 <= n <= MAX_CODE_BITS && #[trigger] first_code(lengths, n) + count_of(lengths, n) > pow2(
            n as nat,
        )
}

/// Whether the lengths describe a complete code.
pub open spec fn complete(lengths: Seq<u8>) -> bool {
    first_code(lengths, MAX_CODE_BITS as int) + count_of(lengths, MAX_CODE_BITS as int) == pow2(
        MAX_CODE_BITS as nat,
    )
}

/// A code: one symbol that takes no bits, or the canonical code of these lengths.
pub ghost enum Code {
    Constant(u16),
    Lengths(Seq<u8>),
}

/// The code of the given lengths, if they form one.
pub open spec fn code_from(lengths: Seq<u8>) -> Result<Code, Seq<char>> {
    if exists|i: int| 0 <= i < lengths.len() && lengths[i] > MAX_CODE_BITS {
        Err("invalid LZ2K Huffman length"@)
    } else if oversubscribed(lengths) {
        Err("oversubscribed LZ2K tree"@)
    } else if !complete(lengths) {
        Err("incomplete LZ2K tree"@)
    } else {
        Ok(Code::Lengths(lengths))
    }
}

/// The symbol whose code begins at `pos`, its first `n - 1` bits being no code.
pub open spec fn scan(lengths: Seq<u8>, s: Seq<bool>, pos: int, n: int) -> Result<
    (u16, int),
    Seq<char>,
>
    decreases MAX_CODE_BITS + 1 - n,
{
    if n > MAX_CODE_BITS {
        Err("invalid LZ2K Huffman code"@)
    } else if pos + n > s.len() {
        Err("truncated LZ2K block"@)
    } else {
        match symbol_of(lengths, n, be_value(s.subrange(pos, pos + n))) {
            Some(symbol) => Ok((symbol, pos + n)),
            None => scan(lengths, s, pos, n + 1),
        }
    }
}

/// The symbol at `pos`, with the position behind its code.
pub open spec fn read_symbol(code: Code, s: Seq<bool>, pos: int) -> Result<(u16, int), Seq<char>> {
    match code {
        Code::Constant(symbol) => Ok((symbol, pos)),
        Code::Lengths(lengths) => scan(lengths, s, pos, 1),
    }
}

proof fn lemma_count_monotonic(lengths: Seq<u8>, i: int, j: int, n: int)
    requires
        0 <= i <= j,
    ensures
        count_before(lengths, i, n) <= count_before(lengths, j, n),
        count_before(lengths, j, n) <= j,
    decreases j,
{
    if i < j {
        lemma_count_monotonic(lengths, i, j - 1, n);
    } else if j > 0 {
        lemma_count_monotonic(lengths, i - 1, j - 1, n);
    }
}

proof fn lemma_code_below(lengths: Seq<u8>, i: int)
    requires
        0 <= i < lengths.len(),
    ensures
        code_of(lengths, i) < first_code(lengths, lengths[i] as int) + count_of(
            lengths,
            lengths[i] as int,
        ),
{
    lemma_count_monotonic(lengths, i + 1, lengths.len() as int, lengths[i] as int);
}

/// No two symbols share a code.
pub proof fn lemma_code_unique(lengths: Seq<u8>, i: int, j: int, n: int, code: nat)
    requires
        assigned(lengths, i, n, code),
        assigned(lengths, j, n, code),
    ensures
        i == j,
{
    if i < j {
        lemma_count_monotonic(lengths, i + 1, j, n);
    } else if j < i {
        lemma_count_monotonic(lengths, j + 1, i, n);
    }
}

/// The symbol that has a code is the one that the code is read as.
pub proof fn lemma_symbol_of(lengths: Seq<u8>, i: int, n: int, code: nat)
    requires
        assigned(lengths, i, n, code),
    ensures
        symbol_of(lengths, n, code) == Some(i as u16),
{
    let j = choose|j: int| assigned(lengths, j, n, code);
    lemma_code_unique(lengths, i, j, n, code);
}

/// What row and column of the table hold.
spec fn cell(table: Seq<Vec<Option<u16>>>, n: int, c: int) -> Option<u16> {
    if c < table[n]@.len() {
        table[n]@[c]
    } else {
        None
    }
}

/// The table holds the codes of the first `upto` symbols.
spec fn filled(table: Seq<Vec<Option<u16>>>, lengths: Seq<u8>, upto: int) -> bool {
    &&& table.len() == MAX_CODE_BITS + 1
    &&& forall|n: int, c: int|
        #![trigger table[n]@[c]]
        1 <= n <= MAX_CODE_BITS && 0 <= c < table[n]@.len() && table[n]@[c] is Some ==> exists|i: int|
            i < upto && #[trigger] assigned(lengths, i, n, c as nat) && table[n]@[c] == Some(i as u16)
    &&& forall|i: int|
        #![trigger code_of(lengths, i)]
        0 <= i < upto && lengths[i] != 0 ==> cell(
            table,
            lengths[i] as int,
            code_of(lengths, i) as int,
        ) == Some(i as u16)
}

/// Puts `value` at `at`, growing the row with empty cells.
fn place(row: &mut Vec<Option<u16>>, at: usize, value: u16)
    requires
        at < usize::MAX,
    ensures
        final(row)@.len() == if old(row)@.len() <= at {
            at + 1
        } else {
            old(row)@.len() as int
        },
        forall|c: int|
            0 <= c < final(row)@.len() ==> #[trigger] final(row)@[c] == if c == at {
                Some(value)
            } else if c < old(row)@.len() {
                old(row)@[c]
            } else {
                None
            },
{
    while row.len() <= at
        invariant
            row@.len() >= old(row)@.len(),
            row@.len() <= at + 1 || row@.len() == old(row)@.len(),
            at < usize::MAX,
            forall|c: int|
                0 <= c < row@.len() ==> #[trigger] row@[c] == if c < old(row)@.len() {
                    old(row)@[c]
                } else {
                    None
                },
        decreases at + 1 - row@.len(),
    {
        row.push(None);
    }
    row.set(at, Some(value));
}

/// A decoding table, or one symbol that takes no bits.
pub struct Huffman {
    symbols: Vec<Vec<Option<u16>>>,
    constant: Option<u16>,
    lengths: Ghost<Seq<u8>>,
}

impl View for Huffman {
    type V = Code;

    closed spec fn view(&self) -> Code {
        match self.constant {
            Some(symbol) => Code::Constant(symbol),
            None => Code::Lengths(self.lengths@),
        }
    }
}

impl Huffman {
    #[verifier::type_invariant]
    spec fn inv(self) -> bool {
        self.constant is None ==> filled(self.symbols@, self.lengths@, self.lengths@.len() as int)
    }

    pub fn constant(value: u16) -> (res: Self)
        ensures
            res@ == Code::Constant(value),
    {
        Huffman { symbols: Vec::new(), constant: Some(value), lengths: Ghost(Seq::empty()) }
    }

    /// The canonical code of `lengths`, where zero means that a symbol is not used.
    pub fn new(lengths: &[u8]) -> (res: Result<Self, CodecError>)
        requires
            lengths@.len() <= u32::MAX - 0x1_0000,
        ensures
            match code_from(lengths@) {
                Ok(code) => res matches Ok(table) && table@ == code,
                Err(message) => res matches Err(e) && e.message@ == message,
            },
    {
        let ghost l = lengths@;
        let mut counts: [u32; 17] = [0; 17];
        let mut i: usize = 0;
        while i < lengths.len()
            invariant
                l == lengths@,
                i <= l.len() <= u32::MAX - 0x1_0000,
                forall|n: int| 0 <= n <= MAX_CODE_BITS ==> #[trigger] counts@[n] == count_before(
                    l,
                    i as int,
                    n,
                ),
                forall|j: int| 0 <= j < i ==> l[j] <= MAX_CODE_BITS,
            decreases l.len() - i,
        {
            let len: u8 = lengths[i];
            if len > 16 {
                return Err(CodecError { message: "invalid LZ2K Huffman length" });
            }
            proof {
                lemma_count_monotonic(l, i as int, i as int, len as int);
            }
            counts[len as usize] = counts[len as usize] + 1;
            i = i + 1;
        }
        let mut next: [u32; 17] = [0; 17];
        let mut code: u32 = 0;
        let mut n: usize = 1;
        proof {
            lemma2_to64();
        }
        while n <= MAX_CODE_BITS
            invariant
                l == lengths@,
                1 <= n <= MAX_CODE_BITS + 1,
                l.len() <= u32::MAX - 0x1_0000,
                forall|k: int| 0 <= k <= MAX_CODE_BITS ==> #[trigger] counts@[k] == count_of(l, k),
                forall|k: int| 1 <= k < n ==> #[trigger] next@[k] == first_code(l, k),
                forall|k: int|
                    1 <= k < n ==> #[trigger] first_code(l, k) + count_of(l, k) <= pow2(k as nat),
                forall|j: int| 0 <= j < l.len() ==> l[j] <= MAX_CODE_BITS,
                n == 1 ==> code == 0,
                n > 1 ==> code == first_code(l, n - 1),
                pow2(16) == 0x1_0000,
            decreases MAX_CODE_BITS + 1 - n,
        {
            proof {
                lemma2_to64();
                if n > 1 {
                    lemma_pow2_strictly_increases((n - 1) as nat, 16);
                }
            }
            if n > 1 {
                code = 2 * (code + counts[n - 1]);
            }
            next[n] = code;
            proof {
                lemma_count_monotonic(l, 0, l.len() as int, n as int);
                lemma2_to64();
                if n < 16 {
                    lemma_pow2_strictly_increases(n as nat, 16);
                }
                vstd::bits::lemma_u32_shl_is_mul(1, n as u32);
            }
            if code + counts[n] > (1u32 << (n as u32)) {
                assert(first_code(l, n as int) + count_of(l, n as int) > pow2(n as nat));
                return Err(CodecError { message: "oversubscribed LZ2K tree" });
            }
            n = n + 1;
        }
        if code + counts[16] != 0x1_0000 {
            return Err(CodecError { message: "incomplete LZ2K tree" });
        }
        let mut symbols: Vec<Vec<Option<u16>>> = Vec::new();
        let mut r: usize = 0;
        while r <= MAX_CODE_BITS
            invariant
                symbols@.len() == r,
                r <= MAX_CODE_BITS + 1,
                forall|k: int| 0 <= k < r ==> (#[trigger] symbols@[k])@.len() == 0,
            decreases MAX_CODE_BITS + 1 - r,
        {
            symbols.push(Vec::new());
            r = r + 1;
        }
        let mut symbol: usize = 0;
        while symbol < lengths.len()
            invariant
                l == lengths@,
                symbol <= l.len() <= u32::MAX - 0x1_0000,
                forall|j: int| 0 <= j < l.len() ==> l[j] <= MAX_CODE_BITS,
                forall|k: int|
                    1 <= k <= MAX_CODE_BITS ==> #[trigger] next@[k] == first_code(l, k)
                        + count_before(l, symbol as int, k),
                forall|k: int|
                    1 <= k <= MAX_CODE_BITS ==> #[trigger] first_code(l, k) + count_of(l, k)
                        <= 0x1_0000,
                filled(symbols@, l, symbol as int),
            decreases l.len() - symbol,
        {
            let len: u8 = lengths[symbol];
            if len != 0 {
                let c: u32 = next[len as usize];
                let ghost before = symbols@;
                proof {
                    lemma_code_below(l, symbol as int);
                }
                place(&mut symbols[len as usize], c as usize, symbol as u16);
                next[len as usize] = c + 1;
                proof {
                    assert(assigned(l, symbol as int, len as int, c as nat));
                    assert forall|m: int, d: int|
                        #![trigger symbols@[m]@[d]]
                        1 <= m <= MAX_CODE_BITS && 0 <= d < symbols@[m]@.len()
                            && symbols@[m]@[d] is Some implies exists|i: int|
                        i < symbol + 1 && #[trigger] assigned(l, i, m, d as nat) && symbols@[m]@[d]
                            == Some(i as u16) by {
                        if m == len && d == c {
                            assert(assigned(l, symbol as int, m, d as nat));
                        } else {
                            assert(before[m]@[d] is Some);
                            let w = choose|i: int|
                                i < symbol && #[trigger] assigned(l, i, m, d as nat)
                                    && before[m]@[d] == Some(i as u16);
                            assert(assigned(l, w, m, d as nat));
                        }
                    }
                    assert forall|i: int|
                        #![trigger code_of(l, i)]
                        0 <= i < symbol + 1 && l[i] != 0 implies cell(
                        symbols@,
                        l[i] as int,
                        code_of(l, i) as int,
                    ) == Some(i as u16) by {
                        if i < symbol {
                            assert(cell(before, l[i] as int, code_of(l, i) as int) == Some(
                                i as u16,
                            ));
                            if l[i] == len && code_of(l, i) == c {
                                lemma_code_unique(
                                    l,
                                    i,
                                    symbol as int,
                                    len as int,
                                    c as nat,
                                );
                            }
                        }
                    }
                }
            }
            symbol = symbol + 1;
        }
        Ok(Huffman { symbols, constant: None, lengths: Ghost(l) })
    }

    /// Reads the next symbol.
    pub fn decode(&self, bits: &mut Bits<'_>) -> (res: Result<u16, CodecError>)
        requires
            old(bits).wf(),
        ensures
            final(bits).wf(),
            final(bits).data == old(bits).data,
            match read_symbol(self@, stream(old(bits).data@), old(bits).pos as int) {
                Ok((symbol, end)) => res == Ok::<u16, CodecError>(symbol) && final(bits).pos == end,
                Err(message) => {
                    &&& res matches Err(e) && e.message@ == message
                    &&& final(bits).pos == vstd::math::min(
                        old(bits).pos + MAX_CODE_BITS,
                        8 * old(bits).data@.len() as int,
                    )
                },
            },
    {
        proof {
            use_type_invariant(self);
        }
        if let Some(value) = self.constant {
            return Ok(value);
        }
        let ghost l = self.lengths@;
        let ghost s = stream(bits.data@);
        let ghost start = bits.pos as int;
        let mut code: u32 = 0;
        let mut n: usize = 1;
        proof {
            lemma2_to64();
            assert(s.subrange(start, start) =~= Seq::<bool>::empty());
        }
        while n <= MAX_CODE_BITS
            invariant
                1 <= n <= MAX_CODE_BITS + 1,
                bits.wf(),
                bits.data == old(bits).data,
                s == stream(bits.data@),
                start == old(bits).pos,
                l == self.lengths@,
                self.constant is None,
                filled(self.symbols@, l, l.len() as int),
                bits.pos == start + n - 1,
                code == be_value(s.subrange(start, start + n - 1)),
                code < pow2((n - 1) as nat),
                scan(l, s, start, n as int) == scan(l, s, start, 1),
            decreases MAX_CODE_BITS + 1 - n,
        {
            let bit: u32 = match bits.get(1) {
                Ok(bit) => bit,
                Err(e) => {
                    return Err(e);
                },
            };
            proof {
                lemma2_to64();
                lemma_pow2_unfold(n as nat);
                lemma_pow2_strictly_increases((n - 1) as nat, 17);
                let one = s.subrange(start + n - 1, start + n);
                assert(one.drop_last() =~= Seq::<bool>::empty());
                assert(be_value(one.drop_last()) == 0);
                assert(s.subrange(start, start + n).drop_last() =~= s.subrange(
                    start,
                    start + n - 1,
                ));
            }
            code = code * 2 + bit;
            let row: &Vec<Option<u16>> = &self.symbols[n];
            if (code as usize) < row.len() {
                if let Some(symbol) = row[code as usize] {
                    proof {
                        let w = choose|i: int|
                            i < l.len() && #[trigger] assigned(l, i, n as int, code as nat)
                                && self.symbols@[n as int]@[code as int] == Some(i as u16);
                        lemma_symbol_of(l, w, n as int, code as nat);
                    }
                    return Ok(symbol);
                }
            }
            proof {
                if exists|i: int| assigned(l, i, n as int, code as nat) {
                    let w = choose|i: int| assigned(l, i, n as int, code as nat);
                    assert(cell(self.symbols@, n as int, code_of(l, w) as int) is Some);
                }
            }
            n = n + 1;
        }
        Err(CodecError { message: "invalid LZ2K Huffman code" })
    }
}

} // verus!
