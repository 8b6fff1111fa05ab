//! Sizes as text.

use crate::text::{digit, digits, digits_of};
use vstd::prelude::*;

verus! {

/// Numbers below this are kept exactly by a 53-bit significand.
pub const EXACT: u128 = 0x20_0000_0000_0000;

/// The quotient rounded to the nearest integer, and to the even one of two as near.
pub open spec fn nearest(n: int, d: int) -> int {
    let q = n / d;
    let r = n % d;
    if 2 * r > d || (2 * r == d && q % 2 == 1) {
        q + 1
    } else {
        q
    }
}

/// The power of two, from `step` on, by which a number has to be divided to fit 53 bits.
pub open spec fn scale(size: int, step: int) -> int
    decreases size - step,
{
    if step <= 0 || size < EXACT * step {
        step
    } else {
        scale(size, 2 * step)
    }
}

/// The number with a significand of 53 bits that is nearest to a size.
pub open spec fn rounded(size: int) -> int {
    nearest(size, scale(size, 1)) * scale(size, 1)
}

/// A quotient with one digit behind the point.
pub open spec fn with_tenth(n: int, d: int) -> Seq<char> {
    let tenths = nearest(10 * n, d);
    digits((tenths / 10) as nat) + "."@ + seq![digit((tenths % 10) as nat)]
}

/// A size in the largest of the units B, KiB, MiB, GiB and TiB of which it makes at least one.
pub open spec fn size_text(size: int) -> Seq<char> {
    let r = rounded(size);
    if size < 0x400 {
        digits(size as nat) + " B"@
    } else if r < 0x10_0000 {
        with_tenth(r, 0x400) + " KiB"@
    } else if r < 0x4000_0000 {
        with_tenth(r, 0x10_0000) + " MiB"@
    } else if r < 0x100_0000_0000 {
        with_tenth(r, 0x4000_0000) + " GiB"@
    } else {
        with_tenth(r, 0x100_0000_0000) + " TiB"@
    }
}

fn nearest_of(n: u128, d: u128) -> (res: u128)
    requires
        0 < d <= 0x1_0000_0000_0000_0000,
    ensures
        res == nearest(n as int, d as int),
{
    let q: u128 = n / d;
    let r: u128 = n % d;
    assert(q <= n) by (nonlinear_arith)
        requires
            q == n / d,
            d > 0,
    ;
    if 2 * r > d || (2 * r == d && q % 2 == 1) {
        assert(q < n || n == 0) by (nonlinear_arith)
            requires
                q == n / d,
                r == n % d,
                2 * r >= d,
                d > 0,
        ;
        q + 1
    } else {
        q
    }
}

/// One of the powers of two by which a 64-bit number may have to be divided.
spec fn small_power(step: int) -> bool {
    ||| step == 1
    ||| step == 2
    ||| step == 4
    ||| step == 8
    ||| step == 0x10
    ||| step == 0x20
    ||| step == 0x40
    ||| step == 0x80
    ||| step == 0x100
    ||| step == 0x200
    ||| step == 0x400
    ||| step == 0x800
}

fn scale_of(size: u64) -> (res: u128)
    ensures
        res == scale(size as int, 1),
        small_power(res as int),
{
    let wide: u128 = size as u128;
    let mut step: u128 = 1;
    while wide >= EXACT * step
        invariant
            wide == size,
            small_power(step as int),
            scale(size as int, 1) == scale(size as int, step as int),
        decreases 0x1000 - step,
    {
        step = 2 * step;
    }
    step
}

fn tenth_of(n: u128, d: u128) -> (res: String)
    requires
        0x400 <= d <= 0x100_0000_0000,
        n <= 0x1_0000_0000_0000_0000,
    ensures
        res@ == with_tenth(n as int, d as int),
{
    let tenths: u128 = nearest_of(10 * n, d);
    proof {
        lemma_tenths_bound(10 * n as int, d as int);
    }
    let whole: u64 = (tenths / 10) as u64;
    let last: u64 = (tenths % 10) as u64;
    let res: String = digits_of(whole).concat(".").concat(digits_of(last).as_str());
    assert(digits(last as nat) == seq![digit(last as nat)]);
    res
}

proof fn lemma_tenths_bound(n: int, d: int)
    requires
        0x400 <= d,
        0 <= n <= 0xa_0000_0000_0000_0000,
    ensures
        0 <= nearest(n, d) <= 0x1_0000_0000_0000_0000,
{
    assert(0 <= n / d <= n / 0x400) by (nonlinear_arith)
        requires
            0x400 <= d,
            0 <= n,
    ;
}

proof fn lemma_rounded_bound(size: int, step: int)
    requires
        0 <= size <= u64::MAX,
        small_power(step),
    ensures
        0 <= nearest(size, step) * step <= 0x1_0000_0000_0000_0000,
        nearest(size, step) <= 0x1_0000_0000_0000_0000,
{
    if step == 1 {
    } else if step == 2 {
    } else if step == 4 {
    } else if step == 8 {
    } else if step == 0x10 {
    } else if step == 0x20 {
    } else if step == 0x40 {
    } else if step == 0x80 {
    } else if step == 0x100 {
    } else if step == 0x200 {
    } else if step == 0x400 {
    } else {
    }
}

/// A size as text, with one digit behind the point from 1024 bytes on.
pub fn format_size(size: u64) -> (res: String)
    ensures
        res@ == size_text(size as int),
{
    if size < 0x400 {
        return digits_of(size).concat(" B");
    }
    let step: u128 = scale_of(size);
    let part: u128 = nearest_of(size as u128, step);
    proof {
        lemma_rounded_bound(size as int, step as int);
    }
    let value: u128 = part * step;
    if value < 0x10_0000 {
        tenth_of(value, 0x400).concat(" KiB")
    } else if value < 0x4000_0000 {
        tenth_of(value, 0x10_0000).concat(" MiB")
    } else if value < 0x100_0000_0000 {
        tenth_of(value, 0x4000_0000).concat(" GiB")
    } else {
        tenth_of(value, 0x100_0000_0000).concat(" TiB")
    }
}

} // verus!
