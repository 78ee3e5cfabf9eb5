//! Decimal numerals and UTF-8 scalars: the two textual encodings that the
//! assembly form and the machine's input and output share.

use crate::num::{big_add, big_div, big_from_usize, big_lt, big_mul, big_rem, big_sub, big_to_usize, int_of, trunc_div, trunc_rem};
use malachite_bigint::BigInt;
use vstd::prelude::*;

verus! {

/// ASCII code of the minus sign.
pub const MINUS: u8 = 45;

/// ASCII code of the digit zero.
pub const ZERO: u8 = 48;

/// Whether a byte is an ASCII decimal digit.
pub open spec fn is_digit(b: u8) -> bool {
    48 <= b <= 57
}

/// Whether every byte of a sequence is a decimal digit.
pub open spec fn all_digits(s: Seq<u8>) -> bool {
    forall|i: int| 0 <= i < s.len() ==> is_digit(#[trigger] s[i])
}

/// The decimal digits of a natural number, most significant first.
pub open spec fn dec_nat(n: nat) -> Seq<u8>
    decreases n,
{
    if n < 10 {
        seq![(48 + n) as u8]
    } else {
        dec_nat(n / 10).push((48 + n % 10) as u8)
    }
}

/// The decimal numeral of an integer: a minus sign for negative values,
/// then the digits of the magnitude.
pub open spec fn decimal(v: int) -> Seq<u8> {
    if v < 0 {
        seq![45u8] + dec_nat((-v) as nat)
    } else {
        dec_nat(v as nat)
    }
}

/// The number that a sequence of decimal digits denotes.
pub open spec fn digits_value(s: Seq<u8>) -> nat
    decreases s.len(),
{
    if s.len() == 0 {
        0
    } else {
        (digits_value(s.drop_last()) * 10 + (s.last() - 48)) as nat
    }
}

/// The integer that a numeral denotes: an optional minus sign followed by
/// at least one digit, and nothing else.
pub open spec fn parse_decimal(s: Seq<u8>) -> Option<int> {
    if s.len() > 0 && s[0] == 45 {
        let d = s.drop_first();
        if d.len() > 0 && all_digits(d) {
            Some(-(digits_value(d) as int))
        } else {
            None
        }
    } else if s.len() > 0 && all_digits(s) {
        Some(digits_value(s) as int)
    } else {
        None
    }
}

/// The digits of a natural number are digits, at least one of them, and
/// they denote that number.
pub proof fn lemma_dec_nat(n: nat)
    ensures
        dec_nat(n).len() > 0,
        all_digits(dec_nat(n)),
        digits_value(dec_nat(n)) == n,
    decreases n,
{
    if n < 10 {
        let s = dec_nat(n);
        assert(s.drop_last() =~= Seq::<u8>::empty());
        reveal_with_fuel(digits_value, 2);
    } else {
        lemma_dec_nat(n / 10);
        let s = dec_nat(n);
        assert(s.drop_last() =~= dec_nat(n / 10));
        assert(s.last() == (48 + n % 10) as u8);
    }
}

/// Reading back the numeral of an integer gives that integer.
pub proof fn lemma_parse_decimal(v: int)
    ensures
        parse_decimal(decimal(v)) == Some(v),
{
    if v < 0 {
        let m = (-v) as nat;
        lemma_dec_nat(m);
        assert(decimal(v).drop_first() =~= dec_nat(m));
    } else {
        lemma_dec_nat(v as nat);
        assert(is_digit(dec_nat(v as nat)[0]));
    }
}

/// The elements of a sequence in the opposite order.
pub open spec fn rev(s: Seq<u8>) -> Seq<u8> {
    Seq::new(s.len(), |i: int| s[s.len() - 1 - i])
}

/// Appends the decimal numeral of `v` to `out`.
pub fn write_decimal(v: &BigInt, out: &mut Vec<u8>)
    ensures
        final(out)@ == old(out)@ + decimal(int_of(*v)),
{
    let zero = big_from_usize(0);
    let ten = big_from_usize(10);
    let negative = big_lt(v, &zero);
    let mut cur = if negative {
        big_sub(&zero, v)
    } else {
        big_sub(v, &zero)
    };
    let ghost mag: nat = int_of(cur) as nat;
    let mut low: Vec<u8> = Vec::new();
    while !big_lt(&cur, &ten)
        invariant
            int_of(ten) == 10,
            int_of(cur) >= 0,
            dec_nat(mag) == dec_nat(int_of(cur) as nat) + rev(low@),
        decreases int_of(cur),
    {
        let d = big_rem(&cur, &ten);
        let q = big_div(&cur, &ten);
        let ghost c = int_of(cur);
        proof {
            vstd::arithmetic::div_mod::lemma_fundamental_div_mod(c, 10);
            assert(trunc_div(c, 10) == c / 10);
            assert(trunc_rem(c, 10) == c % 10);
        }
        let dv = big_to_usize(&d);
        let digit: u8 = match dv {
            Some(x) => (x + 48) as u8,
            None => 48,
        };
        let ghost before = low@;
        low.push(digit);
        proof {
            let cn = c as nat;
            assert(dec_nat(cn) == dec_nat(cn / 10).push((48 + cn % 10) as u8));
            assert(rev(low@) =~= seq![digit] + rev(before));
            assert(dec_nat(cn) + rev(before) =~= dec_nat(cn / 10) + rev(low@));
        }
        cur = q;
    }
    let lv = big_to_usize(&cur);
    let last: u8 = match lv {
        Some(x) => (x + 48) as u8,
        None => 48,
    };
    let ghost before = low@;
    low.push(last);
    proof {
        assert(rev(low@) =~= seq![last] + rev(before));
        assert(dec_nat(mag) =~= rev(low@));
    }
    if negative {
        out.push(MINUS);
    }
    let ghost base = out@;
    let mut i: usize = low.len();
    while i > 0
        invariant
            i <= low.len(),
            out@ == base + rev(low@).subrange(0, low.len() - i),
        decreases i,
    {
        i -= 1;
        out.push(low[i]);
        assert(out@ =~= base + rev(low@).subrange(0, low.len() - i));
    }
    assert(rev(low@).subrange(0, low.len() as int) =~= rev(low@));
    assert(final(out)@ =~= old(out)@ + decimal(int_of(*v)));
}

/// The integer denoted by the digits `s[from..to]`.
pub fn read_digits(s: &[u8], from: usize, to: usize) -> (r: BigInt)
    requires
        from <= to <= s@.len(),
        all_digits(s@.subrange(from as int, to as int)),
    ensures
        int_of(r) == digits_value(s@.subrange(from as int, to as int)),
{
    let ten = big_from_usize(10);
    let mut acc = big_from_usize(0);
    let mut i: usize = from;
    assert(s@.subrange(from as int, from as int) =~= Seq::<u8>::empty());
    while i < to
        invariant
            from <= i <= to <= s@.len(),
            int_of(ten) == 10,
            all_digits(s@.subrange(from as int, to as int)),
            int_of(acc) == digits_value(s@.subrange(from as int, i as int)),
        decreases to - i,
    {
        let b = s[i];
        assert(s@.subrange(from as int, to as int)[i - from] == b);
        let d = big_from_usize((b - 48) as usize);
        let scaled = big_mul(&acc, &ten);
        acc = big_add(&scaled, &d);
        proof {
            let t = s@.subrange(from as int, i + 1);
            assert(t.drop_last() =~= s@.subrange(from as int, i as int));
            assert(t.last() == b);
        }
        i += 1;
    }
    acc
}

/// Whether a byte is blank space between tokens.
pub open spec fn is_space(b: u8) -> bool {
    b == 32 || b == 9 || b == 10 || b == 13
}

/// The first position at or after `pos` that holds no blank space.
pub open spec fn skip_spaces(s: Seq<u8>, pos: int) -> int
    decreases s.len() - pos,
{
    if 0 <= pos < s.len() && is_space(s[pos]) {
        skip_spaces(s, pos + 1)
    } else {
        pos
    }
}

/// The first position at or after `pos` that holds no digit.
pub open spec fn digits_end(s: Seq<u8>, pos: int) -> int
    decreases s.len() - pos,
{
    if 0 <= pos < s.len() && is_digit(s[pos]) {
        digits_end(s, pos + 1)
    } else {
        pos
    }
}

/// Executable form of [`skip_spaces`].
pub fn scan_spaces(s: &[u8], pos: usize) -> (r: usize)
    requires
        pos <= s@.len(),
    ensures
        r == skip_spaces(s@, pos as int),
        pos <= r <= s@.len(),
{
    let mut i: usize = pos;
    while i < s.len() && (s[i] == 32 || s[i] == 9 || s[i] == 10 || s[i] == 13)
        invariant
            pos <= i <= s@.len(),
            skip_spaces(s@, pos as int) == skip_spaces(s@, i as int),
        decreases s@.len() - i,
    {
        i += 1;
    }
    i
}

/// Executable form of [`digits_end`].
pub fn scan_digits(s: &[u8], pos: usize) -> (r: usize)
    requires
        pos <= s@.len(),
    ensures
        r == digits_end(s@, pos as int),
        pos <= r <= s@.len(),
        all_digits(s@.subrange(pos as int, r as int)),
{
    let mut i: usize = pos;
    while i < s.len() && 48 <= s[i] && s[i] <= 57
        invariant
            pos <= i <= s@.len(),
            digits_end(s@, pos as int) == digits_end(s@, i as int),
            all_digits(s@.subrange(pos as int, i as int)),
        decreases s@.len() - i,
    {
        i += 1;
    }
    i
}

/// Whether an integer is a Unicode scalar value.
pub open spec fn is_scalar(v: int) -> bool {
    0 <= v < 0xD800 || 0xE000 <= v <= 0x10FFFF
}

/// The UTF-8 encoding of a scalar value.
pub open spec fn utf8_encode(v: int) -> Seq<u8>
    recommends
        is_scalar(v),
{
    if v < 0x80 {
        seq![v as u8]
    } else if v < 0x800 {
        seq![(0xC0 + v / 64) as u8, (0x80 + v % 64) as u8]
    } else if v < 0x10000 {
        seq![(0xE0 + v / 4096) as u8, (0x80 + (v / 64) % 64) as u8, (0x80 + v % 64) as u8]
    } else {
        seq![
            (0xF0 + v / 262144) as u8,
            (0x80 + (v / 4096) % 64) as u8,
            (0x80 + (v / 64) % 64) as u8,
            (0x80 + v % 64) as u8,
        ]
    }
}

/// Whether a byte continues a multi-byte UTF-8 sequence.
pub open spec fn is_cont(b: u8) -> bool {
    0x80 <= b < 0xC0
}

/// The scalar value encoded at `pos`, with the number of bytes it takes;
/// `None` when the bytes there are not the shortest encoding of a scalar.
pub open spec fn utf8_decode(s: Seq<u8>, pos: int) -> Option<(int, int)>
    recommends
        0 <= pos < s.len(),
{
    let b0 = s[pos] as int;
    let n = s.len() - pos;
    if b0 < 0x80 {
        Some((b0, 1))
    } else if b0 < 0xC0 {
        None
    } else if b0 < 0xE0 {
        if n >= 2 && is_cont(s[pos + 1]) {
            let v = (b0 - 0xC0) * 64 + (s[pos + 1] - 0x80);
            if v >= 0x80 {
                Some((v, 2))
            } else {
                None
            }
        } else {
            None
        }
    } else if b0 < 0xF0 {
        if n >= 3 && is_cont(s[pos + 1]) && is_cont(s[pos + 2]) {
            let v = (b0 - 0xE0) * 4096 + (s[pos + 1] - 0x80) * 64 + (s[pos + 2] - 0x80);
            if v >= 0x800 && is_scalar(v) {
                Some((v, 3))
            } else {
                None
            }
        } else {
            None
        }
    } else if b0 < 0xF8 {
        if n >= 4 && is_cont(s[pos + 1]) && is_cont(s[pos + 2]) && is_cont(s[pos + 3]) {
            let v = (b0 - 0xF0) * 262144 + (s[pos + 1] - 0x80) * 4096 + (s[pos + 2] - 0x80) * 64
                + (s[pos + 3] - 0x80);
            if 0x10000 <= v <= 0x10FFFF {
                Some((v, 4))
            } else {
                None
            }
        } else {
            None
        }
    } else {
        None
    }
}

/// The parts of a scalar that two bytes hold.
proof fn lemma_parts_2(u: u32)
    by (bit_vector)
    requires
        0x80 <= u < 0x800,
    ensures
        2 <= u / 64 < 32,
        u % 64 < 64,
        (u / 64) * 64 + u % 64 == u,
{
}

/// The parts of a scalar that three bytes hold.
proof fn lemma_parts_3(u: u32)
    by (bit_vector)
    requires
        0x800 <= u < 0x10000,
    ensures
        u / 4096 < 16,
        (u / 64) % 64 < 64,
        u % 64 < 64,
        (u / 4096) * 4096 + ((u / 64) % 64) * 64 + u % 64 == u,
{
}

/// The parts of a scalar that four bytes hold.
proof fn lemma_parts_4(u: u32)
    by (bit_vector)
    requires
        0x10000 <= u <= 0x10FFFF,
    ensures
        u / 262144 < 5,
        (u / 4096) % 64 < 64,
        (u / 64) % 64 < 64,
        u % 64 < 64,
        (u / 262144) * 262144 + ((u / 4096) % 64) * 4096 + ((u / 64) % 64) * 64 + u % 64 == u,
{
}

/// Decoding the encoding of a scalar gives the scalar and its width.
pub proof fn lemma_utf8_round_trip(v: int)
    requires
        is_scalar(v),
    ensures
        utf8_decode(utf8_encode(v), 0) == Some((v, utf8_encode(v).len() as int)),
{
    let s = utf8_encode(v);
    let u = v as u32;
    if v < 0x80 {
        assert(s[0] == v);
    } else if v < 0x800 {
        lemma_parts_2(u);
        let a = (u / 64) as int;
        let b = (u % 64) as int;
        assert(a == v / 64 && b == v % 64);
        assert(s[0] == 0xC0 + a && s[1] == 0x80 + b);
        assert((s[0] - 0xC0) * 64 + (s[1] - 0x80) == v);
    } else if v < 0x10000 {
        lemma_parts_3(u);
        let a = (u / 4096) as int;
        let b = ((u / 64) % 64) as int;
        let c = (u % 64) as int;
        assert(a == v / 4096 && b == (v / 64) % 64 && c == v % 64);
        assert(s[0] == 0xE0 + a && s[1] == 0x80 + b && s[2] == 0x80 + c);
        assert((s[0] - 0xE0) * 4096 + (s[1] - 0x80) * 64 + (s[2] - 0x80) == v);
    } else {
        lemma_parts_4(u);
        let a = (u / 262144) as int;
        let b = ((u / 4096) % 64) as int;
        let c = ((u / 64) % 64) as int;
        let d = (u % 64) as int;
        assert(a == v / 262144 && b == (v / 4096) % 64 && c == (v / 64) % 64 && d == v % 64);
        assert(s[0] == 0xF0 + a && s[1] == 0x80 + b && s[2] == 0x80 + c && s[3] == 0x80 + d);
        assert((s[0] - 0xF0) * 262144 + (s[1] - 0x80) * 4096 + (s[2] - 0x80) * 64 + (s[3] - 0x80)
            == v);
    }
}

/// Executable test of [`is_cont`].
fn cont(b: u8) -> (r: bool)
    ensures
        r == is_cont(b),
{
    0x80 <= b && b < 0xC0
}

/// Decodes the scalar value at `pos`.
pub fn decode_scalar(s: &[u8], pos: usize) -> (r: Option<(u32, usize)>)
    requires
        pos < s@.len(),
    ensures
        match r {
            Some((v, w)) => utf8_decode(s@, pos as int) == Some((v as int, w as int)) && pos + w
                <= s@.len() && is_scalar(v as int) && 1 <= w <= 4,
            None => utf8_decode(s@, pos as int) is None,
        },
{
    let b0: u32 = s[pos] as u32;
    let n: usize = s.len() - pos;
    if b0 < 0x80 {
        Some((b0, 1))
    } else if b0 < 0xC0 {
        None
    } else if b0 < 0xE0 {
        if n >= 2 && cont(s[pos + 1]) {
            let v: u32 = (b0 - 0xC0) * 64 + (s[pos + 1] as u32 - 0x80);
            if v >= 0x80 {
                Some((v, 2))
            } else {
                None
            }
        } else {
            None
        }
    } else if b0 < 0xF0 {
        if n >= 3 && cont(s[pos + 1]) && cont(s[pos + 2]) {
            let v: u32 = (b0 - 0xE0) * 4096 + (s[pos + 1] as u32 - 0x80) * 64 + (s[pos + 2] as u32
                - 0x80);
            if v >= 0x800 && (v < 0xD800 || v >= 0xE000) {
                Some((v, 3))
            } else {
                None
            }
        } else {
            None
        }
    } else if b0 < 0xF8 {
        if n >= 4 && cont(s[pos + 1]) && cont(s[pos + 2]) && cont(s[pos + 3]) {
            let v: u32 = (b0 - 0xF0) * 262144 + (s[pos + 1] as u32 - 0x80) * 4096 + (s[pos
                + 2] as u32 - 0x80) * 64 + (s[pos + 3] as u32 - 0x80);
            if 0x10000 <= v && v <= 0x10FFFF {
                Some((v, 4))
            } else {
                None
            }
        } else {
            None
        }
    } else {
        None
    }
}

/// Appends the UTF-8 encoding of a scalar value to `out`.
pub fn write_scalar(v: u32, out: &mut Vec<u8>)
    requires
        is_scalar(v as int),
    ensures
        final(out)@ == old(out)@ + utf8_encode(v as int),
{
    if v < 0x80 {
        out.push(v as u8);
    } else if v < 0x800 {
        out.push((0xC0 + v / 64) as u8);
        out.push((0x80 + v % 64) as u8);
    } else if v < 0x10000 {
        out.push((0xE0 + v / 4096) as u8);
        out.push((0x80 + (v / 64) % 64) as u8);
        out.push((0x80 + v % 64) as u8);
    } else {
        out.push((0xF0 + v / 262144) as u8);
        out.push((0x80 + (v / 4096) % 64) as u8);
        out.push((0x80 + (v / 64) % 64) as u8);
        out.push((0x80 + v % 64) as u8);
    }
    assert(final(out)@ =~= old(out)@ + utf8_encode(v as int));
}

} // verus!
