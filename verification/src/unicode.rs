//! How this crate's arithmetic description of UTF-8 relates to the one
//! that `vstd` gives for `str` and `String`.

use crate::grid::decode_from;
use crate::text::{is_cont, is_scalar, lemma_utf8_round_trip, utf8_decode, utf8_encode};
use vstd::prelude::*;
use vstd::utf8::{decode_first_scalar, decode_utf8, encode_utf8, length_of_first_scalar, pop_first_scalar, valid_first_scalar, valid_utf8};

verus! {

/// The code points of a sequence of characters.
pub open spec fn code_points(chars: Seq<char>) -> Seq<u32> {
    chars.map_values(|c: char| c as u32)
}

/// The value of a one-byte sequence, by bits and by arithmetic.
proof fn lemma_bits_1(b0: u8)
    by (bit_vector)
    requires
        b0 < 0x80,
    ensures
        (b0 & 0x7F) as u32 == b0 as u32,
{
}

/// The value of a two-byte sequence, by bits and by arithmetic.
proof fn lemma_bits_2(b0: u8, b1: u8)
    by (bit_vector)
    requires
        0xC0 <= b0 <= 0xDF,
        0x80 <= b1 <= 0xBF,
    ensures
        (((b0 & 0x1F) as u32) << 6) | ((b1 & 0x3F) as u32) == (b0 as u32 - 0xC0) * 64 + (b1 as u32
            - 0x80),
        (b0 as u32 - 0xC0) * 64 + (b1 as u32 - 0x80) < 0x800,
{
}

/// The value of a three-byte sequence, by bits and by arithmetic.
proof fn lemma_bits_3(b0: u8, b1: u8, b2: u8)
    by (bit_vector)
    requires
        0xE0 <= b0 <= 0xEF,
        0x80 <= b1 <= 0xBF,
        0x80 <= b2 <= 0xBF,
    ensures
        (((b0 & 0x0F) as u32) << 12) | (((b1 & 0x3F) as u32) << 6) | ((b2 & 0x3F) as u32) == (
        b0 as u32 - 0xE0) * 4096 + (b1 as u32 - 0x80) * 64 + (b2 as u32 - 0x80),
        (b0 as u32 - 0xE0) * 4096 + (b1 as u32 - 0x80) * 64 + (b2 as u32 - 0x80) < 0x10000,
{
}

/// The value of a four-byte sequence, by bits and by arithmetic.
proof fn lemma_bits_4(b0: u8, b1: u8, b2: u8, b3: u8)
    by (bit_vector)
    requires
        0xF0 <= b0 <= 0xF7,
        0x80 <= b1 <= 0xBF,
        0x80 <= b2 <= 0xBF,
        0x80 <= b3 <= 0xBF,
    ensures
        (((b0 & 0x07) as u32) << 18) | (((b1 & 0x3F) as u32) << 12) | (((b2 & 0x3F) as u32) << 6) | (
        (b3 & 0x3F) as u32) == (b0 as u32 - 0xF0) * 262144 + (b1 as u32 - 0x80) * 4096 + (b2 as u32
            - 0x80) * 64 + (b3 as u32 - 0x80),
        (b0 as u32 - 0xF0) * 262144 + (b1 as u32 - 0x80) * 4096 + (b2 as u32 - 0x80) * 64 + (
        b3 as u32 - 0x80) < 0x200000,
{
}

/// The two descriptions agree on the first scalar of a byte sequence:
/// whether there is one, which it is, and how many bytes it takes.
pub proof fn lemma_first_scalar(b: Seq<u8>)
    requires
        b.len() > 0,
    ensures
        valid_first_scalar(b) <==> utf8_decode(b, 0) is Some,
        valid_first_scalar(b) ==> utf8_decode(b, 0) == Some(
            (decode_first_scalar(b) as int, length_of_first_scalar(b)),
        ),
{
    let b0 = b[0];
    if b0 < 0x80 {
        lemma_bits_1(b0);
    } else if b0 < 0xC0 {
    } else if b0 < 0xE0 {
        if b.len() >= 2 && is_cont(b[1]) {
            lemma_bits_2(b0, b[1]);
        }
    } else if b0 < 0xF0 {
        if b.len() >= 3 && is_cont(b[1]) && is_cont(b[2]) {
            lemma_bits_3(b0, b[1], b[2]);
        }
    } else if b0 < 0xF8 {
        if b.len() >= 4 && is_cont(b[1]) && is_cont(b[2]) && is_cont(b[3]) {
            lemma_bits_4(b0, b[1], b[2], b[3]);
        }
    } else {
    }
}

/// Decoding at a position sees only the bytes from that position on.
pub proof fn lemma_decode_suffix(s: Seq<u8>, pos: int)
    requires
        0 <= pos < s.len(),
    ensures
        utf8_decode(s, pos) == utf8_decode(s.subrange(pos, s.len() as int), 0),
{
    let t = s.subrange(pos, s.len() as int);
    assert(t[0] == s[pos]);
    if t.len() >= 2 {
        assert(t[1] == s[pos + 1]);
    }
    if t.len() >= 3 {
        assert(t[2] == s[pos + 2]);
    }
    if t.len() >= 4 {
        assert(t[3] == s[pos + 3]);
    }
}

/// The two descriptions agree on a whole text: the bytes from `pos` on
/// are valid UTF-8 exactly when they decode, and then to the same
/// characters.
pub proof fn lemma_valid_decodes(s: Seq<u8>, pos: int)
    requires
        0 <= pos <= s.len(),
    ensures
        valid_utf8(s.subrange(pos, s.len() as int)) <==> decode_from(s, pos) is Ok,
        valid_utf8(s.subrange(pos, s.len() as int)) ==> decode_from(s, pos) == Ok::<
            Seq<u32>,
            usize,
        >(code_points(decode_utf8(s.subrange(pos, s.len() as int)))),
    decreases s.len() - pos,
{
    let t = s.subrange(pos, s.len() as int);
    if pos == s.len() {
        assert(t.len() == 0);
        assert(code_points(decode_utf8(t)) =~= Seq::<u32>::empty());
    } else {
        lemma_first_scalar(t);
        lemma_decode_suffix(s, pos);
        if valid_first_scalar(t) {
            let w = length_of_first_scalar(t);
            let v = decode_first_scalar(t);
            assert(1 <= w <= 4 && pos + w <= s.len());
            lemma_valid_decodes(s, pos + w);
            assert(pop_first_scalar(t) =~= s.subrange(pos + w, s.len() as int));
            if valid_utf8(t) {
                let rest = decode_utf8(pop_first_scalar(t));
                assert(decode_utf8(t) == seq![v as char] + rest);
                assert(is_scalar(v as int));
                assert((v as char) as u32 == v);
                assert(code_points(seq![v as char] + rest) =~= seq![v] + code_points(rest));
            }
        }
    }
}

/// The UTF-8 encoding of a sequence of characters decodes to the code
/// points of those characters.
pub proof fn lemma_decode_str(chars: Seq<char>)
    ensures
        decode_from(encode_utf8(chars), 0) == Ok::<Seq<u32>, usize>(code_points(chars)),
{
    let s = encode_utf8(chars);
    vstd::utf8::encode_utf8_valid_utf8(chars);
    vstd::utf8::encode_utf8_decode_utf8(chars);
    assert(s.subrange(0, s.len() as int) =~= s);
    lemma_valid_decodes(s, 0);
}

/// Whether every byte is an ASCII character.
pub open spec fn ascii(s: Seq<u8>) -> bool {
    forall|i: int| 0 <= i < s.len() ==> #[trigger] s[i] < 128
}

/// ASCII text is valid UTF-8.
pub proof fn lemma_ascii_valid(s: Seq<u8>)
    requires
        ascii(s),
    ensures
        valid_utf8(s),
    decreases s.len(),
{
    if s.len() > 0 {
        assert(s[0] < 128);
        lemma_first_scalar(s);
        let rest = pop_first_scalar(s);
        assert forall|i: int| 0 <= i < rest.len() implies #[trigger] rest[i] < 128 by {
            assert(rest[i] == s[i + 1]);
        }
        lemma_ascii_valid(rest);
    }
}

/// The encoding of a scalar value is valid UTF-8.
pub proof fn lemma_scalar_valid(v: int)
    requires
        is_scalar(v),
    ensures
        valid_utf8(utf8_encode(v)),
{
    let t = utf8_encode(v);
    lemma_utf8_round_trip(v);
    assert(1 <= t.len() <= 4);
    lemma_first_scalar(t);
    assert(valid_first_scalar(t));
    assert(length_of_first_scalar(t) == t.len());
    let rest = pop_first_scalar(t);
    assert(rest.len() == 0);
    assert(valid_utf8(rest));
}

} // verus!
