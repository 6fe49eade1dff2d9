//! Byte-level codec: the fixed bijection between the 256 byte values and the
//! base token ids `0..256`, together with the printable character that stands
//! for each base token in the vocabulary, and a UTF-8 encoder used to spell
//! those characters out as bytes.
//!
//! Bytes in the printable ranges `0x21..=0x7E`, `0xA1..=0xAC` and
//! `0xAE..=0xFF` receive the ids `0..188` in ascending byte order and are
//! represented by their own character; the remaining 68 bytes receive the
//! ids `188..256` in ascending byte order and are represented by the
//! characters `0x100..0x144`.

use vstd::prelude::*;
use vstd::utf8::*;

verus! {

/// The base token id assigned to a byte of input text.
pub open spec fn spec_byte_token(b: u8) -> u16 {
    if 0x21 <= b && b <= 0x7e {
        (b - 0x21) as u16
    } else if 0xa1 <= b && b <= 0xac {
        (94 + (b - 0xa1)) as u16
    } else if 0xae <= b {
        (106 + (b - 0xae)) as u16
    } else if b <= 0x20 {
        (188 + b) as u16
    } else if b == 0x7f {
        221u16
    } else if 0x80 <= b && b <= 0xa0 {
        (222 + (b - 0x80)) as u16
    } else {
        255u16
    }
}

/// The base token id of a byte; every byte has one, so tokenization is
/// total over arbitrary input bytes.
pub fn byte_token(b: u8) -> (t: u16)
    ensures
        t == spec_byte_token(b),
        t < 256,
{
    if 0x21 <= b && b <= 0x7e {
        (b as u16) - 0x21
    } else if 0xa1 <= b && b <= 0xac {
        94 + ((b as u16) - 0xa1)
    } else if 0xae <= b {
        106 + ((b as u16) - 0xae)
    } else if b <= 0x20 {
        188 + (b as u16)
    } else if b == 0x7f {
        221
    } else if 0x80 <= b && b <= 0xa0 {
        222 + ((b as u16) - 0x80)
    } else {
        255
    }
}

/// The base token id map is injective: distinct bytes get distinct ids.
pub proof fn lemma_byte_token_injective(a: u8, b: u8)
    requires
        a != b,
    ensures
        spec_byte_token(a) != spec_byte_token(b),
{
}

/// The Unicode scalar of the character that spells the base token `t` in
/// the vocabulary.
pub open spec fn spec_token_char(t: u16) -> u32
    recommends
        t < 256,
{
    if t < 94 {
        (0x21 + t) as u32
    } else if t < 106 {
        (0xa1 + (t - 94)) as u32
    } else if t < 188 {
        (0xae + (t - 106)) as u32
    } else {
        (0x100 + (t - 188)) as u32
    }
}

/// The character code that spells base token `t`.
pub fn token_char(t: u16) -> (c: u32)
    requires
        t < 256,
    ensures
        c == spec_token_char(t),
        is_scalar(c),
{
    if t < 94 {
        0x21 + (t as u32)
    } else if t < 106 {
        0xa1 + ((t as u32) - 94)
    } else if t < 188 {
        0xae + ((t as u32) - 106)
    } else {
        0x100 + ((t as u32) - 188)
    }
}

/// Appends the UTF-8 encoding of the scalar `c` to `out`.
pub fn push_scalar_bytes(out: &mut Vec<u8>, c: u32)
    requires
        is_scalar(c),
    ensures
        final(out)@ == old(out)@ + encode_scalar(c),
{
    if c <= 0x7f {
        let b0: u8 = #[verifier::truncate] ((c & 0x7f) as u8);
        out.push(b0);
        assert(out@ =~= old(out)@ + encode_scalar(c));
    } else if c <= 0x7ff {
        let b0: u8 = 0xc0 | #[verifier::truncate] (((c >> 6) & 0x1f) as u8);
        let b1: u8 = 0x80 | #[verifier::truncate] ((c & 0x3f) as u8);
        assert(b0 == leading_byte_width_2(c));
        assert(b1 == last_continuation_byte(c));
        out.push(b0);
        out.push(b1);
        assert(out@ =~= old(out)@ + encode_scalar(c));
    } else if c <= 0xffff {
        let b0: u8 = 0xe0 | #[verifier::truncate] (((c >> 12) & 0x0f) as u8);
        let b1: u8 = 0x80 | #[verifier::truncate] (((c >> 6) & 0x3f) as u8);
        let b2: u8 = 0x80 | #[verifier::truncate] ((c & 0x3f) as u8);
        assert(b0 == leading_byte_width_3(c));
        assert(b1 == second_last_continuation_byte(c));
        assert(b2 == last_continuation_byte(c));
        out.push(b0);
        out.push(b1);
        out.push(b2);
        assert(out@ =~= old(out)@ + encode_scalar(c));
    } else {
        let b0: u8 = 0xf0 | #[verifier::truncate] (((c >> 18) & 0x7) as u8);
        let b1: u8 = 0x80 | #[verifier::truncate] (((c >> 12) & 0x3f) as u8);
        let b2: u8 = 0x80 | #[verifier::truncate] (((c >> 6) & 0x3f) as u8);
        let b3: u8 = 0x80 | #[verifier::truncate] ((c & 0x3f) as u8);
        assert(b0 == leading_byte_width_4(c));
        assert(b1 == third_last_continuation_byte(c));
        assert(b2 == second_last_continuation_byte(c));
        assert(b3 == last_continuation_byte(c));
        out.push(b0);
        out.push(b1);
        out.push(b2);
        out.push(b3);
        assert(out@ =~= old(out)@ + encode_scalar(c));
    }
}

/// The UTF-8 bytes of a character sequence split at any point into the
/// encodings of the two halves.
pub proof fn lemma_encode_utf8_concat(a: Seq<char>, b: Seq<char>)
    ensures
        encode_utf8(a + b) == encode_utf8(a) + encode_utf8(b),
    decreases a.len(),
{
    if a.len() == 0 {
        assert(a + b =~= b);
        assert(encode_utf8(a) + encode_utf8(b) =~= encode_utf8(b));
    } else {
        lemma_encode_utf8_concat(a.drop_first(), b);
        assert((a + b).drop_first() =~= a.drop_first() + b);
        assert(encode_utf8(a + b) =~= encode_utf8(a) + encode_utf8(b));
    }
}


/// Distinct base tokens are spelled by distinct characters.
pub proof fn lemma_token_char_injective(t1: u16, t2: u16)
    requires
        t1 < 256,
        t2 < 256,
        t1 != t2,
    ensures
        spec_token_char(t1) != spec_token_char(t2),
{
}

/// On the one- and two-byte range, UTF-8 encoding is injective.
pub proof fn lemma_encode_scalar_injective(c1: u32, c2: u32)
    requires
        c1 <= 0x7ff,
        c2 <= 0x7ff,
        encode_scalar(c1) == encode_scalar(c2),
    ensures
        c1 == c2,
{
    if c1 <= 0x7f && c2 <= 0x7f {
        assert(encode_scalar(c1)[0] == leading_byte_width_1(c1));
        assert(encode_scalar(c2)[0] == leading_byte_width_1(c2));
        assert(c1 <= 0x7f && c2 <= 0x7f && ((c1 & 0x7f) as u8) == ((c2 & 0x7f) as u8) ==> c1
            == c2) by (bit_vector);
    } else if c1 > 0x7f && c2 > 0x7f {
        assert(encode_scalar(c1)[0] == leading_byte_width_2(c1) && encode_scalar(c1)[1]
            == last_continuation_byte(c1));
        assert(encode_scalar(c2)[0] == leading_byte_width_2(c2) && encode_scalar(c2)[1]
            == last_continuation_byte(c2));
        assert((0x80 <= c1 <= 0x7ff && 0x80 <= c2 <= 0x7ff && (0xc0 | (((c1 >> 6)
            & 0x1f) as u8)) == (0xc0 | (((c2 >> 6) & 0x1f) as u8)) && (0x80 | ((c1
            & 0x3f) as u8)) == (0x80 | ((c2 & 0x3f) as u8))) ==> c1 == c2) by (bit_vector);
    } else if c1 <= 0x7f {
        assert(encode_scalar(c1) == seq![leading_byte_width_1(c1)]);
        assert(encode_scalar(c2) == seq![leading_byte_width_2(c2), last_continuation_byte(c2)]);
        assert(encode_scalar(c1).len() != encode_scalar(c2).len());
    } else {
        assert(encode_scalar(c1) == seq![leading_byte_width_2(c1), last_continuation_byte(c1)]);
        assert(encode_scalar(c2) == seq![leading_byte_width_1(c2)]);
        assert(encode_scalar(c1).len() != encode_scalar(c2).len());
    }
}

} // verus!
