//! Text primitives: the Unicode character classes that drive segmentation,
//! case folding, and the conversion of a pre-token's characters into the
//! base token ids of its UTF-8 bytes.

use vstd::prelude::*;
use vstd::utf8::*;
use crate::codec;
use vstd::std_specs::iter::IteratorSpec;

verus! {

broadcast use vstd::utf8::group_utf8_lib;

/// Whether a character counts as a letter for segmentation.
pub uninterp spec fn is_letter(c: char) -> bool;

/// Whether a character counts as a number for segmentation.
pub uninterp spec fn is_number(c: char) -> bool;

/// Whether a character counts as whitespace for segmentation.
pub uninterp spec fn is_space(c: char) -> bool;

/// The case-folded form of a character sequence.
pub uninterp spec fn lower_of(s: Seq<char>) -> Seq<char>;

/// Relies on char::is_alphabetic: whether the character has the Unicode
/// Alphabetic property, a function of the character alone.
pub assume_specification[ char::is_alphabetic ](c: char) -> (r: bool)
    ensures
        r == is_letter(c),
;

/// Relies on char::is_numeric: whether the character is in one of the
/// Unicode number categories, a function of the character alone.
pub assume_specification[ char::is_numeric ](c: char) -> (r: bool)
    ensures
        r == is_number(c),
;

/// Relies on char::is_whitespace: whether the character has the Unicode
/// White_Space property, a function of the character alone.
pub assume_specification[ char::is_whitespace ](c: char) -> (r: bool)
    ensures
        r == is_space(c),
;

/// Relies on str::to_lowercase: the result depends on the characters alone.
#[verifier::external_body]
pub fn lowercase(s: &str) -> (r: String)
    ensures
        r@ == lower_of(s@),
{
    s.to_lowercase()
}

/// Collects the characters of a string slice.
pub fn chars_vec(s: &str) -> (r: Vec<char>)
    ensures
        r@ == s@,
{
    let mut it = s.chars();
    let mut out: Vec<char> = Vec::new();
    loop
        invariant
            it.obeys_prophetic_iter_laws(),
            it.decrease() is Some,
            out@ + it.remaining() == s@,
        decreases it.decrease()->0,
    {
        match it.next() {
            Some(c) => {
                out.push(c);
                assert(out@ + it.remaining() =~= s@);
            },
            None => {
                assert(out@ =~= s@);
                return out;
            },
        }
    }
}

/// The base token ids of a byte sequence, one per byte.
pub open spec fn base_tokens(bs: Seq<u8>) -> Seq<u16> {
    bs.map(|i: int, b: u8| codec::spec_byte_token(b))
}

/// The initial token decomposition of a pre-token: one base token per UTF-8
/// byte of its characters, with the last token moved to its end-of-word
/// variant by adding 256.
pub open spec fn spec_word_tokens(w: Seq<char>) -> Seq<u16> {
    let base = base_tokens(encode_utf8(w));
    if base.len() == 0 {
        base
    } else {
        base.update(base.len() - 1, (base.last() + 256) as u16)
    }
}

/// Every token of a pre-token's decomposition is a base-vocabulary id,
/// that is, below 512.
pub proof fn lemma_word_tokens_bounded(w: Seq<char>)
    ensures
        forall|j: int|
            0 <= j < spec_word_tokens(w).len() ==> #[trigger] spec_word_tokens(w)[j] < 512,
{
}

/// A non-empty pre-token decomposes into at least one token.
pub proof fn lemma_word_tokens_nonempty(w: Seq<char>)
    requires
        w.len() > 0,
    ensures
        spec_word_tokens(w).len() > 0,
{
    assert(encode_utf8(w).len() > 0) by {
        assert(encode_utf8(w) == encode_scalar(w[0] as u32) + encode_utf8(w.drop_first()));
        char_is_scalar(w[0]);
    }
}

/// Computes the initial token decomposition of a pre-token.
pub fn word_tokens(w: &Vec<char>) -> (r: Vec<u16>)
    ensures
        r@ == spec_word_tokens(w@),
{
    let mut bytes: Vec<u8> = Vec::new();
    let mut i: usize = 0;
    while i < w.len()
        invariant
            i <= w.len(),
            bytes@ == encode_utf8(w@.take(i as int)),
        decreases w.len() - i,
    {
        let c = w[i];
        proof {
            char_is_scalar(c);
        }
        codec::push_scalar_bytes(&mut bytes, c as u32);
        proof {
            codec::lemma_encode_utf8_concat(w@.take(i as int), seq![c]);
            assert(w@.take(i + 1) =~= w@.take(i as int) + seq![c]);
            assert(encode_utf8(seq![c]) =~= encode_scalar(c as u32) + encode_utf8(
                seq![c].drop_first(),
            ));
            assert(encode_utf8(seq![c]) =~= encode_scalar(c as u32));
        }
        i = i + 1;
    }
    assert(w@.take(w@.len() as int) =~= w@);
    assert(bytes@ == encode_utf8(w@));
    let mut toks: Vec<u16> = Vec::new();
    let mut j: usize = 0;
    while j < bytes.len()
        invariant
            j <= bytes.len(),
            toks@ == base_tokens(bytes@.take(j as int)),
            forall|k: int| 0 <= k < toks@.len() ==> #[trigger] toks@[k] < 256,
        decreases bytes.len() - j,
    {
        let t = codec::byte_token(bytes[j]);
        toks.push(t);
        assert(toks@ =~= base_tokens(bytes@.take(j + 1)));
        j = j + 1;
    }
    assert(toks@ == base_tokens(bytes@));
    if toks.len() > 0 {
        let n = toks.len();
        let last = toks[n - 1];
        let _ = toks.pop();
        toks.push(last + 256);
        assert(toks@ =~= base_tokens(bytes@).update(
            base_tokens(bytes@).len() - 1,
            (base_tokens(bytes@).last() + 256) as u16,
        ));
    }
    toks
}

} // verus!
