//! Vocabulary table: the association between subword byte strings and
//! token ids, held as an ordered list of entries. The first 512 entries
//! are fixed: for every base token, the UTF-8 spelling of its codec
//! character, and the same spelling with the end-of-word suffix `</w>`
//! at id base + 256. Merged subwords are appended by the loader.

use vstd::prelude::*;
use vstd::utf8::*;
use crate::codec;

verus! {

/// A vocabulary entry at the specification level: subword bytes and id.
pub type SpecEntry = (Seq<u8>, u16);

/// The byte spelling of the end-of-word suffix `</w>`.
pub open spec fn eow_bytes() -> Seq<u8> {
    seq![60u8, 47u8, 119u8, 62u8]
}

/// The subword spelling of base token `t`: the UTF-8 bytes of its codec
/// character.
pub open spec fn base_word(t: int) -> Seq<u8> {
    encode_scalar(codec::spec_token_char(t as u16))
}

/// The fixed base entries for tokens `t..256`, two per token: the plain
/// spelling at id `t` and the end-of-word spelling at id `t + 256`.
pub open spec fn base_entries_from(t: int) -> Seq<SpecEntry>
    decreases 256 - t when t >= 0
{
    if t >= 256 {
        Seq::empty()
    } else {
        seq![(base_word(t), t as u16), (base_word(t) + eow_bytes(), (t + 256) as u16)]
            + base_entries_from(t + 1)
    }
}

/// All 512 fixed base entries of the vocabulary.
pub open spec fn base_entries() -> Seq<SpecEntry> {
    base_entries_from(0)
}

/// The id of the first entry whose subword equals `w`, if any.
pub open spec fn spec_lookup(entries: Seq<SpecEntry>, w: Seq<u8>) -> Option<u16>
    decreases entries.len(),
{
    if entries.len() == 0 {
        None
    } else if entries[0].0 == w {
        Some(entries[0].1)
    } else {
        spec_lookup(entries.drop_first(), w)
    }
}

/// Whether two byte vectors hold the same bytes.
fn bytes_eq(a: &Vec<u8>, b: &Vec<u8>) -> (r: bool)
    ensures
        r == (a@ == b@),
{
    if a.len() != b.len() {
        assert(a@ != b@);
        return false;
    }
    let mut i: usize = 0;
    while i < a.len()
        invariant
            i <= a.len(),
            a@.len() == b@.len(),
            forall|k: int| 0 <= k < i ==> a@[k] == b@[k],
        decreases a.len() - i,
    {
        if a[i] != b[i] {
            return false;
        }
        i = i + 1;
    }
    assert(a@ =~= b@);
    true
}

/// The vocabulary table: subword byte strings and their ids, in insertion
/// order.
pub struct Vocab {
    pub entries: Vec<(Vec<u8>, u16)>,
}

impl View for Vocab {
    type V = Seq<SpecEntry>;

    open spec fn view(&self) -> Seq<SpecEntry> {
        self.entries@.map_values(|e: (Vec<u8>, u16)| (e.0@, e.1))
    }
}

impl Vocab {
    /// An empty table.
    pub fn new() -> (r: Vocab)
        ensures
            r@ == Seq::<SpecEntry>::empty(),
    {
        let v = Vocab { entries: Vec::new() };
        assert(v@ =~= Seq::<SpecEntry>::empty());
        v
    }

    /// The id of the first entry spelling `w`, if any.
    pub fn lookup(&self, w: &Vec<u8>) -> (r: Option<u16>)
        ensures
            r == spec_lookup(self@, w@),
    {
        let mut i: usize = 0;
        assert(self@.skip(0) =~= self@);
        while i < self.entries.len()
            invariant
                i <= self.entries.len(),
                spec_lookup(self@, w@) == spec_lookup(self@.skip(i as int), w@),
            decreases self.entries.len() - i,
        {
            assert(self@.skip(i as int)[0] == self@[i as int]);
            assert(self@.skip(i as int).drop_first() =~= self@.skip(i + 1));
            if bytes_eq(&self.entries[i].0, w) {
                return Some(self.entries[i].1);
            }
            i = i + 1;
        }
        assert(self@.skip(self.entries.len() as int) =~= Seq::<SpecEntry>::empty());
        None
    }

    /// Appends an entry.
    pub fn push(&mut self, w: Vec<u8>, id: u16)
        ensures
            final(self)@ == old(self)@.push((w@, id)),
    {
        self.entries.push((w, id));
        assert(self@ =~= old(self)@.push((w@, id)));
    }
}

/// Builds the 512 fixed base entries.
pub fn build_base_vocab() -> (r: Vocab)
    ensures
        r@ == base_entries(),
{
    let mut v = Vocab::new();
    let mut t: usize = 0;
    while t < 256
        invariant
            t <= 256,
            base_entries() == v@ + base_entries_from(t as int),
        decreases 256 - t,
    {
        let c = codec::token_char(t as u16);
        let mut w: Vec<u8> = Vec::new();
        codec::push_scalar_bytes(&mut w, c);
        let mut we: Vec<u8> = Vec::new();
        codec::push_scalar_bytes(&mut we, c);
        we.push(60);
        we.push(47);
        we.push(119);
        we.push(62);
        assert(we@ =~= base_word(t as int) + eow_bytes());
        v.push(w, t as u16);
        v.push(we, (t + 256) as u16);
        assert(v@ =~= (v@.take(v@.len() - 2) + seq![(base_word(t as int), t as u16)]) + seq![
            (base_word(t as int) + eow_bytes(), (t + 256) as u16),
        ]);
        t = t + 1;
    }
    assert(base_entries_from(256) =~= Seq::<SpecEntry>::empty());
    assert(v@ =~= base_entries());
    v
}


/// The id that the entry at index `j` of a loaded vocabulary carries: the
/// base entries interleave each token with its end-of-word variant, and
/// every merged entry's id equals its index.
pub open spec fn entry_id(j: int) -> u16 {
    if j < 512 {
        if j % 2 == 0 {
            (j / 2) as u16
        } else {
            (256 + (j - 1) / 2) as u16
        }
    } else {
        j as u16
    }
}

/// The ids of the base entries follow the interleaving of `entry_id`,
/// shifted by the starting token.
pub proof fn lemma_base_entries_ids(t: int)
    requires
        0 <= t <= 256,
    ensures
        base_entries_from(t).len() == 2 * (256 - t),
        forall|j: int|
            0 <= j < base_entries_from(t).len() ==> (#[trigger] base_entries_from(t)[j]).1 == (
            if j % 2 == 0 {
                (t + j / 2) as u16
            } else {
                (256 + t + (j - 1) / 2) as u16
            }),
    decreases 256 - t,
{
    if t < 256 {
        lemma_base_entries_ids(t + 1);
        assert forall|j: int| 0 <= j < base_entries_from(t).len() implies (
        #[trigger] base_entries_from(t)[j]).1 == (if j % 2 == 0 {
            (t + j / 2) as u16
        } else {
            (256 + t + (j - 1) / 2) as u16
        }) by {
            if j >= 2 {
                assert(base_entries_from(t)[j] == base_entries_from(t + 1)[j - 2]);
            }
        }
    }
}

/// When a word is not found, it differs from every entry's spelling.
pub proof fn lemma_lookup_none_all_differ(entries: Seq<SpecEntry>, w: Seq<u8>)
    requires
        spec_lookup(entries, w) is None,
    ensures
        forall|j: int| 0 <= j < entries.len() ==> (#[trigger] entries[j]).0 != w,
    decreases entries.len(),
{
    if entries.len() > 0 {
        lemma_lookup_none_all_differ(entries.drop_first(), w);
        assert forall|j: int| 0 <= j < entries.len() implies (#[trigger] entries[j]).0 != w by {
            if j > 0 {
                assert(entries[j] == entries.drop_first()[j - 1]);
            }
        }
    }
}


/// A base word is one or two bytes long.
pub proof fn lemma_base_word_len(t: int)
    requires
        0 <= t < 256,
    ensures
        1 <= base_word(t).len() <= 2,
{
    let c = codec::spec_token_char(t as u16);
    if c <= 0x7f {
        assert(encode_scalar(c) == seq![leading_byte_width_1(c)]);
    } else {
        assert(encode_scalar(c) == seq![leading_byte_width_2(c), last_continuation_byte(c)]);
    }
}

/// Distinct base tokens have distinct word spellings.
pub proof fn lemma_base_word_injective(t1: int, t2: int)
    requires
        0 <= t1 < 256,
        0 <= t2 < 256,
        t1 != t2,
    ensures
        base_word(t1) != base_word(t2),
{
    if base_word(t1) == base_word(t2) {
        codec::lemma_encode_scalar_injective(
            codec::spec_token_char(t1 as u16),
            codec::spec_token_char(t2 as u16),
        );
        codec::lemma_token_char_injective(t1 as u16, t2 as u16);
    }
}

/// The spellings of the base entries follow the interleaving of plain and
/// end-of-word words, shifted by the starting token.
pub proof fn lemma_base_entries_words(t: int)
    requires
        0 <= t <= 256,
    ensures
        forall|j: int|
            0 <= j < base_entries_from(t).len() ==> (#[trigger] base_entries_from(t)[j]).0 == (
            if j % 2 == 0 {
                base_word(t + j / 2)
            } else {
                base_word(t + (j - 1) / 2) + eow_bytes()
            }),
    decreases 256 - t,
{
    if t < 256 {
        lemma_base_entries_words(t + 1);
        assert forall|j: int| 0 <= j < base_entries_from(t).len() implies (
        #[trigger] base_entries_from(t)[j]).0 == (if j % 2 == 0 {
            base_word(t + j / 2)
        } else {
            base_word(t + (j - 1) / 2) + eow_bytes()
        }) by {
            if j >= 2 {
                assert(base_entries_from(t)[j] == base_entries_from(t + 1)[j - 2]);
            }
        }
    }
}

/// No two base entries share a spelling: plain words are injective,
/// end-of-word words are injective, and the two groups differ in length.
pub proof fn lemma_base_words_distinct()
    ensures
        forall|j1: int, j2: int|
            0 <= j1 < j2 < base_entries().len() ==> (#[trigger] base_entries()[j1]).0 != (
            #[trigger] base_entries()[j2]).0,
{
    lemma_base_entries_ids(0);
    lemma_base_entries_words(0);
    assert forall|j1: int, j2: int|
        0 <= j1 < j2 < base_entries().len() implies (#[trigger] base_entries()[j1]).0 != (
    #[trigger] base_entries()[j2]).0 by {
        vstd::arithmetic::div_mod::lemma_fundamental_div_mod(j1, 2);
        vstd::arithmetic::div_mod::lemma_fundamental_div_mod(j2, 2);
        let u1 = if j1 % 2 == 0 { j1 / 2 } else { (j1 - 1) / 2 };
        let u2 = if j2 % 2 == 0 { j2 / 2 } else { (j2 - 1) / 2 };
        lemma_base_word_len(u1);
        lemma_base_word_len(u2);
        if j1 % 2 == 0 && j2 % 2 == 0 {
            lemma_base_word_injective(u1, u2);
        } else if j1 % 2 != 0 && j2 % 2 != 0 {
            if u1 != u2 {
                lemma_base_word_injective(u1, u2);
                if base_word(u1) + eow_bytes() == base_word(u2) + eow_bytes() {
                    assert((base_word(u1) + eow_bytes()).len() == (base_word(u2)
                        + eow_bytes()).len());
                    assert(base_word(u1) =~= (base_word(u1) + eow_bytes()).subrange(
                        0,
                        base_word(u1).len() as int,
                    ));
                    assert(base_word(u2) =~= (base_word(u2) + eow_bytes()).subrange(
                        0,
                        base_word(u2).len() as int,
                    ));
                }
            }
        } else {
            assert((base_word(u1) + eow_bytes()).len() >= 5);
            assert((base_word(u2) + eow_bytes()).len() >= 5);
        }
    }
}

} // verus!
