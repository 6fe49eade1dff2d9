//! Tokenizer facade: owns the vocabulary table and the merge rank table,
//! and exposes `encode` and `count`. Loading parses the vocabulary data —
//! a header line followed by merge-pair lines — into the tables; encoding
//! case-folds the text, segments it into pre-tokens, fully merges each and
//! frames the ids with the start-of-text and end-of-text markers.

use vstd::prelude::*;
use std::collections::HashMap;
use crate::codec;
use crate::gzip;
use crate::lines;
use crate::merge;
use crate::segment;
use crate::text;
use crate::vocab;
use crate::vocab::SpecEntry;

verus! {

/// Why initialization failed. Loading is the only fallible operation:
/// encoding itself is total over every input text.
#[derive(Clone, Copy, Debug, PartialEq, Eq, Structural)]
pub enum InitError {
    /// The compressed resource is not a valid gzip stream.
    Decompress,
    /// The requested vocabulary size cannot hold the base alphabet and the
    /// two markers, or the data holds fewer merge lines than the size asks
    /// for.
    WrongSize,
    /// A merge line does not hold two words.
    MalformedLine,
    /// A merge line names a subword that is not in the vocabulary.
    UnknownWord,
    /// A merge pair, or the subword a merge produces, occurs twice.
    Collision,
}

/// The mathematical model of a loaded tokenizer: the vocabulary entries,
/// the merge rank table over packed pairs, and the two marker ids.
pub struct Model {
    pub vocab: Seq<SpecEntry>,
    pub rules: Map<u32, u16>,
    pub start: u16,
    pub end: u16,
}

/// Loads merge lines `k..n_end` of `ls`, growing the vocabulary and the
/// rank table; merged ids count up from `next`, and the two ids after the
/// last merged id become the markers.
pub open spec fn load_lines(
    ls: Seq<Seq<u8>>,
    k: int,
    n_end: int,
    voc: Seq<SpecEntry>,
    rules: Map<u32, u16>,
    next: u16,
) -> Result<Model, InitError>
    decreases n_end - k,
{
    if k >= n_end {
        Result::Ok(Model { vocab: voc, rules: rules, start: next, end: (next + 1) as u16 })
    } else {
        match lines::spec_two_words(ls[k]) {
            Option::None => Result::Err(InitError::MalformedLine),
            Option::Some(p) => match vocab::spec_lookup(voc, p.0) {
                Option::None => Result::Err(InitError::UnknownWord),
                Option::Some(t1) => match vocab::spec_lookup(voc, p.1) {
                    Option::None => Result::Err(InitError::UnknownWord),
                    Option::Some(t2) => {
                        if rules.dom().contains(merge::pack(t1, t2)) {
                            Result::Err(InitError::Collision)
                        } else if vocab::spec_lookup(voc, p.0 + p.1) is Some {
                            Result::Err(InitError::Collision)
                        } else {
                            load_lines(
                                ls,
                                k + 1,
                                n_end,
                                voc.push((p.0 + p.1, next)),
                                rules.insert(merge::pack(t1, t2), next),
                                (next + 1) as u16,
                            )
                        }
                    },
                },
            },
        }
    }
}

/// The model that loading the decompressed vocabulary data yields, or the
/// error: the data must hold a header line plus exactly enough merge lines
/// to reach `expected` vocabulary entries once the 512 base entries and
/// the two markers are counted.
pub open spec fn spec_load(data: Seq<u8>, expected: u16) -> Result<Model, InitError> {
    if expected < 514 {
        Result::Err(InitError::WrongSize)
    } else {
        let ls = lines::spec_lines(data);
        let n = expected - 514;
        if ls.len() < n + 1 {
            Result::Err(InitError::WrongSize)
        } else {
            load_lines(ls, 1, n + 1, vocab::base_entries(), Map::empty(), 512)
        }
    }
}

/// The ids a single pre-token resolves to: a marker word becomes its
/// marker id, any other word is fully merged from its base tokens.
pub open spec fn word_ids(m: Model, w: Seq<char>) -> Seq<u16> {
    if w == segment::sot_word() {
        seq![m.start]
    } else if w == segment::eot_word() {
        seq![m.end]
    } else {
        merge::bpe_merge(text::spec_word_tokens(w), m.rules)
    }
}

/// The concatenated ids of a sequence of pre-tokens.
pub open spec fn words_ids(m: Model, ws: Seq<Seq<char>>) -> Seq<u16>
    decreases ws.len(),
{
    if ws.len() == 0 {
        Seq::empty()
    } else {
        word_ids(m, ws[0]) + words_ids(m, ws.drop_first())
    }
}

/// The encoding of a case-folded text: its pre-tokens' ids, framed by the
/// start-of-text and end-of-text markers.
pub open spec fn spec_encode(m: Model, s: Seq<char>) -> Seq<u16> {
    seq![m.start] + words_ids(m, segment::spec_segment(s)) + seq![m.end]
}

/// Appending a pre-token appends its ids.
pub proof fn lemma_words_ids_snoc(m: Model, ws: Seq<Seq<char>>, w: Seq<char>)
    ensures
        words_ids(m, ws.push(w)) == words_ids(m, ws) + word_ids(m, w),
    decreases ws.len(),
{
    if ws.len() == 0 {
        assert(ws.push(w)[0] == w);
        assert(ws.push(w).drop_first() =~= Seq::<Seq<char>>::empty());
        assert(words_ids(m, ws.push(w)) == word_ids(m, ws.push(w)[0]) + words_ids(
            m,
            ws.push(w).drop_first(),
        ));
        assert(words_ids(m, Seq::<Seq<char>>::empty()) == Seq::<u16>::empty());
        assert(words_ids(m, ws.push(w)) =~= word_ids(m, w));
        assert(words_ids(m, ws) + word_ids(m, w) =~= word_ids(m, w));
    } else {
        lemma_words_ids_snoc(m, ws.drop_first(), w);
        assert(ws.push(w).drop_first() =~= ws.drop_first().push(w));
        assert(ws.push(w)[0] == ws[0]);
        assert(words_ids(m, ws.push(w)) =~= words_ids(m, ws) + word_ids(m, w));
    }
}

/// Whether two character vectors hold the same characters.
fn chars_eq(a: &Vec<char>, b: &Vec<char>) -> (r: bool)
    ensures
        r == (a@ == b@),
{
    if a.len() != b.len() {
        assert(a@ != b@);
        return false;
    }
    let mut i: usize = 0;
    while i < a.len()
        invariant
            i <= a.len(),
            a@.len() == b@.len(),
            forall|k: int| 0 <= k < i ==> a@[k] == b@[k],
        decreases a.len() - i,
    {
        if a[i] != b[i] {
            return false;
        }
        i = i + 1;
    }
    assert(a@ =~= b@);
    true
}

/// A loaded tokenizer: the vocabulary table, the merge rank table and the
/// two marker ids. Immutable once built, so every call on it is a pure
/// function of the tables and the input text.
pub struct Tokenizer {
    vocab: vocab::Vocab,
    rules: HashMap<u32, u16>,
    start_of_text: u16,
    end_of_text: u16,
}

impl View for Tokenizer {
    type V = Model;

    closed spec fn view(&self) -> Model {
        Model {
            vocab: self.vocab@,
            rules: self.rules@,
            start: self.start_of_text,
            end: self.end_of_text,
        }
    }
}

impl Tokenizer {
    /// Builds a tokenizer from decompressed vocabulary data: a header line
    /// followed by merge-pair lines, enough to reach exactly `expected`
    /// vocabulary entries counting the base alphabet and the two markers.
    pub fn with_vocabulary(data: &Vec<u8>, expected: u16) -> (r: Result<Tokenizer, InitError>)
        ensures
            match r {
                Ok(t) => spec_load(data@, expected) == Result::<Model, InitError>::Ok(t@),
                Err(e) => spec_load(data@, expected) == Result::<Model, InitError>::Err(e),
            },
    {
        if expected < 514 {
            return Err(InitError::WrongSize);
        }
        let ls = lines::split_lines(data);
        let n: usize = (expected - 514) as usize;
        if ls.len() < n + 1 {
            return Err(InitError::WrongSize);
        }
        let mut voc = vocab::build_base_vocab();
        let mut rules: HashMap<u32, u16> = HashMap::new();
        let mut next: u16 = 512;
        let mut k: usize = 1;
        while k < n + 1
            invariant
                1 <= k <= n + 1,
                n + 1 <= ls@.len(),
                n == expected - 514,
                expected >= 514,
                next == 512 + (k - 1),
                ls@.map_values(|l: Vec<u8>| l@) == lines::spec_lines(data@),
                spec_load(data@, expected) == load_lines(
                    lines::spec_lines(data@),
                    k as int,
                    n + 1,
                    voc@,
                    rules@,
                    next,
                ),
            decreases n + 1 - k,
        {
            let ghost sls = lines::spec_lines(data@);
            assert(ls@[k as int]@ == sls[k as int]);
            let two = lines::two_words(&ls[k]);
            match two {
                None => {
                    return Err(InitError::MalformedLine);
                },
                Some(pair) => {
                    let (w1, mut w2) = pair;
                    let t1o = voc.lookup(&w1);
                    let t2o = voc.lookup(&w2);
                    match t1o {
                        None => {
                            return Err(InitError::UnknownWord);
                        },
                        Some(t1) => {
                            match t2o {
                                None => {
                                    return Err(InitError::UnknownWord);
                                },
                                Some(t2) => {
                                    let key = merge::pack_pair(t1, t2);
                                    if rules.contains_key(&key) {
                                        return Err(InitError::Collision);
                                    }
                                    let ghost gw1 = w1@;
                                    let ghost gw2 = w2@;
                                    let mut cat = w1;
                                    cat.append(&mut w2);
                                    assert(cat@ == gw1 + gw2);
                                    let dup = voc.lookup(&cat);
                                    if dup.is_some() {
                                        return Err(InitError::Collision);
                                    }
                                    let ghost ovoc = voc@;
                                    let ghost orules = rules@;
                                    voc.push(cat, next);
                                    rules.insert(key, next);
                                    assert(voc@ == ovoc.push((gw1 + gw2, next)));
                                    assert(rules@ == orules.insert(merge::pack(t1, t2), next));
                                    next = next + 1;
                                    k = k + 1;
                                },
                            }
                        },
                    }
                },
            }
        }
        assert(load_lines(lines::spec_lines(data@), k as int, n + 1, voc@, rules@, next)
            == Result::<Model, InitError>::Ok(
            Model { vocab: voc@, rules: rules@, start: next, end: (next + 1) as u16 },
        ));
        let t = Tokenizer {
            vocab: voc,
            rules: rules,
            start_of_text: next,
            end_of_text: next + 1,
        };
        Ok(t)
    }

    /// Builds a tokenizer from the gzip-compressed vocabulary resource.
    pub fn from_gzip(data: &Vec<u8>, expected: u16) -> (r: Result<Tokenizer, InitError>)
        ensures
            match r {
                Ok(t) => gzip::gunzip_of(data@) is Some && spec_load(
                    gzip::gunzip_of(data@)->0,
                    expected,
                ) == Result::<Model, InitError>::Ok(t@),
                Err(e) => (e == InitError::Decompress && gzip::gunzip_of(data@) is None) || (
                gzip::gunzip_of(data@) is Some && spec_load(gzip::gunzip_of(data@)->0, expected)
                    == Result::<Model, InitError>::Err(e)),
            },
    {
        match gzip::gunzip(data) {
            None => Err(InitError::Decompress),
            Some(raw) => Tokenizer::with_vocabulary(&raw, expected),
        }
    }

    /// The id of the start-of-text marker.
    pub fn start_of_text(&self) -> (r: u32)
        ensures
            r == self@.start,
    {
        self.start_of_text as u32
    }

    /// The id of the end-of-text marker.
    pub fn end_of_text(&self) -> (r: u32)
        ensures
            r == self@.end,
    {
        self.end_of_text as u32
    }

    /// Encodes a text as token ids: the text is case-folded, segmented
    /// into pre-tokens, each pre-token fully merged against the rank
    /// table, and the whole framed by the start-of-text and end-of-text
    /// marker ids. Total: every text, of any length and content, yields
    /// its full untruncated id sequence.
    pub fn encode(&self, input: &str) -> (r: Vec<u32>)
        ensures
            r@ == spec_encode(self@, text::lower_of(input@)).map_values(|t: u16| t as u32),
    {
        let lowered = text::lowercase(input);
        let cs = text::chars_vec(lowered.as_str());
        let words = segment::segment(&cs);
        let ghost ws = segment::spec_segment(cs@);
        let sot = segment::sot_word_vec();
        let eot = segment::eot_word_vec();
        let mut ids: Vec<u16> = Vec::new();
        let mut i: usize = 0;
        while i < words.len()
            invariant
                i <= words@.len(),
                ws == segment::spec_segment(cs@),
                words@.map_values(|w: Vec<char>| w@) == ws,
                sot@ == segment::sot_word(),
                eot@ == segment::eot_word(),
                ids@ == words_ids(self@, ws.take(i as int)),
            decreases words@.len() - i,
        {
            assert(words@[i as int]@ == ws[i as int]);
            let w = &words[i];
            if chars_eq(w, &sot) {
                ids.push(self.start_of_text);
            } else if chars_eq(w, &eot) {
                ids.push(self.end_of_text);
            } else {
                let toks = text::word_tokens(w);
                let mut merged = merge::apply_merges(&self.rules, toks);
                ids.append(&mut merged);
            }
            proof {
                lemma_words_ids_snoc(self@, ws.take(i as int), ws[i as int]);
                assert(ws.take(i + 1) =~= ws.take(i as int).push(ws[i as int]));
            }
            i = i + 1;
        }
        assert(ws.take(ws.len() as int) =~= ws);
        let mut out: Vec<u32> = Vec::new();
        out.push(self.start_of_text as u32);
        let mut j: usize = 0;
        while j < ids.len()
            invariant
                j <= ids@.len(),
                out@ == (seq![self@.start] + ids@.take(j as int)).map_values(|t: u16| t as u32),
            decreases ids@.len() - j,
        {
            out.push(ids[j] as u32);
            assert(out@ =~= (seq![self@.start] + ids@.take(j + 1)).map_values(
                |t: u16| t as u32,
            ));
            j = j + 1;
        }
        out.push(self.end_of_text as u32);
        proof {
            assert(ids@.take(ids@.len() as int) =~= ids@);
            assert(out@ =~= spec_encode(self@, cs@).map_values(|t: u16| t as u32));
        }
        out
    }

    /// Counts the tokens `encode` yields for the text, markers included:
    /// exactly the length of the encoding whenever that length is
    /// representable, saturating at the largest 32-bit value beyond it.
    /// No context-window limit is applied here: texts far beyond any
    /// downstream limit are still counted in full.
    pub fn count(&self, input: &str) -> (r: u32)
        ensures
            spec_encode(self@, text::lower_of(input@)).len() < u32::MAX ==> r == spec_encode(
                self@,
                text::lower_of(input@),
            ).len(),
            spec_encode(self@, text::lower_of(input@)).len() >= u32::MAX ==> r == u32::MAX,
    {
        let v = self.encode(input);
        if v.len() >= 0xffff_ffff_usize {
            0xffff_ffff_u32
        } else {
            v.len() as u32
        }
    }
}

/// The encoding of every text, the empty one included, begins with the
/// start-of-text id and ends with the end-of-text id.
pub proof fn lemma_encode_framed(m: Model, s: Seq<char>)
    ensures
        spec_encode(m, s).len() >= 2,
        spec_encode(m, s).first() == m.start,
        spec_encode(m, s).last() == m.end,
{
    assert(spec_encode(m, s).last() == m.end);
}

/// Encoding is deterministic: tokenizers loaded to equal tables encode
/// every text to the same id sequence, however many instances exist.
pub proof fn lemma_encode_deterministic(m1: Model, m2: Model, s: Seq<char>)
    requires
        m1 == m2,
    ensures
        spec_encode(m1, s) == spec_encode(m2, s),
{
}

/// The empty text encodes to exactly the two marker ids.
pub proof fn lemma_encode_empty(m: Model)
    ensures
        spec_encode(m, Seq::<char>::empty()) == seq![m.start, m.end],
{
    assert(segment::spec_segment(Seq::<char>::empty()) =~= Seq::<Seq<char>>::empty());
    assert(spec_encode(m, Seq::<char>::empty()) =~= seq![m.start, m.end]);
}

/// In a three-token sequence where both adjacent pairs are mergeable, one
/// merge round applies the lower-ranked pair, not the other: ranks are
/// unique, so the choice is determined.
pub proof fn lemma_lowest_rank_merges_first(rules: Map<u32, u16>, a: u16, b: u16, c: u16)
    requires
        rules.dom().contains(merge::pack(a, b)),
        rules.dom().contains(merge::pack(b, c)),
        rules[merge::pack(a, b)] < rules[merge::pack(b, c)],
    ensures
        merge::best_merge(seq![a, b, c], rules) == Some(
            (a, b, rules[merge::pack(a, b)]),
        ),
        merge::merge_pass(seq![a, b, c], a, b, rules[merge::pack(a, b)]) == seq![
            rules[merge::pack(a, b)],
            c,
        ],
{
    let s = seq![a, b, c];
    assert(s[0] == a && s[1] == b && s[2] == c);
    assert(merge::best_from(s, rules, 2) is None);
    assert(merge::best_from(s, rules, 1) == Some((b, c, rules[merge::pack(b, c)])));
    assert(merge::best_from(s, rules, 0) == Some((a, b, rules[merge::pack(a, b)])));
    let r = rules[merge::pack(a, b)];
    assert(s.skip(2) =~= seq![c]);
    assert(seq![c].skip(1) =~= Seq::<u16>::empty());
    assert(merge::merge_pass(Seq::<u16>::empty(), a, b, r) == Seq::<u16>::empty());
    assert(merge::merge_pass(seq![c], a, b, r) == seq![seq![c][0]] + merge::merge_pass(
        seq![c].skip(1),
        a,
        b,
        r,
    ));
    assert(merge::merge_pass(seq![c], a, b, r) =~= seq![c]);
    assert(merge::merge_pass(s, a, b, r) =~= seq![r, c]);
}

/// A text consisting of one character that is not whitespace always
/// yields at least one content token between the markers; in particular
/// no input byte is ever unrepresentable.
pub proof fn lemma_single_char_has_content(m: Model, c: char)
    requires
        !text::is_space(c),
    ensures
        spec_encode(m, seq![c]).len() >= 3,
{
    let s = seq![c];
    segment::lemma_match_len_positive(s, 0);
    segment::lemma_match_len_bound(s, 0);
    let l = segment::match_len(s, 0);
    assert(l == 1);
    assert(segment::segment_from(s, 1) =~= Seq::<Seq<char>>::empty());
    assert(segment::spec_segment(s) =~= seq![s.subrange(0, 1)]);
    assert(s.subrange(0, 1) =~= s);
    let ws = segment::spec_segment(s);
    assert(ws[0] == s);
    assert(words_ids(m, ws) =~= word_ids(m, s) + words_ids(m, ws.drop_first()));
    assert(ws.drop_first() =~= Seq::<Seq<char>>::empty());
    assert(s.len() != segment::sot_word().len());
    assert(s != segment::sot_word());
    assert(s != segment::eot_word());
    text::lemma_word_tokens_nonempty(s);
    merge::lemma_bpe_merge_nonempty(text::spec_word_tokens(s), m.rules);
    assert(word_ids(m, s).len() >= 1);
}


/// Redundant whitespace does not move token boundaries: doubling an inert
/// whitespace character, or adding one at either end of the text, leaves
/// the encoding unchanged. Case folding is covered only by tests, since
/// the folded form of a text is named, not defined, here.
pub proof fn lemma_whitespace_redundant(m: Model, s1: Seq<char>, c: char, s2: Seq<char>)
    requires
        segment::inert_space(c),
    ensures
        spec_encode(m, s1 + seq![c] + seq![c] + s2) == spec_encode(m, s1 + seq![c] + s2),
        spec_encode(m, seq![c] + s2) == spec_encode(m, s2),
        spec_encode(m, s1 + seq![c]) == spec_encode(m, s1),
{
    segment::lemma_segment_splits_at_space(s1, c, seq![c] + s2);
    segment::lemma_segment_splits_at_space(Seq::<char>::empty(), c, s2);
    assert(Seq::<char>::empty() + seq![c] + s2 =~= seq![c] + s2);
    assert(s1 + seq![c] + (seq![c] + s2) =~= s1 + seq![c] + seq![c] + s2);
    assert(segment::spec_segment(Seq::<char>::empty()) =~= Seq::<Seq<char>>::empty());
    assert(Seq::<Seq<char>>::empty() + segment::spec_segment(s2) =~= segment::spec_segment(s2));
    segment::lemma_segment_splits_at_space(s1, c, s2);
    assert(segment::spec_segment(s1 + seq![c] + seq![c] + s2) == segment::spec_segment(
        s1 + seq![c] + s2,
    ));
    segment::lemma_segment_splits_at_space(s1, c, Seq::<char>::empty());
    assert(s1 + seq![c] + Seq::<char>::empty() =~= s1 + seq![c]);
    assert(segment::spec_segment(s1) + Seq::<Seq<char>>::empty() =~= segment::spec_segment(s1));
    assert(segment::spec_segment(s1 + seq![c]) == segment::spec_segment(s1));
}


/// Carries the id and spelling structure of the vocabulary through the
/// merge lines: ids keep equalling `entry_id` of the index, and a merged
/// entry never repeats an earlier spelling.
proof fn lemma_load_lines_invariant(
    ls: Seq<Seq<u8>>,
    k: int,
    n_end: int,
    voc: Seq<SpecEntry>,
    rules: Map<u32, u16>,
    next: u16,
    m: Model,
)
    requires
        load_lines(ls, k, n_end, voc, rules, next) == Result::<Model, InitError>::Ok(m),
        voc.len() == next,
        512 <= next,
        k <= n_end,
        next + (n_end - k) <= 65534,
        forall|j: int| 0 <= j < voc.len() ==> (#[trigger] voc[j]).1 == vocab::entry_id(j),
        forall|j1: int, j2: int|
            0 <= j1 < j2 < voc.len() ==> (#[trigger] voc[j1]).0 != (#[trigger] voc[j2]).0,
        forall|key: u32| rules.dom().contains(key) ==> #[trigger] rules[key] < next,
    ensures
        m.vocab.len() == m.start,
        m.end == m.start + 1,
        m.start == next + (n_end - k),
        forall|j: int| 0 <= j < m.vocab.len() ==> (#[trigger] m.vocab[j]).1 == vocab::entry_id(j),
        forall|j1: int, j2: int|
            0 <= j1 < j2 < m.vocab.len() ==> (#[trigger] m.vocab[j1]).0 != (
            #[trigger] m.vocab[j2]).0,
        forall|key: u32| m.rules.dom().contains(key) ==> #[trigger] m.rules[key] < m.start,
    decreases n_end - k,
{
    if k >= n_end {
    } else {
        let p = lines::spec_two_words(ls[k])->0;
        let t1 = vocab::spec_lookup(voc, p.0)->0;
        let t2 = vocab::spec_lookup(voc, p.1)->0;
        let voc2 = voc.push((p.0 + p.1, next));
        vocab::lemma_lookup_none_all_differ(voc, p.0 + p.1);
        assert(voc2[voc.len() as int].1 == next);
        assert(vocab::entry_id(voc.len() as int) == next);
        assert forall|j: int| 0 <= j < voc2.len() implies (#[trigger] voc2[j]).1
            == vocab::entry_id(j) by {
            if j < voc.len() {
                assert(voc2[j] == voc[j]);
            }
        }
        assert forall|j1: int, j2: int|
            0 <= j1 < j2 < voc2.len() implies (#[trigger] voc2[j1]).0 != (
        #[trigger] voc2[j2]).0 by {
            if j2 < voc.len() {
                assert(voc2[j1] == voc[j1] && voc2[j2] == voc[j2]);
            } else {
                assert(voc2[j1] == voc[j1] && voc2[j2] == (p.0 + p.1, next));
            }
        }
        lemma_load_lines_invariant(
            ls,
            k + 1,
            n_end,
            voc2,
            rules.insert(merge::pack(t1, t2), next),
            (next + 1) as u16,
            m,
        );
    }
}

/// The vocabulary table of a successfully loaded tokenizer is bijective
/// on ids: it holds exactly start-of-text-id entries, the id of an entry
/// is a fixed function of its index, every id lies below the marker ids,
/// no two entries share an id, and the end-of-text id follows the
/// start-of-text id. No two entries share a spelling either, so the
/// table is a bijection between subwords and ids; together with the
/// uniqueness of the merge-pair keys this is the collision freedom that
/// loading enforces.
pub proof fn lemma_vocabulary_bijective(data: Seq<u8>, expected: u16, m: Model)
    requires
        spec_load(data, expected) == Result::<Model, InitError>::Ok(m),
    ensures
        m.vocab.len() == m.start,
        m.start == expected - 2,
        m.end == m.start + 1,
        forall|j: int| 0 <= j < m.vocab.len() ==> (#[trigger] m.vocab[j]).1 == vocab::entry_id(j),
        forall|j: int| 0 <= j < m.vocab.len() ==> (#[trigger] m.vocab[j]).1 < m.start,
        forall|j1: int, j2: int|
            0 <= j1 < j2 < m.vocab.len() ==> (#[trigger] m.vocab[j1]).1 != (
            #[trigger] m.vocab[j2]).1,
        forall|j1: int, j2: int|
            0 <= j1 < j2 < m.vocab.len() ==> (#[trigger] m.vocab[j1]).0 != (
            #[trigger] m.vocab[j2]).0,
        forall|key: u32| m.rules.dom().contains(key) ==> #[trigger] m.rules[key] < m.start,
{
    assert(expected >= 514);
    let ls = lines::spec_lines(data);
    let n = expected - 514;
    assert(ls.len() >= n + 1);
    vocab::lemma_base_entries_ids(0);
    vocab::lemma_base_words_distinct();
    assert(vocab::base_entries().len() == 512);
    assert forall|j: int| 0 <= j < 512 implies (#[trigger] vocab::base_entries()[j]).1
        == vocab::entry_id(j) by {}
    lemma_load_lines_invariant(ls, 1, n + 1, vocab::base_entries(), Map::empty(), 512, m);
    assert(m.vocab.len() == m.start);
    assert forall|j: int| 0 <= j < m.vocab.len() implies (#[trigger] m.vocab[j]).1
        < m.start by {
        assert(m.vocab[j].1 == vocab::entry_id(j));
        if j < 512 {
            vstd::arithmetic::div_mod::lemma_fundamental_div_mod(j, 2);
            assert(m.vocab.len() >= 512);
        }
    }
    assert forall|j1: int, j2: int| 0 <= j1 < j2 < m.vocab.len() implies (
    #[trigger] m.vocab[j1]).1 != (#[trigger] m.vocab[j2]).1 by {
        assert(m.vocab[j1].1 == vocab::entry_id(j1) && m.vocab[j2].1 == vocab::entry_id(j2));
        vstd::arithmetic::div_mod::lemma_fundamental_div_mod(j1, 2);
        vstd::arithmetic::div_mod::lemma_fundamental_div_mod(j2, 2);
    }
}


/// Every id a pre-token list resolves to stays at or below the
/// end-of-text id.
proof fn lemma_words_ids_bounded(m: Model, ws: Seq<Seq<char>>)
    requires
        512 <= m.start,
        m.start <= m.end,
        forall|key: u32| m.rules.dom().contains(key) ==> #[trigger] m.rules[key] < m.start,
    ensures
        forall|i: int| 0 <= i < words_ids(m, ws).len() ==> #[trigger] words_ids(m, ws)[i]
            <= m.end,
    decreases ws.len(),
{
    if ws.len() > 0 {
        lemma_words_ids_bounded(m, ws.drop_first());
        let w = ws[0];
        if w != segment::sot_word() && w != segment::eot_word() {
            text::lemma_word_tokens_bounded(w);
            merge::lemma_bpe_merge_bounded(text::spec_word_tokens(w), m.rules, m.start);
        }
        assert forall|i: int| 0 <= i < words_ids(m, ws).len() implies #[trigger] words_ids(
            m,
            ws,
        )[i] <= m.end by {
            if i >= word_ids(m, w).len() {
                assert(words_ids(m, ws)[i] == words_ids(m, ws.drop_first())[i - word_ids(
                    m,
                    w,
                ).len()]);
            } else {
                assert(words_ids(m, ws)[i] == word_ids(m, w)[i]);
            }
        }
    }
}

/// Closure of the vocabulary under merging: every id that encoding a text
/// against a successfully loaded tokenizer can yield, the markers
/// included, is a valid id below the vocabulary size.
pub proof fn lemma_encode_ids_below_vocab_size(data: Seq<u8>, expected: u16, m: Model, s: Seq<char>)
    requires
        spec_load(data, expected) == Result::<Model, InitError>::Ok(m),
    ensures
        forall|k: int| 0 <= k < spec_encode(m, s).len() ==> #[trigger] spec_encode(m, s)[k]
            < expected,
{
    lemma_vocabulary_bijective(data, expected, m);
    lemma_words_ids_bounded(m, segment::spec_segment(s));
    let mid = words_ids(m, segment::spec_segment(s));
    assert forall|k: int| 0 <= k < spec_encode(m, s).len() implies #[trigger] spec_encode(
        m,
        s,
    )[k] < expected by {
        if 1 <= k < 1 + mid.len() {
            assert(spec_encode(m, s)[k] == mid[k - 1]);
        }
    }
}

} // verus!
