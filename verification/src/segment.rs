//! Pre-tokenizer: splits case-folded text into pre-tokens.
//!
//! Scanning left to right, the first pattern that matches at a position
//! wins: the literal start-of-text marker, the literal end-of-text marker,
//! one of the apostrophe contractions `'s 't 're 've 'm 'll 'd`, a maximal
//! run of letters, a single number character, or a maximal run of
//! characters that are neither whitespace nor letters nor numbers.
//! Whitespace matches nothing and so separates pre-tokens without ever
//! appearing in one.

use vstd::prelude::*;
use crate::text::{is_letter, is_number, is_space};

verus! {

/// The literal word that stands for the start-of-text marker.
pub open spec fn sot_word() -> Seq<char> {
    seq!['<', 's', 't', 'a', 'r', 't', '_', 'o', 'f', '_', 't', 'e', 'x', 't', '>']
}

/// The literal word that stands for the end-of-text marker.
pub open spec fn eot_word() -> Seq<char> {
    seq!['<', 'e', 'n', 'd', '_', 'o', 'f', '_', 't', 'e', 'x', 't', '>']
}

/// Whether the literal `lit` occurs in `s` at position `i`.
pub open spec fn lit_at(s: Seq<char>, i: int, lit: Seq<char>) -> bool {
    i + lit.len() <= s.len() && s.subrange(i, i + lit.len()) == lit
}

/// A character that belongs to a symbol run: neither whitespace nor a
/// letter nor a number.
pub open spec fn is_symbol(c: char) -> bool {
    !is_space(c) && !is_letter(c) && !is_number(c)
}

/// Length of the maximal run of letters starting at `i`.
pub open spec fn letter_run(s: Seq<char>, i: int) -> int
    decreases s.len() - i when i >= 0
{
    if i < s.len() && is_letter(s[i]) {
        1 + letter_run(s, i + 1)
    } else {
        0
    }
}

/// Length of the maximal run of symbol characters starting at `i`.
pub open spec fn symbol_run(s: Seq<char>, i: int) -> int
    decreases s.len() - i when i >= 0
{
    if i < s.len() && is_symbol(s[i]) {
        1 + symbol_run(s, i + 1)
    } else {
        0
    }
}

/// Length of the contraction suffix matching at `i`, or 0. The two-letter
/// suffixes have second characters distinct from those of the three-letter
/// ones, so the fixed priority order of the pattern is preserved.
pub open spec fn contraction_len(s: Seq<char>, i: int) -> int {
    if 0 <= i && i < s.len() && s[i] == '\'' {
        if i + 1 < s.len() && (s[i + 1] == 's' || s[i + 1] == 't' || s[i + 1] == 'm' || s[i + 1]
            == 'd') {
            2
        } else if i + 2 < s.len() && ((s[i + 1] == 'r' && s[i + 2] == 'e') || (s[i + 1] == 'v'
            && s[i + 2] == 'e') || (s[i + 1] == 'l' && s[i + 2] == 'l')) {
            3
        } else {
            0
        }
    } else {
        0
    }
}

/// Length of the pre-token that matches at position `i`, or 0 when nothing
/// matches there (only whitespace matches nothing).
pub open spec fn match_len(s: Seq<char>, i: int) -> int {
    if lit_at(s, i, sot_word()) {
        sot_word().len() as int
    } else if lit_at(s, i, eot_word()) {
        eot_word().len() as int
    } else if contraction_len(s, i) > 0 {
        contraction_len(s, i)
    } else if 0 <= i && i < s.len() && is_letter(s[i]) {
        letter_run(s, i)
    } else if 0 <= i && i < s.len() && is_number(s[i]) {
        1
    } else if 0 <= i && i < s.len() && !is_space(s[i]) {
        symbol_run(s, i)
    } else {
        0
    }
}

/// A maximal run is never longer than the rest of the sequence.
pub proof fn lemma_letter_run_bound(s: Seq<char>, i: int)
    requires
        0 <= i,
    ensures
        0 <= letter_run(s, i) && i + letter_run(s, i) <= s.len() || i >= s.len()
            && letter_run(s, i) == 0,
    decreases s.len() - i,
{
    if i < s.len() && is_letter(s[i]) {
        lemma_letter_run_bound(s, i + 1);
    }
}

/// A maximal symbol run is never longer than the rest of the sequence.
pub proof fn lemma_symbol_run_bound(s: Seq<char>, i: int)
    requires
        0 <= i,
    ensures
        0 <= symbol_run(s, i) && i + symbol_run(s, i) <= s.len() || i >= s.len() && symbol_run(
            s,
            i,
        ) == 0,
    decreases s.len() - i,
{
    if i < s.len() && is_symbol(s[i]) {
        lemma_symbol_run_bound(s, i + 1);
    }
}

/// A match fits inside the sequence.
pub proof fn lemma_match_len_bound(s: Seq<char>, i: int)
    requires
        0 <= i,
    ensures
        0 <= match_len(s, i),
        i + match_len(s, i) <= s.len() || match_len(s, i) == 0,
{
    lemma_letter_run_bound(s, i);
    lemma_symbol_run_bound(s, i);
}

/// At a non-whitespace position inside the sequence something always
/// matches.
pub proof fn lemma_match_len_positive(s: Seq<char>, i: int)
    requires
        0 <= i < s.len(),
        !is_space(s[i]),
    ensures
        match_len(s, i) > 0,
{
    lemma_letter_run_bound(s, i);
    lemma_symbol_run_bound(s, i);
    if is_letter(s[i]) {
        assert(letter_run(s, i) == 1 + letter_run(s, i + 1));
        assert(letter_run(s, i + 1) >= 0) by {
            lemma_letter_run_bound(s, i + 1);
        }
    } else if !is_number(s[i]) {
        assert(is_symbol(s[i]));
        assert(symbol_run(s, i) == 1 + symbol_run(s, i + 1));
        assert(symbol_run(s, i + 1) >= 0) by {
            lemma_symbol_run_bound(s, i + 1);
        }
    }
}

/// The pre-tokens of `s` from position `i` on.
pub open spec fn segment_from(s: Seq<char>, i: int) -> Seq<Seq<char>>
    decreases s.len() - i when 0 <= i
        via segment_from_dec
{
    if i >= s.len() {
        Seq::empty()
    } else {
        let l = match_len(s, i);
        if l <= 0 {
            segment_from(s, i + 1)
        } else {
            seq![s.subrange(i, i + l)] + segment_from(s, i + l)
        }
    }
}

#[via_fn]
proof fn segment_from_dec(s: Seq<char>, i: int) {
    if 0 <= i && i < s.len() {
        lemma_match_len_bound(s, i);
    }
}

/// The pre-tokens of the whole sequence, in order.
pub open spec fn spec_segment(s: Seq<char>) -> Seq<Seq<char>> {
    segment_from(s, 0)
}

/// Whether `chars` holds `lit` at position `i`.
fn lit_at_exec(chars: &Vec<char>, i: usize, lit: &Vec<char>) -> (r: bool)
    requires
        i <= chars.len(),
    ensures
        r == lit_at(chars@, i as int, lit@),
{
    if chars.len() - i < lit.len() {
        assert(!lit_at(chars@, i as int, lit@));
        return false;
    }
    let mut k: usize = 0;
    while k < lit.len()
        invariant
            k <= lit.len(),
            i + lit.len() <= chars.len(),
            forall|m: int| 0 <= m < k ==> chars@[i + m] == lit@[m],
        decreases lit.len() - k,
    {
        if chars[i + k] != lit[k] {
            assert(chars@.subrange(i as int, i + lit@.len())[k as int] != lit@[k as int]);
            return false;
        }
        k = k + 1;
    }
    assert(chars@.subrange(i as int, i + lit@.len()) =~= lit@);
    true
}

/// The start-of-text marker word as characters.
pub fn sot_word_vec() -> (r: Vec<char>)
    ensures
        r@ == sot_word(),
{
    let v = vec!['<', 's', 't', 'a', 'r', 't', '_', 'o', 'f', '_', 't', 'e', 'x', 't', '>'];
    assert(v@ =~= sot_word());
    v
}

/// The end-of-text marker word as characters.
pub fn eot_word_vec() -> (r: Vec<char>)
    ensures
        r@ == eot_word(),
{
    let v = vec!['<', 'e', 'n', 'd', '_', 'o', 'f', '_', 't', 'e', 'x', 't', '>'];
    assert(v@ =~= eot_word());
    v
}

/// All characters in `[i, j)` are letters and the run stops at `j`: then
/// the maximal run from `i` has length `j - i`.
proof fn lemma_letter_run_exact(s: Seq<char>, i: int, j: int)
    requires
        0 <= i <= j <= s.len(),
        forall|k: int| i <= k < j ==> is_letter(#[trigger] s[k]),
        j == s.len() || !is_letter(s[j]),
    ensures
        letter_run(s, i) == j - i,
    decreases j - i,
{
    if i < j {
        lemma_letter_run_exact(s, i + 1, j);
    }
}

/// All characters in `[i, j)` are symbols and the run stops at `j`: then
/// the maximal run from `i` has length `j - i`.
proof fn lemma_symbol_run_exact(s: Seq<char>, i: int, j: int)
    requires
        0 <= i <= j <= s.len(),
        forall|k: int| i <= k < j ==> is_symbol(#[trigger] s[k]),
        j == s.len() || !is_symbol(s[j]),
    ensures
        symbol_run(s, i) == j - i,
    decreases j - i,
{
    if i < j {
        lemma_symbol_run_exact(s, i + 1, j);
    }
}

/// Length of the pre-token matching at position `i` of `chars`, or 0.
fn match_len_exec(chars: &Vec<char>, i: usize, sot: &Vec<char>, eot: &Vec<char>) -> (l: usize)
    requires
        i < chars.len(),
        sot@ == sot_word(),
        eot@ == eot_word(),
    ensures
        l == match_len(chars@, i as int),
{
    if lit_at_exec(chars, i, sot) {
        return 15;
    }
    if lit_at_exec(chars, i, eot) {
        return 13;
    }
    let c = chars[i];
    if c == '\'' {
        if i + 1 < chars.len() {
            let d = chars[i + 1];
            if d == 's' || d == 't' || d == 'm' || d == 'd' {
                return 2;
            }
            if i + 2 < chars.len() {
                let e = chars[i + 2];
                if (d == 'r' && e == 'e') || (d == 'v' && e == 'e') || (d == 'l' && e == 'l') {
                    return 3;
                }
            }
        }
    }
    if c.is_alphabetic() {
        let mut j: usize = i + 1;
        while j < chars.len() && chars[j].is_alphabetic()
            invariant
                i < j <= chars.len(),
                forall|k: int| i <= k < j ==> is_letter(#[trigger] chars@[k]),
            decreases chars.len() - j,
        {
            j = j + 1;
        }
        proof {
            lemma_letter_run_exact(chars@, i as int, j as int);
        }
        return j - i;
    }
    if c.is_numeric() {
        return 1;
    }
    if !c.is_whitespace() {
        let mut j: usize = i + 1;
        while j < chars.len() && !chars[j].is_whitespace() && !chars[j].is_alphabetic()
            && !chars[j].is_numeric()
            invariant
                i < j <= chars.len(),
                forall|k: int| i <= k < j ==> is_symbol(#[trigger] chars@[k]),
            decreases chars.len() - j,
        {
            j = j + 1;
        }
        proof {
            lemma_symbol_run_exact(chars@, i as int, j as int);
        }
        return j - i;
    }
    0
}

/// Splits `chars` into its pre-tokens.
pub fn segment(chars: &Vec<char>) -> (r: Vec<Vec<char>>)
    ensures
        r@.map_values(|w: Vec<char>| w@) == spec_segment(chars@),
{
    let sot = sot_word_vec();
    let eot = eot_word_vec();
    let mut out: Vec<Vec<char>> = Vec::new();
    let mut i: usize = 0;
    while i < chars.len()
        invariant
            i <= chars.len(),
            sot@ == sot_word(),
            eot@ == eot_word(),
            spec_segment(chars@) == out@.map_values(|w: Vec<char>| w@) + segment_from(
                chars@,
                i as int,
            ),
        decreases chars.len() - i,
    {
        let l = match_len_exec(chars, i, &sot, &eot);
        if l == 0 {
            i = i + 1;
        } else {
            proof {
                lemma_match_len_bound(chars@, i as int);
            }
            let mut w: Vec<char> = Vec::new();
            let mut k: usize = i;
            while k < i + l
                invariant
                    i <= k <= i + l,
                    i + l <= chars.len(),
                    w@ == chars@.subrange(i as int, k as int),
                decreases i + l - k,
            {
                w.push(chars[k]);
                assert(w@ =~= chars@.subrange(i as int, k + 1));
                k = k + 1;
            }
            out.push(w);
            i = i + l;
            assert(out@.map_values(|w: Vec<char>| w@) =~= out@.map_values(
                |w: Vec<char>| w@,
            ).take(out@.len() - 1) + seq![out@.last()@]);
        }
    }
    assert(segment_from(chars@, chars@.len() as int) =~= Seq::<Seq<char>>::empty());
    assert(out@.map_values(|w: Vec<char>| w@) =~= spec_segment(chars@));
    out
}

/// A whitespace character that the pattern can never take into a
/// pre-token: it is whitespace, not a letter or a number, and not one of
/// the characters the marker literals and the contractions are spelled
/// with. Every actual whitespace character satisfies all of this.
pub open spec fn inert_space(c: char) -> bool {
    &&& is_space(c)
    &&& !is_letter(c)
    &&& !is_number(c)
    &&& c != '<'
    &&& c != '>'
    &&& c != '\''
    &&& c != '_'
    &&& c != 'a'
    &&& c != 'd'
    &&& c != 'e'
    &&& c != 'f'
    &&& c != 'l'
    &&& c != 'm'
    &&& c != 'n'
    &&& c != 'o'
    &&& c != 'r'
    &&& c != 's'
    &&& c != 't'
    &&& c != 'v'
    &&& c != 'x'
}

/// Runs look only forward: a run inside the suffix `y` is the same run.
proof fn lemma_suffix_runs(x: Seq<char>, y: Seq<char>, j: int)
    requires
        0 <= j,
    ensures
        letter_run(x + y, x.len() + j) == letter_run(y, j),
        symbol_run(x + y, x.len() + j) == symbol_run(y, j),
    decreases y.len() - j,
{
    let s = x + y;
    if j < y.len() {
        assert(s[x.len() + j] == y[j]);
        lemma_suffix_runs(x, y, j + 1);
    }
}

/// Matching looks only forward: what matches at a position inside the
/// suffix `y` is what matches in `y` alone.
proof fn lemma_suffix_match(x: Seq<char>, y: Seq<char>, j: int)
    requires
        0 <= j,
    ensures
        match_len(x + y, x.len() + j) == match_len(y, j),
    decreases y.len() - j,
{
    let s = x + y;
    let i = x.len() + j;
    assert forall|lit: Seq<char>| lit.len() > 0 implies lit_at(s, i, lit) == lit_at(
        y,
        j,
        lit,
    ) by {
        if j + lit.len() <= y.len() {
            assert(s.subrange(i as int, i + lit.len()) =~= y.subrange(j, j + lit.len()));
        }
    }
    assert(lit_at(s, i as int, sot_word()) == lit_at(y, j, sot_word()));
    assert(lit_at(s, i as int, eot_word()) == lit_at(y, j, eot_word()));
    if j < y.len() {
        assert(s[i as int] == y[j]);
        if j + 1 < y.len() {
            assert(s[i + 1] == y[j + 1]);
        }
        if j + 2 < y.len() {
            assert(s[i + 2] == y[j + 2]);
        }
        assert(contraction_len(s, i as int) == contraction_len(y, j));
        lemma_suffix_runs(x, y, j);
    } else {
        assert(contraction_len(s, i as int) == 0 && contraction_len(y, j) == 0);
        lemma_suffix_runs(x, y, j);
    }
}

/// Segmenting from a position inside the suffix `y` segments `y` alone.
proof fn lemma_suffix_segment(x: Seq<char>, y: Seq<char>, j: int)
    requires
        0 <= j,
    ensures
        segment_from(x + y, x.len() + j) == segment_from(y, j),
    decreases y.len() - j,
{
    let s = x + y;
    let i = x.len() + j;
    if j >= y.len() {
        assert(segment_from(s, i as int) =~= segment_from(y, j));
    } else {
        lemma_suffix_match(x, y, j);
        let l = match_len(y, j);
        lemma_match_len_bound(y, j);
        if l <= 0 {
            lemma_suffix_segment(x, y, j + 1);
        } else {
            lemma_suffix_segment(x, y, j + l);
            assert(s.subrange(i as int, i + l) =~= y.subrange(j, j + l));
            assert(segment_from(s, i as int) =~= segment_from(y, j));
        }
    }
}

/// Before an inert whitespace character at the end of the prefix, matching
/// sees only the prefix, and no match reaches past the character.
proof fn lemma_prefix_runs(s1: Seq<char>, c: char, s2: Seq<char>, i: int)
    requires
        inert_space(c),
        0 <= i <= s1.len(),
    ensures
        letter_run(s1 + seq![c] + s2, i) == letter_run(s1, i),
        symbol_run(s1 + seq![c] + s2, i) == symbol_run(s1, i),
    decreases s1.len() - i,
{
    let s = s1 + seq![c] + s2;
    let p = s1.len() as int;
    if i < p {
        assert(s[i] == s1[i]);
        lemma_prefix_runs(s1, c, s2, i + 1);
    } else {
        assert(s[p] == c);
        assert(!is_letter(s[p]) && !is_symbol(s[p]));
        assert(letter_run(s, p) == 0 && symbol_run(s, p) == 0);
        assert(letter_run(s1, p) == 0 && symbol_run(s1, p) == 0);
    }
}

/// No character of the marker literals is an inert whitespace character.
proof fn lemma_inert_not_in_lits(c: char)
    requires
        inert_space(c),
    ensures
        forall|m: int| 0 <= m < sot_word().len() ==> #[trigger] sot_word()[m] != c,
        forall|m: int| 0 <= m < eot_word().len() ==> #[trigger] eot_word()[m] != c,
{
    assert forall|m: int| 0 <= m < sot_word().len() implies #[trigger] sot_word()[m] != c by {
        if m == 0 { } else if m == 1 { } else if m == 2 { } else if m == 3 { } else if m == 4 {
        } else if m == 5 { } else if m == 6 { } else if m == 7 { } else if m == 8 { } else if m
            == 9 { } else if m == 10 { } else if m == 11 { } else if m == 12 { } else if m == 13 {
        } else { }
    }
    assert forall|m: int| 0 <= m < eot_word().len() implies #[trigger] eot_word()[m] != c by {
        if m == 0 { } else if m == 1 { } else if m == 2 { } else if m == 3 { } else if m == 4 {
        } else if m == 5 { } else if m == 6 { } else if m == 7 { } else if m == 8 { } else if m
            == 9 { } else if m == 10 { } else if m == 11 { } else { }
    }
}

/// Before an inert whitespace character at the end of the prefix, what
/// matches is what matches in the prefix alone, and it stays inside the
/// prefix.
proof fn lemma_prefix_match(s1: Seq<char>, c: char, s2: Seq<char>, i: int)
    requires
        inert_space(c),
        0 <= i < s1.len(),
    ensures
        match_len(s1 + seq![c] + s2, i) == match_len(s1, i),
        i + match_len(s1 + seq![c] + s2, i) <= s1.len(),
{
    let s = s1 + seq![c] + s2;
    let p = s1.len() as int;
    assert(s[p] == c);
    assert forall|k: int| 0 <= k < p implies #[trigger] s[k] == s1[k] by {}
    lemma_inert_not_in_lits(c);
    assert forall|lit: Seq<char>|
        (lit == sot_word() || lit == eot_word()) implies lit_at(s, i, lit) == lit_at(
        s1,
        i,
        lit,
    ) && (lit_at(s, i, lit) ==> i + lit.len() <= p) by {
        if i + lit.len() <= p {
            assert(s.subrange(i, i + lit.len()) =~= s1.subrange(i, i + lit.len()));
        } else {
            assert(!lit_at(s1, i, lit));
            if lit_at(s, i, lit) && i + lit.len() <= s.len() {
                assert(s.subrange(i, i + lit.len())[p - i] == c);
                if lit == sot_word() {
                    assert(sot_word()[p - i] != c);
                } else {
                    assert(eot_word()[p - i] != c);
                }
                assert(false);
            }
        }
    }
    assert(lit_at(s, i, sot_word()) == lit_at(s1, i, sot_word()));
    assert(lit_at(s, i, eot_word()) == lit_at(s1, i, eot_word()));
    assert(s[i] == s1[i]);
    if i + 1 < s.len() && i + 1 >= p {
        assert(s[i + 1] == c);
    } else if i + 1 < s.len() {
        assert(s[i + 1] == s1[i + 1]);
    }
    if i + 2 < s.len() && i + 2 == p {
        assert(s[i + 2] == c);
    } else if i + 2 < s.len() && i + 2 < p {
        assert(s[i + 2] == s1[i + 2]);
    }
    assert(contraction_len(s, i) == contraction_len(s1, i));
    assert(contraction_len(s, i) == 2 ==> i + 2 <= p);
    assert(contraction_len(s, i) == 3 ==> i + 3 <= p);
    lemma_prefix_runs(s1, c, s2, i);
    lemma_letter_run_bound(s1, i);
    lemma_symbol_run_bound(s1, i);
}

/// Up to an inert whitespace character, segmenting the whole text is
/// segmenting the prefix, then the rest.
proof fn lemma_prefix_segment(s1: Seq<char>, c: char, s2: Seq<char>, i: int)
    requires
        inert_space(c),
        0 <= i <= s1.len(),
    ensures
        segment_from(s1 + seq![c] + s2, i) == segment_from(s1, i) + spec_segment(s2),
    decreases s1.len() - i,
{
    let s = s1 + seq![c] + s2;
    let p = s1.len() as int;
    if i == p {
        assert(s[p] == c);
        assert(!lit_at(s, p, sot_word()) && !lit_at(s, p, eot_word())) by {
            lemma_inert_not_in_lits(c);
            if lit_at(s, p, sot_word()) {
                assert(s.subrange(p, p + sot_word().len())[0] == c);
            }
            if lit_at(s, p, eot_word()) {
                assert(s.subrange(p, p + eot_word().len())[0] == c);
            }
        }
        assert(contraction_len(s, p) == 0);
        assert(match_len(s, p) == 0);
        assert(segment_from(s, p) == segment_from(s, p + 1));
        assert((s1 + seq![c]) + s2 =~= s);
        lemma_suffix_segment(s1 + seq![c], s2, 0);
        assert(segment_from(s, p + 1) == spec_segment(s2));
        assert(segment_from(s1, p) =~= Seq::<Seq<char>>::empty());
        assert(segment_from(s1, i) + spec_segment(s2) =~= spec_segment(s2));
    } else {
        lemma_prefix_match(s1, c, s2, i);
        let l = match_len(s1, i);
        lemma_match_len_bound(s1, i);
        if l <= 0 {
            lemma_prefix_segment(s1, c, s2, i + 1);
        } else {
            lemma_prefix_segment(s1, c, s2, i + l);
            assert(s.subrange(i, i + l) =~= s1.subrange(i, i + l));
            assert(segment_from(s, i) =~= segment_from(s1, i) + spec_segment(s2));
        }
    }
}

/// Pre-tokens never cross whitespace: segmenting around an inert
/// whitespace character splits into the two sides' pre-tokens. Repeated,
/// leading or trailing whitespace therefore never moves a pre-token
/// boundary.
pub proof fn lemma_segment_splits_at_space(s1: Seq<char>, c: char, s2: Seq<char>)
    requires
        inert_space(c),
    ensures
        spec_segment(s1 + seq![c] + s2) == spec_segment(s1) + spec_segment(s2),
{
    lemma_prefix_segment(s1, c, s2, 0);
}

} // verus!
