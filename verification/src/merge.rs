//! BPE merge engine: repeatedly merges the adjacent token pair with the
//! lowest rank until no adjacent pair is listed in the merge rank table.
//!
//! The table maps a packed pair of token ids to the id of the merged
//! token; merged ids are assigned in rank order, so the merged id itself
//! serves as the pair's rank. One round replaces every leftmost,
//! non-overlapping occurrence of the chosen pair; the sequence strictly
//! shortens each round, which bounds the iteration.

use vstd::prelude::*;
use std::collections::HashMap;

verus! {

/// Packs an ordered pair of token ids into a single table key.
pub open spec fn pack(a: u16, b: u16) -> u32 {
    ((a as int) * 0x10000 + (b as int)) as u32
}

/// Packing is injective, so a key stands for exactly one ordered pair.
pub proof fn lemma_pack_injective(a1: u16, b1: u16, a2: u16, b2: u16)
    requires
        pack(a1, b1) == pack(a2, b2),
    ensures
        a1 == a2 && b1 == b2,
{
}

/// Packs a pair of token ids.
pub fn pack_pair(a: u16, b: u16) -> (k: u32)
    ensures
        k == pack(a, b),
{
    (a as u32) * 0x10000 + (b as u32)
}

/// The lowest-rank mergeable adjacent pair at or after position `i`, as
/// `(left, right, merged)`, preferring the earliest position on equal
/// ranks. Ranks are unique per pair, so ties arise only between
/// occurrences of the same pair.
pub open spec fn best_from(s: Seq<u16>, rules: Map<u32, u16>, i: int) -> Option<(u16, u16, u16)>
    decreases s.len() - i when 0 <= i
{
    if i + 1 >= s.len() {
        None
    } else {
        let rest = best_from(s, rules, i + 1);
        if rules.dom().contains(pack(s[i], s[i + 1])) {
            let cur = (s[i], s[i + 1], rules[pack(s[i], s[i + 1])]);
            match rest {
                Option::None => Option::Some(cur),
                Option::Some(r) => if cur.2 <= r.2 {
                    Option::Some(cur)
                } else {
                    Option::Some(r)
                },
            }
        } else {
            rest
        }
    }
}

/// The lowest-rank mergeable adjacent pair of the whole sequence.
pub open spec fn best_merge(s: Seq<u16>, rules: Map<u32, u16>) -> Option<(u16, u16, u16)> {
    best_from(s, rules, 0)
}

/// A chosen pair really occurs somewhere at or after `i`, and is listed in
/// the table with the reported merged id.
pub proof fn lemma_best_from_occurs(s: Seq<u16>, rules: Map<u32, u16>, i: int)
    requires
        0 <= i,
        best_from(s, rules, i) is Some,
    ensures
        ({
            let t = best_from(s, rules, i)->0;
            &&& rules.dom().contains(pack(t.0, t.1))
            &&& rules[pack(t.0, t.1)] == t.2
            &&& exists|j: int| i <= j && j + 1 < s.len() && #[trigger] s[j] == t.0 && s[j + 1] == t.1
        }),
    decreases s.len() - i,
{
    if i + 1 < s.len() {
        let rest = best_from(s, rules, i + 1);
        if rest is Some {
            lemma_best_from_occurs(s, rules, i + 1);
        }
        let t = best_from(s, rules, i)->0;
        if rules.dom().contains(pack(s[i], s[i + 1])) && t == (s[i], s[i + 1], rules[pack(
            s[i],
            s[i + 1],
        )]) {
            assert(i <= i && i + 1 < s.len() && s[i] == t.0 && s[i + 1] == t.1);
        }
    }
}

/// One merge round: every leftmost, non-overlapping occurrence of the pair
/// `(a, b)` becomes the single token `r`.
pub open spec fn merge_pass(s: Seq<u16>, a: u16, b: u16, r: u16) -> Seq<u16>
    decreases s.len(),
{
    if s.len() == 0 {
        s
    } else if s.len() >= 2 && s[0] == a && s[1] == b {
        seq![r] + merge_pass(s.skip(2), a, b, r)
    } else {
        seq![s[0]] + merge_pass(s.skip(1), a, b, r)
    }
}

/// A merge round never lengthens the sequence.
pub proof fn lemma_merge_pass_le(s: Seq<u16>, a: u16, b: u16, r: u16)
    ensures
        merge_pass(s, a, b, r).len() <= s.len(),
    decreases s.len(),
{
    if s.len() == 0 {
    } else if s.len() >= 2 && s[0] == a && s[1] == b {
        lemma_merge_pass_le(s.skip(2), a, b, r);
    } else {
        lemma_merge_pass_le(s.skip(1), a, b, r);
    }
}

/// A merge round on a non-empty sequence leaves something.
pub proof fn lemma_merge_pass_nonempty(s: Seq<u16>, a: u16, b: u16, r: u16)
    requires
        s.len() > 0,
    ensures
        merge_pass(s, a, b, r).len() > 0,
{
}

/// When the pair occurs, a merge round strictly shortens the sequence.
pub proof fn lemma_merge_pass_lt(s: Seq<u16>, a: u16, b: u16, r: u16)
    requires
        exists|j: int| 0 <= j && j + 1 < s.len() && #[trigger] s[j] == a && s[j + 1] == b,
    ensures
        merge_pass(s, a, b, r).len() < s.len(),
    decreases s.len(),
{
    if s.len() >= 2 && s[0] == a && s[1] == b {
        lemma_merge_pass_le(s.skip(2), a, b, r);
    } else {
        let j = choose|j: int| 0 <= j && j + 1 < s.len() && #[trigger] s[j] == a && s[j + 1] == b;
        assert(j >= 1);
        assert(s.skip(1)[j - 1] == a && s.skip(1)[j] == b);
        lemma_merge_pass_lt(s.skip(1), a, b, r);
    }
}

/// The fully merged form of a token sequence: merge rounds applied until
/// no adjacent pair is listed in the table.
pub open spec fn bpe_merge(s: Seq<u16>, rules: Map<u32, u16>) -> Seq<u16>
    decreases s.len() via bpe_merge_dec
{
    match best_merge(s, rules) {
        Option::None => s,
        Option::Some(t) => bpe_merge(merge_pass(s, t.0, t.1, t.2), rules),
    }
}

#[via_fn]
proof fn bpe_merge_dec(s: Seq<u16>, rules: Map<u32, u16>) {
    match best_merge(s, rules) {
        Option::None => {},
        Option::Some(t) => {
            lemma_best_from_occurs(s, rules, 0);
            lemma_merge_pass_lt(s, t.0, t.1, t.2);
        },
    }
}

/// Full merging of a non-empty sequence yields a non-empty sequence.
pub proof fn lemma_bpe_merge_nonempty(s: Seq<u16>, rules: Map<u32, u16>)
    requires
        s.len() > 0,
    ensures
        bpe_merge(s, rules).len() > 0,
    decreases s.len(),
{
    match best_merge(s, rules) {
        Option::None => {},
        Option::Some(t) => {
            lemma_best_from_occurs(s, rules, 0);
            lemma_merge_pass_lt(s, t.0, t.1, t.2);
            lemma_merge_pass_nonempty(s, t.0, t.1, t.2);
            lemma_bpe_merge_nonempty(merge_pass(s, t.0, t.1, t.2), rules);
        },
    }
}

/// Finds the lowest-rank mergeable adjacent pair of `tokens`.
fn find_best(tokens: &Vec<u16>, rules: &HashMap<u32, u16>) -> (best: Option<(u16, u16, u16)>)
    ensures
        best == best_merge(tokens@, rules@),
{
    if tokens.len() < 2 {
        return None;
    }
    let mut best: Option<(u16, u16, u16)> = None;
    let mut i: usize = tokens.len() - 1;
    assert(best_from(tokens@, rules@, i as int) == Option::<(u16, u16, u16)>::None);
    while i > 0
        invariant
            i <= tokens@.len() - 1,
            best == best_from(tokens@, rules@, i as int),
        decreases i,
    {
        i = i - 1;
        let key = pack_pair(tokens[i], tokens[i + 1]);
        match rules.get(&key) {
            Some(r) => {
                match best {
                    Some(t) => {
                        if *r <= t.2 {
                            best = Some((tokens[i], tokens[i + 1], *r));
                        }
                    },
                    None => {
                        best = Some((tokens[i], tokens[i + 1], *r));
                    },
                }
            },
            None => {},
        }
    }
    best
}

/// Performs one merge round on `tokens`.
fn apply_pass(tokens: &Vec<u16>, a: u16, b: u16, r: u16) -> (out: Vec<u16>)
    ensures
        out@ == merge_pass(tokens@, a, b, r),
{
    let mut out: Vec<u16> = Vec::new();
    let mut i: usize = 0;
    assert(tokens@.skip(0) =~= tokens@);
    while i < tokens.len()
        invariant
            i <= tokens@.len(),
            merge_pass(tokens@, a, b, r) == out@ + merge_pass(tokens@.skip(i as int), a, b, r),
        decreases tokens@.len() - i,
    {
        let rest = Ghost(tokens@.skip(i as int));
        if i + 1 < tokens.len() && tokens[i] == a && tokens[i + 1] == b {
            out.push(r);
            proof {
                assert(rest@.skip(2) =~= tokens@.skip(i + 2));
                assert(merge_pass(rest@, a, b, r) =~= seq![r] + merge_pass(
                    tokens@.skip(i + 2),
                    a,
                    b,
                    r,
                ));
            }
            i = i + 2;
        } else {
            out.push(tokens[i]);
            proof {
                assert(rest@.skip(1) =~= tokens@.skip(i + 1));
                assert(merge_pass(rest@, a, b, r) =~= seq![tokens@[i as int]] + merge_pass(
                    tokens@.skip(i + 1),
                    a,
                    b,
                    r,
                ));
            }
            i = i + 1;
        }
    }
    assert(tokens@.skip(tokens@.len() as int) =~= Seq::<u16>::empty());
    assert(out@ =~= merge_pass(tokens@, a, b, r));
    out
}

/// Fully merges `tokens` against the merge rank table.
pub fn apply_merges(rules: &HashMap<u32, u16>, tokens: Vec<u16>) -> (out: Vec<u16>)
    ensures
        out@ == bpe_merge(tokens@, rules@),
{
    let ghost orig = tokens@;
    let mut cur = tokens;
    loop
        invariant
            orig == tokens@,
            bpe_merge(cur@, rules@) == bpe_merge(orig, rules@),
        decreases cur@.len(),
    {
        match find_best(&cur, rules) {
            None => {
                assert(bpe_merge(cur@, rules@) == cur@);
                return cur;
            },
            Some(t) => {
                proof {
                    lemma_best_from_occurs(cur@, rules@, 0);
                    lemma_merge_pass_lt(cur@, t.0, t.1, t.2);
                }
                cur = apply_pass(&cur, t.0, t.1, t.2);
            },
        }
    }
}


/// A merge round introduces only the merged id: when every token is below
/// a bound and the merged id is too, so is every token after the round.
pub proof fn lemma_merge_pass_bounded(s: Seq<u16>, a: u16, b: u16, r: u16, bound: u16)
    requires
        forall|i: int| 0 <= i < s.len() ==> #[trigger] s[i] < bound,
        r < bound,
    ensures
        forall|i: int|
            0 <= i < merge_pass(s, a, b, r).len() ==> #[trigger] merge_pass(s, a, b, r)[i]
                < bound,
    decreases s.len(),
{
    if s.len() == 0 {
    } else if s.len() >= 2 && s[0] == a && s[1] == b {
        lemma_merge_pass_bounded(s.skip(2), a, b, r, bound);
        assert forall|i: int| 0 <= i < merge_pass(s, a, b, r).len() implies #[trigger] merge_pass(
            s,
            a,
            b,
            r,
        )[i] < bound by {
            if i > 0 {
                assert(merge_pass(s, a, b, r)[i] == merge_pass(s.skip(2), a, b, r)[i - 1]);
            }
        }
    } else {
        lemma_merge_pass_bounded(s.skip(1), a, b, r, bound);
        assert forall|i: int| 0 <= i < merge_pass(s, a, b, r).len() implies #[trigger] merge_pass(
            s,
            a,
            b,
            r,
        )[i] < bound by {
            if i > 0 {
                assert(merge_pass(s, a, b, r)[i] == merge_pass(s.skip(1), a, b, r)[i - 1]);
            }
        }
    }
}

/// Full merging stays below a bound that covers the initial tokens and
/// every merged id the table can produce.
pub proof fn lemma_bpe_merge_bounded(s: Seq<u16>, rules: Map<u32, u16>, bound: u16)
    requires
        forall|i: int| 0 <= i < s.len() ==> #[trigger] s[i] < bound,
        forall|k: u32| rules.dom().contains(k) ==> #[trigger] rules[k] < bound,
    ensures
        forall|i: int|
            0 <= i < bpe_merge(s, rules).len() ==> #[trigger] bpe_merge(s, rules)[i] < bound,
    decreases s.len(),
{
    match best_merge(s, rules) {
        Option::None => {
            assert(bpe_merge(s, rules) == s);
        },
        Option::Some(t) => {
            lemma_best_from_occurs(s, rules, 0);
            lemma_merge_pass_lt(s, t.0, t.1, t.2);
            assert(rules[pack(t.0, t.1)] == t.2 && t.2 < bound);
            lemma_merge_pass_bounded(s, t.0, t.1, t.2, bound);
            lemma_bpe_merge_bounded(merge_pass(s, t.0, t.1, t.2), rules, bound);
            assert(bpe_merge(s, rules) == bpe_merge(merge_pass(s, t.0, t.1, t.2), rules));
        },
    }
}

} // verus!
