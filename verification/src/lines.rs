//! Splitting the decompressed vocabulary text into lines, and a line into
//! its first two whitespace-separated words. Lines end at a newline byte
//! and drop one trailing carriage return; words are runs of bytes that are
//! not ASCII whitespace.

use vstd::prelude::*;

verus! {

/// An ASCII whitespace byte.
pub open spec fn is_ws_byte(b: u8) -> bool {
    b == 32 || b == 9 || b == 10 || b == 11 || b == 12 || b == 13
}

/// The position of the newline that ends the line starting at `i`, or the
/// end of the data.
pub open spec fn line_end(b: Seq<u8>, i: int) -> int
    decreases b.len() - i when 0 <= i
{
    if i >= b.len() || b[i] == 10 {
        i
    } else {
        line_end(b, i + 1)
    }
}

/// A line end lies between its start and the end of the data, and no
/// newline precedes it.
pub proof fn lemma_line_end_bounds(b: Seq<u8>, i: int)
    requires
        0 <= i,
    ensures
        i <= line_end(b, i),
        line_end(b, i) <= b.len() || i > b.len(),
        line_end(b, i) < b.len() ==> b[line_end(b, i)] == 10,
    decreases b.len() - i,
{
    if i < b.len() && b[i] != 10 {
        lemma_line_end_bounds(b, i + 1);
    }
}

/// A line with one trailing carriage return removed.
pub open spec fn strip_cr(l: Seq<u8>) -> Seq<u8> {
    if l.len() > 0 && l.last() == 13 {
        l.drop_last()
    } else {
        l
    }
}

/// The lines of the data from position `i` on.
pub open spec fn lines_from(b: Seq<u8>, i: int) -> Seq<Seq<u8>>
    decreases b.len() - i when 0 <= i
        via lines_from_dec
{
    if i >= b.len() {
        Seq::empty()
    } else {
        let e = line_end(b, i);
        let next = if e < b.len() { e + 1 } else { e };
        seq![strip_cr(b.subrange(i, e))] + lines_from(b, next)
    }
}

#[via_fn]
proof fn lines_from_dec(b: Seq<u8>, i: int) {
    if 0 <= i && i < b.len() {
        lemma_line_end_bounds(b, i);
    }
}

/// The lines of the whole data.
pub open spec fn spec_lines(b: Seq<u8>) -> Seq<Seq<u8>> {
    lines_from(b, 0)
}

/// Splits the data into its lines.
pub fn split_lines(data: &Vec<u8>) -> (r: Vec<Vec<u8>>)
    ensures
        r@.map_values(|l: Vec<u8>| l@) == spec_lines(data@),
{
    let mut out: Vec<Vec<u8>> = Vec::new();
    let mut i: usize = 0;
    while i < data.len()
        invariant
            i <= data.len(),
            spec_lines(data@) == out@.map_values(|l: Vec<u8>| l@) + lines_from(data@, i as int),
        decreases data.len() - i,
    {
        let mut j: usize = i;
        while j < data.len() && data[j] != 10
            invariant
                i <= j <= data.len(),
                forall|k: int| i <= k < j ==> data@[k] != 10,
            decreases data.len() - j,
        {
            j = j + 1;
        }
        proof {
            lemma_line_end_exact(data@, i as int, j as int);
        }
        let mut line: Vec<u8> = Vec::new();
        let mut k: usize = i;
        while k < j
            invariant
                i <= k <= j <= data.len(),
                line@ == data@.subrange(i as int, k as int),
            decreases j - k,
        {
            line.push(data[k]);
            assert(line@ =~= data@.subrange(i as int, k + 1));
            k = k + 1;
        }
        if line.len() > 0 && line[line.len() - 1] == 13 {
            let _ = line.pop();
            assert(line@ =~= strip_cr(data@.subrange(i as int, j as int)));
        }
        out.push(line);
        assert(out@.map_values(|l: Vec<u8>| l@) =~= out@.map_values(|l: Vec<u8>| l@).take(
            out@.len() - 1,
        ) + seq![out@.last()@]);
        if j < data.len() {
            i = j + 1;
        } else {
            i = j;
        }
    }
    assert(lines_from(data@, i as int) =~= Seq::<Seq<u8>>::empty());
    assert(out@.map_values(|l: Vec<u8>| l@) =~= spec_lines(data@));
    out
}

/// All bytes in `[i, j)` are not newlines and `j` ends the scan: then the
/// line end from `i` is `j`.
proof fn lemma_line_end_exact(b: Seq<u8>, i: int, j: int)
    requires
        0 <= i <= j <= b.len(),
        forall|k: int| i <= k < j ==> b[k] != 10,
        j == b.len() || b[j] == 10,
    ensures
        line_end(b, i) == j,
    decreases j - i,
{
    if i < j {
        lemma_line_end_exact(b, i + 1, j);
    }
}

/// The first position at or after `i` whose byte is not whitespace, or the
/// end of the line.
pub open spec fn skip_ws(l: Seq<u8>, i: int) -> int
    decreases l.len() - i when 0 <= i
{
    if i >= l.len() || !is_ws_byte(l[i]) {
        i
    } else {
        skip_ws(l, i + 1)
    }
}

/// The first position at or after `i` whose byte is whitespace, or the end
/// of the line.
pub open spec fn word_end(l: Seq<u8>, i: int) -> int
    decreases l.len() - i when 0 <= i
{
    if i >= l.len() || is_ws_byte(l[i]) {
        i
    } else {
        word_end(l, i + 1)
    }
}

/// The first two whitespace-separated words of a line, when the line holds
/// at least two; any further words are ignored.
pub open spec fn spec_two_words(l: Seq<u8>) -> Option<(Seq<u8>, Seq<u8>)> {
    let a0 = skip_ws(l, 0);
    if a0 >= l.len() {
        None
    } else {
        let a1 = word_end(l, a0);
        let b0 = skip_ws(l, a1);
        if b0 >= l.len() {
            None
        } else {
            let b1 = word_end(l, b0);
            Some((l.subrange(a0, a1), l.subrange(b0, b1)))
        }
    }
}

/// Scans to the first non-whitespace byte at or after `i`.
fn skip_ws_exec(l: &Vec<u8>, i: usize) -> (r: usize)
    requires
        i <= l.len(),
    ensures
        r == skip_ws(l@, i as int),
        i <= r <= l.len(),
{
    let mut j: usize = i;
    while j < l.len() && (l[j] == 32 || l[j] == 9 || l[j] == 10 || l[j] == 11 || l[j] == 12
        || l[j] == 13)
        invariant
            i <= j <= l.len(),
            skip_ws(l@, i as int) == skip_ws(l@, j as int),
        decreases l.len() - j,
    {
        j = j + 1;
    }
    j
}

/// Scans to the first whitespace byte at or after `i`.
fn word_end_exec(l: &Vec<u8>, i: usize) -> (r: usize)
    requires
        i <= l.len(),
    ensures
        r == word_end(l@, i as int),
        i <= r <= l.len(),
{
    let mut j: usize = i;
    while j < l.len() && !(l[j] == 32 || l[j] == 9 || l[j] == 10 || l[j] == 11 || l[j] == 12
        || l[j] == 13)
        invariant
            i <= j <= l.len(),
            word_end(l@, i as int) == word_end(l@, j as int),
        decreases l.len() - j,
    {
        j = j + 1;
    }
    j
}

/// Copies `l[i..j]` into a fresh vector.
fn sub_bytes(l: &Vec<u8>, i: usize, j: usize) -> (r: Vec<u8>)
    requires
        i <= j <= l.len(),
    ensures
        r@ == l@.subrange(i as int, j as int),
{
    let mut out: Vec<u8> = Vec::new();
    let mut k: usize = i;
    while k < j
        invariant
            i <= k <= j <= l.len(),
            out@ == l@.subrange(i as int, k as int),
        decreases j - k,
    {
        out.push(l[k]);
        assert(out@ =~= l@.subrange(i as int, k + 1));
        k = k + 1;
    }
    out
}

/// Extracts the first two words of a line.
pub fn two_words(l: &Vec<u8>) -> (r: Option<(Vec<u8>, Vec<u8>)>)
    ensures
        match r {
            Some(p) => spec_two_words(l@) == Some((p.0@, p.1@)),
            None => spec_two_words(l@) is None,
        },
{
    let a0 = skip_ws_exec(l, 0);
    if a0 >= l.len() {
        return None;
    }
    let a1 = word_end_exec(l, a0);
    let b0 = skip_ws_exec(l, a1);
    if b0 >= l.len() {
        return None;
    }
    let b1 = word_end_exec(l, b0);
    let first = sub_bytes(l, a0, a1);
    let second = sub_bytes(l, b0, b1);
    Some((first, second))
}

} // verus!
