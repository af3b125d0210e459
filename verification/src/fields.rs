//! Cutting a text into lines and a line into fields.

use vstd::prelude::*;
use crate::text::slice_of;

verus! {

/// The position of the first `c` in `s`, and the length of `s` where `c`
/// does not occur.
pub open spec fn index_of(s: Seq<char>, c: char) -> int
    decreases s.len(),
{
    if s.len() == 0 || s[0] == c {
        0
    } else {
        1 + index_of(s.drop_first(), c)
    }
}

/// The pieces of `s` between the occurrences of `sep`: one more than there
/// are occurrences, so a text without `sep` is its own single piece.
pub open spec fn split(s: Seq<char>, sep: char) -> Seq<Seq<char>>
    decreases s.len(),
{
    let k = index_of(s, sep);
    if 0 <= k < s.len() {
        seq![s.take(k)] + split(s.skip(k + 1), sep)
    } else {
        seq![s]
    }
}

/// The lines of a text: what stands between line feeds. A line feed at the
/// end of the text closes the last line and opens no new one, so the empty
/// text has no line.
pub open spec fn lines(s: Seq<char>) -> Seq<Seq<char>>
    decreases s.len(),
{
    let k = index_of(s, '\n');
    if s.len() == 0 {
        Seq::empty()
    } else if 0 <= k < s.len() {
        seq![s.take(k)] + lines(s.skip(k + 1))
    } else {
        seq![s]
    }
}

/// The first occurrence lies within the text or right behind it, and nothing
/// before it is the character looked for.
pub proof fn lemma_index_of(s: Seq<char>, c: char)
    ensures
        0 <= index_of(s, c) <= s.len(),
        index_of(s, c) < s.len() ==> s[index_of(s, c)] == c,
        forall|i: int| 0 <= i < index_of(s, c) ==> #[trigger] s[i] != c,
    decreases s.len(),
{
    if s.len() == 0 || s[0] == c {
    } else {
        let t = s.drop_first();
        lemma_index_of(t, c);
        assert forall|i: int| 0 <= i < index_of(s, c) implies #[trigger] s[i] != c by {
            if i > 0 {
                assert(t[i - 1] == s[i]);
            }
        }
    }
}

/// Where the first occurrence is: at `k`, if `k` holds the character and
/// nothing before `k` does; behind the text, if nothing holds it.
pub proof fn lemma_index_of_is(s: Seq<char>, c: char, k: int)
    requires
        0 <= k <= s.len(),
        k < s.len() ==> s[k] == c,
        forall|i: int| 0 <= i < k ==> #[trigger] s[i] != c,
    ensures
        index_of(s, c) == k,
{
    lemma_index_of(s, c);
    let j = index_of(s, c);
    if j < k {
        assert(s[j] != c);
    } else if k < j {
        assert(s[k] != c);
    }
}

/// The views of a list of pieces.
pub open spec fn pieces(v: Seq<Vec<char>>) -> Seq<Seq<char>> {
    Seq::new(v.len(), |i: int| v[i]@)
}

/// Looks for the first `c` at or behind position `from`.
pub fn find_char(s: &Vec<char>, from: usize, c: char) -> (k: usize)
    requires
        from <= s.len(),
    ensures
        from <= k <= s.len(),
        k - from == index_of(s@.skip(from as int), c),
{
    let mut k: usize = from;
    while k < s.len() && s[k] != c
        invariant
            from <= k <= s.len(),
            forall|i: int| from <= i < k ==> #[trigger] s@[i] != c,
        decreases s.len() - k,
    {
        k += 1;
    }
    proof {
        let t = s@.skip(from as int);
        assert forall|i: int| 0 <= i < k - from implies #[trigger] t[i] != c by {
            assert(t[i] == s@[from + i]);
        }
        lemma_index_of_is(t, c, k - from);
    }
    k
}

/// Cuts a text at every `sep`.
pub fn split_on(s: &Vec<char>, sep: char) -> (r: Vec<Vec<char>>)
    ensures
        pieces(r@) == split(s@, sep),
{
    let mut out: Vec<Vec<char>> = Vec::new();
    let mut start: usize = 0;
    assert(s@.skip(0) =~= s@);
    loop
        invariant
            start <= s.len(),
            split(s@, sep) == pieces(out@) + split(s@.skip(start as int), sep),
        decreases s.len() - start,
    {
        let k: usize = find_char(s, start, sep);
        let piece = slice_of(s, start, k);
        let ghost rest = s@.skip(start as int);
        let ghost before = pieces(out@);
        assert(rest.take(k - start) =~= s@.subrange(start as int, k as int));
        out.push(piece);
        assert(pieces(out@) =~= before.push(rest.take(k - start)));
        if k == s.len() {
            assert(rest.take(k - start) =~= rest);
            assert(split(s@, sep) =~= pieces(out@));
            return out;
        }
        assert(rest.skip(k - start + 1) =~= s@.skip(k + 1));
        assert(split(s@, sep) =~= pieces(out@) + split(s@.skip(k + 1), sep));
        start = k + 1;
    }
}

/// Cuts a text into its lines.
pub fn split_lines(s: &Vec<char>) -> (r: Vec<Vec<char>>)
    ensures
        pieces(r@) == lines(s@),
{
    let mut out: Vec<Vec<char>> = Vec::new();
    let mut start: usize = 0;
    assert(s@.skip(0) =~= s@);
    assert(pieces(out@) =~= Seq::<Seq<char>>::empty());
    while start < s.len()
        invariant
            start <= s.len(),
            lines(s@) == pieces(out@) + lines(s@.skip(start as int)),
        decreases s.len() - start,
    {
        let k: usize = find_char(s, start, '\n');
        let piece = slice_of(s, start, k);
        let ghost rest = s@.skip(start as int);
        let ghost before = pieces(out@);
        assert(rest.take(k - start) =~= s@.subrange(start as int, k as int));
        out.push(piece);
        assert(pieces(out@) =~= before.push(rest.take(k - start)));
        if k == s.len() {
            assert(rest.take(k - start) =~= rest);
            assert(lines(s@) =~= pieces(out@));
            return out;
        }
        assert(rest.skip(k - start + 1) =~= s@.skip(k + 1));
        assert(lines(s@) =~= pieces(out@) + lines(s@.skip(k + 1)));
        start = k + 1;
    }
    assert(lines(s@) =~= pieces(out@));
    out
}

} // verus!
