//! Searching, splitting and joining sequences of characters.

use crate::chars::views;
use vstd::prelude::*;
use vstd::slice::{slice_subrange, slice_to_vec};

verus! {

/// The first index at or after `i` that holds `c`, or `s.len()`.
pub open spec fn find_char(s: Seq<char>, c: char, i: int) -> int
    decreases s.len() - i,
{
    if 0 <= i < s.len() && s[i] != c {
        find_char(s, c, i + 1)
    } else {
        i
    }
}

pub proof fn lemma_find_char(s: Seq<char>, c: char, i: int)
    requires
        0 <= i <= s.len(),
    ensures
        i <= find_char(s, c, i) <= s.len(),
        forall|k: int| i <= k < find_char(s, c, i) ==> #[trigger] s[k] != c,
        find_char(s, c, i) < s.len() ==> s[find_char(s, c, i)] == c,
    decreases s.len() - i,
{
    if i < s.len() && s[i] != c {
        lemma_find_char(s, c, i + 1);
    }
}

pub proof fn lemma_find_char_to(s: Seq<char>, c: char, i: int, j: int)
    requires
        0 <= i <= j <= s.len(),
        forall|k: int| i <= k < j ==> #[trigger] s[k] != c,
        j < s.len() ==> s[j] == c,
    ensures
        find_char(s, c, i) == j,
    decreases j - i,
{
    if i < j {
        lemma_find_char_to(s, c, i + 1, j);
    }
}

/// The first index at or after `i` that holds `c`, or `s.len()`.
pub fn find(s: &[char], c: char, i: usize) -> (e: usize)
    requires
        i <= s.len(),
    ensures
        e == find_char(s@, c, i as int),
        i <= e <= s.len(),
{
    let mut e: usize = i;
    while e < s.len() && s[e] != c
        invariant
            i <= e <= s.len(),
            find_char(s@, c, i as int) == find_char(s@, c, e as int),
        decreases s.len() - e,
    {
        e += 1;
    }
    e
}

/// A copy of `s[a..b]`.
pub fn copy_range(s: &[char], a: usize, b: usize) -> (r: Vec<char>)
    requires
        a <= b <= s.len(),
    ensures
        r@ == s@.subrange(a as int, b as int),
{
    slice_to_vec(slice_subrange(s, a, b))
}

/// The pieces of `s[i..]` between occurrences of `sep`.
pub open spec fn split_from(s: Seq<char>, sep: char, i: int) -> Seq<Seq<char>>
    decreases s.len() - i,
{
    let e = find_char(s, sep, i);
    if 0 <= i && e < s.len() {
        proof {
            lemma_find_char(s, sep, i);
        }
        seq![s.subrange(i, e)] + split_from(s, sep, e + 1)
    } else {
        seq![s.subrange(i, s.len() as int)]
    }
}

/// The pieces of `s` between occurrences of `sep`; one more than there are
/// occurrences.
pub open spec fn spec_split(s: Seq<char>, sep: char) -> Seq<Seq<char>> {
    split_from(s, sep, 0)
}

/// The pieces of `s` between occurrences of `sep`.
pub fn split(s: &[char], sep: char) -> (r: Vec<Vec<char>>)
    ensures
        views(r@) == spec_split(s@, sep),
{
    let mut r: Vec<Vec<char>> = Vec::new();
    let mut i: usize = 0;
    loop
        invariant_except_break
            spec_split(s@, sep) == views(r@) + split_from(s@, sep, i as int),
        invariant
            i <= s.len(),
        ensures
            views(r@) == spec_split(s@, sep),
        decreases s.len() - i,
    {
        let e = find(s, sep, i);
        let end = if e < s.len() {
            e
        } else {
            s.len()
        };
        let piece = copy_range(s, i, end);
        let ghost before = views(r@);
        r.push(piece);
        assert(views(r@) == before.push(piece@));
        if e >= s.len() {
            assert(before + seq![piece@] == before.push(piece@));
            break;
        }
        assert(before + (seq![piece@] + split_from(s@, sep, e + 1)) == before.push(piece@)
            + split_from(s@, sep, e + 1));
        i = e + 1;
    }
    r
}

/// `line` without a final carriage return.
pub open spec fn strip_cr(line: Seq<char>) -> Seq<char> {
    if line.len() > 0 && line.last() == '\r' {
        line.drop_last()
    } else {
        line
    }
}

/// The lines of `s[i..]`.
pub open spec fn lines_from(s: Seq<char>, i: int) -> Seq<Seq<char>>
    decreases s.len() - i,
{
    if 0 <= i < s.len() {
        let e = find_char(s, '\n', i);
        if e < s.len() {
            proof {
                lemma_find_char(s, '\n', i);
            }
            seq![strip_cr(s.subrange(i, e))] + lines_from(s, e + 1)
        } else {
            seq![s.subrange(i, s.len() as int)]
        }
    } else {
        Seq::empty()
    }
}

/// The lines of `s`: the text between line feeds, each without the carriage
/// return that stood before its line feed. A final line feed ends the last
/// line and starts no new one.
pub open spec fn spec_lines(s: Seq<char>) -> Seq<Seq<char>> {
    lines_from(s, 0)
}

/// The lines of `s`.
pub fn lines(s: &[char]) -> (r: Vec<Vec<char>>)
    ensures
        views(r@) == spec_lines(s@),
{
    let mut r: Vec<Vec<char>> = Vec::new();
    let mut i: usize = 0;
    while i < s.len()
        invariant
            i <= s.len(),
            spec_lines(s@) == views(r@) + lines_from(s@, i as int),
        decreases s.len() - i,
    {
        let e = find(s, '\n', i);
        let ghost before = views(r@);
        if e < s.len() {
            let end = if e > i && s[e - 1] == '\r' {
                e - 1
            } else {
                e
            };
            let piece = copy_range(s, i, end);
            assert(piece@ == strip_cr(s@.subrange(i as int, e as int)));
            r.push(piece);
            assert(views(r@) == before.push(piece@));
            assert(before + (seq![piece@] + lines_from(s@, e + 1)) == before.push(piece@)
                + lines_from(s@, e + 1));
            i = e + 1;
        } else {
            let piece = copy_range(s, i, s.len());
            r.push(piece);
            assert(views(r@) == before.push(piece@));
            assert(before + seq![piece@] == before.push(piece@));
            assert(lines_from(s@, s@.len() as int) == Seq::<Seq<char>>::empty());
            assert(before.push(piece@) + Seq::<Seq<char>>::empty() == before.push(piece@));
            i = s.len();
        }
    }
    assert(views(r@) + Seq::<Seq<char>>::empty() == views(r@));
    r
}

/// The pieces in order, with `sep` between neighbours.
pub open spec fn spec_join(parts: Seq<Seq<char>>, sep: Seq<char>) -> Seq<char>
    decreases parts.len(),
{
    if parts.len() == 0 {
        Seq::empty()
    } else if parts.len() == 1 {
        parts[0]
    } else {
        spec_join(parts.drop_last(), sep) + sep + parts.last()
    }
}

/// The pieces from index `from` on, in order, with `sep` between neighbours.
pub fn join_from(parts: &Vec<Vec<char>>, from: usize, sep: &[char]) -> (r: Vec<char>)
    requires
        from <= parts.len(),
    ensures
        r@ == spec_join(views(parts@).skip(from as int), sep@),
{
    let mut r: Vec<char> = Vec::new();
    let mut i: usize = from;
    let ghost all = views(parts@);
    while i < parts.len()
        invariant
            from <= i <= parts.len(),
            all == views(parts@),
            r@ == spec_join(all.subrange(from as int, i as int), sep@),
        decreases parts.len() - i,
    {
        if i > from {
            crate::chars::extend(&mut r, sep);
        }
        crate::chars::extend(&mut r, parts[i].as_slice());
        proof {
            let next = all.subrange(from as int, i + 1);
            assert(next.drop_last() == all.subrange(from as int, i as int));
            assert(next.last() == parts@[i as int]@);
            if i == from {
                assert(r@ == next[0]);
            }
        }
        i += 1;
    }
    assert(all.subrange(from as int, parts.len() as int) == all.skip(from as int));
    r
}

/// The pieces in order, with `sep` between neighbours.
pub fn join(parts: &Vec<Vec<char>>, sep: &[char]) -> (r: Vec<char>)
    ensures
        r@ == spec_join(views(parts@), sep@),
{
    assert(views(parts@).skip(0) == views(parts@));
    join_from(parts, 0, sep)
}

/// Whether `needle` stands in `hay` at index `i`.
pub open spec fn occurs_at(hay: Seq<char>, needle: Seq<char>, i: int) -> bool {
    0 <= i && i + needle.len() <= hay.len() && hay.subrange(i, i + needle.len()) == needle
}

/// Whether `needle` stands somewhere in `hay`.
pub open spec fn spec_contains(hay: Seq<char>, needle: Seq<char>) -> bool {
    exists|i: int| occurs_at(hay, needle, i)
}

/// Whether `needle` stands in `hay` at index `i`.
pub fn matches_at(hay: &[char], needle: &[char], i: usize) -> (b: bool)
    ensures
        b == occurs_at(hay@, needle@, i as int),
{
    if i > hay.len() || needle.len() > hay.len() - i {
        return false;
    }
    let mut k: usize = 0;
    while k < needle.len()
        invariant
            k <= needle.len(),
            i + needle.len() <= hay.len(),
            forall|j: int| 0 <= j < k ==> hay@[i + j] == needle@[j],
        decreases needle.len() - k,
    {
        if hay[i + k] != needle[k] {
            assert(hay@.subrange(i as int, i + needle.len())[k as int] != needle@[k as int]);
            return false;
        }
        k += 1;
    }
    assert(hay@.subrange(i as int, i + needle.len()) =~= needle@);
    true
}

/// The first index at or after `i` where `needle` stands in `hay`, or a value
/// of at least `hay.len()`.
pub open spec fn find_str(hay: Seq<char>, needle: Seq<char>, i: int) -> int
    decreases hay.len() - i,
{
    if 0 <= i < hay.len() && !occurs_at(hay, needle, i) {
        find_str(hay, needle, i + 1)
    } else {
        i
    }
}

pub proof fn lemma_find_str(hay: Seq<char>, needle: Seq<char>, i: int)
    requires
        0 <= i <= hay.len(),
    ensures
        i <= find_str(hay, needle, i) <= hay.len(),
        forall|k: int| i <= k < find_str(hay, needle, i) ==> !occurs_at(hay, needle, k),
        find_str(hay, needle, i) < hay.len() ==> occurs_at(
            hay,
            needle,
            find_str(hay, needle, i),
        ),
    decreases hay.len() - i,
{
    if i < hay.len() && !occurs_at(hay, needle, i) {
        lemma_find_str(hay, needle, i + 1);
    }
}

/// The first index at or after `i` where `needle` stands in `hay`, or
/// `hay.len()`.
pub fn find_in(hay: &[char], needle: &[char], i: usize) -> (e: usize)
    requires
        i <= hay.len(),
    ensures
        e == find_str(hay@, needle@, i as int),
        i <= e <= hay.len(),
{
    let mut e: usize = i;
    while e < hay.len() && !matches_at(hay, needle, e)
        invariant
            i <= e <= hay.len(),
            find_str(hay@, needle@, i as int) == find_str(hay@, needle@, e as int),
        decreases hay.len() - e,
    {
        e += 1;
    }
    e
}

/// Whether `needle` stands somewhere in `hay`.
pub fn contains(hay: &[char], needle: &[char]) -> (b: bool)
    ensures
        b == spec_contains(hay@, needle@),
{
    let e = find_in(hay, needle, 0);
    proof {
        lemma_find_str(hay@, needle@, 0);
    }
    if e < hay.len() {
        true
    } else {
        let b = matches_at(hay, needle, e);
        proof {
            if !b {
                assert forall|k: int| !occurs_at(hay@, needle@, k) by {
                    if 0 <= k < hay@.len() {
                    } else if k == hay@.len() {
                    } else {
                    }
                }
            }
        }
        b
    }
}

/// The pieces of `s[i..]` between occurrences of `sep`, taken from the left
/// without overlap.
pub open spec fn split_str_from(s: Seq<char>, sep: Seq<char>, i: int) -> Seq<Seq<char>>
    decreases s.len() - i,
{
    let e = find_str(s, sep, i);
    if 0 <= i && e < s.len() && sep.len() > 0 {
        proof {
            lemma_find_str(s, sep, i);
        }
        seq![s.subrange(i, e)] + split_str_from(s, sep, e + sep.len())
    } else {
        seq![s.subrange(i, s.len() as int)]
    }
}

/// The pieces of `s` between occurrences of `sep`.
pub open spec fn spec_split_str(s: Seq<char>, sep: Seq<char>) -> Seq<Seq<char>> {
    split_str_from(s, sep, 0)
}

/// The pieces of `s` between occurrences of `sep`.
pub fn split_str(s: &[char], sep: &[char]) -> (r: Vec<Vec<char>>)
    requires
        sep.len() > 0,
    ensures
        views(r@) == spec_split_str(s@, sep@),
{
    let mut r: Vec<Vec<char>> = Vec::new();
    let mut i: usize = 0;
    loop
        invariant_except_break
            spec_split_str(s@, sep@) == views(r@) + split_str_from(s@, sep@, i as int),
        invariant
            i <= s.len(),
            sep.len() > 0,
        ensures
            views(r@) == spec_split_str(s@, sep@),
        decreases s.len() - i,
    {
        let e = find_in(s, sep, i);
        proof {
            lemma_find_str(s@, sep@, i as int);
        }
        let piece = copy_range(s, i, e);
        let ghost before = views(r@);
        r.push(piece);
        assert(views(r@) == before.push(piece@));
        if e >= s.len() {
            assert(before + seq![piece@] == before.push(piece@));
            break;
        }
        assert(before + (seq![piece@] + split_str_from(s@, sep@, e + sep.len()))
            == before.push(piece@) + split_str_from(s@, sep@, e + sep.len()));
        i = e + sep.len();
    }
    r
}

} // verus!
