//! Regular expressions, and the places of their matches counted in
//! characters.

use vstd::prelude::*;

verus! {

/// The places of the matches of `pattern` in `text`, from the left and
/// without overlap, as byte offsets of start and end; `None` where the
/// pattern is no regular expression.
pub uninterp spec fn regex_spans(pattern: Seq<char>, text: Seq<char>) -> Option<
    Seq<(usize, usize)>,
>;

/// Whether `pattern` matches somewhere in `text`; `None` where the pattern
/// is no regular expression.
pub uninterp spec fn regex_is_match(pattern: Seq<char>, text: Seq<char>) -> Option<bool>;

/// `text` with each match of `pattern` replaced by `replacement`, in which
/// `$1` and the like stand for what the groups matched; `None` where the
/// pattern is no regular expression.
pub uninterp spec fn regex_replace_all(
    pattern: Seq<char>,
    text: Seq<char>,
    replacement: Seq<char>,
) -> Option<Seq<char>>;

/// Compiles the pattern with `regex::Regex::new` and walks
/// `Regex::find_iter` over the text, handing out `Match::start` and
/// `Match::end` of each match. The claim is only that the answer depends on
/// pattern and text alone.
#[verifier::external_body]
pub(crate) fn find_spans(pattern: &str, text: &str) -> (r: Option<Vec<(usize, usize)>>)
    ensures
        match r {
            Some(spans) => regex_spans(pattern@, text@) == Some(spans@),
            None => regex_spans(pattern@, text@) is None,
        },
{
    let re = regex::Regex::new(pattern).ok()?;
    Some(re.find_iter(text).map(|m| (m.start(), m.end())).collect())
}

/// Compiles the pattern with `regex::Regex::new` and asks
/// `Regex::is_match`. The claim is only that the answer depends on pattern
/// and text alone.
#[verifier::external_body]
pub(crate) fn is_match(pattern: &str, text: &str) -> (r: Option<bool>)
    ensures
        r == regex_is_match(pattern@, text@),
{
    let re = regex::Regex::new(pattern).ok()?;
    Some(re.is_match(text))
}

/// Compiles the pattern with `regex::Regex::new` and calls
/// `Regex::replace_all`. The claim is only that the answer depends on
/// pattern, text and replacement alone.
#[verifier::external_body]
pub(crate) fn replace_all(pattern: &str, text: &str, replacement: &str) -> (r: Option<String>)
    ensures
        match r {
            Some(replaced) => regex_replace_all(pattern@, text@, replacement@) == Some(
                replaced@,
            ),
            None => regex_replace_all(pattern@, text@, replacement@) is None,
        },
{
    let re = regex::Regex::new(pattern).ok()?;
    Some(re.replace_all(text, replacement).into_owned())
}

/// How many bytes `c` takes in UTF-8.
pub open spec fn utf8_len(c: char) -> nat {
    let u = c as u32;
    if u < 0x80 {
        1
    } else if u < 0x800 {
        2
    } else if u < 0x10000 {
        3
    } else {
        4
    }
}

/// How many bytes the first `k` characters of `text` take in UTF-8.
pub open spec fn byte_offset(text: Seq<char>, k: int) -> nat
    decreases k,
{
    if k <= 0 {
        0
    } else {
        byte_offset(text, k - 1) + utf8_len(text[k - 1])
    }
}

/// Whether the byte offset `b` falls between two characters of `text`, or
/// at its start or end.
pub open spec fn is_boundary(text: Seq<char>, b: int) -> bool {
    exists|k: int| 0 <= k <= text.len() && #[trigger] byte_offset(text, k) == b
}

/// How many characters stand before the byte offset `b`.
pub open spec fn char_index(text: Seq<char>, b: int) -> int {
    choose|k: int| 0 <= k <= text.len() && #[trigger] byte_offset(text, k) == b
}

/// Whether the spans lie on character boundaries, each ending no earlier
/// than it starts and starting no earlier than the one before it ends.
pub open spec fn spans_in_order(text: Seq<char>, spans: Seq<(usize, usize)>) -> bool {
    forall|i: int|
        0 <= i < spans.len() ==> {
            &&& (#[trigger] spans[i]).0 <= spans[i].1
            &&& is_boundary(text, spans[i].0 as int)
            &&& is_boundary(text, spans[i].1 as int)
            &&& i > 0 ==> spans[i - 1].1 <= spans[i].0
        }
}

/// The spans, counted in characters in place of bytes; `None` where they
/// are not in order.
pub open spec fn spec_char_spans(text: Seq<char>, spans: Seq<(usize, usize)>) -> Option<
    Seq<(usize, usize)>,
> {
    if spans_in_order(text, spans) {
        Some(
            Seq::new(
                spans.len(),
                |i: int|
                    (
                        char_index(text, spans[i].0 as int) as usize,
                        char_index(text, spans[i].1 as int) as usize,
                    ),
            ),
        )
    } else {
        None
    }
}

/// Whether the spans, counted in characters, lie within a text of `len`
/// characters, one behind the other.
pub open spec fn valid_spans(len: nat, spans: Seq<(usize, usize)>) -> bool {
    forall|i: int|
        0 <= i < spans.len() ==> {
            &&& (#[trigger] spans[i]).0 <= spans[i].1 <= len
            &&& i > 0 ==> spans[i - 1].1 <= spans[i].0
        }
}

pub proof fn lemma_byte_offset_increasing(text: Seq<char>, i: int, j: int)
    requires
        0 <= i <= j <= text.len(),
    ensures
        byte_offset(text, i) + (j - i) <= byte_offset(text, j),
        byte_offset(text, j) <= byte_offset(text, i) + 4 * (j - i),
    decreases j - i,
{
    if i < j {
        lemma_byte_offset_increasing(text, i, j - 1);
    }
}

/// A boundary has one character index.
pub proof fn lemma_char_index(text: Seq<char>, k: int)
    requires
        0 <= k <= text.len(),
    ensures
        is_boundary(text, byte_offset(text, k) as int),
        char_index(text, byte_offset(text, k) as int) == k,
{
    let b = byte_offset(text, k) as int;
    let other = char_index(text, b);
    if other < k {
        lemma_byte_offset_increasing(text, other, k);
    } else if k < other {
        lemma_byte_offset_increasing(text, k, other);
    }
}

/// No boundary lies strictly between two neighbouring ones, nor behind the
/// last.
proof fn lemma_no_boundary(text: Seq<char>, k: int, b: int)
    requires
        0 <= k <= text.len(),
        byte_offset(text, k) > b,
        k > 0 ==> byte_offset(text, k - 1) < b,
        k == 0 ==> b < 0,
    ensures
        !is_boundary(text, b),
{
    assert forall|j: int| 0 <= j <= text.len() implies #[trigger] byte_offset(text, j) != b by {
        if j >= k {
            lemma_byte_offset_increasing(text, k, j);
        } else {
            lemma_byte_offset_increasing(text, j, k - 1);
        }
    }
}

proof fn lemma_beyond_end(text: Seq<char>, b: int)
    requires
        byte_offset(text, text.len() as int) < b,
    ensures
        !is_boundary(text, b),
{
    assert forall|j: int| 0 <= j <= text.len() implies #[trigger] byte_offset(text, j) != b by {
        lemma_byte_offset_increasing(text, j, text.len() as int);
    }
}

/// How many bytes `c` takes in UTF-8.
fn encoded_len(c: char) -> (n: u128)
    ensures
        n == utf8_len(c),
{
    let u: u32 = c as u32;
    if u < 0x80 {
        1
    } else if u < 0x800 {
        2
    } else if u < 0x10000 {
        3
    } else {
        4
    }
}

/// Walks on from character `k` at byte `b` to the byte offset `target`.
fn advance(text: &[char], from: usize, at: u128, target: usize) -> (r: Option<(usize, u128)>)
    requires
        from <= text.len(),
        at == byte_offset(text@, from as int),
        at <= target,
    ensures
        r is Some <==> is_boundary(text@, target as int),
        r matches Some((index, offset)) ==> index == char_index(text@, target as int) && offset
            == target && from <= index <= text.len() && offset == byte_offset(
            text@,
            index as int,
        ),
{
    let mut k: usize = from;
    let mut b: u128 = at;
    while k < text.len() && b < target as u128
        invariant
            from <= k <= text.len(),
            b == byte_offset(text@, k as int),
            b > target ==> k > 0 && byte_offset(text@, k - 1) < target,
        decreases text.len() - k,
    {
        proof {
            lemma_byte_offset_increasing(text@, 0, k as int);
        }
        b = b + encoded_len(text[k]);
        k += 1;
    }
    proof {
        if b == target {
            lemma_char_index(text@, k as int);
        } else if b > target {
            lemma_no_boundary(text@, k as int, target as int);
        } else {
            lemma_beyond_end(text@, target as int);
        }
    }
    if b == target as u128 {
        Some((k, b))
    } else {
        None
    }
}

/// Counts the spans in characters in place of bytes.
pub fn char_spans(text: &[char], spans: &Vec<(usize, usize)>) -> (r: Option<Vec<(usize, usize)>>)
    ensures
        match r {
            Some(counted) => spec_char_spans(text@, spans@) == Some(counted@) && valid_spans(
                text@.len(),
                counted@,
            ),
            None => spec_char_spans(text@, spans@) is None,
        },
{
    let mut out: Vec<(usize, usize)> = Vec::new();
    let mut k: usize = 0;
    let mut b: u128 = 0;
    let mut i: usize = 0;
    while i < spans.len()
        invariant
            i <= spans.len(),
            k <= text.len(),
            b == byte_offset(text@, k as int),
            i > 0 ==> b == spans@[i - 1].1 && out@[i - 1].1 == k,
            i == 0 ==> b == 0,
            spans_in_order(text@, spans@.take(i as int)),
            out@.len() == i,
            valid_spans(text@.len(), out@),
            forall|j: int|
                0 <= j < i ==> (#[trigger] out@[j]) == (
                    char_index(text@, spans@[j].0 as int) as usize,
                    char_index(text@, spans@[j].1 as int) as usize,
                ),
        decreases spans.len() - i,
    {
        let (start, end) = spans[i];
        if (start as u128) < b || end < start {
            assert(!spans_in_order(text@, spans@)) by {
                assert(spans@[i as int] == (start, end));
            }
            return None;
        }
        let (ks, bs) = match advance(text, k, b, start) {
            Some(at) => at,
            None => {
                assert(!spans_in_order(text@, spans@)) by {
                    assert(spans@[i as int] == (start, end));
                }
                return None;
            },
        };
        let (ke, be) = match advance(text, ks, bs, end) {
            Some(at) => at,
            None => {
                assert(!spans_in_order(text@, spans@)) by {
                    assert(spans@[i as int] == (start, end));
                }
                return None;
            },
        };
        let ghost before = out@;
        out.push((ks, ke));
        proof {
            let next = spans@.take(i + 1);
            assert forall|j: int| 0 <= j < next.len() implies ({
                &&& (#[trigger] next[j]).0 <= next[j].1
                &&& is_boundary(text@, next[j].0 as int)
                &&& is_boundary(text@, next[j].1 as int)
                &&& j > 0 ==> next[j - 1].1 <= next[j].0
            }) by {
                if j < i {
                    assert(spans@.take(i as int)[j] == next[j]);
                    if j > 0 {
                        assert(spans@.take(i as int)[j - 1] == next[j - 1]);
                    }
                }
            }
            assert forall|j: int| 0 <= j < out@.len() implies ({
                &&& (#[trigger] out@[j]).0 <= out@[j].1 <= text@.len()
                &&& j > 0 ==> out@[j - 1].1 <= out@[j].0
            }) by {
                if j < i {
                    assert(out@[j] == before[j]);
                    if j > 0 {
                        assert(out@[j - 1] == before[j - 1]);
                    }
                } else if j > 0 {
                    assert(out@[j - 1] == before[j - 1]);
                }
            }
        }
        k = ke;
        b = be;
        i += 1;
    }
    proof {
        assert(spans@.take(spans@.len() as int) == spans@);
        assert(out@ =~= spec_char_spans(text@, spans@)->0);
    }
    Some(out)
}

} // verus!
