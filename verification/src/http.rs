//! The transport envelope that an archived response carries: a status line,
//! header lines, a blank line and the body.

use crate::chars::{blank, is_blank, spec_words, to_chars, to_string, views, words};
use crate::decimal::{parse_unsigned, spec_parse_unsigned};
use crate::headers::{fields_from_lines, Headers};
use crate::split::{join_from, lines, spec_join, spec_lines};
use vstd::prelude::*;

verus! {

/// The status code of a status line: its second word, read as an unsigned
/// number of 16 bits.
pub open spec fn spec_status_code(status_line: Seq<char>) -> Option<nat> {
    let w = spec_words(status_line);
    if w.len() >= 2 {
        spec_parse_unsigned(w[1], u16::MAX as nat)
    } else {
        None
    }
}

/// Whether a status line reports success: a status code from 200 to 299.
pub open spec fn spec_is_successful_response(status_line: Seq<char>) -> bool {
    match spec_status_code(status_line) {
        Some(code) => 200 <= code < 300,
        None => false,
    }
}

/// The index of the first blank line at or after `i`, or `lines.len()`.
pub open spec fn first_blank(lines: Seq<Seq<char>>, i: int) -> int
    decreases lines.len() - i,
{
    if 0 <= i < lines.len() && !is_blank(lines[i]) {
        first_blank(lines, i + 1)
    } else {
        i
    }
}

/// The header fields and the body of an envelope. There is one only where
/// the first line reports success and a blank line is followed by at least
/// one more line. The lines between the status line and the first blank line
/// are the header lines; the lines after the blank line, joined by line
/// feeds, are the body.
pub open spec fn spec_parse_envelope(response: Seq<char>) -> Option<
    (Map<Seq<char>, Seq<char>>, Seq<char>),
> {
    let lines = spec_lines(response);
    if lines.len() == 0 || !spec_is_successful_response(lines[0]) {
        None
    } else {
        let gap = first_blank(lines, 0);
        if gap + 1 < lines.len() {
            Some(
                (
                    fields_from_lines(lines.subrange(1, gap)),
                    spec_join(lines.skip(gap + 1), seq!['\n']),
                ),
            )
        } else {
            None
        }
    }
}

/// The body of an envelope, where there is one.
pub open spec fn spec_parse_http_response(response: Seq<char>) -> Option<Seq<char>> {
    match spec_parse_envelope(response) {
        Some((_, body)) => Some(body),
        None => None,
    }
}

/// A document taken out of its envelope.
pub struct DecodedDocument {
    /// The envelope's header fields, by lowercase name.
    pub headers: Headers,
    /// The document itself.
    pub body: String,
}

fn successful_status(status_line: &[char]) -> (ok: bool)
    ensures
        ok == spec_is_successful_response(status_line@),
{
    let w = words(status_line);
    if w.len() < 2 {
        return false;
    }
    assert(views(w@)[1] == w@[1]@);
    match parse_unsigned(w[1].as_slice(), 65535) {
        Some(code) => 200 <= code && code < 300,
        None => false,
    }
}

/// Whether a status line reports success: whether its second word is a
/// status code from 200 to 299.
pub fn is_successful_response(status_line: &str) -> (ok: bool)
    ensures
        ok == spec_is_successful_response(status_line@),
{
    let chars = to_chars(status_line);
    successful_status(chars.as_slice())
}

/// Takes an envelope apart into header fields and body.
pub fn parse_envelope(response: &str) -> (r: Option<DecodedDocument>)
    ensures
        match r {
            Some(document) => spec_parse_envelope(response@) == Some(
                (document.headers@, document.body@),
            ),
            None => spec_parse_envelope(response@) is None,
        },
{
    let chars = to_chars(response);
    let all = lines(chars.as_slice());
    let ghost line_views = views(all@);
    if all.len() == 0 {
        return None;
    }
    assert(line_views[0] == all@[0]@);
    if !successful_status(all[0].as_slice()) {
        return None;
    }
    let mut gap: usize = 0;
    while gap < all.len() && !blank(all[gap].as_slice())
        invariant
            gap <= all.len(),
            line_views == views(all@),
            first_blank(line_views, 0) == first_blank(line_views, gap as int),
        decreases all.len() - gap,
    {
        assert(line_views[gap as int] == all@[gap as int]@);
        gap += 1;
    }
    assert(gap < all.len() ==> line_views[gap as int] == all@[gap as int]@);
    assert(first_blank(line_views, 0) == gap);
    if gap >= all.len() || gap + 1 >= all.len() {
        return None;
    }
    // The status line is not blank, so the gap lies behind it.
    assert(gap >= 1) by {
        if gap == 0 {
            crate::chars::lemma_blank_has_no_words(line_views[0]);
        }
    }
    let mut headers = Headers::new();
    let mut i: usize = 1;
    while i < gap
        invariant
            1 <= i <= gap < all.len(),
            line_views == views(all@),
            headers@ == fields_from_lines(line_views.subrange(1, i as int)),
        decreases gap - i,
    {
        headers.insert_line(all[i].as_slice());
        proof {
            let next = line_views.subrange(1, i + 1);
            assert(next.drop_last() == line_views.subrange(1, i as int));
            assert(next.last() == all@[i as int]@);
        }
        i += 1;
    }
    let mut feed: Vec<char> = Vec::new();
    feed.push('\n');
    assert(feed@ == seq!['\n']);
    let body = join_from(&all, gap + 1, feed.as_slice());
    Some(DecodedDocument { headers, body: to_string(body.as_slice()) })
}

/// The body of an envelope: the lines after its first blank line, where the
/// first line reports success and there is such a line.
pub fn parse_http_response(response: &str) -> (r: Option<String>)
    ensures
        match r {
            Some(body) => spec_parse_http_response(response@) == Some(body@),
            None => spec_parse_http_response(response@) is None,
        },
{
    match parse_envelope(response) {
        Some(document) => Some(document.body),
        None => None,
    }
}

} // verus!
