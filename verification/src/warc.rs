//! Framing of an archive: records that each start with a marker line, go on
//! with header lines up to a blank line, and end with a payload of declared
//! length and two bytes that separate the record from the next.

use crate::chars::{blank, extend, is_blank, spec_trim, to_chars, to_string, trim};
use crate::decimal::{parse_unsigned, spec_parse_unsigned};
use crate::headers::{header_field, same_text, Headers};
use vstd::prelude::*;
use vstd::slice::slice_subrange;
use vstd::utf8::{decode_utf8, valid_utf8};

verus! {

/// Reads UTF-8 with `core::str::from_utf8`: there is a text exactly where
/// the bytes are valid UTF-8, and it is the text that they encode.
#[verifier::external_body]
pub(crate) fn utf8_text(bytes: &[u8]) -> (r: Option<&str>)
    ensures
        r is Some <==> valid_utf8(bytes@),
        r matches Some(text) ==> text@ == decode_utf8(bytes@),
{
    core::str::from_utf8(bytes).ok()
}

/// One record of an archive.
pub struct WarcRecord {
    /// The header fields by lowercase name. There is always a
    /// `content-length`, and it spells the length of `content`.
    pub header: Headers,
    /// The payload, as it stands in the archive.
    pub content: Vec<u8>,
}

/// Why no record came out.
#[derive(Clone, Copy, Debug, PartialEq, Eq)]
pub enum WarcError {
    /// The input ended inside a record. Nothing can follow.
    Truncated,
    /// A header line is not valid UTF-8. The input up to and with that line
    /// is given up; the search for the next marker goes on behind it.
    HeaderNotText,
}

/// What a call for the next record found.
pub enum Step {
    /// A whole record.
    Record(WarcRecord),
    /// No whole record yet; more input may complete one.
    NeedInput,
    /// The input is closed and holds no further record.
    End,
}

/// The first index at or after `i` that holds `b`, or `input.len()`.
pub open spec fn find_byte(input: Seq<u8>, b: u8, i: int) -> int
    decreases input.len() - i,
{
    if 0 <= i < input.len() && input[i] != b {
        find_byte(input, b, i + 1)
    } else {
        i
    }
}

pub proof fn lemma_find_byte(input: Seq<u8>, b: u8, i: int)
    requires
        0 <= i <= input.len(),
    ensures
        i <= find_byte(input, b, i) <= input.len(),
        forall|k: int| i <= k < find_byte(input, b, i) ==> #[trigger] input[k] != b,
        find_byte(input, b, i) < input.len() ==> input[find_byte(input, b, i)] == b,
    decreases input.len() - i,
{
    if i < input.len() && input[i] != b {
        lemma_find_byte(input, b, i + 1);
    }
}

pub proof fn lemma_find_byte_to(input: Seq<u8>, b: u8, i: int, j: int)
    requires
        0 <= i <= j <= input.len(),
        forall|k: int| i <= k < j ==> #[trigger] input[k] != b,
        j < input.len() ==> input[j] == b,
    ensures
        find_byte(input, b, i) == j,
    decreases j - i,
{
    if i < j {
        lemma_find_byte_to(input, b, i + 1, j);
    }
}

/// Whether the line that starts at `i` ends in a line feed.
pub open spec fn line_complete(input: Seq<u8>, i: int) -> bool {
    find_byte(input, 10, i) < input.len()
}

/// Where the line that starts at `i` ends: behind its line feed, or at the
/// end of the input where there is none.
pub open spec fn line_end(input: Seq<u8>, i: int) -> int {
    if line_complete(input, i) {
        find_byte(input, 10, i) + 1
    } else {
        input.len() as int
    }
}

/// Whether a line is the marker that starts a record: whether it is text
/// that, trimmed, reads `WARC/1.0`.
pub open spec fn is_marker_line(line: Seq<u8>) -> bool {
    valid_utf8(line) && spec_trim(decode_utf8(line)) == "WARC/1.0"@
}

/// The fields with the one that `text` holds, if it holds one.
pub open spec fn add_field(fields: Map<Seq<char>, Seq<char>>, text: Seq<char>) -> Map<
    Seq<char>,
    Seq<char>,
> {
    match header_field(text) {
        Some((name, value)) => fields.insert(name, value),
        None => fields,
    }
}

/// How the reading of a header block ended.
pub enum HeaderBlock {
    /// At a blank line, or at the end of closed input: the fields read, and
    /// where the payload starts.
    Complete { fields: Map<Seq<char>, Seq<char>>, end: int },
    /// The input ran out and is not closed.
    Incomplete,
    /// The line that ends at `end` is not valid UTF-8.
    NotText { end: int },
}

/// Reads header lines from `i` on, adding their fields to `fields`, up to
/// the first blank line.
pub open spec fn header_block(
    input: Seq<u8>,
    closed: bool,
    i: int,
    fields: Map<Seq<char>, Seq<char>>,
) -> HeaderBlock
    decreases input.len() - i,
{
    if !(0 <= i < input.len()) {
        if closed {
            HeaderBlock::Complete { fields, end: input.len() as int }
        } else {
            HeaderBlock::Incomplete
        }
    } else if !line_complete(input, i) && !closed {
        HeaderBlock::Incomplete
    } else {
        let end = line_end(input, i);
        let line = input.subrange(i, end);
        proof {
            lemma_find_byte(input, 10, i);
        }
        if !valid_utf8(line) {
            HeaderBlock::NotText { end }
        } else if is_blank(decode_utf8(line)) {
            HeaderBlock::Complete { fields, end }
        } else {
            header_block(input, closed, end, add_field(fields, decode_utf8(line)))
        }
    }
}

/// The payload length that the fields declare: what `content-length`
/// spells, or 0 where there is no such field or it spells no number.
pub open spec fn declared_length(fields: Map<Seq<char>, Seq<char>>) -> nat {
    if fields.contains_key("content-length"@) {
        match spec_parse_unsigned(fields["content-length"@], usize::MAX as nat) {
            Some(n) => n,
            None => 0,
        }
    } else {
        0
    }
}

/// The fields, with a `content-length` of `0` where they declare none.
pub open spec fn with_declared_length(fields: Map<Seq<char>, Seq<char>>) -> Map<
    Seq<char>,
    Seq<char>,
> {
    if fields.contains_key("content-length"@) && spec_parse_unsigned(
        fields["content-length"@],
        usize::MAX as nat,
    ) is Some {
        fields
    } else {
        fields.insert("content-length"@, "0"@)
    }
}

/// What the front of an input holds.
pub enum Framing {
    /// A record, and how many bytes it and what stands before it take.
    Record { header: Map<Seq<char>, Seq<char>>, content: Seq<u8>, consumed: int },
    /// No whole record, in input that is not closed. The first `consumed`
    /// bytes hold no marker and are done with.
    NeedInput { consumed: int },
    /// No marker, in input that is closed.
    End,
    /// A marker, and then the end of closed input before the record's end.
    Truncated,
    /// A marker, and then within the first `consumed` bytes a header line
    /// that is not valid UTF-8.
    HeaderNotText { consumed: int },
}

/// The record whose marker line is `input[start..i]`.
pub open spec fn record_at(input: Seq<u8>, closed: bool, start: int, i: int) -> Framing {
    match header_block(input, closed, i, Map::empty()) {
        HeaderBlock::Incomplete => Framing::NeedInput { consumed: start },
        HeaderBlock::NotText { end } => Framing::HeaderNotText { consumed: end },
        HeaderBlock::Complete { fields, end } => {
            let n = declared_length(fields);
            if end + n + 2 <= input.len() {
                Framing::Record {
                    header: with_declared_length(fields),
                    content: input.subrange(end, end + n),
                    consumed: end + n + 2,
                }
            } else if closed {
                Framing::Truncated
            } else {
                Framing::NeedInput { consumed: start }
            }
        },
    }
}

/// Skips lines from `i` on up to the first marker line and reads the record
/// that it starts.
pub open spec fn frame_from(input: Seq<u8>, closed: bool, i: int) -> Framing
    decreases input.len() - i,
{
    if !(0 <= i < input.len()) {
        if closed {
            Framing::End
        } else {
            Framing::NeedInput { consumed: input.len() as int }
        }
    } else if !line_complete(input, i) && !closed {
        Framing::NeedInput { consumed: i }
    } else {
        let end = line_end(input, i);
        proof {
            lemma_find_byte(input, 10, i);
        }
        if is_marker_line(input.subrange(i, end)) {
            record_at(input, closed, i, end)
        } else {
            frame_from(input, closed, end)
        }
    }
}

/// What the front of `input` holds: the first record, if it is all there.
pub open spec fn frame(input: Seq<u8>, closed: bool) -> Framing {
    frame_from(input, closed, 0)
}

/// The end of the line that starts at `i`.
fn end_of_line(input: &[u8], i: usize) -> (r: (usize, bool))
    requires
        i < input.len(),
    ensures
        r.0 == line_end(input@, i as int),
        r.1 == line_complete(input@, i as int),
        i < r.0 <= input.len(),
{
    let mut e: usize = i;
    while e < input.len() && input[e] != 10
        invariant
            i <= e <= input.len(),
            find_byte(input@, 10, i as int) == find_byte(input@, 10, e as int),
        decreases input.len() - e,
    {
        e += 1;
    }
    if e < input.len() {
        (e + 1, true)
    } else {
        (e, false)
    }
}

/// How the reading of a header block ended.
enum Block {
    Complete(Headers, usize),
    Incomplete,
    NotText(usize),
}

fn read_header_block(input: &[u8], closed: bool, start: usize) -> (r: Block)
    requires
        start <= input.len(),
    ensures
        match header_block(input@, closed, start as int, Map::empty()) {
            HeaderBlock::Complete { fields, end } => r matches Block::Complete(h, e) && h@
                == fields && e == end && e <= input.len(),
            HeaderBlock::Incomplete => r is Incomplete,
            HeaderBlock::NotText { end } => r matches Block::NotText(e) && e == end && e
                <= input.len(),
        },
{
    let mut headers = Headers::new();
    let mut i: usize = start;
    loop
        invariant
            start <= i <= input.len(),
            header_block(input@, closed, start as int, Map::empty()) == header_block(
                input@,
                closed,
                i as int,
                headers@,
            ),
        decreases input.len() - i,
    {
        if i >= input.len() {
            if closed {
                return Block::Complete(headers, i);
            } else {
                return Block::Incomplete;
            }
        }
        let (end, complete) = end_of_line(input, i);
        if !complete && !closed {
            return Block::Incomplete;
        }
        let text = match utf8_text(slice_subrange(input, i, end)) {
            Some(text) => text,
            None => { return Block::NotText(end); },
        };
        let line = to_chars(text);
        if blank(line.as_slice()) {
            return Block::Complete(headers, end);
        }
        headers.insert_line(line.as_slice());
        i = end;
    }
}

/// The payload length that the fields declare.
fn declared(headers: &Headers) -> (r: Option<usize>)
    ensures
        r is Some <==> headers@.contains_key("content-length"@) && spec_parse_unsigned(
            headers@["content-length"@],
            usize::MAX as nat,
        ) is Some,
        r matches Some(n) ==> n == declared_length(headers@),
{
    match headers.get("content-length") {
        Some(value) => {
            let digits = to_chars(value.as_str());
            match parse_unsigned(digits.as_slice(), usize::MAX as u64) {
                Some(n) => Some(n as usize),
                None => None,
            }
        },
        None => None,
    }
}

/// Reads the first record of `input`: what was found, and how many bytes
/// are done with.
pub fn take_frame(input: &[u8], closed: bool) -> (r: (Result<Step, WarcError>, usize))
    ensures
        r.1 <= input.len(),
        match frame(input@, closed) {
            Framing::Record { header, content, consumed } => r.0 matches Ok(Step::Record(record))
                && record.header@ == header && record.content@ == content && r.1 == consumed,
            Framing::NeedInput { consumed } => r.0 matches Ok(Step::NeedInput) && r.1
                == consumed,
            Framing::End => r.0 matches Ok(Step::End) && r.1 == input.len(),
            Framing::Truncated => r.0 == Err::<Step, WarcError>(WarcError::Truncated) && r.1
                == input.len(),
            Framing::HeaderNotText { consumed } => r.0 == Err::<Step, WarcError>(
                WarcError::HeaderNotText,
            ) && r.1 == consumed,
        },
{
    let mut i: usize = 0;
    loop
        invariant
            i <= input.len(),
            frame(input@, closed) == frame_from(input@, closed, i as int),
        decreases input.len() - i,
    {
        if i >= input.len() {
            if closed {
                return (Ok(Step::End), i);
            } else {
                return (Ok(Step::NeedInput), i);
            }
        }
        let (end, complete) = end_of_line(input, i);
        if !complete && !closed {
            return (Ok(Step::NeedInput), i);
        }
        let is_marker = match utf8_text(slice_subrange(input, i, end)) {
            Some(text) => {
                let line = to_chars(text);
                let word = to_string(trim(line.as_slice()));
                same_text(word.as_str(), "WARC/1.0")
            },
            None => false,
        };
        if is_marker {
            match read_header_block(input, closed, end) {
                Block::Incomplete => {
                    return (Ok(Step::NeedInput), i);
                },
                Block::NotText(e) => {
                    return (Err(WarcError::HeaderNotText), e);
                },
                Block::Complete(mut header, body) => {
                    let n = match declared(&header) {
                        Some(n) => n,
                        None => {
                            header.insert("content-length".to_owned(), "0".to_owned());
                            0
                        },
                    };
                    let left = input.len() - body;
                    if left >= 2 && n <= left - 2 {
                        let mut content: Vec<u8> = Vec::new();
                        extend(&mut content, slice_subrange(input, body, body + n));
                        return (Ok(Step::Record(WarcRecord { header, content })), body + n + 2);
                    } else if closed {
                        return (Err(WarcError::Truncated), input.len());
                    } else {
                        return (Ok(Step::NeedInput), i);
                    }
                },
            }
        }
        i = end;
    }
}

/// Cuts records out of an archive that comes in piece by piece.
pub struct WarcParser {
    buffer: Vec<u8>,
    closed: bool,
}

impl WarcParser {
    /// The input that has come in and is not done with.
    pub closed spec fn pending(&self) -> Seq<u8> {
        self.buffer@
    }

    /// Whether the input has been closed.
    pub closed spec fn is_closed(&self) -> bool {
        self.closed
    }

    /// A parser with no input yet.
    pub fn new() -> (parser: Self)
        ensures
            parser.pending() == Seq::<u8>::empty(),
            !parser.is_closed(),
    {
        WarcParser { buffer: Vec::new(), closed: false }
    }

    /// Takes in the next piece of the archive.
    pub fn feed(&mut self, bytes: &[u8])
        ensures
            final(self).pending() == old(self).pending() + bytes@,
            final(self).is_closed() == old(self).is_closed(),
    {
        extend(&mut self.buffer, bytes);
    }

    /// Says that no more input will come.
    pub fn close(&mut self)
        ensures
            final(self).pending() == old(self).pending(),
            final(self).is_closed(),
    {
        self.closed = true;
    }

    /// How many bytes have come in and are not done with.
    pub fn buffered(&self) -> (n: usize)
        ensures
            n == self.pending().len(),
    {
        self.buffer.len()
    }

    /// Looks for the next record in the input that has come in. Lines before
    /// the first marker are skipped. A record comes out once all of it is
    /// there: marker line, header lines, blank line, payload and the
    /// two-byte separator; it and what stood before it leave the input.
    /// Where the input ends before that, the answer is `NeedInput` and the
    /// unfinished record stays, or, once the input is closed, `Truncated`.
    pub fn next_record(&mut self) -> (r: Result<Step, WarcError>)
        ensures
            final(self).is_closed() == old(self).is_closed(),
            match frame(old(self).pending(), old(self).is_closed()) {
                Framing::Record { header, content, consumed } => r matches Ok(
                    Step::Record(record),
                ) && record.header@ == header && record.content@ == content && final(self).pending() == old(self).pending().skip(consumed),
                Framing::NeedInput { consumed } => r matches Ok(Step::NeedInput) && final(self).pending() == old(self).pending().skip(consumed),
                Framing::End => r matches Ok(Step::End) && final(self).pending() == Seq::<
                    u8,
                >::empty(),
                Framing::Truncated => r == Err::<Step, WarcError>(WarcError::Truncated) && final(self).pending() == Seq::<u8>::empty(),
                Framing::HeaderNotText { consumed } => r == Err::<Step, WarcError>(
                    WarcError::HeaderNotText,
                ) && final(self).pending() == old(self).pending().skip(consumed),
            },
    {
        let (r, consumed) = take_frame(self.buffer.as_slice(), self.closed);
        if consumed > 0 {
            let rest = self.buffer.split_off(consumed);
            self.buffer = rest;
        }
        proof {
            assert(old(self).pending().skip(0) == old(self).pending());
            assert(old(self).pending().skip(old(self).pending().len() as int) == Seq::<
                u8,
            >::empty());
            assert(old(self).pending().skip(consumed as int) == old(self).pending().subrange(
                consumed as int,
                old(self).pending().len() as int,
            ));
        }
        r
    }
}

/// A line that is complete stays the same line when more input follows.
proof fn lemma_line_is_final(input: Seq<u8>, more: Seq<u8>, i: int)
    requires
        0 <= i <= input.len(),
        line_complete(input, i),
    ensures
        line_complete(input + more, i),
        line_end(input + more, i) == line_end(input, i),
        (input + more).subrange(i, line_end(input, i)) == input.subrange(i, line_end(input, i)),
        i < line_end(input, i) <= input.len(),
{
    lemma_find_byte(input, 10, i);
    let feed = find_byte(input, 10, i);
    assert forall|k: int| i <= k < feed implies #[trigger] (input + more)[k] != 10u8 by {
        assert((input + more)[k] == input[k]);
    }
    assert((input + more)[feed] == input[feed]);
    lemma_find_byte_to(input + more, 10, i, feed);
    assert((input + more).subrange(i, feed + 1) =~= input.subrange(i, feed + 1));
}

/// A header block that has been read to its end, or to a line that is no
/// text, reads the same when more input follows.
proof fn lemma_header_block_is_final(
    input: Seq<u8>,
    more: Seq<u8>,
    closed: bool,
    i: int,
    fields: Map<Seq<char>, Seq<char>>,
)
    requires
        0 <= i <= input.len(),
        !(header_block(input, false, i, fields) is Incomplete),
    ensures
        header_block(input + more, closed, i, fields) == header_block(input, false, i, fields),
        header_block(input, false, i, fields) matches HeaderBlock::Complete { end, .. } ==> i
            <= end <= input.len(),
    decreases input.len() - i,
{
    if i < input.len() && line_complete(input, i) {
        lemma_line_is_final(input, more, i);
        let end = line_end(input, i);
        let line = input.subrange(i, end);
        if valid_utf8(line) && !is_blank(decode_utf8(line)) {
            lemma_header_block_is_final(
                input,
                more,
                closed,
                end,
                add_field(fields, decode_utf8(line)),
            );
        }
    }
}

/// What an open parser hands out does not hang on what comes later: a
/// record, or the finding of a header line that is no text, reads the same
/// whatever input follows, and whether or not the input is then closed.
/// And lines that an open parser has passed over stay passed over.
pub proof fn lemma_frame_is_final(input: Seq<u8>, more: Seq<u8>, closed: bool, i: int)
    requires
        0 <= i <= input.len(),
    ensures
        match frame_from(input, false, i) {
            Framing::Record { header, content, consumed } => frame_from(input + more, closed, i)
                == frame_from(input, false, i),
            Framing::HeaderNotText { consumed } => frame_from(input + more, closed, i)
                == frame_from(input, false, i),
            Framing::NeedInput { consumed } => i <= consumed <= input.len() && frame_from(
                input + more,
                closed,
                i,
            ) == frame_from(input + more, closed, consumed),
            Framing::End => false,
            Framing::Truncated => false,
        },
    decreases input.len() - i,
{
    if i < input.len() && line_complete(input, i) {
        lemma_line_is_final(input, more, i);
        let end = line_end(input, i);
        if is_marker_line(input.subrange(i, end)) {
            if !(header_block(input, false, end, Map::empty()) is Incomplete) {
                lemma_header_block_is_final(input, more, closed, end, Map::empty());
                match header_block(input, false, end, Map::empty()) {
                    HeaderBlock::Complete { fields, end: body } => {
                        let n = declared_length(fields);
                        if body + n + 2 <= input.len() {
                            assert((input + more).subrange(body, body + n) =~= input.subrange(
                                body,
                                body + n,
                            ));
                        }
                    },
                    _ => {},
                }
            }
        } else {
            lemma_frame_is_final(input, more, closed, end);
        }
    }
}

/// A record's header always declares a length, and it is the length of
/// the record's content.
pub proof fn lemma_record_declares_its_length(input: Seq<u8>, closed: bool, i: int)
    requires
        0 <= i <= input.len(),
    ensures
        frame_from(input, closed, i) matches Framing::Record { header, content, consumed }
            ==> header.contains_key("content-length"@) && spec_parse_unsigned(
            header["content-length"@],
            usize::MAX as nat,
        ) == Some(content.len()) && i < consumed <= input.len(),
    decreases input.len() - i,
{
    if i < input.len() && (line_complete(input, i) || closed) {
        lemma_find_byte(input, 10, i);
        let end = line_end(input, i);
        if is_marker_line(input.subrange(i, end)) {
            match header_block(input, closed, end, Map::empty()) {
                HeaderBlock::Complete { fields, end: body } => {
                    lemma_header_block_end(input, closed, end, Map::empty());
                    reveal_strlit("0");
                    let zero = "0"@;
                    assert(zero.drop_last() =~= Seq::<char>::empty());
                    assert(crate::decimal::decimal_value(zero.drop_last()) == 0);
                    assert(crate::decimal::decimal_value(zero) == 0);
                    assert(crate::decimal::unsigned_digits(zero) == zero);
                    assert(crate::decimal::all_digits(zero));
                },
                _ => {},
            }
        } else {
            lemma_record_declares_its_length(input, closed, end);
        }
    }
}

/// A header block ends no earlier than it starts, and within the input.
proof fn lemma_header_block_end(
    input: Seq<u8>,
    closed: bool,
    i: int,
    fields: Map<Seq<char>, Seq<char>>,
)
    requires
        0 <= i <= input.len(),
    ensures
        header_block(input, closed, i, fields) matches HeaderBlock::Complete { end, .. } ==> i
            <= end <= input.len(),
    decreases input.len() - i,
{
    if i < input.len() && (line_complete(input, i) || closed) {
        lemma_find_byte(input, 10, i);
        let end = line_end(input, i);
        let line = input.subrange(i, end);
        if valid_utf8(line) && !is_blank(decode_utf8(line)) {
            lemma_header_block_end(input, closed, end, add_field(fields, decode_utf8(line)));
        }
    }
}

} // verus!
