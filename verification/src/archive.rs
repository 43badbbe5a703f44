//! What a well-formed archive looks like, and that framing reads it back.

use crate::chars::{is_blank, is_whitespace, lemma_trim_blank, lemma_trim_padded, spec_trim};
use crate::headers::{fields_from_lines, header_field, lowercase};
use crate::split::lemma_find_char_to;
use crate::warc::{
    add_field, declared_length, frame, frame_from, header_block, is_marker_line,
    lemma_find_byte_to, line_complete, line_end, record_at, with_declared_length, Framing,
    HeaderBlock,
};
use vstd::prelude::*;
use vstd::utf8::{
    decode_utf8, encode_scalar, encode_utf8, encode_utf8_decode_utf8, encode_utf8_valid_utf8,
    valid_utf8,
};

verus! {

/// Whether a text is one line: it ends in a line feed and holds no other.
pub open spec fn is_line(text: Seq<char>) -> bool {
    &&& text.len() > 0
    &&& text.last() == '\n'
    &&& forall|i: int| 0 <= i < text.len() - 1 ==> #[trigger] text[i] != '\n'
}

/// A record as it is written: the line that starts it, its header lines,
/// the blank line behind them, the payload, and the two bytes that
/// separate the record from the next.
pub struct WrittenRecord {
    pub marker: Seq<char>,
    pub lines: Seq<Seq<char>>,
    pub blank: Seq<char>,
    pub payload: Seq<u8>,
    pub separator: Seq<u8>,
}

impl WrittenRecord {
    /// Whether the record is well formed: the first line, trimmed, reads
    /// `WARC/1.0`; the header lines are lines and not blank; the line behind
    /// them is blank; the payload is as long as the header lines declare;
    /// and the separator is two bytes.
    pub open spec fn wf(self) -> bool {
        &&& is_line(self.marker)
        &&& spec_trim(self.marker) == "WARC/1.0"@
        &&& forall|k: int|
            0 <= k < self.lines.len() ==> is_line(#[trigger] self.lines[k]) && !is_blank(
                self.lines[k],
            )
        &&& is_line(self.blank)
        &&& is_blank(self.blank)
        &&& declared_length(fields_from_lines(self.lines)) == self.payload.len()
        &&& self.separator.len() == 2
    }

    /// The bytes of the record.
    pub open spec fn bytes(self) -> Seq<u8> {
        encode_utf8(self.marker) + lines_bytes(self.lines) + encode_utf8(self.blank)
            + self.payload + self.separator
    }

    /// The header that the record is read with: the fields of its header
    /// lines by lowercase name, with a `content-length` in any case.
    pub open spec fn header(self) -> Map<Seq<char>, Seq<char>> {
        with_declared_length(fields_from_lines(self.lines))
    }
}

/// The bytes of the lines, one behind the other.
pub open spec fn lines_bytes(lines: Seq<Seq<char>>) -> Seq<u8>
    decreases lines.len(),
{
    if lines.len() == 0 {
        Seq::empty()
    } else {
        encode_utf8(lines[0]) + lines_bytes(lines.drop_first())
    }
}

/// The records of an archive, one behind the other.
pub open spec fn archive_bytes(records: Seq<WrittenRecord>) -> Seq<u8>
    decreases records.len(),
{
    if records.len() == 0 {
        Seq::empty()
    } else {
        records[0].bytes() + archive_bytes(records.drop_first())
    }
}

/// The fields after those of `lines` have been added to `fields`, line by
/// line.
spec fn added_fields(fields: Map<Seq<char>, Seq<char>>, lines: Seq<Seq<char>>) -> Map<
    Seq<char>,
    Seq<char>,
>
    decreases lines.len(),
{
    if lines.len() == 0 {
        fields
    } else {
        added_fields(add_field(fields, lines[0]), lines.drop_first())
    }
}

proof fn lemma_added_fields_last(fields: Map<Seq<char>, Seq<char>>, lines: Seq<Seq<char>>)
    requires
        lines.len() > 0,
    ensures
        added_fields(fields, lines) == add_field(
            added_fields(fields, lines.drop_last()),
            lines.last(),
        ),
    decreases lines.len(),
{
    let first = add_field(fields, lines[0]);
    let rest = lines.drop_first();
    let front = lines.drop_last();
    assert(added_fields(fields, lines) == added_fields(first, rest));
    if lines.len() == 1 {
        assert(rest.len() == 0);
        assert(front.len() == 0);
        assert(added_fields(first, rest) == first);
        assert(added_fields(fields, front) == fields);
        assert(lines.last() == lines[0]);
    } else {
        lemma_added_fields_last(first, rest);
        assert(rest.drop_last() =~= front.drop_first());
        assert(rest.last() == lines.last());
        assert(front[0] == lines[0]);
        assert(added_fields(fields, front) == added_fields(first, front.drop_first()));
    }
}

proof fn lemma_added_fields(lines: Seq<Seq<char>>)
    ensures
        added_fields(Map::empty(), lines) == fields_from_lines(lines),
    decreases lines.len(),
{
    if lines.len() > 0 {
        lemma_added_fields_last(Map::empty(), lines);
        lemma_added_fields(lines.drop_last());
    }
}

/// Whether `part` stands in `input` at `i`.
spec fn stands_at(input: Seq<u8>, i: int, part: Seq<u8>) -> bool {
    0 <= i && i + part.len() <= input.len() && input.subrange(i, i + part.len()) == part
}

proof fn lemma_stands_at_split(input: Seq<u8>, i: int, x: Seq<u8>, y: Seq<u8>)
    requires
        stands_at(input, i, x + y),
    ensures
        stands_at(input, i, x),
        stands_at(input, i + x.len(), y),
{
    let whole = input.subrange(i, i + (x + y).len());
    assert(input.subrange(i, i + x.len()) =~= whole.subrange(0, x.len() as int));
    assert(whole.subrange(0, x.len() as int) =~= x);
    assert(input.subrange(i + x.len(), i + x.len() + y.len()) =~= whole.subrange(
        x.len() as int,
        (x + y).len() as int,
    ));
    assert(whole.subrange(x.len() as int, (x + y).len() as int) =~= y);
}

/// The bytes of two texts, one behind the other, are those of the texts
/// joined.
proof fn lemma_encode_joined(a: Seq<char>, b: Seq<char>)
    ensures
        encode_utf8(a + b) == encode_utf8(a) + encode_utf8(b),
    decreases a.len(),
{
    if a.len() == 0 {
        assert(a + b =~= b);
        assert(encode_utf8(a) + encode_utf8(b) =~= encode_utf8(b));
    } else {
        lemma_encode_joined(a.drop_first(), b);
        assert((a + b).drop_first() =~= a.drop_first() + b);
        assert((a + b)[0] == a[0]);
        assert(encode_scalar(a[0] as u32) + (encode_utf8(a.drop_first()) + encode_utf8(b))
            =~= (encode_scalar(a[0] as u32) + encode_utf8(a.drop_first())) + encode_utf8(b));
    }
}

/// No byte of a character other than the line feed is a line feed.
proof fn lemma_scalar_has_no_line_feed(c: char)
    requires
        c != '\n',
    ensures
        forall|j: int|
            0 <= j < encode_scalar(c as u32).len() ==> #[trigger] encode_scalar(c as u32)[j]
                != 10u8,
{
    let v = c as u32;
    assert(v <= 0x7F ==> (v & 0x7F) as u8 == v) by (bit_vector);
    assert(forall|x: u8| 0xC0u8 | x >= 0x80u8) by (bit_vector);
    assert(forall|x: u8| 0xE0u8 | x >= 0x80u8) by (bit_vector);
    assert(forall|x: u8| 0xF0u8 | x >= 0x80u8) by (bit_vector);
    assert(forall|x: u8| 0x80u8 | x >= 0x80u8) by (bit_vector);
}

/// The bytes of a text without line feeds hold no line feed.
proof fn lemma_text_has_no_line_feed(text: Seq<char>)
    requires
        forall|i: int| 0 <= i < text.len() ==> #[trigger] text[i] != '\n',
    ensures
        forall|j: int| 0 <= j < encode_utf8(text).len() ==> #[trigger] encode_utf8(text)[j] != 10u8,
    decreases text.len(),
{
    if text.len() > 0 {
        let first = encode_scalar(text[0] as u32);
        let rest = text.drop_first();
        assert forall|i: int| 0 <= i < rest.len() implies #[trigger] rest[i] != '\n' by {
            assert(rest[i] == text[i + 1]);
        }
        lemma_text_has_no_line_feed(rest);
        lemma_scalar_has_no_line_feed(text[0]);
        assert forall|j: int| 0 <= j < encode_utf8(text).len() implies #[trigger] encode_utf8(
            text,
        )[j] != 10u8 by {
            if j < first.len() {
                assert(encode_utf8(text)[j] == first[j]);
            } else {
                assert(encode_utf8(text)[j] == encode_utf8(rest)[j - first.len()]);
            }
        }
    }
}

/// A line that stands in the input is read as one line, and as its text.
proof fn lemma_line(input: Seq<u8>, i: int, text: Seq<char>)
    requires
        is_line(text),
        stands_at(input, i, encode_utf8(text)),
    ensures
        line_complete(input, i),
        line_end(input, i) == i + encode_utf8(text).len(),
        input.subrange(i, line_end(input, i)) == encode_utf8(text),
        valid_utf8(encode_utf8(text)),
        decode_utf8(encode_utf8(text)) == text,
        encode_utf8(text).len() > 0,
{
    let body = text.drop_last();
    let feed = seq!['\n'];
    assert(text =~= body + feed);
    lemma_encode_joined(body, feed);
    assert(encode_utf8(feed) =~= seq![10u8]) by {
        assert(feed.drop_first() =~= Seq::<char>::empty());
        assert(encode_utf8(feed.drop_first()) =~= Seq::<u8>::empty());
        assert((10u32 & 0x7F) as u8 == 10u8) by (bit_vector);
        assert(feed[0] as u32 == 10u32);
    }
    assert forall|k: int| 0 <= k < body.len() implies #[trigger] body[k] != '\n' by {
        assert(body[k] == text[k]);
    }
    lemma_text_has_no_line_feed(body);
    let bytes = encode_utf8(text);
    let last = i + encode_utf8(body).len();
    assert forall|k: int| i <= k < last implies #[trigger] input[k] != 10u8 by {
        assert(input[k] == input.subrange(i, i + bytes.len())[k - i]);
        assert(bytes[k - i] == encode_utf8(body)[k - i]);
    }
    assert(input[last] == input.subrange(i, i + bytes.len())[last - i]);
    assert(bytes[last - i] == 10u8);
    lemma_find_byte_to(input, 10u8, i, last);
    encode_utf8_valid_utf8(text);
    encode_utf8_decode_utf8(text);
}

/// Header lines that stand in the input, with a blank line behind them,
/// are read as their fields, added line by line.
proof fn lemma_header_block(
    input: Seq<u8>,
    closed: bool,
    i: int,
    before: Map<Seq<char>, Seq<char>>,
    lines: Seq<Seq<char>>,
    blank: Seq<char>,
)
    requires
        forall|k: int|
            0 <= k < lines.len() ==> is_line(#[trigger] lines[k]) && !is_blank(lines[k]),
        is_line(blank),
        is_blank(blank),
        stands_at(input, i, lines_bytes(lines) + encode_utf8(blank)),
    ensures
        header_block(input, closed, i, before) == (HeaderBlock::Complete {
            fields: added_fields(before, lines),
            end: i + lines_bytes(lines).len() + encode_utf8(blank).len(),
        }),
    decreases lines.len(),
{
    let blank_line = encode_utf8(blank);
    if lines.len() == 0 {
        assert(lines_bytes(lines) + blank_line =~= blank_line);
        lemma_line(input, i, blank);
    } else {
        let rest = lines.drop_first();
        let line = encode_utf8(lines[0]);
        assert(lines_bytes(lines) + blank_line =~= line + (lines_bytes(rest) + blank_line));
        lemma_stands_at_split(input, i, line, lines_bytes(rest) + blank_line);
        lemma_line(input, i, lines[0]);
        assert forall|k: int| 0 <= k < rest.len() implies is_line(#[trigger] rest[k]) && !is_blank(
            rest[k],
        ) by {
            assert(rest[k] == lines[k + 1]);
        }
        lemma_header_block(input, closed, i + line.len(), add_field(before, lines[0]), rest, blank);
    }
}

/// A well-formed record is read back as it was written, whatever follows
/// it: its header is that of its header lines, its content is its payload
/// byte for byte, and nothing but the record is taken from the input.
pub proof fn lemma_record_is_read_back(record: WrittenRecord, rest: Seq<u8>, closed: bool)
    requires
        record.wf(),
    ensures
        frame(record.bytes() + rest, closed) == (Framing::Record {
            header: record.header(),
            content: record.payload,
            consumed: record.bytes().len() as int,
        }),
{
    let bytes = record.bytes();
    let input = bytes + rest;
    let marker = encode_utf8(record.marker);
    let block = lines_bytes(record.lines) + encode_utf8(record.blank);
    let tail = record.payload + record.separator;
    assert(stands_at(input, 0, bytes)) by {
        assert(input.subrange(0, bytes.len() as int) =~= bytes);
    }
    assert(bytes =~= marker + (block + tail));
    lemma_stands_at_split(input, 0, marker, block + tail);
    lemma_stands_at_split(input, marker.len() as int, block, tail);
    lemma_line(input, 0, record.marker);
    assert(is_marker_line(input.subrange(0, marker.len() as int)));
    lemma_header_block(input, closed, marker.len() as int, Map::empty(), record.lines, record.blank);
    lemma_added_fields(record.lines);
    let end: int = (marker.len() + block.len()) as int;
    lemma_stands_at_split(input, end, record.payload, record.separator);
    assert(frame_from(input, closed, 0) == record_at(input, closed, 0, marker.len() as int));
}

/// A well-formed record that is cut off in its payload, or before the end
/// of the separator behind it, reads as a truncated record once the input
/// is closed.
pub proof fn lemma_cut_record_is_truncated(record: WrittenRecord, cut: int)
    requires
        record.wf(),
        record.bytes().len() - record.payload.len() - 2 <= cut < record.bytes().len(),
    ensures
        frame(record.bytes().take(cut), true) == Framing::Truncated,
{
    let bytes = record.bytes();
    let input = bytes.take(cut);
    let marker = encode_utf8(record.marker);
    let block = lines_bytes(record.lines) + encode_utf8(record.blank);
    let tail = record.payload + record.separator;
    assert(bytes =~= marker + (block + tail));
    assert(stands_at(input, 0, marker + block)) by {
        assert(input.subrange(0, (marker + block).len() as int) =~= marker + block);
    }
    lemma_stands_at_split(input, 0, marker, block);
    lemma_line(input, 0, record.marker);
    assert(is_marker_line(input.subrange(0, marker.len() as int)));
    lemma_header_block(input, true, marker.len() as int, Map::empty(), record.lines, record.blank);
    lemma_added_fields(record.lines);
    assert(frame_from(input, true, 0) == record_at(input, true, 0, marker.len() as int));
}

/// An archive of well-formed records gives its records back one by one:
/// its front reads as the first record, and what is left behind that
/// record is the archive of the others. An archive without records reads
/// as the end once the input is closed.
pub proof fn lemma_archive_is_read_back(records: Seq<WrittenRecord>, closed: bool)
    requires
        forall|k: int| 0 <= k < records.len() ==> (#[trigger] records[k]).wf(),
    ensures
        records.len() == 0 ==> frame(archive_bytes(records), true) == Framing::End,
        records.len() > 0 ==> frame(archive_bytes(records), closed) == (Framing::Record {
            header: records[0].header(),
            content: records[0].payload,
            consumed: records[0].bytes().len() as int,
        }) && archive_bytes(records).skip(records[0].bytes().len() as int) == archive_bytes(
            records.drop_first(),
        ),
{
    if records.len() > 0 {
        let first = records[0].bytes();
        let others = archive_bytes(records.drop_first());
        lemma_record_is_read_back(records[0], others, closed);
        assert((first + others).skip(first.len() as int) =~= others);
    }
}

/// Of an archive of well-formed records, read record by record, the
/// record at each place comes back as it was written and leaves behind it
/// the archive of the records that follow; behind the last record, the
/// closed input reads as the end.
pub proof fn lemma_each_record_is_read_back(records: Seq<WrittenRecord>, k: int, closed: bool)
    requires
        forall|j: int| 0 <= j < records.len() ==> (#[trigger] records[j]).wf(),
        0 <= k <= records.len(),
    ensures
        k == records.len() ==> frame(archive_bytes(records.skip(k)), true) == Framing::End,
        k < records.len() ==> frame(archive_bytes(records.skip(k)), closed) == (Framing::Record {
            header: records[k].header(),
            content: records[k].payload,
            consumed: records[k].bytes().len() as int,
        }) && archive_bytes(records.skip(k)).skip(records[k].bytes().len() as int)
            == archive_bytes(records.skip(k + 1)),
{
    let left = records.skip(k);
    assert forall|j: int| 0 <= j < left.len() implies (#[trigger] left[j]).wf() by {
        assert(left[j] == records[j + k]);
    }
    lemma_archive_is_read_back(left, closed);
    if k < records.len() {
        assert(left.drop_first() =~= records.skip(k + 1));
        assert(left[0] == records[k]);
    }
}

/// Whether `c` is a printable ASCII character, the space included.
pub open spec fn is_plain(c: char) -> bool {
    ' ' <= c <= '~'
}

pub open spec fn is_plain_text(s: Seq<char>) -> bool {
    forall|i: int| 0 <= i < s.len() ==> is_plain(#[trigger] s[i])
}

/// Whether `s` neither starts nor ends in a space.
pub open spec fn is_tight(s: Seq<char>) -> bool {
    s.len() > 0 ==> s[0] != ' ' && s.last() != ' '
}

/// Whether name and value can stand in a header line and be read back:
/// printable ASCII without spaces at the ends, the name not empty and
/// without a colon.
pub open spec fn is_field(field: (Seq<char>, Seq<char>)) -> bool {
    &&& field.0.len() > 0
    &&& is_plain_text(field.0)
    &&& is_tight(field.0)
    &&& forall|i: int| 0 <= i < field.0.len() ==> #[trigger] field.0[i] != ':'
    &&& is_plain_text(field.1)
    &&& is_tight(field.1)
}

/// The header line of a field, as it is commonly written.
pub open spec fn field_line(field: (Seq<char>, Seq<char>)) -> Seq<char> {
    field.0 + seq![':', ' '] + field.1 + seq!['\r', '\n']
}

/// A printable character other than the space is no whitespace.
proof fn lemma_plain_is_no_whitespace(c: char)
    requires
        is_plain(c),
        c != ' ',
    ensures
        !is_whitespace(c),
{
}

/// The header line of a field is a header line, and holds that field
/// under the lowercase form of its name.
pub proof fn lemma_field_line(field: (Seq<char>, Seq<char>))
    requires
        is_field(field),
    ensures
        header_field(field_line(field)) == Some((lowercase(field.0), field.1)),
        is_line(field_line(field)),
        !is_blank(field_line(field)),
{
    let (name, value) = field;
    let text = field_line(field);
    let colon = name.len() as int;
    assert forall|k: int| 0 <= k < colon implies #[trigger] text[k] != ':' by {
        assert(text[k] == name[k]);
    }
    assert(text[colon] == ':');
    lemma_find_char_to(text, ':', 0, colon);
    assert(text.subrange(0, colon) =~= name);
    lemma_plain_is_no_whitespace(name[0]);
    lemma_plain_is_no_whitespace(name.last());
    lemma_trim_padded(name, 0, colon);
    assert(name.subrange(0, colon) =~= name);
    let tail = text.subrange(colon + 1, text.len() as int);
    assert(tail =~= seq![' '] + value + seq!['\r', '\n']);
    if value.len() > 0 {
        lemma_plain_is_no_whitespace(value[0]);
        lemma_plain_is_no_whitespace(value.last());
        assert(tail[1] == value[0]);
        assert(tail[value.len() as int] == value.last());
        lemma_trim_padded(tail, 1, 1 + value.len() as int);
        assert(tail.subrange(1, 1 + value.len() as int) =~= value);
    } else {
        assert(is_blank(tail));
        lemma_trim_blank(tail);
        assert(value =~= Seq::<char>::empty());
    }
    assert(text[0] == name[0]);
    assert forall|k: int| 0 <= k < text.len() - 1 implies #[trigger] text[k] != '\n' by {
        if k < name.len() {
            assert(text[k] == name[k]);
            assert(is_plain(name[k]));
        } else if name.len() + 2 <= k < name.len() + 2 + value.len() {
            assert(text[k] == value[k - name.len() - 2]);
            assert(is_plain(value[k - name.len() - 2]));
        }
    }
}

} // verus!
