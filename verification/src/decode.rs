//! From a record's payload to a document: the bytes are read as text in
//! the first encoding that fits, the envelope is taken off, and the body is
//! normalized.

use crate::chars::to_chars;
use crate::headers::same_text;
use crate::http::{parse_envelope, spec_parse_envelope, DecodedDocument};
use crate::split::{contains, spec_contains};
use crate::warc::WarcRecord;
use unicode_normalization::UnicodeNormalization;
use vstd::prelude::*;

verus! {

/// The encodings that a payload is tried in, in this order.
#[derive(Clone, Copy, Debug, PartialEq, Eq)]
pub enum TextEncoding {
    Utf8,
    ShiftJis,
}

/// What `encoding_rs` makes of the bytes where the given encoding is
/// asked for: the text, and whether it had to replace malformed sequences.
/// Bytes that start with a byte-order mark are read in the encoding of
/// that mark, whichever encoding is asked for.
pub uninterp spec fn decoded_as(encoding: TextEncoding, bytes: Seq<u8>) -> (Seq<char>, bool);

/// The text in Unicode normalization form KC, as `unicode-normalization`
/// gives it.
pub uninterp spec fn nfkc_of(text: Seq<char>) -> Seq<char>;

/// Calls `encoding_rs::Encoding::decode` on `encoding_rs::UTF_8` or
/// `encoding_rs::SHIFT_JIS`, which looks for a byte-order mark first. The
/// claim is only that text and error flag depend on the encoding asked for
/// and the bytes alone. The size of the output buffer must
/// not overflow, which an eighth of the address space as input excludes.
#[verifier::external_body]
pub(crate) fn decode_as(encoding: TextEncoding, bytes: &[u8]) -> (r: (String, bool))
    requires
        bytes@.len() <= usize::MAX / 8,
    ensures
        (r.0@, r.1) == decoded_as(encoding, bytes@),
{
    let codec = match encoding {
        TextEncoding::Utf8 => encoding_rs::UTF_8,
        TextEncoding::ShiftJis => encoding_rs::SHIFT_JIS,
    };
    let (text, _, had_errors) = codec.decode(bytes);
    (text.into_owned(), had_errors)
}

/// Collects `UnicodeNormalization::nfkc` over the text. The claim is only
/// that the result depends on the text alone.
#[verifier::external_body]
pub(crate) fn to_nfkc(text: &str) -> (r: String)
    ensures
        r@ == nfkc_of(text@),
{
    text.nfkc().collect()
}

/// The text of a payload: what the first encoding that reads it without
/// replacement makes of it. Payloads of more than an eighth of the address
/// space are not read.
pub open spec fn spec_decode_text(bytes: Seq<u8>) -> Option<Seq<char>> {
    if bytes.len() > usize::MAX / 8 {
        None
    } else if !decoded_as(TextEncoding::Utf8, bytes).1 {
        Some(decoded_as(TextEncoding::Utf8, bytes).0)
    } else if !decoded_as(TextEncoding::ShiftJis, bytes).1 {
        Some(decoded_as(TextEncoding::ShiftJis, bytes).0)
    } else {
        None
    }
}

/// Reads a payload as text, in UTF-8 or else in Shift_JIS.
pub fn decode_text(bytes: &[u8]) -> (r: Option<String>)
    ensures
        match r {
            Some(text) => spec_decode_text(bytes@) == Some(text@),
            None => spec_decode_text(bytes@) is None,
        },
{
    if bytes.len() > usize::MAX / 8 {
        return None;
    }
    let (text, had_errors) = decode_as(TextEncoding::Utf8, bytes);
    if !had_errors {
        return Some(text);
    }
    let (text, had_errors) = decode_as(TextEncoding::ShiftJis, bytes);
    if !had_errors {
        return Some(text);
    }
    None
}

/// The document that a payload carries: the header fields of its envelope
/// and its body in normalization form KC. There is none where the payload
/// is no text or the envelope does not report success.
pub open spec fn spec_decode_payload(content: Seq<u8>) -> Option<
    (Map<Seq<char>, Seq<char>>, Seq<char>),
> {
    match spec_decode_text(content) {
        Some(text) => match spec_parse_envelope(text) {
            Some((headers, body)) => Some((headers, nfkc_of(body))),
            None => None,
        },
        None => None,
    }
}

/// Takes the document out of a record's payload.
pub fn decode_payload(content: &[u8]) -> (r: Option<DecodedDocument>)
    ensures
        match r {
            Some(document) => spec_decode_payload(content@) == Some(
                (document.headers@, document.body@),
            ),
            None => spec_decode_payload(content@) is None,
        },
{
    let text = match decode_text(content) {
        Some(text) => text,
        None => { return None; },
    };
    match parse_envelope(text.as_str()) {
        Some(document) => Some(
            DecodedDocument { headers: document.headers, body: to_nfkc(document.body.as_str()) },
        ),
        None => None,
    }
}

impl WarcRecord {
    /// Whether the record holds a response: whether its `warc-type` is
    /// `response`.
    pub open spec fn spec_is_response(&self) -> bool {
        self.header@.contains_key("warc-type"@) && self.header@["warc-type"@] == "response"@
    }

    /// Whether the record holds a response.
    pub fn is_response(&self) -> (b: bool)
        ensures
            b == self.spec_is_response(),
    {
        match self.header.get("warc-type") {
            Some(kind) => same_text(kind.as_str(), "response"),
            None => false,
        }
    }
}

impl DecodedDocument {
    /// Whether the document is a page: whether its `content-type` holds
    /// `text/html`.
    pub open spec fn spec_is_html(&self) -> bool {
        self.headers@.contains_key("content-type"@) && spec_contains(
            self.headers@["content-type"@],
            "text/html"@,
        )
    }

    /// Whether the document is a page.
    pub fn is_html(&self) -> (b: bool)
        ensures
            b == self.spec_is_html(),
    {
        match self.headers.get("content-type") {
            Some(kind) => {
                let hay = to_chars(kind.as_str());
                let needle = to_chars("text/html");
                contains(hay.as_slice(), needle.as_slice())
            },
            None => false,
        }
    }
}

} // verus!
