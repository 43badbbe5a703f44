//! Byte ranges of a resource that is fetched in chunks, and what the remote
//! side has to answer for such a fetch to go ahead.

use crate::chars::to_string;
use crate::decimal::{decimal_digits, parse_unsigned, push_decimal, spec_parse_unsigned};
use vstd::prelude::*;

verus! {

/// One range request: the chunk's ordinal and the first and last byte it asks for.
#[derive(Clone, Copy, Debug, PartialEq, Eq)]
pub struct ChunkRequest {
    pub index: u64,
    pub byte_start: u64,
    pub byte_end: u64,
}

/// How many chunks of `chunk_size` bytes cover `total_size` bytes: the
/// quotient, rounded up.
pub open spec fn spec_chunk_count(total_size: nat, chunk_size: nat) -> nat
    recommends
        chunk_size > 0,
{
    ((total_size + chunk_size - 1) / (chunk_size as int)) as nat
}

/// The request for chunk `index`: it starts at `index * chunk_size` and ends
/// `chunk_size` bytes later or at the last byte of the resource, whichever
/// comes first.
pub open spec fn spec_chunk_request(total_size: nat, chunk_size: nat, index: nat) -> ChunkRequest
    recommends
        chunk_size > 0,
        index < spec_chunk_count(total_size, chunk_size),
{
    let start = index * chunk_size;
    let end = if start + chunk_size - 1 < total_size - 1 {
        start + chunk_size - 1
    } else {
        total_size - 1
    };
    ChunkRequest { index: index as u64, byte_start: start as u64, byte_end: end as u64 }
}

pub proof fn lemma_chunk_count(total_size: nat, chunk_size: nat)
    requires
        chunk_size > 0,
    ensures
        spec_chunk_count(total_size, chunk_size) * chunk_size >= total_size,
        total_size > 0 ==> (spec_chunk_count(total_size, chunk_size) - 1) * chunk_size
            < total_size,
        total_size == 0 <==> spec_chunk_count(total_size, chunk_size) == 0,
        spec_chunk_count(total_size, chunk_size) <= total_size,
{
    let x = total_size + chunk_size - 1;
    let d = chunk_size as int;
    let q = x / d;
    let r = x % d;
    assert(x == q * d + r && 0 <= r < d) by (nonlinear_arith)
        requires
            q == x / d,
            r == x % d,
            d > 0,
    ;
    assert(q >= 0 && (q == 0 <==> x < d) && q * d >= total_size && (q - 1) * d == x - r - d && (
    total_size > 0 ==> q <= total_size)) by (nonlinear_arith)
        requires
            x == q * d + r,
            0 <= r < d,
            x == total_size + d - 1,
            total_size >= 0,
    ;
}

pub proof fn lemma_chunk_start_in_bounds(total_size: nat, chunk_size: nat, index: nat)
    requires
        chunk_size > 0,
        index < spec_chunk_count(total_size, chunk_size),
    ensures
        index * chunk_size < total_size,
        index + 1 < spec_chunk_count(total_size, chunk_size) ==> (index + 1) * chunk_size
            < total_size,
        (index + 1) * chunk_size == index * chunk_size + chunk_size,
{
    lemma_chunk_count(total_size, chunk_size);
    let count = spec_chunk_count(total_size, chunk_size) as int;
    let d = chunk_size as int;
    let i = index as int;
    assert(i * d <= (count - 1) * d && (i + 1 < count ==> (i + 1) * d <= (count - 1) * d) && (i
        + 1) * d == i * d + d) by (nonlinear_arith)
        requires
            0 <= i < count,
            d > 0,
    ;
}

/// How many chunks of `chunk_size` bytes cover `total_size` bytes.
pub fn chunk_count(total_size: u64, chunk_size: u64) -> (count: u64)
    requires
        chunk_size > 0,
    ensures
        count == spec_chunk_count(total_size as nat, chunk_size as nat),
{
    let q: u64 = total_size / chunk_size;
    let r: u64 = total_size % chunk_size;
    proof {
        lemma_chunk_count(total_size as nat, chunk_size as nat);
        let count = spec_chunk_count(total_size as nat, chunk_size as nat) as int;
        let d = chunk_size as int;
        assert(total_size == q * d + r && 0 <= r < d) by (nonlinear_arith)
            requires
                q == total_size / chunk_size,
                r == total_size % chunk_size,
                d == chunk_size,
                d > 0,
        ;
        assert(count == if r == 0 {
            q as int
        } else {
            q + 1
        }) by (nonlinear_arith)
            requires
                total_size == q * d + r,
                0 <= r < d,
                count * d >= total_size,
                total_size > 0 ==> (count - 1) * d < total_size,
                total_size == 0 <==> count == 0,
                count >= 0,
        ;
    }
    if r == 0 {
        q
    } else {
        q + 1
    }
}

/// The request for chunk `index` of a resource of `total_size` bytes.
pub fn chunk_request(total_size: u64, chunk_size: u64, index: u64) -> (request: ChunkRequest)
    requires
        chunk_size > 0,
        index < spec_chunk_count(total_size as nat, chunk_size as nat),
    ensures
        request == spec_chunk_request(total_size as nat, chunk_size as nat, index as nat),
        request.byte_start <= request.byte_end < total_size,
{
    proof {
        lemma_chunk_start_in_bounds(total_size as nat, chunk_size as nat, index as nat);
    }
    let start: u64 = index * chunk_size;
    let remaining: u64 = total_size - start;
    let end: u64 = if remaining > chunk_size {
        start + chunk_size - 1
    } else {
        total_size - 1
    };
    ChunkRequest { index, byte_start: start, byte_end: end }
}

/// The chunks lie end to end and cover the resource: the first starts at
/// byte 0, each one but the last holds `chunk_size` bytes and ends just
/// before the next starts, and the last ends at the last byte.
pub proof fn lemma_chunks_cover(total_size: nat, chunk_size: nat, index: nat)
    requires
        chunk_size > 0,
        index < spec_chunk_count(total_size, chunk_size),
        total_size <= u64::MAX,
    ensures
        ({
            let count = spec_chunk_count(total_size, chunk_size);
            let this = spec_chunk_request(total_size, chunk_size, index);
            let next = spec_chunk_request(total_size, chunk_size, index + 1);
            &&& this.byte_start <= this.byte_end < total_size
            &&& index == 0 ==> this.byte_start == 0
            &&& index + 1 < count ==> this.byte_end + 1 == next.byte_start && this.byte_end
                - this.byte_start + 1 == chunk_size
            &&& index + 1 == count ==> this.byte_end == total_size - 1
        }),
{
    lemma_chunk_count(total_size, chunk_size);
    lemma_chunk_start_in_bounds(total_size, chunk_size, index);
    if index + 1 < spec_chunk_count(total_size, chunk_size) {
        lemma_chunk_start_in_bounds(total_size, chunk_size, index + 1);
    } else {
        assert((index + 1) * chunk_size >= total_size);
    }
    assert(0 * chunk_size == 0);
}

/// The prefix of a range header's value.
pub open spec fn range_unit() -> Seq<char> {
    seq!['b', 'y', 't', 'e', 's', '=']
}

/// The value of the range header that asks for bytes `start` to `end`,
/// both included.
pub open spec fn spec_range_header(start: nat, end: nat) -> Seq<char> {
    range_unit() + decimal_digits(start) + seq!['-'] + decimal_digits(end)
}

/// The value of the range header that asks for bytes `start` to `end`,
/// both included.
pub fn range_header(start: u64, end: u64) -> (header: String)
    ensures
        header@ == spec_range_header(start as nat, end as nat),
{
    let mut out: Vec<char> = Vec::new();
    out.push('b');
    out.push('y');
    out.push('t');
    out.push('e');
    out.push('s');
    out.push('=');
    assert(out@ == range_unit());
    push_decimal(&mut out, start);
    out.push('-');
    assert(out@ == range_unit() + decimal_digits(start as nat) + seq!['-']);
    push_decimal(&mut out, end);
    to_string(out.as_slice())
}

/// Why the answer to a range request is not taken as the chunk.
#[derive(Clone, Copy, Debug, PartialEq, Eq)]
pub enum RangeError {
    /// The status is a client or server error.
    ErrorStatus(u16),
    /// The status is no error, but not "partial content" either.
    NotPartialContent(u16),
}

/// The status of an answer that carries the bytes of the range asked for.
pub const PARTIAL_CONTENT: u16 = 206;

pub open spec fn is_error_status(status: u16) -> bool {
    400 <= status < 600
}

pub open spec fn spec_check_range_status(status: u16) -> Result<(), RangeError> {
    if is_error_status(status) {
        Err(RangeError::ErrorStatus(status))
    } else if status != PARTIAL_CONTENT {
        Err(RangeError::NotPartialContent(status))
    } else {
        Ok(())
    }
}

/// Accepts the answer to a range request only if its status is "partial
/// content".
pub fn check_range_status(status: u16) -> (r: Result<(), RangeError>)
    ensures
        r == spec_check_range_status(status),
{
    if 400 <= status && status < 600 {
        Err(RangeError::ErrorStatus(status))
    } else if status != PARTIAL_CONTENT {
        Err(RangeError::NotPartialContent(status))
    } else {
        Ok(())
    }
}

/// Why a resource cannot be fetched in ranges.
#[derive(Clone, Copy, Debug, PartialEq, Eq)]
pub enum ProbeError {
    /// The probe was answered with a client or server error.
    ErrorStatus(u16),
    /// The answer has no `Accept-Ranges` header.
    MissingAcceptRanges,
    /// `Accept-Ranges` is not `bytes`.
    RangesNotInBytes,
    /// The answer has no `Content-Length` header.
    MissingContentLength,
    /// `Content-Length` holds bytes that are not visible ASCII.
    ContentLengthNotText,
    /// `Content-Length` is not an unsigned number of 64 bits.
    ContentLengthNotANumber,
}

/// The bytes of `bytes`.
pub open spec fn bytes_unit() -> Seq<u8> {
    seq![98u8, 121u8, 116u8, 101u8, 115u8]
}

pub open spec fn is_visible_ascii(b: u8) -> bool {
    32 <= b < 127 || b == 9
}

pub open spec fn all_visible_ascii(bytes: Seq<u8>) -> bool {
    forall|i: int| 0 <= i < bytes.len() ==> is_visible_ascii(#[trigger] bytes[i])
}

/// ASCII bytes as characters.
pub open spec fn ascii_chars(bytes: Seq<u8>) -> Seq<char> {
    Seq::new(bytes.len(), |i: int| bytes[i] as char)
}

/// The total size that a probe's answer promises, or why the resource
/// cannot be fetched in ranges. The checks are made in the order of
/// `ProbeError`'s variants.
pub open spec fn spec_probe_total_size(
    status: u16,
    accept_ranges: Option<Seq<u8>>,
    content_length: Option<Seq<u8>>,
) -> Result<u64, ProbeError> {
    if is_error_status(status) {
        Err(ProbeError::ErrorStatus(status))
    } else if accept_ranges is None {
        Err(ProbeError::MissingAcceptRanges)
    } else if accept_ranges->0 != bytes_unit() {
        Err(ProbeError::RangesNotInBytes)
    } else if content_length is None {
        Err(ProbeError::MissingContentLength)
    } else if !all_visible_ascii(content_length->0) {
        Err(ProbeError::ContentLengthNotText)
    } else {
        match spec_parse_unsigned(ascii_chars(content_length->0), u64::MAX as nat) {
            Some(n) => Ok(n as u64),
            None => Err(ProbeError::ContentLengthNotANumber),
        }
    }
}

fn is_bytes_unit(value: &[u8]) -> (b: bool)
    ensures
        b == (value@ == bytes_unit()),
{
    let b = value.len() == 5 && value[0] == 98 && value[1] == 121 && value[2] == 116 && value[3]
        == 101 && value[4] == 115;
    proof {
        if b {
            assert(value@ =~= bytes_unit());
        } else if value@.len() == 5 {
            assert(bytes_unit()[0] == 98 && bytes_unit()[1] == 121 && bytes_unit()[2] == 116
                && bytes_unit()[3] == 101 && bytes_unit()[4] == 115);
        } else {
            assert(bytes_unit().len() == 5);
        }
    }
    b
}

/// Visible ASCII bytes as characters; `None` where a byte is not visible
/// ASCII.
fn visible_ascii_text(bytes: &[u8]) -> (r: Option<Vec<char>>)
    ensures
        r is Some <==> all_visible_ascii(bytes@),
        r matches Some(v) ==> v@ == ascii_chars(bytes@),
{
    let mut out: Vec<char> = Vec::new();
    let mut i: usize = 0;
    while i < bytes.len()
        invariant
            i <= bytes.len(),
            all_visible_ascii(bytes@.take(i as int)),
            out@ == ascii_chars(bytes@.take(i as int)),
        decreases bytes.len() - i,
    {
        let b = bytes[i];
        if !(32 <= b && b < 127 || b == 9) {
            assert(!is_visible_ascii(bytes@[i as int]));
            return None;
        }
        out.push(b as char);
        proof {
            let next = bytes@.take(i + 1);
            assert(next.drop_last() == bytes@.take(i as int));
            assert forall|j: int| 0 <= j < next.len() implies is_visible_ascii(
                #[trigger] next[j],
            ) by {
                if j < i {
                    assert(next[j] == bytes@.take(i as int)[j]);
                }
            }
            assert(out@ =~= ascii_chars(next));
        }
        i += 1;
    }
    assert(bytes@.take(i as int) == bytes@);
    Some(out)
}

/// Decides from the answer to a probe whether the resource can be fetched in
/// ranges, and if so how many bytes it holds.
pub fn probe_total_size(
    status: u16,
    accept_ranges: Option<&[u8]>,
    content_length: Option<&[u8]>,
) -> (r: Result<u64, ProbeError>)
    ensures
        r == spec_probe_total_size(
            status,
            match accept_ranges {
                Some(v) => Some(v@),
                None => None,
            },
            match content_length {
                Some(v) => Some(v@),
                None => None,
            },
        ),
{
    if 400 <= status && status < 600 {
        return Err(ProbeError::ErrorStatus(status));
    }
    let ranges = match accept_ranges {
        Some(v) => v,
        None => { return Err(ProbeError::MissingAcceptRanges); },
    };
    if !is_bytes_unit(ranges) {
        return Err(ProbeError::RangesNotInBytes);
    }
    let length = match content_length {
        Some(v) => v,
        None => { return Err(ProbeError::MissingContentLength); },
    };
    let text = match visible_ascii_text(length) {
        Some(t) => t,
        None => { return Err(ProbeError::ContentLengthNotText); },
    };
    match parse_unsigned(text.as_slice(), u64::MAX) {
        Some(n) => Ok(n),
        None => Err(ProbeError::ContentLengthNotANumber),
    }
}

/// The chunk size that splits a resource into about a hundred chunks.
pub open spec fn spec_default_chunk_size(total_size: u64) -> u64 {
    total_size / 100
}

/// The chunk size that splits a resource into about a hundred chunks. It is
/// zero, and so no chunk size at all, for a resource of fewer than a hundred
/// bytes.
pub fn default_chunk_size(total_size: u64) -> (chunk_size: u64)
    ensures
        chunk_size == spec_default_chunk_size(total_size),
        chunk_size > 0 <==> total_size >= 100,
{
    total_size / 100
}

} // verus!
