//! One record through all stages: from the payload to the document, past
//! the language gate, from the page to its text, and on to the units.

use crate::chars::string_views;
use crate::curate::{extract, spec_extract, Rejection};
use crate::decode::{decode_payload, spec_decode_payload};
use crate::markdown::{
    html_to_markdown, markdown_of, plain_text, skip_tags, spec_plain_text, spec_skip_tags,
};
use crate::script::{detect_language, spec_detect_language};
use crate::select::is_acceptable;
use crate::split::spec_contains;
use crate::warc::WarcRecord;
use lindera::segmenter::Segmenter;
use vstd::prelude::*;

verus! {

/// The text of a page: its Markdown without links and tags.
pub open spec fn spec_page_text(html: Seq<char>) -> Option<Seq<char>> {
    match markdown_of(html, spec_skip_tags(), true) {
        Some(markdown) => spec_plain_text(markdown),
        None => None,
    }
}

/// Converts a page to text.
pub fn page_text(html: &str) -> (r: Option<String>)
    ensures
        match r {
            Some(text) => spec_page_text(html@) == Some(text@),
            None => spec_page_text(html@) is None,
        },
{
    let tags = skip_tags();
    match html_to_markdown(html, &tags, true) {
        Some(markdown) => plain_text(markdown),
        None => None,
    }
}

/// The units of a document, or why the document is passed over: it has
/// to hold a character of the target script and convert to text, and that
/// text has to pass the tests on length and density.
pub open spec fn spec_curate_document(
    pattern: Seq<char>,
    tok: Segmenter,
    body: Seq<char>,
    denylist: Seq<Seq<char>>,
) -> Result<Seq<Seq<char>>, Rejection> {
    if !spec_detect_language(body) {
        Err(Rejection::NoTargetScript)
    } else {
        match spec_page_text(body) {
            Some(text) => spec_extract(pattern, tok, text, denylist),
            None => Err(Rejection::NotConverted),
        }
    }
}

/// Curates a document: the units that the best sentences of its kept text
/// make, or why it is passed over.
pub fn curate_document(pattern: &str, tok: &Segmenter, denylist: &Vec<String>, body: &str) -> (r:
    Result<Vec<String>, Rejection>)
    ensures
        match r {
            Ok(units) => spec_curate_document(pattern@, *tok, body@, string_views(denylist@))
                == Ok::<Seq<Seq<char>>, Rejection>(string_views(units@)) && forall|i: int|
                0 <= i < units.len() ==> is_acceptable(
                    (#[trigger] units@[i])@,
                    string_views(denylist@),
                ),
            Err(why) => spec_curate_document(pattern@, *tok, body@, string_views(denylist@))
                == Err::<Seq<Seq<char>>, Rejection>(why),
        },
{
    if !detect_language(body) {
        return Err(Rejection::NoTargetScript);
    }
    match page_text(body) {
        Some(text) => extract(pattern, tok, denylist, text.as_str()),
        None => Err(Rejection::NotConverted),
    }
}

/// The page that a record carries: the body of its document, where the
/// record is a response whose payload is text in an envelope that reports
/// success and declares a page.
pub open spec fn spec_record_page(record: WarcRecord) -> Option<Seq<char>> {
    if !record.spec_is_response() {
        None
    } else {
        match spec_decode_payload(record.content@) {
            Some((headers, body)) => if headers.contains_key("content-type"@) && spec_contains(
                headers["content-type"@],
                "text/html"@,
            ) {
                Some(body)
            } else {
                None
            },
            None => None,
        }
    }
}

/// The units of a record: those of the page it carries; none where it
/// carries no page or the page is passed over.
pub open spec fn spec_curate_record(
    pattern: Seq<char>,
    tok: Segmenter,
    record: WarcRecord,
    denylist: Seq<Seq<char>>,
) -> Seq<Seq<char>> {
    match spec_record_page(record) {
        Some(body) => match spec_curate_document(pattern, tok, body, denylist) {
            Ok(units) => units,
            Err(_) => Seq::empty(),
        },
        None => Seq::empty(),
    }
}

/// Curates a record: the units of the page it carries. A record that
/// carries no page, or whose page is passed over, gives none.
pub fn curate_record(pattern: &str, tok: &Segmenter, denylist: &Vec<String>, record: &WarcRecord) -> (r:
    Vec<String>)
    ensures
        string_views(r@) == spec_curate_record(pattern@, *tok, *record, string_views(denylist@)),
        forall|i: int|
            0 <= i < r.len() ==> is_acceptable((#[trigger] r@[i])@, string_views(denylist@)),
{
    let ghost nothing = Seq::<Seq<char>>::empty();
    if !record.is_response() {
        let r: Vec<String> = Vec::new();
        assert(string_views(r@) =~= nothing);
        return r;
    }
    let document = match decode_payload(record.content.as_slice()) {
        Some(document) => document,
        None => {
            let r: Vec<String> = Vec::new();
            assert(string_views(r@) =~= nothing);
            return r;
        },
    };
    if !document.is_html() {
        let r: Vec<String> = Vec::new();
        assert(string_views(r@) =~= nothing);
        return r;
    }
    match curate_document(pattern, tok, denylist, document.body.as_str()) {
        Ok(units) => units,
        Err(_) => {
            let r: Vec<String> = Vec::new();
            assert(string_views(r@) =~= nothing);
            r
        },
    }
}

} // verus!
