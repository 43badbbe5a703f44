//! From a page to blocks of prose: the page is converted to Markdown, links
//! and leftover tags are taken out, and the blocks that read like running
//! text are kept.

use crate::chars::{spec_trim, string_views, to_chars, to_string, trim, views};
use crate::pattern::{regex_replace_all, replace_all};
use crate::split::{join, spec_join, spec_split, spec_split_str, split, split_str};
use vstd::prelude::*;

verus! {

/// The Markdown that `htmd` makes of a page, where the elements named in
/// `skip_tags` are left out; `None` where the conversion fails.
pub uninterp spec fn markdown_of(
    html: Seq<char>,
    skip_tags: Seq<Seq<char>>,
    preformatted_code: bool,
) -> Option<Seq<char>>;

/// Builds a converter with `htmd::HtmlToMarkdown::builder`, hands it the
/// tags to skip and the option for preformatted code, and calls
/// `HtmlToMarkdown::convert`. The claim is only that the answer depends on
/// the page and these settings alone. The converter walks the page's tree
/// by recursion, as deep as the page is nested.
#[verifier::external_body]
pub(crate) fn html_to_markdown(html: &str, skip_tags: &Vec<String>, preformatted_code: bool) -> (r:
    Option<String>)
    ensures
        match r {
            Some(text) => markdown_of(html@, string_views(skip_tags@), preformatted_code)
                == Some(text@),
            None => markdown_of(html@, string_views(skip_tags@), preformatted_code) is None,
        },
{
    let options = htmd::options::Options { preformatted_code, ..Default::default() };
    let tags = skip_tags.iter().map(|tag| tag.as_str()).collect();
    htmd::HtmlToMarkdown::builder().skip_tags(tags).options(options).build().convert(html).ok()
}

/// The elements that are left out of the conversion: scripts, styles,
/// navigation and embedded media.
pub open spec fn spec_skip_tags() -> Seq<Seq<char>> {
    seq![
        "script"@,
        "style"@,
        "header"@,
        "footer"@,
        "section"@,
        "nav"@,
        "img"@,
        "video"@,
        "iframe"@,
    ]
}

/// The elements that are left out of the conversion.
pub fn skip_tags() -> (tags: Vec<String>)
    ensures
        string_views(tags@) == spec_skip_tags(),
{
    let mut tags: Vec<String> = Vec::new();
    tags.push("script".to_owned());
    tags.push("style".to_owned());
    tags.push("header".to_owned());
    tags.push("footer".to_owned());
    tags.push("section".to_owned());
    tags.push("nav".to_owned());
    tags.push("img".to_owned());
    tags.push("video".to_owned());
    tags.push("iframe".to_owned());
    assert(string_views(tags@) =~= spec_skip_tags());
    tags
}

/// Whether a line holds a list mark and nothing else.
pub open spec fn is_list_mark(line: Seq<char>) -> bool {
    spec_trim(line) == seq!['*'] || spec_trim(line) == seq!['-']
}

/// Whether a line is kept: whether it is more than a bare list mark.
pub open spec fn spec_filter_line(line: Seq<char>) -> bool {
    !is_list_mark(line)
}

fn keeps_line(line: &[char]) -> (keep: bool)
    ensures
        keep == spec_filter_line(line@),
{
    let t = trim(line);
    let mark = t.len() == 1 && (t[0] == '*' || t[0] == '-');
    proof {
        if mark {
            assert(t@ =~= seq![t@[0]]);
        } else if t@.len() == 1 {
            assert(seq!['*'][0] == '*');
            assert(seq!['-'][0] == '-');
        } else {
            assert(seq!['*'].len() == 1);
            assert(seq!['-'].len() == 1);
        }
    }
    !mark
}

/// Whether a line is kept: whether it is more than a bare list mark.
pub fn filter_line(line: &str) -> (keep: bool)
    ensures
        keep == spec_filter_line(line@),
{
    let chars = to_chars(line);
    keeps_line(chars.as_slice())
}

/// The lines that are kept, in order.
pub open spec fn kept_lines(lines: Seq<Seq<char>>) -> Seq<Seq<char>>
    decreases lines.len(),
{
    if lines.len() == 0 {
        Seq::empty()
    } else {
        let front = kept_lines(lines.drop_last());
        if spec_filter_line(lines.last()) {
            front.push(lines.last())
        } else {
            front
        }
    }
}

/// How many of the lines hold from 4 to 50 characters.
pub open spec fn medium_count(lines: Seq<Seq<char>>) -> nat
    decreases lines.len(),
{
    if lines.len() == 0 {
        0
    } else {
        medium_count(lines.drop_last()) + if 4 <= lines.last().len() <= 50 {
            1nat
        } else {
            0nat
        }
    }
}

/// Whether a block reads like prose: two thirds of its lines of medium
/// length, rounded down, are fewer than all its lines, and trimmed it
/// holds more than 50 characters.
pub open spec fn is_prose(block: Seq<char>) -> bool {
    let lines = spec_split(block, '\n');
    medium_count(lines) * 2 / 3 < lines.len() && spec_trim(block).len() > 50
}

/// The blocks that read like prose, trimmed and in order.
pub open spec fn prose_of(blocks: Seq<Seq<char>>) -> Seq<Seq<char>>
    decreases blocks.len(),
{
    if blocks.len() == 0 {
        Seq::empty()
    } else {
        let front = prose_of(blocks.drop_last());
        if is_prose(blocks.last()) {
            front.push(spec_trim(blocks.last()))
        } else {
            front
        }
    }
}

/// What separates two blocks: two empty lines.
pub open spec fn block_gap() -> Seq<char> {
    seq!['\n', '\n', '\n']
}

/// The blocks of prose of a text: its lines without bare list marks, cut
/// into blocks at two empty lines, and of these the ones that read like
/// prose.
pub open spec fn spec_prose_blocks(text: Seq<char>) -> Seq<Seq<char>> {
    let cleaned = spec_join(kept_lines(spec_split(text, '\n')), seq!['\n']);
    prose_of(spec_split_str(cleaned, block_gap()))
}

fn prose(block: &[char]) -> (b: bool)
    ensures
        b == is_prose(block@),
{
    let lines = split(block, '\n');
    let ghost line_views = views(lines@);
    let mut medium: usize = 0;
    let mut i: usize = 0;
    assert(line_views.take(0) == Seq::<Seq<char>>::empty());
    while i < lines.len()
        invariant
            i <= lines.len(),
            line_views == views(lines@),
            medium == medium_count(line_views.take(i as int)),
            medium <= i,
        decreases lines.len() - i,
    {
        proof {
            let next = line_views.take(i + 1);
            assert(next.drop_last() == line_views.take(i as int));
            assert(next.last() == lines@[i as int]@);
        }
        if 4 <= lines[i].len() && lines[i].len() <= 50 {
            medium += 1;
        }
        i += 1;
    }
    assert(line_views.take(lines.len() as int) == line_views);
    ((medium as u128) * 2 / 3) < lines.len() as u128 && trim(block).len() > 50
}

/// The blocks of prose of a text.
pub fn prose_blocks(text: &str) -> (r: Vec<String>)
    ensures
        string_views(r@) == spec_prose_blocks(text@),
{
    let chars = to_chars(text);
    let lines = split(chars.as_slice(), '\n');
    let ghost line_views = views(lines@);
    let mut kept: Vec<Vec<char>> = Vec::new();
    let mut i: usize = 0;
    assert(line_views.take(0) == Seq::<Seq<char>>::empty());
    assert(views(kept@) == Seq::<Seq<char>>::empty());
    while i < lines.len()
        invariant
            i <= lines.len(),
            line_views == views(lines@),
            views(kept@) == kept_lines(line_views.take(i as int)),
        decreases lines.len() - i,
    {
        proof {
            let next = line_views.take(i + 1);
            assert(next.drop_last() == line_views.take(i as int));
            assert(next.last() == lines@[i as int]@);
        }
        if keeps_line(lines[i].as_slice()) {
            let ghost before = views(kept@);
            let line = lines[i].clone();
            assert(line@ == lines@[i as int]@);
            kept.push(line);
            assert(views(kept@) == before.push(line@));
        }
        i += 1;
    }
    assert(line_views.take(lines.len() as int) == line_views);
    let mut feed: Vec<char> = Vec::new();
    feed.push('\n');
    assert(feed@ == seq!['\n']);
    let cleaned = join(&kept, feed.as_slice());
    feed.push('\n');
    feed.push('\n');
    assert(feed@ == block_gap());
    let blocks = split_str(cleaned.as_slice(), feed.as_slice());
    let ghost block_views = views(blocks@);
    let mut r: Vec<String> = Vec::new();
    let mut k: usize = 0;
    assert(block_views.take(0) == Seq::<Seq<char>>::empty());
    assert(string_views(r@) == Seq::<Seq<char>>::empty());
    while k < blocks.len()
        invariant
            k <= blocks.len(),
            block_views == views(blocks@),
            string_views(r@) == prose_of(block_views.take(k as int)),
        decreases blocks.len() - k,
    {
        proof {
            let next = block_views.take(k + 1);
            assert(next.drop_last() == block_views.take(k as int));
            assert(next.last() == blocks@[k as int]@);
        }
        if prose(blocks[k].as_slice()) {
            let block = to_string(trim(blocks[k].as_slice()));
            let ghost before = string_views(r@);
            r.push(block);
            assert(string_views(r@) == before.push(block@));
        }
        k += 1;
    }
    assert(block_views.take(blocks.len() as int) == block_views);
    r
}

/// `text` after `times` rounds in which each Markdown link or image is
/// replaced by its label; `None` where the pattern fails.
pub open spec fn unlinked(text: Seq<char>, times: nat) -> Option<Seq<char>>
    decreases times,
{
    if times == 0 {
        Some(text)
    } else {
        match regex_replace_all("\\[??!??\\[([^\\]]*)\\]\\([^)]*\\)"@, text, "$1"@) {
            Some(replaced) => unlinked(replaced, (times - 1) as nat),
            None => None,
        }
    }
}

/// The plain text of a page's Markdown: links and images replaced by their
/// labels, five rounds deep, and what is left of tags removed.
pub open spec fn spec_plain_text(markdown: Seq<char>) -> Option<Seq<char>> {
    match unlinked(markdown, 5) {
        Some(text) => regex_replace_all("<[^>]+>[^<]+<[^>]+>|<[^>]+>"@, text, ""@),
        None => None,
    }
}

/// The blocks of prose of a page.
pub open spec fn spec_extract(html: Seq<char>) -> Option<Seq<Seq<char>>> {
    match markdown_of(html, spec_skip_tags(), true) {
        Some(markdown) => match spec_plain_text(markdown) {
            Some(text) => Some(spec_prose_blocks(text)),
            None => None,
        },
        None => None,
    }
}

/// The plain text of a page's Markdown.
pub fn plain_text(markdown: String) -> (r: Option<String>)
    ensures
        match r {
            Some(text) => spec_plain_text(markdown@) == Some(text@),
            None => spec_plain_text(markdown@) is None,
        },
{
    let mut text = markdown;
    let mut round: usize = 0;
    while round < 5
        invariant
            round <= 5,
            unlinked(markdown@, 5) == unlinked(text@, (5 - round) as nat),
        decreases 5 - round,
    {
        text = match replace_all("\\[??!??\\[([^\\]]*)\\]\\([^)]*\\)", text.as_str(), "$1") {
            Some(replaced) => replaced,
            None => { return None; },
        };
        round += 1;
    }
    replace_all("<[^>]+>[^<]+<[^>]+>|<[^>]+>", text.as_str(), "")
}

/// Converts a page to text and hands on its blocks of prose.
pub fn extract(html: &str) -> (r: Option<Vec<String>>)
    ensures
        match r {
            Some(blocks) => spec_extract(html@) == Some(string_views(blocks@)),
            None => spec_extract(html@) is None,
        },
{
    let tags = skip_tags();
    let markdown = match html_to_markdown(html, &tags, true) {
        Some(markdown) => markdown,
        None => { return None; },
    };
    match plain_text(markdown) {
        Some(text) => Some(prose_blocks(text.as_str())),
        None => None,
    }
}

} // verus!
