//! The curation of one document: the text around its target-script runs is
//! kept, split into sentences and scored, and the best sentences are handed
//! on as units.

use crate::chars::{string_views, to_chars, to_string};
use crate::pattern::{char_spans, find_spans, is_match, regex_is_match, regex_spans, spec_char_spans};
use crate::score::{
    content_count, core_word, first_kept, function_count, kept_tokens, lemma_first_kept,
    lemma_fragment_scores_nothing, lemma_surface_text_of_rest, other_count, score, spec_score,
    surface_text, tally, Score, Token,
};
use crate::select::{
    denied, is_acceptable, is_denied, items_of, select_units, spec_select_units,
    spec_split_into_sentences, split_into_sentences,
};
use crate::window::{
    covered, covered_len, dense_enough, is_one_window, lemma_one_window_is_kept,
    spec_dense_enough, spec_windowed, windowed,
};
use lindera::segmenter::Segmenter;
use vstd::prelude::*;

verus! {

/// The segmenter of `lindera` with its dictionary. It is handed through to
/// the analysis and never looked into.
#[verifier::external_type_specification]
#[verifier::external_body]
pub struct ExSegmenter(lindera::segmenter::Segmenter);

/// What the segmenter makes of a text: the tokens in reading order, each
/// with its surface, its part of speech and the first subdivision of
/// that; `None` where the segmenter fails.
pub uninterp spec fn analysis_of(segmenter: Segmenter, text: Seq<char>) -> Option<Seq<Token>>;

/// Calls `Segmenter::segment` and copies out of each token its `surface`
/// and what `Token::get_detail` gives at 0 and at 1. The claims are that
/// the answer depends on the segmenter, with its dictionary, and the text
/// alone, and that the surfaces together are no longer than the text: the
/// segmenter cuts each surface out of the text, one behind the other.
#[verifier::external_body]
pub(crate) fn segment(segmenter: &Segmenter, text: &str) -> (r: Option<Vec<Token>>)
    ensures
        match r {
            Some(tokens) => analysis_of(*segmenter, text@) == Some(tokens@),
            None => analysis_of(*segmenter, text@) is None,
        },
        r matches Some(tokens) ==> surface_text(tokens@).len() <= text@.len(),
{
    let tokens = segmenter.segment(std::borrow::Cow::Borrowed(text)).ok()?;
    let mut out = Vec::new();
    for mut token in tokens {
        let part_of_speech = token.get_detail(0).map(|s| s.to_string());
        let subcategory = token.get_detail(1).map(|s| s.to_string());
        out.push(Token { surface: token.surface.to_string(), part_of_speech, subcategory });
    }
    Some(out)
}

/// The pattern of a run of the target script: kana, printable ASCII and
/// the common full-width marks.
pub const TARGET_SCRIPT_PATTERN: &'static str =
    "([ぁ-んァ-ン -~！”＃＄％＆’（）*+，−．／：；＜＝＞？＠［＼］＾＿｀｛｜｝〜]+)";

/// Phrases of navigation, trade and adult content that mark boilerplate,
/// for callers that bring no list of their own.
pub open spec fn spec_default_denylist() -> Seq<Seq<char>> {
    seq![
        "ログイン"@,
        "新規登録"@,
        "利用規約"@,
        "プライバシーポリシー"@,
        "お問い合わせ"@,
        "送料無料"@,
        "カートに入れる"@,
        "ポイント還元"@,
        "アダルト"@,
        "無修正"@,
    ]
}

/// The phrases that mark boilerplate, for callers that bring no list of
/// their own.
pub fn default_denylist() -> (phrases: Vec<String>)
    ensures
        string_views(phrases@) == spec_default_denylist(),
{
    let mut phrases: Vec<String> = Vec::new();
    phrases.push("ログイン".to_owned());
    phrases.push("新規登録".to_owned());
    phrases.push("利用規約".to_owned());
    phrases.push("プライバシーポリシー".to_owned());
    phrases.push("お問い合わせ".to_owned());
    phrases.push("送料無料".to_owned());
    phrases.push("カートに入れる".to_owned());
    phrases.push("ポイント還元".to_owned());
    phrases.push("アダルト".to_owned());
    phrases.push("無修正".to_owned());
    assert(string_views(phrases@) =~= spec_default_denylist());
    phrases
}

/// A text has to hold at least this many characters to be looked at.
pub const MIN_TEXT_CHARS: usize = 20;

/// The text that is kept has to hold at least this many characters.
pub const MIN_KEPT_CHARS: usize = 50;

/// Why a document gives no units. None of these is a failure: most
/// documents are passed over.
#[derive(Clone, Copy, Debug, PartialEq, Eq)]
pub enum Rejection {
    /// The document holds no character of the target script.
    NoTargetScript,
    /// The page could not be converted to text.
    NotConverted,
    /// The text holds fewer than `MIN_TEXT_CHARS` characters.
    TextTooShort,
    /// The pattern for the target script is no regular expression, or its
    /// matches are not in order.
    NoRuns,
    /// Less than 55 in 100 characters of the text kept belong to runs of
    /// the target script.
    TooFewTargetScript,
    /// The text kept holds fewer than `MIN_KEPT_CHARS` characters.
    KeptTooShort,
}

/// The runs of the target script in `text`, counted in characters.
pub open spec fn target_runs(pattern: Seq<char>, text: Seq<char>) -> Option<Seq<(usize, usize)>> {
    match regex_spans(pattern, text) {
        Some(spans) => spec_char_spans(text, spans),
        None => None,
    }
}

/// The text that is kept of a document: the windows around its
/// target-script runs, where the text is long enough, and the text kept is
/// long enough and dense enough in target script.
pub open spec fn spec_retained_text(pattern: Seq<char>, text: Seq<char>) -> Result<
    Seq<char>,
    Rejection,
> {
    if text.len() < MIN_TEXT_CHARS {
        Err(Rejection::TextTooShort)
    } else {
        match target_runs(pattern, text) {
            None => Err(Rejection::NoRuns),
            Some(runs) => {
                let kept = spec_windowed(text, runs);
                match target_runs(pattern, kept) {
                    None => Err(Rejection::NoRuns),
                    Some(kept_runs) => if !spec_dense_enough(
                        covered_len(kept_runs),
                        kept.len() as int,
                    ) {
                        Err(Rejection::TooFewTargetScript)
                    } else if kept.len() < MIN_KEPT_CHARS {
                        Err(Rejection::KeptTooShort)
                    } else {
                        Ok(kept)
                    },
                }
            },
        }
    }
}

/// Curating text that has been kept before changes nothing, where that
/// text is one window: text that is one window already, and long enough
/// and dense enough in target script, is kept as it is.
pub proof fn lemma_one_window_is_retained(pattern: Seq<char>, text: Seq<char>)
    requires
        target_runs(pattern, text) matches Some(runs) && is_one_window(text, runs)
            && spec_dense_enough(covered_len(runs), text.len() as int),
        text.len() >= MIN_KEPT_CHARS,
    ensures
        spec_retained_text(pattern, text) == Ok::<Seq<char>, Rejection>(text),
{
    lemma_one_window_is_kept(text, target_runs(pattern, text)->0);
}

/// The runs of the target script in `text`, counted in characters.
fn runs_in(pattern: &str, text: &str, chars: &[char]) -> (r: Option<Vec<(usize, usize)>>)
    requires
        chars@ == text@,
    ensures
        match r {
            Some(runs) => target_runs(pattern@, text@) == Some(runs@)
                && crate::pattern::valid_spans(text@.len(), runs@),
            None => target_runs(pattern@, text@) is None,
        },
{
    match find_spans(pattern, text) {
        Some(spans) => char_spans(chars, &spans),
        None => None,
    }
}

/// Keeps of a document the text around its target-script runs.
pub fn retained_text(pattern: &str, text: &str) -> (r: Result<String, Rejection>)
    ensures
        match r {
            Ok(kept) => spec_retained_text(pattern@, text@) == Ok::<Seq<char>, Rejection>(kept@),
            Err(why) => spec_retained_text(pattern@, text@) == Err::<Seq<char>, Rejection>(why),
        },
{
    let chars = to_chars(text);
    if chars.len() < MIN_TEXT_CHARS {
        return Err(Rejection::TextTooShort);
    }
    let runs = match runs_in(pattern, text, chars.as_slice()) {
        Some(runs) => runs,
        None => { return Err(Rejection::NoRuns); },
    };
    let kept_chars = windowed(chars.as_slice(), &runs);
    let kept = to_string(kept_chars.as_slice());
    let kept_runs = match runs_in(pattern, kept.as_str(), kept_chars.as_slice()) {
        Some(runs) => runs,
        None => { return Err(Rejection::NoRuns); },
    };
    let matched = covered(kept_chars.len(), &kept_runs);
    if !dense_enough(matched, kept_chars.len()) {
        return Err(Rejection::TooFewTargetScript);
    }
    if kept_chars.len() < MIN_KEPT_CHARS {
        return Err(Rejection::KeptTooShort);
    }
    Ok(kept)
}

/// Whether `c` is an ASCII letter or digit.
pub open spec fn is_ascii_alphanumeric(c: char) -> bool {
    ('0' <= c <= '9') || ('a' <= c <= 'z') || ('A' <= c <= 'Z')
}

/// How many ASCII letters and digits `text` holds.
pub open spec fn ascii_alphanumeric_count(text: Seq<char>) -> nat
    decreases text.len(),
{
    if text.len() == 0 {
        0
    } else {
        ascii_alphanumeric_count(text.drop_last()) + if is_ascii_alphanumeric(text.last()) {
            1nat
        } else {
            0nat
        }
    }
}

/// Whether more than 40 in 100 characters are ASCII letters or digits.
pub open spec fn is_mostly_ascii(text: Seq<char>) -> bool {
    ascii_alphanumeric_count(text) * 5 > text.len() * 2
}

/// Whether the share of tokens that are neither noun, verb nor adjective
/// lies between 15 and 85 in 100.
pub open spec fn is_balanced(tokens: Seq<Token>) -> bool {
    other_count(tokens) * 20 >= tokens.len() * 3 && other_count(tokens) * 20 <= tokens.len() * 17
}

/// Whether a sentence is scored at all: it holds no denied phrase, is not
/// mostly ASCII letters and digits, and its tokens are balanced.
pub open spec fn is_eligible(sentence: Seq<char>, tokens: Seq<Token>, denylist: Seq<Seq<char>>) -> bool {
    !is_denied(sentence, denylist) && !is_mostly_ascii(sentence) && is_balanced(tokens)
}

fn mostly_ascii(text: &[char]) -> (b: bool)
    ensures
        b == is_mostly_ascii(text@),
{
    let mut count: usize = 0;
    let mut i: usize = 0;
    assert(text@.take(0) == Seq::<char>::empty());
    while i < text.len()
        invariant
            i <= text.len(),
            count == ascii_alphanumeric_count(text@.take(i as int)),
            count <= i,
        decreases text.len() - i,
    {
        let c = text[i];
        proof {
            let next = text@.take(i + 1);
            assert(next.drop_last() == text@.take(i as int));
            assert(next.last() == c);
        }
        if ('0' <= c && c <= '9') || ('a' <= c && c <= 'z') || ('A' <= c && c <= 'Z') {
            count += 1;
        }
        i += 1;
    }
    assert(text@.take(text.len() as int) == text@);
    (count as u128) * 5 > (text.len() as u128) * 2
}

fn balanced(tokens: &Vec<Token>) -> (b: bool)
    ensures
        b == is_balanced(tokens@),
{
    let mut others: usize = 0;
    let mut i: usize = 0;
    assert(tokens@.take(0) == Seq::<Token>::empty());
    while i < tokens.len()
        invariant
            i <= tokens.len(),
            others == other_count(tokens@.take(i as int)),
            others <= i,
        decreases tokens.len() - i,
    {
        proof {
            let next = tokens@.take(i + 1);
            assert(next.drop_last() == tokens@.take(i as int));
            assert(next.last() == tokens@[i as int]);
        }
        if !core_word(&tokens[i]) {
            others += 1;
        }
        i += 1;
    }
    assert(tokens@.take(tokens.len() as int) == tokens@);
    (others as u128) * 20 >= (tokens.len() as u128) * 3 && (others as u128) * 20 <= (
    tokens.len() as u128) * 17
}

/// Whether the text holds a digit, as the pattern `\d` of the regular
/// expressions has it.
pub open spec fn holds_digit(text: Seq<char>) -> bool {
    regex_is_match("\\d"@, text) == Some(true)
}

/// The score and the cleaned text of a sentence, given what the analysis
/// made of it: nothing where there is no analysis; else the cleaned
/// sentence, with the score that its tokens and length give where the
/// sentence is eligible, and a score of zero where it is not.
pub open spec fn spec_sentence_score(
    sentence: Seq<char>,
    analysis: Option<Seq<Token>>,
    denylist: Seq<Seq<char>>,
) -> ((nat, nat), Seq<char>) {
    match analysis {
        None => ((0nat, 1nat), Seq::empty()),
        Some(tokens) => {
            let kept = kept_tokens(tokens);
            let cleaned = surface_text(kept);
            if is_eligible(sentence, tokens, denylist) {
                (
                    spec_score(
                        content_count(kept),
                        function_count(kept),
                        cleaned.len(),
                        holds_digit(cleaned),
                    ),
                    cleaned,
                )
            } else {
                ((0nat, 1nat), cleaned)
            }
        },
    }
}

/// Scores a sentence from its tokens.
pub fn score_analysis(sentence: &str, tokens: &Vec<Token>, denylist: &Vec<String>) -> (r: (
    Score,
    String,
))
    requires
        tokens.len() <= u32::MAX,
    ensures
        (r.0.value(), r.1@) == spec_sentence_score(
            sentence@,
            Some(tokens@),
            string_views(denylist@),
        ),
        r.0.wf(),
{
    let counts = tally(tokens);
    let cleaned = to_string(counts.cleaned.as_slice());
    let chars = to_chars(sentence);
    if denied(chars.as_slice(), denylist) || mostly_ascii(chars.as_slice()) || !balanced(tokens) {
        return (Score { num: 0, den: 1 }, cleaned);
    }
    let has_digit = match is_match("\\d", cleaned.as_str()) {
        Some(found) => found,
        None => false,
    };
    (score(counts.content, counts.function, counts.cleaned.len(), has_digit), cleaned)
}

/// The analysis as far as it is used: an analysis of more tokens than 32
/// bits can count is taken as failed.
pub open spec fn countable(analysis: Option<Seq<Token>>) -> Option<Seq<Token>> {
    match analysis {
        Some(tokens) => if tokens.len() <= u32::MAX {
            Some(tokens)
        } else {
            None
        },
        None => None,
    }
}

/// Scores a sentence from what the analysis made of it. A sentence whose
/// analysis failed, or came back in more tokens than 32 bits can count,
/// scores nothing and has no text.
pub fn score_outcome(sentence: &str, analysis: Option<Vec<Token>>, denylist: &Vec<String>) -> (r:
    (Score, String))
    ensures
        (r.0.value(), r.1@) == spec_sentence_score(
            sentence@,
            countable(
                match analysis {
                    Some(tokens) => Some(tokens@),
                    None => None,
                },
            ),
            string_views(denylist@),
        ),
        r.0.wf(),
{
    match analysis {
        Some(tokens) => {
            if tokens.len() <= 0xFFFF_FFFF {
                score_analysis(sentence, &tokens, denylist)
            } else {
                (Score { num: 0, den: 1 }, String::new())
            }
        },
        None => (Score { num: 0, den: 1 }, String::new()),
    }
}

/// The score and the cleaned text of a sentence, as the segmenter's
/// analysis gives them.
pub open spec fn spec_calculate_sentence_score(
    tok: Segmenter,
    sentence: Seq<char>,
    denylist: Seq<Seq<char>>,
) -> ((nat, nat), Seq<char>) {
    spec_sentence_score(sentence, countable(analysis_of(tok, sentence)), denylist)
}

/// Analyses a sentence and scores it. The cleaned text is no longer than
/// the sentence, so a sentence of up to nine characters scores nothing.
pub fn calculate_sentence_score(tok: &Segmenter, denylist: &Vec<String>, sentence: &str) -> (r: (
    Score,
    String,
))
    ensures
        (r.0.value(), r.1@) == spec_calculate_sentence_score(
            *tok,
            sentence@,
            string_views(denylist@),
        ),
        r.0.wf(),
        r.1@.len() <= sentence@.len(),
        sentence@.len() <= 9 ==> r.0.num == 0,
{
    let analysis = segment(tok, sentence);
    proof {
        if analysis is Some {
            let tokens = analysis->0@;
            lemma_first_kept(tokens, 0);
            lemma_surface_text_of_rest(tokens, first_kept(tokens, 0));
            let kept = kept_tokens(tokens);
            if surface_text(kept).len() <= 9 {
                lemma_fragment_scores_nothing(
                    content_count(kept),
                    function_count(kept),
                    surface_text(kept).len(),
                    holds_digit(surface_text(kept)),
                );
            }
        }
    }
    score_outcome(sentence, analysis, denylist)
}

/// The sentences with the score and the cleaned text of each.
pub open spec fn scored_sentences(
    tok: Segmenter,
    sentences: Seq<Seq<char>>,
    denylist: Seq<Seq<char>>,
) -> Seq<((nat, nat), Seq<char>)> {
    Seq::new(
        sentences.len(),
        |i: int| spec_calculate_sentence_score(tok, sentences[i], denylist),
    )
}

/// The units of a text: its sentences are scored, each from the
/// segmenter's analysis of it, and the selection is made among them.
pub open spec fn spec_clean(tok: Segmenter, text: Seq<char>, denylist: Seq<Seq<char>>) -> Seq<
    Seq<char>,
> {
    spec_select_units(
        scored_sentences(tok, spec_split_into_sentences(text), denylist),
        denylist,
    )
}

/// Splits the text into sentences, scores each, and hands on the units
/// that the best sentences make. No unit holds a denied phrase, and each
/// is longer than 30 characters.
pub fn clean(tok: &Segmenter, denylist: &Vec<String>, text: &str) -> (r: Vec<String>)
    ensures
        string_views(r@) == spec_clean(*tok, text@, string_views(denylist@)),
        forall|i: int|
            0 <= i < r.len() ==> is_acceptable((#[trigger] r@[i])@, string_views(denylist@)),
{
    let sentences = split_into_sentences(text);
    let ghost texts = string_views(sentences@);
    let ghost phrases = string_views(denylist@);
    let mut scored: Vec<(Score, String)> = Vec::new();
    let mut i: usize = 0;
    while i < sentences.len()
        invariant
            i <= sentences.len(),
            texts == string_views(sentences@),
            phrases == string_views(denylist@),
            scored.len() == i,
            forall|j: int|
                0 <= j < i ==> (#[trigger] scored@[j]).0.wf() && (
                scored@[j].0.value(),
                scored@[j].1@,
            ) == spec_calculate_sentence_score(*tok, texts[j], phrases),
        decreases sentences.len() - i,
    {
        let one = calculate_sentence_score(tok, denylist, sentences[i].as_str());
        let ghost before = scored@;
        assert(texts[i as int] == sentences@[i as int]@);
        scored.push(one);
        assert forall|j: int| 0 <= j < i + 1 implies (#[trigger] scored@[j]).0.wf() && (
            scored@[j].0.value(),
            scored@[j].1@,
        ) == spec_calculate_sentence_score(*tok, texts[j], phrases) by {
            if j < i {
                assert(scored@[j] == before[j]);
            }
        }
        i += 1;
    }
    assert(items_of(scored@) =~= scored_sentences(*tok, texts, phrases));
    select_units(scored, denylist)
}

/// The units of a document, or why it gives none: the units of the text
/// that is kept of it.
pub open spec fn spec_extract(
    pattern: Seq<char>,
    tok: Segmenter,
    text: Seq<char>,
    denylist: Seq<Seq<char>>,
) -> Result<Seq<Seq<char>>, Rejection> {
    match spec_retained_text(pattern, text) {
        Ok(kept) => Ok(spec_clean(tok, kept, denylist)),
        Err(why) => Err(why),
    }
}

/// Curates one document: keeps the text around its target-script runs and
/// hands on the units that the best sentences of that text make.
pub fn extract(pattern: &str, tok: &Segmenter, denylist: &Vec<String>, text: &str) -> (r: Result<
    Vec<String>,
    Rejection,
>)
    ensures
        match r {
            Ok(units) => spec_extract(pattern@, *tok, text@, string_views(denylist@)) == Ok::<
                Seq<Seq<char>>,
                Rejection,
            >(string_views(units@)) && forall|i: int|
                0 <= i < units.len() ==> is_acceptable(
                    (#[trigger] units@[i])@,
                    string_views(denylist@),
                ),
            Err(why) => spec_extract(pattern@, *tok, text@, string_views(denylist@)) == Err::<
                Seq<Seq<char>>,
                Rejection,
            >(why),
        },
{
    match retained_text(pattern, text) {
        Ok(kept) => Ok(clean(tok, denylist, kept.as_str())),
        Err(why) => Err(why),
    }
}

} // verus!
