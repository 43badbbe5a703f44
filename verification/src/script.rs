//! The language gate: a cheap look for characters of the target script, and
//! the decision over what a trained language model predicted.

use crate::headers::same_text;
use vstd::prelude::*;

verus! {

/// Whether `c` is a hiragana or katakana letter of the ranges that mark a
/// text as a candidate: from small a up to, but without, the final n.
pub open spec fn is_kana(c: char) -> bool {
    ('ぁ' <= c < 'ん') || ('ァ' <= c < 'ン')
}

/// Whether `c` is a full-size hiragana or katakana letter: from a up to,
/// but without, the final n.
pub open spec fn is_plain_kana(c: char) -> bool {
    ('あ' <= c < 'ん') || ('ア' <= c < 'ン')
}

/// Whether some character of `body` is kana.
pub open spec fn spec_detect_language(body: Seq<char>) -> bool {
    exists|i: int| 0 <= i < body.len() && is_kana(#[trigger] body[i])
}

/// The cheap test that comes before any prediction: whether the text holds
/// a character of the target script at all.
pub fn detect_language(body: &str) -> (found: bool)
    ensures
        found == spec_detect_language(body@),
{
    let mut found = false;
    for c in iter: body.chars()
        invariant
            iter.seq() == body@,
            found == spec_detect_language(body@.take(iter.index())),
    {
        let ghost before = body@.take(iter.index());
        let ghost after = body@.take(iter.index() + 1);
        let kana = ('ぁ' <= c && c < 'ん') || ('ァ' <= c && c < 'ン');
        proof {
            assert(after == before.push(c));
            if found {
                let i = choose|i: int| 0 <= i < before.len() && is_kana(#[trigger] before[i]);
                assert(is_kana(after[i]));
            } else if kana {
                assert(is_kana(after[before.len() as int]));
            } else {
                assert forall|i: int| 0 <= i < after.len() implies !is_kana(
                    #[trigger] after[i],
                ) by {
                    if i < before.len() {
                        assert(before[i] == after[i]);
                    }
                }
            }
        }
        found = found || kana;
    }
    assert(body@.take(body@.len() as int) == body@);
    found
}

/// The index of the first candidate at or after `from` that passes the
/// cheap test, or `candidates.len()`.
pub open spec fn spec_next_probe(candidates: Seq<Seq<char>>, from: int) -> int
    decreases candidates.len() - from,
{
    if 0 <= from < candidates.len() && !spec_detect_language(candidates[from]) {
        spec_next_probe(candidates, from + 1)
    } else {
        from
    }
}

/// Picks the next text to hand to the language model. The candidates stand
/// in the order of their priority; those that fail the cheap test are
/// passed over without a prediction. The caller asks the model about the
/// text at the index given, and comes back with the next index if the model
/// does not confirm it.
pub fn next_probe(candidates: &Vec<String>, from: usize) -> (r: Option<usize>)
    requires
        from <= candidates.len(),
    ensures
        match r {
            Some(i) => i == spec_next_probe(crate::chars::string_views(candidates@), from as int)
                && from <= i < candidates.len(),
            None => spec_next_probe(crate::chars::string_views(candidates@), from as int)
                == candidates.len(),
        },
{
    let ghost texts = crate::chars::string_views(candidates@);
    let mut i: usize = from;
    while i < candidates.len()
        invariant
            from <= i <= candidates.len(),
            texts == crate::chars::string_views(candidates@),
            spec_next_probe(texts, from as int) == spec_next_probe(texts, i as int),
        decreases candidates.len() - i,
    {
        assert(texts[i as int] == candidates@[i as int]@);
        if detect_language(candidates[i].as_str()) {
            return Some(i);
        }
        i += 1;
    }
    None
}

/// One prediction of a language model: a label, and whether the model's
/// confidence in it is above the threshold.
pub struct Prediction {
    pub label: String,
    pub confident: bool,
}

/// Whether the target language is one that plain kana settle without a
/// prediction, and `text` holds such a letter.
pub open spec fn spec_settled_by_script(text: Seq<char>, language_tag: Seq<char>) -> bool {
    language_tag == "ja"@ && exists|i: int| 0 <= i < text.len() && is_plain_kana(#[trigger] text[i])
}

/// Whether the text can be taken for the target language without asking
/// the model.
pub fn settled_by_script(text: &str, language_tag: &str) -> (settled: bool)
    ensures
        settled == spec_settled_by_script(text@, language_tag@),
{
    if !same_text(language_tag, "ja") {
        return false;
    }
    let mut found = false;
    for c in iter: text.chars()
        invariant
            iter.seq() == text@,
            found == (exists|i: int|
                0 <= i < iter.index() && is_plain_kana(#[trigger] text@[i])),
    {
        let kana = ('あ' <= c && c < 'ん') || ('ア' <= c && c < 'ン');
        proof {
            if found {
                let i = choose|i: int| 0 <= i < iter.index() && is_plain_kana(#[trigger] text@[i]);
                assert(is_plain_kana(text@[i]));
            } else if kana {
                assert(is_plain_kana(text@[iter.index()]));
            }
        }
        found = found || kana;
    }
    found
}

/// The label under which a language model knows a language.
pub open spec fn spec_model_label(language_tag: Seq<char>) -> Seq<char> {
    "__label__"@ + language_tag
}

/// The label under which a language model knows a language.
pub fn model_label(language_tag: &str) -> (label: String)
    ensures
        label@ == spec_model_label(language_tag@),
{
    let mut label = "__label__".to_owned();
    let tag = crate::chars::to_chars(language_tag);
    let mut i: usize = 0;
    while i < tag.len()
        invariant
            i <= tag.len(),
            tag@ == language_tag@,
            label@ == "__label__"@ + tag@.take(i as int),
        decreases tag.len() - i,
    {
        label.push(tag[i]);
        assert(tag@.take(i + 1) == tag@.take(i as int).push(tag@[i as int]));
        i += 1;
    }
    assert(tag@.take(tag@.len() as int) == tag@);
    label
}

/// Whether one of the predictions names the target language with
/// confidence.
pub open spec fn spec_confirmed(predictions: Seq<Prediction>, language_tag: Seq<char>) -> bool {
    exists|i: int|
        0 <= i < predictions.len() && (#[trigger] predictions[i]).label@ == spec_model_label(
            language_tag,
        ) && predictions[i].confident
}

/// Whether the model confirms the target language: whether one of its
/// predictions carries the language's label and is confident.
pub fn confirmed(predictions: &Vec<Prediction>, language_tag: &str) -> (yes: bool)
    ensures
        yes == spec_confirmed(predictions@, language_tag@),
{
    let label = model_label(language_tag);
    let mut i: usize = 0;
    while i < predictions.len()
        invariant
            i <= predictions.len(),
            label@ == spec_model_label(language_tag@),
            forall|j: int|
                0 <= j < i ==> !((#[trigger] predictions@[j]).label@ == spec_model_label(
                    language_tag@,
                ) && predictions@[j].confident),
        decreases predictions.len() - i,
    {
        if predictions[i].confident && predictions[i].label == label {
            return true;
        }
        i += 1;
    }
    false
}

/// What the language gate does next.
#[derive(Clone, Copy, Debug, PartialEq, Eq)]
pub enum GateStep {
    /// Ask the model about the candidate at this index.
    Ask(usize),
    /// The document is taken to be in the target language.
    Pass,
    /// No candidate is left: the document is passed over.
    Reject,
}

/// The language gate's step when the candidates from `from` on are still to be
/// looked at: candidates that fail the cheap test are passed over; the
/// first one that passes it lets the document pass where its script
/// settles the language, and is put to the model where it does not.
pub open spec fn spec_gate_from(candidates: Seq<Seq<char>>, language_tag: Seq<char>, from: int) -> GateStep
    decreases candidates.len() - from,
{
    if !(0 <= from < candidates.len()) {
        GateStep::Reject
    } else if !spec_detect_language(candidates[from]) {
        spec_gate_from(candidates, language_tag, from + 1)
    } else if spec_settled_by_script(candidates[from], language_tag) {
        GateStep::Pass
    } else {
        GateStep::Ask(from as usize)
    }
}

/// Whether the document passes the language gate, where `answers` holds for each
/// candidate whether the model confirms the language for it: the steps are
/// taken from `from` on, each question answered from `answers`.
pub open spec fn gate_outcome(
    candidates: Seq<Seq<char>>,
    language_tag: Seq<char>,
    answers: Seq<bool>,
    from: int,
) -> bool
    decreases candidates.len() - from,
{
    if !(0 <= from < candidates.len()) {
        false
    } else if !spec_detect_language(candidates[from]) {
        gate_outcome(candidates, language_tag, answers, from + 1)
    } else if spec_settled_by_script(candidates[from], language_tag) {
        true
    } else {
        answers[from] || gate_outcome(candidates, language_tag, answers, from + 1)
    }
}

/// Whether a candidate alone lets the document pass: it passes the cheap
/// test, and its script settles the language or the model confirms it.
pub open spec fn candidate_passes(text: Seq<char>, language_tag: Seq<char>, answer: bool) -> bool {
    spec_detect_language(text) && (spec_settled_by_script(text, language_tag) || answer)
}

/// The document passes the language gate exactly where one of its candidates
/// passes alone: the first such candidate is enough, and the candidates
/// before it do no harm.
pub proof fn lemma_gate_outcome(
    candidates: Seq<Seq<char>>,
    language_tag: Seq<char>,
    answers: Seq<bool>,
    from: int,
)
    requires
        0 <= from <= candidates.len(),
        answers.len() == candidates.len(),
    ensures
        gate_outcome(candidates, language_tag, answers, from) <==> exists|i: int|
            from <= i < candidates.len() && candidate_passes(
                #[trigger] candidates[i],
                language_tag,
                answers[i],
            ),
    decreases candidates.len() - from,
{
    if from < candidates.len() {
        lemma_gate_outcome(candidates, language_tag, answers, from + 1);
        if gate_outcome(candidates, language_tag, answers, from) {
            if candidate_passes(candidates[from], language_tag, answers[from]) {
            } else {
                let i = choose|i: int|
                    from + 1 <= i < candidates.len() && candidate_passes(
                        #[trigger] candidates[i],
                        language_tag,
                        answers[i],
                    );
                assert(candidate_passes(candidates[i], language_tag, answers[i]));
            }
        } else {
            assert forall|i: int| from <= i < candidates.len() implies !candidate_passes(
                #[trigger] candidates[i],
                language_tag,
                answers[i],
            ) by {
                if i > from {
                }
            }
        }
    }
}

/// The language gate's step when the candidates from `from` on are still to be
/// looked at. The language gate starts with `from` at 0.
pub fn gate_from(candidates: &Vec<String>, language_tag: &str, from: usize) -> (step: GateStep)
    requires
        from <= candidates.len(),
    ensures
        step == spec_gate_from(crate::chars::string_views(candidates@), language_tag@, from as int),
{
    match next_probe(candidates, from) {
        Some(i) => {
            proof {
                lemma_gate_skips(
                    crate::chars::string_views(candidates@),
                    language_tag@,
                    from as int,
                );
            }
            assert(crate::chars::string_views(candidates@)[i as int] == candidates@[i as int]@);
            if settled_by_script(candidates[i].as_str(), language_tag) {
                GateStep::Pass
            } else {
                GateStep::Ask(i)
            }
        },
        None => {
            proof {
                lemma_gate_skips(
                    crate::chars::string_views(candidates@),
                    language_tag@,
                    from as int,
                );
            }
            GateStep::Reject
        },
    }
}

/// The language gate's step after the model has answered for the candidate at
/// `asked`: the document passes where the model confirms the language;
/// else the language gate goes on behind that candidate.
pub fn gate_after(
    candidates: &Vec<String>,
    language_tag: &str,
    asked: usize,
    predictions: &Vec<Prediction>,
) -> (step: GateStep)
    requires
        asked < candidates.len(),
    ensures
        step == if spec_confirmed(predictions@, language_tag@) {
            GateStep::Pass
        } else {
            spec_gate_from(crate::chars::string_views(candidates@), language_tag@, asked + 1)
        },
{
    if confirmed(predictions, language_tag) {
        GateStep::Pass
    } else {
        gate_from(candidates, language_tag, asked + 1)
    }
}

/// The language gate passes over the candidates that fail the cheap test.
proof fn lemma_gate_skips(candidates: Seq<Seq<char>>, language_tag: Seq<char>, from: int)
    requires
        0 <= from <= candidates.len(),
    ensures
        spec_gate_from(candidates, language_tag, from) == spec_gate_from(
            candidates,
            language_tag,
            spec_next_probe(candidates, from),
        ),
        from <= spec_next_probe(candidates, from) <= candidates.len(),
        spec_next_probe(candidates, from) < candidates.len() ==> spec_detect_language(
            candidates[spec_next_probe(candidates, from)],
        ),
    decreases candidates.len() - from,
{
    if from < candidates.len() && !spec_detect_language(candidates[from]) {
        lemma_gate_skips(candidates, language_tag, from + 1);
    }
}

} // verus!
