//! Scoring a sentence from its morphological analysis.

use crate::chars::to_chars;
use crate::headers::same_text;
use crate::split::{contains, spec_contains};
use vstd::prelude::*;

verus! {

/// One token of a morphological analysis: its text as it stands in the
/// sentence, its part of speech, and the first subdivision of that, where
/// the analysis gives them.
pub struct Token {
    pub surface: String,
    pub part_of_speech: Option<String>,
    pub subcategory: Option<String>,
}

/// A score as an exact fraction.
#[derive(Clone, Copy, Debug)]
pub struct Score {
    pub num: u128,
    pub den: u128,
}

impl Score {
    /// Whether the fraction has a denominator, and is small enough to be
    /// compared with another by cross-multiplication.
    pub open spec fn wf(self) -> bool {
        0 < self.den < 0x4000_0000_0000 && self.num < 0x4000_0000_0000
    }

    /// The fraction as numerator and denominator.
    pub open spec fn value(self) -> (nat, nat) {
        (self.num as nat, self.den as nat)
    }
}

/// Whether the fraction `a` is at most the fraction `b`.
pub open spec fn score_le(a: (nat, nat), b: (nat, nat)) -> bool {
    a.0 * b.1 <= b.0 * a.1
}

/// Whether the token's part of speech is `name`.
pub open spec fn pos_is(t: Token, name: Seq<char>) -> bool {
    t.part_of_speech matches Some(p) && p@ == name
}

/// Whether the token's subcategory holds `part`.
pub open spec fn detail_has(t: Token, part: Seq<char>) -> bool {
    t.subcategory matches Some(d) && spec_contains(d@, part)
}

/// Whether a sentence is not taken to start with this token: a particle,
/// adverb, conjunction or auxiliary verb, or a comma.
pub open spec fn is_leading_filler(t: Token) -> bool {
    ||| pos_is(t, "助詞"@)
    ||| pos_is(t, "副詞"@)
    ||| pos_is(t, "接続詞"@)
    ||| pos_is(t, "助動詞"@)
    ||| t.surface@ == "、"@
    ||| t.surface@ == ","@
}

/// Whether the token is one of the light verbs that carry no content.
pub open spec fn is_light_verb(t: Token) -> bool {
    ||| t.surface@ == "する"@
    ||| t.surface@ == "ある"@
    ||| t.surface@ == "いる"@
    ||| t.surface@ == "なる"@
}

/// Whether the token carries content: a noun, verb, adjective or adverb
/// that is neither bound, auxiliary nor blank, and no light verb.
pub open spec fn is_content_word(t: Token) -> bool {
    &&& pos_is(t, "名詞"@) || pos_is(t, "動詞"@) || pos_is(t, "形容詞"@) || pos_is(t, "副詞"@)
    &&& !detail_has(t, "非自立"@)
    &&& !detail_has(t, "助動詞"@)
    &&& !detail_has(t, "空白"@)
    &&& !is_light_verb(t)
}

/// Whether the token serves the grammar: a particle, an auxiliary verb or
/// a bound form, where it carries no content.
pub open spec fn is_function_word(t: Token) -> bool {
    &&& !is_content_word(t)
    &&& pos_is(t, "助詞"@) || pos_is(t, "助動詞"@) || detail_has(t, "非自立"@)
}

/// Whether the token is a noun, a verb or an adjective.
pub open spec fn is_core_word(t: Token) -> bool {
    pos_is(t, "名詞"@) || pos_is(t, "動詞"@) || pos_is(t, "形容詞"@)
}

fn pos_matches(t: &Token, name: &str) -> (b: bool)
    ensures
        b == pos_is(*t, name@),
{
    match &t.part_of_speech {
        Some(p) => same_text(p.as_str(), name),
        None => false,
    }
}

fn detail_contains(t: &Token, part: &str) -> (b: bool)
    ensures
        b == detail_has(*t, part@),
{
    match &t.subcategory {
        Some(d) => {
            let hay = to_chars(d.as_str());
            let needle = to_chars(part);
            contains(hay.as_slice(), needle.as_slice())
        },
        None => false,
    }
}

pub fn leading_filler(t: &Token) -> (b: bool)
    ensures
        b == is_leading_filler(*t),
{
    pos_matches(t, "助詞") || pos_matches(t, "副詞") || pos_matches(t, "接続詞") || pos_matches(
        t,
        "助動詞",
    ) || same_text(t.surface.as_str(), "、") || same_text(t.surface.as_str(), ",")
}

pub fn content_word(t: &Token) -> (b: bool)
    ensures
        b == is_content_word(*t),
{
    (pos_matches(t, "名詞") || pos_matches(t, "動詞") || pos_matches(t, "形容詞") || pos_matches(
        t,
        "副詞",
    )) && !detail_contains(t, "非自立") && !detail_contains(t, "助動詞") && !detail_contains(
        t,
        "空白",
    ) && !(same_text(t.surface.as_str(), "する") || same_text(t.surface.as_str(), "ある")
        || same_text(t.surface.as_str(), "いる") || same_text(t.surface.as_str(), "なる"))
}

pub fn function_word(t: &Token) -> (b: bool)
    ensures
        b == is_function_word(*t),
{
    !content_word(t) && (pos_matches(t, "助詞") || pos_matches(t, "助動詞") || detail_contains(
        t,
        "非自立",
    ))
}

pub fn core_word(t: &Token) -> (b: bool)
    ensures
        b == is_core_word(*t),
{
    pos_matches(t, "名詞") || pos_matches(t, "動詞") || pos_matches(t, "形容詞")
}

/// The index of the first token at or after `i` that is no leading filler,
/// or `tokens.len()`.
pub open spec fn first_kept(tokens: Seq<Token>, i: int) -> int
    decreases tokens.len() - i,
{
    if 0 <= i < tokens.len() && is_leading_filler(tokens[i]) {
        first_kept(tokens, i + 1)
    } else {
        i
    }
}

pub proof fn lemma_first_kept(tokens: Seq<Token>, i: int)
    requires
        0 <= i <= tokens.len(),
    ensures
        i <= first_kept(tokens, i) <= tokens.len(),
    decreases tokens.len() - i,
{
    if i < tokens.len() && is_leading_filler(tokens[i]) {
        lemma_first_kept(tokens, i + 1);
    }
}

/// The tokens that make up the cleaned sentence: all from the first that
/// is no leading filler.
pub open spec fn kept_tokens(tokens: Seq<Token>) -> Seq<Token> {
    tokens.skip(first_kept(tokens, 0))
}

/// How many of the tokens carry content.
pub open spec fn content_count(tokens: Seq<Token>) -> nat
    decreases tokens.len(),
{
    if tokens.len() == 0 {
        0
    } else {
        content_count(tokens.drop_last()) + if is_content_word(tokens.last()) {
            1nat
        } else {
            0nat
        }
    }
}

/// How many of the tokens serve the grammar.
pub open spec fn function_count(tokens: Seq<Token>) -> nat
    decreases tokens.len(),
{
    if tokens.len() == 0 {
        0
    } else {
        function_count(tokens.drop_last()) + if is_function_word(tokens.last()) {
            1nat
        } else {
            0nat
        }
    }
}

/// How many of the tokens are neither noun, verb nor adjective.
pub open spec fn other_count(tokens: Seq<Token>) -> nat
    decreases tokens.len(),
{
    if tokens.len() == 0 {
        0
    } else {
        other_count(tokens.drop_last()) + if is_core_word(tokens.last()) {
            0nat
        } else {
            1nat
        }
    }
}

/// The texts of the tokens, one after the other.
pub open spec fn surface_text(tokens: Seq<Token>) -> Seq<char>
    decreases tokens.len(),
{
    if tokens.len() == 0 {
        Seq::empty()
    } else {
        surface_text(tokens.drop_last()) + tokens.last().surface@
    }
}

/// The texts of the tokens from some token on are no longer than the
/// texts of all.
pub proof fn lemma_surface_text_of_rest(tokens: Seq<Token>, k: int)
    requires
        0 <= k <= tokens.len(),
    ensures
        surface_text(tokens.skip(k)).len() <= surface_text(tokens).len(),
    decreases tokens.len(),
{
    if k == tokens.len() {
        assert(tokens.skip(k).len() == 0);
    } else if tokens.len() > 0 {
        lemma_surface_text_of_rest(tokens.drop_last(), k);
        assert(tokens.skip(k).drop_last() =~= tokens.drop_last().skip(k));
        assert(tokens.skip(k).last() == tokens.last());
    }
}

pub proof fn lemma_counts_bounded(tokens: Seq<Token>)
    ensures
        content_count(tokens) + function_count(tokens) <= tokens.len(),
        other_count(tokens) <= tokens.len(),
    decreases tokens.len(),
{
    if tokens.len() > 0 {
        lemma_counts_bounded(tokens.drop_last());
    }
}

/// What a sentence's tokens come to: how many carry content, how many
/// serve the grammar, and the cleaned sentence.
pub struct Tally {
    pub content: usize,
    pub function: usize,
    pub cleaned: Vec<char>,
}

/// Counts the kept tokens by kind and puts the cleaned sentence together.
pub fn tally(tokens: &Vec<Token>) -> (r: Tally)
    ensures
        r.content == content_count(kept_tokens(tokens@)),
        r.function == function_count(kept_tokens(tokens@)),
        r.cleaned@ == surface_text(kept_tokens(tokens@)),
        r.content + r.function <= tokens.len(),
{
    let mut first: usize = 0;
    while first < tokens.len() && leading_filler(&tokens[first])
        invariant
            first <= tokens.len(),
            first_kept(tokens@, 0) == first_kept(tokens@, first as int),
        decreases tokens.len() - first,
    {
        first += 1;
    }
    let ghost kept = kept_tokens(tokens@);
    assert(kept == tokens@.skip(first as int));
    let mut content: usize = 0;
    let mut function: usize = 0;
    let mut cleaned: Vec<char> = Vec::new();
    let mut i: usize = first;
    while i < tokens.len()
        invariant
            first <= i <= tokens.len(),
            kept == tokens@.skip(first as int),
            content == content_count(kept.take(i - first)),
            function == function_count(kept.take(i - first)),
            cleaned@ == surface_text(kept.take(i - first)),
            content + function <= i - first,
        decreases tokens.len() - i,
    {
        proof {
            let next = kept.take(i - first + 1);
            assert(next.drop_last() == kept.take(i - first));
            assert(next.last() == tokens@[i as int]);
            lemma_counts_bounded(next);
        }
        if content_word(&tokens[i]) {
            content += 1;
        } else if function_word(&tokens[i]) {
            function += 1;
        }
        let surface = to_chars(tokens[i].surface.as_str());
        crate::chars::extend(&mut cleaned, surface.as_slice());
        i += 1;
    }
    assert(kept.take(i - first) == kept);
    Tally { content, function, cleaned }
}

/// The weight of a sentence's length, in tenths: nothing for up to 9
/// characters, 1.0 for 10 to 19, 1.2 for 20 to 80, 1.0 for 81 to 200, and
/// 0.7 beyond.
pub open spec fn length_bracket(length: nat) -> nat {
    if length <= 9 {
        0
    } else if length <= 19 {
        10
    } else if length <= 80 {
        12
    } else if length <= 200 {
        10
    } else {
        7
    }
}

/// The weight of length and bonuses, in thousandths: the length bracket,
/// times 1.2 where at least two tokens carry content, times 1.3 where the
/// sentence holds a digit.
pub open spec fn score_weight(content: nat, length: nat, has_digit: bool) -> nat {
    length_bracket(length) * (if content >= 2 {
        12nat
    } else {
        10nat
    }) * (if has_digit {
        13nat
    } else {
        10nat
    })
}

/// The score of a sentence as numerator and denominator: 0.6 plus the
/// share of content among the tokens that carry content or serve the
/// grammar, times the weight; the weight alone where there are no such
/// tokens.
pub open spec fn spec_score(content: nat, function: nat, length: nat, has_digit: bool) -> (
    nat,
    nat,
) {
    let total = content + function;
    let weight = score_weight(content, length, has_digit);
    if total > 0 {
        ((3 * total + 5 * content) * weight, 5 * total * 1000)
    } else {
        (weight, 1000)
    }
}

/// The score of a sentence with the given counts, length and digit.
pub fn score(content: usize, function: usize, length: usize, has_digit: bool) -> (s: Score)
    requires
        content + function <= u32::MAX,
    ensures
        (s.num as nat, s.den as nat) == spec_score(
            content as nat,
            function as nat,
            length as nat,
            has_digit,
        ),
        s.den > 0,
        s.num < 0x4000_0000_0000,
        s.den < 0x4000_0000_0000,
{
    let bracket: u128 = if length <= 9 {
        0
    } else if length <= 19 {
        10
    } else if length <= 80 {
        12
    } else if length <= 200 {
        10
    } else {
        7
    };
    let words: u128 = if content >= 2 {
        12
    } else {
        10
    };
    let digit: u128 = if has_digit {
        13
    } else {
        10
    };
    let weight: u128 = bracket * words * digit;
    assert(weight <= 1872) by (nonlinear_arith)
        requires
            weight == bracket * words * digit,
            bracket <= 12,
            words <= 12,
            digit <= 13,
    ;
    let total: u128 = content as u128 + function as u128;
    if total > 0 {
        let share: u128 = 3 * total + 5 * (content as u128);
        assert(share * weight <= 0x8_0000_0000 * 1872) by (nonlinear_arith)
            requires
                share <= 0x8_0000_0000,
                weight <= 1872,
        ;
        Score { num: share * weight, den: 5 * total * 1000 }
    } else {
        Score { num: weight, den: 1000 }
    }
}

/// A sentence of up to nine characters scores nothing, whatever its tokens
/// and whether or not it holds a digit.
pub proof fn lemma_fragment_scores_nothing(
    content: nat,
    function: nat,
    length: nat,
    has_digit: bool,
)
    requires
        length <= 9,
    ensures
        spec_score(content, function, length, has_digit).0 == 0,
{
    assert(score_weight(content, length, has_digit) == 0) by (nonlinear_arith)
        requires
            length_bracket(length) == 0,
            score_weight(content, length, has_digit) == length_bracket(length) * (if content
                >= 2 {
                12nat
            } else {
                10nat
            }) * (if has_digit {
                13nat
            } else {
                10nat
            }),
    ;
    assert((3 * (content + function) + 5 * content) * 0 == 0);
}

/// Up to 80 characters a longer sentence never weighs less, and one of 20
/// to 80 characters weighs more than one of up to 9: with the same tokens
/// and digit, its score is the greater.
pub proof fn lemma_length_raises_score(
    content: nat,
    function: nat,
    shorter: nat,
    longer: nat,
    has_digit: bool,
)
    requires
        shorter <= longer <= 80,
    ensures
        length_bracket(shorter) <= length_bracket(longer),
        shorter <= 9 && 20 <= longer ==> length_bracket(shorter) < length_bracket(longer),
        spec_score(content, function, shorter, has_digit).1 == spec_score(
            content,
            function,
            longer,
            has_digit,
        ).1,
        spec_score(content, function, shorter, has_digit).0 <= spec_score(
            content,
            function,
            longer,
            has_digit,
        ).0,
        shorter <= 9 && 20 <= longer ==> spec_score(content, function, shorter, has_digit).0
            < spec_score(content, function, longer, has_digit).0,
{
    let bonus = (if content >= 2 {
        12nat
    } else {
        10nat
    }) * (if has_digit {
        13nat
    } else {
        10nat
    });
    let low = length_bracket(shorter);
    let high = length_bracket(longer);
    let share = 3 * (content + function) + 5 * content;
    assert(score_weight(content, shorter, has_digit) == low * bonus) by (nonlinear_arith)
        requires
            score_weight(content, shorter, has_digit) == low * (if content >= 2 {
                12nat
            } else {
                10nat
            }) * (if has_digit {
                13nat
            } else {
                10nat
            }),
            bonus == (if content >= 2 {
                12nat
            } else {
                10nat
            }) * (if has_digit {
                13nat
            } else {
                10nat
            }),
    ;
    assert(score_weight(content, longer, has_digit) == high * bonus) by (nonlinear_arith)
        requires
            score_weight(content, longer, has_digit) == high * (if content >= 2 {
                12nat
            } else {
                10nat
            }) * (if has_digit {
                13nat
            } else {
                10nat
            }),
            bonus == (if content >= 2 {
                12nat
            } else {
                10nat
            }) * (if has_digit {
                13nat
            } else {
                10nat
            }),
    ;
    assert(bonus >= 100) by (nonlinear_arith)
        requires
            bonus == (if content >= 2 {
                12nat
            } else {
                10nat
            }) * (if has_digit {
                13nat
            } else {
                10nat
            }),
    ;
    assert(low * bonus <= high * bonus && (low < high ==> low * bonus < high * bonus)) by (nonlinear_arith)
        requires
            low <= high,
            bonus >= 100,
    ;
    assert(share * (low * bonus) <= share * (high * bonus) && (low * bonus < high * bonus && share
        > 0 ==> share * (low * bonus) < share * (high * bonus))) by (nonlinear_arith)
        requires
            low * bonus <= high * bonus,
            share >= 0,
    ;
}

} // verus!
