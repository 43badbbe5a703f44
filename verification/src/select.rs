//! From scored sentences to curated units: scores are set against the best
//! score of the document, the sentences that reach half of it are kept,
//! neighbours among them are merged, and short or denied units are dropped.

use crate::chars::{extend, string_views, to_chars, to_string, views, words, spec_words};
use crate::score::{score_le, Score};
use crate::split::{contains, spec_contains, spec_split, split};
use vstd::prelude::*;

verus! {

/// Sentences whose places differ by less than this are merged.
pub const MERGE_DISTANCE: usize = 3;

/// A unit has to be longer than this, in characters.
pub const MIN_UNIT_CHARS: usize = 30;

/// The mark that ends a sentence.
pub const FULL_STOP: char = '。';

/// The sentence that a piece of text between two full stops holds: its
/// last word, where it has a word at all.
pub open spec fn sentence_of(piece: Seq<char>) -> Option<Seq<char>> {
    let w = spec_words(piece);
    if w.len() > 0 {
        Some(w.last())
    } else {
        None
    }
}

/// The sentences that the pieces hold, in order.
pub open spec fn sentences_of(pieces: Seq<Seq<char>>) -> Seq<Seq<char>>
    decreases pieces.len(),
{
    if pieces.len() == 0 {
        Seq::empty()
    } else {
        let front = sentences_of(pieces.drop_last());
        match sentence_of(pieces.last()) {
            Some(sentence) => front.push(sentence),
            None => front,
        }
    }
}

/// The sentences of a text: of each piece between full stops that is not
/// blank, the last word.
pub open spec fn spec_split_into_sentences(text: Seq<char>) -> Seq<Seq<char>> {
    sentences_of(spec_split(text, FULL_STOP))
}

/// Splits a text into sentences at the full stops.
pub fn split_into_sentences(text: &str) -> (r: Vec<String>)
    ensures
        string_views(r@) == spec_split_into_sentences(text@),
{
    let chars = to_chars(text);
    let pieces = split(chars.as_slice(), FULL_STOP);
    let ghost piece_views = views(pieces@);
    let mut r: Vec<String> = Vec::new();
    let mut i: usize = 0;
    assert(piece_views.take(0) == Seq::<Seq<char>>::empty());
    assert(string_views(r@) == Seq::<Seq<char>>::empty());
    while i < pieces.len()
        invariant
            i <= pieces.len(),
            piece_views == views(pieces@),
            string_views(r@) == sentences_of(piece_views.take(i as int)),
        decreases pieces.len() - i,
    {
        proof {
            let next = piece_views.take(i + 1);
            assert(next.drop_last() == piece_views.take(i as int));
            assert(next.last() == pieces@[i as int]@);
        }
        let w = words(pieces[i].as_slice());
        if w.len() > 0 {
            assert(views(w@).last() == w@[w.len() - 1]@);
            let sentence = to_string(w[w.len() - 1].as_slice());
            let ghost before = string_views(r@);
            r.push(sentence);
            assert(string_views(r@) == before.push(sentence@));
        }
        i += 1;
    }
    assert(piece_views.take(pieces.len() as int) == piece_views);
    r
}

/// The greatest of the scores; zero where there are none.
pub open spec fn max_score(scores: Seq<(nat, nat)>) -> (nat, nat)
    decreases scores.len(),
{
    if scores.len() == 0 {
        (0, 1)
    } else {
        let best = max_score(scores.drop_last());
        if score_le(best, scores.last()) {
            scores.last()
        } else {
            best
        }
    }
}

/// One fraction is at most another, or the other way round; and what is
/// at most a fraction that is at most a third is at most the third.
proof fn lemma_score_order(a: (nat, nat), b: (nat, nat), c: (nat, nat))
    requires
        a.1 > 0,
        b.1 > 0,
        c.1 > 0,
    ensures
        score_le(a, b) || score_le(b, a),
        score_le(a, b) && score_le(b, c) ==> score_le(a, c),
{
    if score_le(a, b) && score_le(b, c) {
        assert(a.0 * c.1 <= c.0 * a.1) by (nonlinear_arith)
            requires
                a.0 * b.1 <= b.0 * a.1,
                b.0 * c.1 <= c.0 * b.1,
                a.1 > 0,
                b.1 > 0,
                c.1 > 0,
        {
            assert(a.0 * b.1 * c.1 <= b.0 * a.1 * c.1);
            assert(b.0 * c.1 * a.1 <= c.0 * b.1 * a.1);
            assert(a.0 * c.1 * b.1 <= c.0 * a.1 * b.1);
        }
    }
}

/// The greatest of the scores is one of them, and none is greater.
pub proof fn lemma_max_score_is_greatest(scores: Seq<(nat, nat)>)
    requires
        forall|i: int| 0 <= i < scores.len() ==> (#[trigger] scores[i]).1 > 0,
    ensures
        max_score(scores).1 > 0,
        forall|i: int| 0 <= i < scores.len() ==> score_le(#[trigger] scores[i], max_score(scores)),
        scores.len() > 0 ==> exists|i: int|
            0 <= i < scores.len() && #[trigger] scores[i] == max_score(scores),
    decreases scores.len(),
{
    if scores.len() > 0 {
        let front = scores.drop_last();
        let last = scores.last();
        assert forall|i: int| 0 <= i < front.len() implies (#[trigger] front[i]).1 > 0 by {
            assert(front[i] == scores[i]);
        }
        lemma_max_score_is_greatest(front);
        let before = max_score(front);
        let best = max_score(scores);
        assert(last == scores[scores.len() - 1]);
        lemma_score_order(before, last, last);
        assert forall|i: int| 0 <= i < scores.len() implies score_le(
            #[trigger] scores[i],
            best,
        ) by {
            if i < front.len() {
                assert(front[i] == scores[i]);
                lemma_score_order(scores[i], before, best);
            } else {
                lemma_score_order(last, before, best);
            }
        }
        if score_le(before, last) {
            assert(scores[scores.len() - 1] == best);
        } else {
            assert(front.len() > 0) by {
                if front.len() == 0 {
                    assert(0 * last.1 <= last.0 * 1) by (nonlinear_arith)
                        requires
                            last.0 >= 0,
                    ;
                }
            }
            let i = choose|i: int| 0 <= i < front.len() && #[trigger] front[i] == before;
            assert(scores[i] == best);
        }
    }
}

/// A sentence reaches the threshold exactly where the best score is above
/// zero and twice the sentence's own score is at least the best score.
pub proof fn lemma_threshold_is_half_the_best(raw: (nat, nat), best: (nat, nat))
    requires
        raw.1 > 0,
        best.1 > 0,
        score_le(raw, best),
    ensures
        reaches_threshold(normalized(raw, best)) <==> best.0 > 0 && score_le(
            best,
            (2 * raw.0, raw.1),
        ),
{
    if best.0 > 0 {
        assert(raw.0 * best.1 * 2 == (2 * raw.0) * best.1 && raw.1 * best.0 == best.0 * raw.1)
            by (nonlinear_arith);
    } else {
        assert(raw.0 == 0) by (nonlinear_arith)
            requires
                raw.0 * best.1 <= best.0 * raw.1,
                best.0 == 0,
                best.1 > 0,
        ;
    }
}

/// A score set against the best score: their quotient, or the score
/// itself where the best score is zero.
pub open spec fn normalized(raw: (nat, nat), best: (nat, nat)) -> (nat, nat) {
    if best.0 > 0 {
        (raw.0 * best.1, raw.1 * best.0)
    } else {
        raw
    }
}

/// Whether a normalized score reaches the threshold of one half.
pub open spec fn reaches_threshold(score: (nat, nat)) -> bool {
    score.0 * 2 >= score.1
}

/// A sentence with its place in the document and its scores.
pub struct ScoredSentence {
    pub position: usize,
    pub raw_score: Score,
    pub normalized_score: Score,
    pub text: String,
}

/// The raw scores of a list of sentences.
pub open spec fn raw_scores(sentences: Seq<(Score, String)>) -> Seq<(nat, nat)> {
    Seq::new(sentences.len(), |i: int| sentences[i].0.value())
}

/// The sentences, each with its place and with its score set against the
/// best of all.
pub open spec fn spec_normalize(sentences: Seq<(Score, String)>) -> Seq<ScoredSentence> {
    Seq::new(
        sentences.len(),
        |i: int|
            {
                let set = normalized(sentences[i].0.value(), max_score(raw_scores(sentences)));
                ScoredSentence {
                    position: i as usize,
                    raw_score: sentences[i].0,
                    normalized_score: Score { num: set.0 as u128, den: set.1 as u128 },
                    text: sentences[i].1,
                }
            },
    )
}

impl ScoredSentence {
    /// Whether the scores are fractions and small enough to be compared
    /// with a threshold.
    pub open spec fn wf(self) -> bool {
        &&& self.raw_score.wf()
        &&& self.normalized_score.den > 0
        &&& self.normalized_score.num < 0x1_0000_0000_0000_0000_0000_0000
    }
}

/// Whether the sentences stand in the order of their places.
pub open spec fn in_document_order(scored: Seq<ScoredSentence>) -> bool {
    forall|i: int, j: int|
        0 <= i <= j < scored.len() ==> (#[trigger] scored[i]).position <= (
        #[trigger] scored[j]).position
}

/// The best of the scores.
fn best_score(sentences: &Vec<(Score, String)>) -> (best: Score)
    requires
        forall|i: int| 0 <= i < sentences.len() ==> (#[trigger] sentences@[i]).0.wf(),
    ensures
        best.value() == max_score(raw_scores(sentences@)),
        best.wf(),
{
    let mut best = Score { num: 0, den: 1 };
    let mut i: usize = 0;
    let ghost scores = raw_scores(sentences@);
    assert(scores.take(0) == Seq::<(nat, nat)>::empty());
    while i < sentences.len()
        invariant
            i <= sentences.len(),
            scores == raw_scores(sentences@),
            forall|j: int| 0 <= j < sentences.len() ==> (#[trigger] sentences@[j]).0.wf(),
            best.value() == max_score(scores.take(i as int)),
            best.wf(),
        decreases sentences.len() - i,
    {
        let s = sentences[i].0;
        proof {
            let next = scores.take(i + 1);
            assert(next.drop_last() == scores.take(i as int));
            assert(next.last() == s.value());
            assert(sentences@[i as int].0.wf());
            assert(best.num * s.den < 0x4000_0000_0000 * 0x4000_0000_0000 && s.num * best.den
                < 0x4000_0000_0000 * 0x4000_0000_0000) by (nonlinear_arith)
                requires
                    best.num < 0x4000_0000_0000,
                    best.den < 0x4000_0000_0000,
                    s.num < 0x4000_0000_0000,
                    s.den < 0x4000_0000_0000,
            ;
        }
        if best.num * s.den <= s.num * best.den {
            best = s;
        }
        i += 1;
    }
    assert(scores.take(sentences.len() as int) == scores);
    best
}

/// Gives each sentence its place and sets its score against the best score
/// of the document.
pub fn normalize(sentences: Vec<(Score, String)>) -> (scored: Vec<ScoredSentence>)
    requires
        forall|i: int| 0 <= i < sentences.len() ==> (#[trigger] sentences@[i]).0.wf(),
    ensures
        scored@ == spec_normalize(sentences@),
        in_document_order(scored@),
        forall|i: int| 0 <= i < scored.len() ==> (#[trigger] scored@[i]).wf(),
{
    let best = best_score(&sentences);
    let mut scored: Vec<ScoredSentence> = Vec::new();
    let mut i: usize = 0;
    while i < sentences.len()
        invariant
            i <= sentences.len(),
            forall|j: int| 0 <= j < sentences.len() ==> (#[trigger] sentences@[j]).0.wf(),
            best.value() == max_score(raw_scores(sentences@)),
            best.wf(),
            scored.len() == i,
            forall|j: int|
                0 <= j < i ==> (#[trigger] scored@[j]) == spec_normalize(sentences@)[j]
                    && scored@[j].wf(),
        decreases sentences.len() - i,
    {
        let raw = sentences[i].0;
        assert(sentences@[i as int].0.wf());
        let normalized_score = if best.num > 0 {
            proof {
                assert(raw.num * best.den < 0x4000_0000_0000 * 0x4000_0000_0000 && raw.den
                    * best.num < 0x4000_0000_0000 * 0x4000_0000_0000 && raw.den * best.num > 0)
                    by (nonlinear_arith)
                    requires
                        best.num < 0x4000_0000_0000,
                        best.den < 0x4000_0000_0000,
                        raw.num < 0x4000_0000_0000,
                        0 < raw.den < 0x4000_0000_0000,
                        best.num > 0,
                ;
            }
            Score { num: raw.num * best.den, den: raw.den * best.num }
        } else {
            raw
        };
        let text = sentences[i].1.clone();
        let ghost before = scored@;
        scored.push(ScoredSentence { position: i, raw_score: raw, normalized_score, text });
        assert forall|j: int| 0 <= j < i + 1 implies (#[trigger] scored@[j]) == spec_normalize(
            sentences@,
        )[j] && scored@[j].wf() by {
            if j < i {
                assert(scored@[j] == before[j]);
            }
        }
        i += 1;
    }
    assert(scored@ =~= spec_normalize(sentences@));
    scored
}

/// Whether the sentence is kept: whether its normalized score reaches the
/// threshold.
pub open spec fn is_retained(sentence: ScoredSentence) -> bool {
    reaches_threshold(sentence.normalized_score.value())
}

/// The units that the sentences from `i` on give, where `current` is the
/// unit that is open and `previous` the place of the last sentence kept. A
/// kept sentence joins the open unit where its place is less than
/// `MERGE_DISTANCE` behind that one; else it closes the unit and opens the
/// next. Each sentence gets its full stop back.
pub open spec fn merge_from(
    scored: Seq<ScoredSentence>,
    i: int,
    previous: Option<int>,
    current: Seq<char>,
) -> Seq<Seq<char>>
    decreases scored.len() - i,
{
    if !(0 <= i < scored.len()) {
        if previous is Some {
            seq![current]
        } else {
            Seq::empty()
        }
    } else if !is_retained(scored[i]) {
        merge_from(scored, i + 1, previous, current)
    } else {
        let sentence = scored[i].text@.push(FULL_STOP);
        let place = scored[i].position as int;
        match previous {
            Some(last) => if place - last < MERGE_DISTANCE {
                merge_from(scored, i + 1, Some(place), current + sentence)
            } else {
                seq![current] + merge_from(scored, i + 1, Some(place), sentence)
            },
            None => merge_from(scored, i + 1, Some(place), sentence),
        }
    }
}

/// The units that the kept sentences give when neighbours are merged.
pub open spec fn spec_merge(scored: Seq<ScoredSentence>) -> Seq<Seq<char>> {
    merge_from(scored, 0, None, Seq::empty())
}

/// Merges the kept sentences into units.
pub fn merge(scored: &Vec<ScoredSentence>) -> (units: Vec<Vec<char>>)
    requires
        forall|i: int| 0 <= i < scored.len() ==> (#[trigger] scored@[i]).wf(),
        in_document_order(scored@),
    ensures
        views(units@) == spec_merge(scored@),
{
    let mut units: Vec<Vec<char>> = Vec::new();
    let mut current: Vec<char> = Vec::new();
    let mut previous: Option<usize> = None;
    let mut i: usize = 0;
    assert(Seq::<Seq<char>>::empty() + spec_merge(scored@) == spec_merge(scored@));
    assert(views(units@) == Seq::<Seq<char>>::empty());
    while i < scored.len()
        invariant
            i <= scored.len(),
            forall|k: int| 0 <= k < scored.len() ==> (#[trigger] scored@[k]).wf(),
            in_document_order(scored@),
            previous matches Some(last) ==> i > 0 && last <= scored@[i - 1].position,
            previous is None ==> current@ == Seq::<char>::empty(),
            spec_merge(scored@) == views(units@) + merge_from(
                scored@,
                i as int,
                match previous {
                    Some(last) => Some(last as int),
                    None => None,
                },
                current@,
            ),
        decreases scored.len() - i,
    {
        let sentence = &scored[i];
        if sentence.normalized_score.num * 2 >= sentence.normalized_score.den {
            let place = sentence.position;
            let text = to_chars(sentence.text.as_str());
            let joins = match previous {
                Some(last) => {
                    assert(scored@[i - 1].position <= scored@[i as int].position);
                    place - last < MERGE_DISTANCE
                },
                None => false,
            };
            if !joins && previous.is_some() {
                let ghost before = views(units@);
                let ghost rest = merge_from(
                    scored@,
                    i + 1,
                    Some(place as int),
                    text@.push(FULL_STOP),
                );
                units.push(current);
                proof {
                    assert(views(units@) == before.push(current@));
                    assert(before + (seq![current@] + rest) == before.push(current@) + rest);
                }
                current = Vec::new();
            }
            let ghost opened = current@;
            extend(&mut current, text.as_slice());
            current.push(FULL_STOP);
            assert(current@ == opened + text@.push(FULL_STOP));
            previous = Some(place);
        }
        i += 1;
    }
    if previous.is_some() {
        let ghost before = views(units@);
        units.push(current);
        assert(views(units@) == before.push(current@));
        assert(before + seq![current@] == before.push(current@));
    } else {
        assert(views(units@) + Seq::<Seq<char>>::empty() == views(units@));
    }
    units
}

/// Whether `text` holds one of the denied phrases.
pub open spec fn is_denied(text: Seq<char>, denylist: Seq<Seq<char>>) -> bool {
    exists|k: int| 0 <= k < denylist.len() && spec_contains(text, #[trigger] denylist[k])
}

/// Whether `text` holds one of the denied phrases.
pub fn denied(text: &[char], denylist: &Vec<String>) -> (b: bool)
    ensures
        b == is_denied(text@, string_views(denylist@)),
{
    let ghost phrases = string_views(denylist@);
    let mut k: usize = 0;
    while k < denylist.len()
        invariant
            k <= denylist.len(),
            phrases == string_views(denylist@),
            forall|j: int| 0 <= j < k ==> !spec_contains(text@, #[trigger] phrases[j]),
        decreases denylist.len() - k,
    {
        let phrase = to_chars(denylist[k].as_str());
        assert(phrases[k as int] == phrase@);
        if contains(text, phrase.as_slice()) {
            return true;
        }
        k += 1;
    }
    false
}

/// Whether a unit is handed on: it is longer than `MIN_UNIT_CHARS` and
/// holds no denied phrase.
pub open spec fn is_acceptable(unit: Seq<char>, denylist: Seq<Seq<char>>) -> bool {
    unit.len() > MIN_UNIT_CHARS && !is_denied(unit, denylist)
}

/// The units that are handed on, in order.
pub open spec fn acceptable_units(units: Seq<Seq<char>>, denylist: Seq<Seq<char>>) -> Seq<
    Seq<char>,
>
    decreases units.len(),
{
    if units.len() == 0 {
        Seq::empty()
    } else {
        let front = acceptable_units(units.drop_last(), denylist);
        if is_acceptable(units.last(), denylist) {
            front.push(units.last())
        } else {
            front
        }
    }
}

/// No unit that is handed on holds a denied phrase, and each is longer
/// than `MIN_UNIT_CHARS`.
pub proof fn lemma_acceptable_units(units: Seq<Seq<char>>, denylist: Seq<Seq<char>>)
    ensures
        forall|i: int|
            0 <= i < acceptable_units(units, denylist).len() ==> is_acceptable(
                #[trigger] acceptable_units(units, denylist)[i],
                denylist,
            ),
    decreases units.len(),
{
    if units.len() > 0 {
        lemma_acceptable_units(units.drop_last(), denylist);
        let front = acceptable_units(units.drop_last(), denylist);
        let all = acceptable_units(units, denylist);
        assert forall|i: int| 0 <= i < all.len() implies is_acceptable(
            #[trigger] all[i],
            denylist,
        ) by {
            if i < front.len() {
                assert(all[i] == front[i]);
            }
        }
    }
}

/// Drops the units that are too short or hold a denied phrase.
pub fn filter_units(units: &Vec<Vec<char>>, denylist: &Vec<String>) -> (r: Vec<String>)
    ensures
        string_views(r@) == acceptable_units(views(units@), string_views(denylist@)),
        forall|i: int|
            0 <= i < r.len() ==> is_acceptable((#[trigger] r@[i])@, string_views(denylist@)),
{
    let ghost all = views(units@);
    let ghost phrases = string_views(denylist@);
    let mut r: Vec<String> = Vec::new();
    let mut i: usize = 0;
    assert(all.take(0) == Seq::<Seq<char>>::empty());
    assert(string_views(r@) == Seq::<Seq<char>>::empty());
    while i < units.len()
        invariant
            i <= units.len(),
            all == views(units@),
            phrases == string_views(denylist@),
            string_views(r@) == acceptable_units(all.take(i as int), phrases),
        decreases units.len() - i,
    {
        proof {
            let next = all.take(i + 1);
            assert(next.drop_last() == all.take(i as int));
            assert(next.last() == units@[i as int]@);
        }
        if units[i].len() > MIN_UNIT_CHARS && !denied(units[i].as_slice(), denylist) {
            let unit = to_string(units[i].as_slice());
            let ghost before = string_views(r@);
            r.push(unit);
            assert(string_views(r@) == before.push(unit@));
        }
        i += 1;
    }
    proof {
        assert(all.take(units.len() as int) == all);
        lemma_acceptable_units(all, phrases);
        assert forall|j: int| 0 <= j < r.len() implies is_acceptable(
            (#[trigger] r@[j])@,
            phrases,
        ) by {
            assert(string_views(r@)[j] == r@[j]@);
        }
    }
    r
}

/// The scores and texts of a list of sentences.
pub open spec fn items_of(sentences: Seq<(Score, String)>) -> Seq<((nat, nat), Seq<char>)> {
    Seq::new(sentences.len(), |i: int| (sentences[i].0.value(), sentences[i].1@))
}

/// The scores of a list of sentences.
pub open spec fn scores_of(items: Seq<((nat, nat), Seq<char>)>) -> Seq<(nat, nat)> {
    Seq::new(items.len(), |i: int| items[i].0)
}

/// The units that the sentences from `i` on give, each a score and a text
/// at the place of its index, where `best` is the score that the others
/// are set against, `current` the unit that is open and `previous` the
/// place of the last sentence kept. A sentence is kept where its score, set
/// against the best, reaches the threshold. A kept sentence joins the open
/// unit where its place is less than `MERGE_DISTANCE` behind the last one
/// kept; else it closes the unit and opens the next. Each sentence gets
/// its full stop back.
pub open spec fn units_from(
    items: Seq<((nat, nat), Seq<char>)>,
    best: (nat, nat),
    i: int,
    previous: Option<int>,
    current: Seq<char>,
) -> Seq<Seq<char>>
    decreases items.len() - i,
{
    if !(0 <= i < items.len()) {
        if previous is Some {
            seq![current]
        } else {
            Seq::empty()
        }
    } else if !reaches_threshold(normalized(items[i].0, best)) {
        units_from(items, best, i + 1, previous, current)
    } else {
        let sentence = items[i].1.push(FULL_STOP);
        match previous {
            Some(last) => if i - last < MERGE_DISTANCE {
                units_from(items, best, i + 1, Some(i), current + sentence)
            } else {
                seq![current] + units_from(items, best, i + 1, Some(i), sentence)
            },
            None => units_from(items, best, i + 1, Some(i), sentence),
        }
    }
}

/// The units that a document's sentences give: the sentences are set
/// against the best score, those that reach the threshold are merged with
/// their neighbours, and the units that are long enough and hold no denied
/// phrase are handed on.
pub open spec fn spec_select_units(
    items: Seq<((nat, nat), Seq<char>)>,
    denylist: Seq<Seq<char>>,
) -> Seq<Seq<char>> {
    acceptable_units(
        units_from(items, max_score(scores_of(items)), 0, None, Seq::empty()),
        denylist,
    )
}

proof fn lemma_max_score_bounded(scores: Seq<(nat, nat)>)
    requires
        forall|i: int|
            0 <= i < scores.len() ==> 0 < (#[trigger] scores[i]).1 < 0x4000_0000_0000
                && scores[i].0 < 0x4000_0000_0000,
    ensures
        0 < max_score(scores).1 < 0x4000_0000_0000,
        max_score(scores).0 < 0x4000_0000_0000,
    decreases scores.len(),
{
    if scores.len() > 0 {
        let front = scores.drop_last();
        assert forall|i: int| 0 <= i < front.len() implies 0 < (#[trigger] front[i]).1
            < 0x4000_0000_0000 && front[i].0 < 0x4000_0000_0000 by {
            assert(front[i] == scores[i]);
        }
        lemma_max_score_bounded(front);
        assert(scores.last() == scores[scores.len() - 1]);
    }
}

/// Merging the sentences with their places and normalized scores gives
/// the units that their scores and texts give.
proof fn lemma_merge_gives_units(
    sentences: Seq<(Score, String)>,
    i: int,
    previous: Option<int>,
    current: Seq<char>,
)
    requires
        sentences.len() <= usize::MAX,
        forall|k: int| 0 <= k < sentences.len() ==> (#[trigger] sentences[k]).0.wf(),
        0 <= i,
    ensures
        merge_from(spec_normalize(sentences), i, previous, current) == units_from(
            items_of(sentences),
            max_score(raw_scores(sentences)),
            i,
            previous,
            current,
        ),
    decreases sentences.len() - i,
{
    let scored = spec_normalize(sentences);
    let items = items_of(sentences);
    let best = max_score(raw_scores(sentences));
    if i < sentences.len() {
        let raw = sentences[i].0;
        assert(raw.wf());
        assert forall|k: int| 0 <= k < raw_scores(sentences).len() implies 0 < (
        #[trigger] raw_scores(sentences)[k]).1 < 0x4000_0000_0000 && raw_scores(sentences)[k].0
            < 0x4000_0000_0000 by {
            assert(sentences[k].0.wf());
        }
        lemma_max_score_bounded(raw_scores(sentences));
        let set = normalized(raw.value(), best);
        assert(set.0 < 0x1_0000_0000_0000_0000_0000_0000 && set.1
            < 0x1_0000_0000_0000_0000_0000_0000) by {
            if best.0 > 0 {
                assert(raw.num * best.1 < 0x4000_0000_0000 * 0x4000_0000_0000 && raw.den * best.0
                    < 0x4000_0000_0000 * 0x4000_0000_0000) by (nonlinear_arith)
                    requires
                        raw.num < 0x4000_0000_0000,
                        raw.den < 0x4000_0000_0000,
                        best.0 < 0x4000_0000_0000,
                        best.1 < 0x4000_0000_0000,
                ;
            }
        }
        assert(scored[i].normalized_score.value() == set);
        assert(items[i] == (raw.value(), sentences[i].1@));
        assert(scored[i].position as int == i);
        let sentence = items[i].1.push(FULL_STOP);
        lemma_merge_gives_units(sentences, i + 1, previous, current);
        lemma_merge_gives_units(sentences, i + 1, Some(i), current + sentence);
        lemma_merge_gives_units(sentences, i + 1, Some(i), sentence);
    }
}

/// Picks the units of a document from its scored sentences. None of them
/// holds a denied phrase.
pub fn select_units(sentences: Vec<(Score, String)>, denylist: &Vec<String>) -> (r: Vec<String>)
    requires
        forall|i: int| 0 <= i < sentences.len() ==> (#[trigger] sentences@[i]).0.wf(),
    ensures
        string_views(r@) == spec_select_units(items_of(sentences@), string_views(denylist@)),
        forall|i: int|
            0 <= i < r.len() ==> is_acceptable((#[trigger] r@[i])@, string_views(denylist@)),
{
    proof {
        lemma_merge_gives_units(sentences@, 0, None, Seq::empty());
        assert(raw_scores(sentences@) =~= scores_of(items_of(sentences@)));
    }
    let scored = normalize(sentences);
    let units = merge(&scored);
    filter_units(&units, denylist)
}

} // verus!
