//! Windows of text around the runs of target script: runs that lie close
//! together are kept with what stands between them, and what lies far from
//! any run is dropped.

use crate::chars::{extend, spec_trim, trim, views};
use crate::pattern::valid_spans;
use crate::split::{join, spec_join};
use vstd::prelude::*;
use vstd::slice::slice_subrange;

verus! {

/// The longest gap between two runs, in characters, that keeps them in one
/// window.
pub const MAX_GAP: usize = 25;

/// How many characters before the first run are kept as its context.
pub const CONTEXT_CHARS: usize = 50;

/// The last `n` characters of `s`, or all of it where it is shorter.
pub open spec fn last_chars(s: Seq<char>, n: nat) -> Seq<char> {
    if s.len() <= n {
        s
    } else {
        s.skip(s.len() - n)
    }
}

/// The context of the first run, which starts at `start`: the end of the
/// trimmed text before it.
pub open spec fn context_before(text: Seq<char>, start: int) -> Seq<char> {
    last_chars(spec_trim(text.subrange(0, start)), CONTEXT_CHARS as nat)
}

/// The windows that the runs from `i` on give, where `current` is the
/// window that is open. The first run opens a window with its context. A
/// later run joins the open window, with the trimmed text of the gap before
/// it, where the gap is no longer than `MAX_GAP`; else it closes the window
/// and opens the next.
pub open spec fn windows_from(
    text: Seq<char>,
    spans: Seq<(usize, usize)>,
    i: int,
    current: Seq<char>,
) -> Seq<Seq<char>>
    decreases spans.len() - i,
{
    if !(0 <= i < spans.len()) {
        seq![current]
    } else {
        let start = spans[i].0 as int;
        let matched = text.subrange(start, spans[i].1 as int);
        if i == 0 {
            windows_from(text, spans, 1, current + context_before(text, start) + matched)
        } else {
            let gap = text.subrange(spans[i - 1].1 as int, start);
            if gap.len() > MAX_GAP {
                seq![current] + windows_from(text, spans, i + 1, matched)
            } else {
                windows_from(text, spans, i + 1, current + spec_trim(gap) + matched)
            }
        }
    }
}

/// The windows that the runs give, as they are before trimming.
pub open spec fn raw_windows(text: Seq<char>, spans: Seq<(usize, usize)>) -> Seq<Seq<char>> {
    windows_from(text, spans, 0, Seq::empty())
}

/// The windows trimmed, without those that are then empty.
pub open spec fn trimmed_nonempty(windows: Seq<Seq<char>>) -> Seq<Seq<char>>
    decreases windows.len(),
{
    if windows.len() == 0 {
        Seq::empty()
    } else {
        let front = trimmed_nonempty(windows.drop_last());
        let window = spec_trim(windows.last());
        if window.len() > 0 {
            front.push(window)
        } else {
            front
        }
    }
}

/// The text that is kept: the windows, trimmed, one per line.
pub open spec fn spec_windowed(text: Seq<char>, spans: Seq<(usize, usize)>) -> Seq<char> {
    spec_join(trimmed_nonempty(raw_windows(text, spans)), seq!['\n'])
}

/// Closes a window: keeps its trimmed text, if it is not empty.
fn close_window(out: &mut Vec<Vec<char>>, window: &[char])
    ensures
        views(final(out)@) == if spec_trim(window@).len() > 0 {
            views(old(out)@).push(spec_trim(window@))
        } else {
            views(old(out)@)
        },
{
    let kept = trim(window);
    if kept.len() > 0 {
        let mut copy: Vec<char> = Vec::new();
        extend(&mut copy, kept);
        let ghost before = views(out@);
        out.push(copy);
        assert(views(out@) == before.push(copy@));
    }
}

/// Builds the windows around the runs at `spans` and joins them, one per
/// line.
pub fn windowed(text: &[char], spans: &Vec<(usize, usize)>) -> (r: Vec<char>)
    requires
        valid_spans(text@.len(), spans@),
    ensures
        r@ == spec_windowed(text@, spans@),
{
    let mut out: Vec<Vec<char>> = Vec::new();
    let mut current: Vec<char> = Vec::new();
    let ghost mut closed: Seq<Seq<char>> = Seq::empty();
    let mut i: usize = 0;
    assert(Seq::<Seq<char>>::empty() + raw_windows(text@, spans@) == raw_windows(text@, spans@));
    assert(views(out@) == Seq::<Seq<char>>::empty());
    while i < spans.len()
        invariant
            i <= spans.len(),
            valid_spans(text@.len(), spans@),
            raw_windows(text@, spans@) == closed + windows_from(text@, spans@, i as int, current@),
            views(out@) == trimmed_nonempty(closed),
        decreases spans.len() - i,
    {
        let (start, end) = spans[i];
        assert(spans@[i as int] == (start, end));
        if i == 0 {
            let before = trim(slice_subrange(text, 0, start));
            let context = if before.len() > CONTEXT_CHARS {
                slice_subrange(before, before.len() - CONTEXT_CHARS, before.len())
            } else {
                before
            };
            assert(context@ == context_before(text@, start as int));
            extend(&mut current, context);
        } else {
            let previous = spans[i - 1].1;
            assert(spans@[i - 1].1 == previous);
            if start - previous > MAX_GAP {
                close_window(&mut out, current.as_slice());
                proof {
                    let rest = windows_from(
                        text@,
                        spans@,
                        i + 1,
                        text@.subrange(start as int, end as int),
                    );
                    assert(closed + (seq![current@] + rest) == closed.push(current@) + rest);
                    assert(closed.push(current@).drop_last() == closed);
                    closed = closed.push(current@);
                }
                current = Vec::new();
            } else {
                extend(&mut current, trim(slice_subrange(text, previous, start)));
            }
        }
        extend(&mut current, slice_subrange(text, start, end));
        i += 1;
    }
    close_window(&mut out, current.as_slice());
    proof {
        assert(closed + seq![current@] == closed.push(current@));
        assert(closed.push(current@).drop_last() == closed);
    }
    let mut feed: Vec<char> = Vec::new();
    feed.push('\n');
    assert(feed@ == seq!['\n']);
    join(&out, feed.as_slice())
}

/// How many characters the spans cover.
pub open spec fn covered_len(spans: Seq<(usize, usize)>) -> int
    decreases spans.len(),
{
    if spans.len() == 0 {
        0
    } else {
        covered_len(spans.drop_last()) + (spans.last().1 - spans.last().0)
    }
}

pub proof fn lemma_covered_len(len: nat, spans: Seq<(usize, usize)>)
    requires
        valid_spans(len, spans),
    ensures
        0 <= covered_len(spans),
        spans.len() > 0 ==> covered_len(spans) <= spans.last().1,
        covered_len(spans) <= len,
    decreases spans.len(),
{
    if spans.len() > 0 {
        let front = spans.drop_last();
        assert(valid_spans(len, front)) by {
            assert forall|i: int| 0 <= i < front.len() implies ({
                &&& (#[trigger] front[i]).0 <= front[i].1 <= len
                &&& i > 0 ==> front[i - 1].1 <= front[i].0
            }) by {
                assert(front[i] == spans[i]);
                if i > 0 {
                    assert(front[i - 1] == spans[i - 1]);
                }
            }
        }
        lemma_covered_len(len, front);
        assert(spans[spans.len() - 1] == spans.last());
        if front.len() > 0 {
            assert(front.last() == spans[spans.len() - 2]);
        }
    }
}

/// How many characters the spans cover.
pub fn covered(len: usize, spans: &Vec<(usize, usize)>) -> (n: usize)
    requires
        valid_spans(len as nat, spans@),
    ensures
        n == covered_len(spans@),
        n <= len,
{
    let mut n: usize = 0;
    let mut i: usize = 0;
    while i < spans.len()
        invariant
            i <= spans.len(),
            valid_spans(len as nat, spans@),
            n == covered_len(spans@.take(i as int)),
            valid_spans(len as nat, spans@.take(i as int)),
        decreases spans.len() - i,
    {
        proof {
            let next = spans@.take(i + 1);
            assert(next.drop_last() == spans@.take(i as int));
            assert(next.last() == spans@[i as int]);
            assert(valid_spans(len as nat, next)) by {
                assert forall|j: int| 0 <= j < next.len() implies ({
                    &&& (#[trigger] next[j]).0 <= next[j].1 <= len
                    &&& j > 0 ==> next[j - 1].1 <= next[j].0
                }) by {
                    assert(next[j] == spans@[j]);
                    if j > 0 {
                        assert(next[j - 1] == spans@[j - 1]);
                    }
                }
            }
            lemma_covered_len(len as nat, next);
        }
        n = n + (spans[i].1 - spans[i].0);
        i += 1;
    }
    proof {
        assert(spans@.take(spans@.len() as int) == spans@);
        lemma_covered_len(len as nat, spans@);
    }
    n
}

/// Whether `matched` of `total` characters are at least 55 in 100.
pub open spec fn spec_dense_enough(matched: int, total: int) -> bool {
    matched * 20 >= total * 11
}

/// Whether `matched` of `total` characters are at least 55 in 100.
pub fn dense_enough(matched: usize, total: usize) -> (b: bool)
    ensures
        b == spec_dense_enough(matched as int, total as int),
{
    (matched as u128) * 20 >= (total as u128) * 11
}

/// Whether the text is one window already: it is trimmed and not empty,
/// it starts with a run or with at most `CONTEXT_CHARS` characters before
/// the first run, it ends with a run, and each gap between two runs is no
/// longer than `MAX_GAP` and has no whitespace at its ends.
pub open spec fn is_one_window(text: Seq<char>, spans: Seq<(usize, usize)>) -> bool {
    &&& valid_spans(text.len(), spans)
    &&& spans.len() > 0
    &&& text.len() > 0
    &&& spec_trim(text) == text
    &&& spans[0].0 <= CONTEXT_CHARS
    &&& spec_trim(text.subrange(0, spans[0].0 as int)) == text.subrange(0, spans[0].0 as int)
    &&& spans.last().1 == text.len()
    &&& forall|i: int|
        0 < i < spans.len() ==> {
            let gap = text.subrange((#[trigger] spans[i - 1]).1 as int, spans[i].0 as int);
            gap.len() <= MAX_GAP && spec_trim(gap) == gap
        }
}

proof fn lemma_one_window_from(text: Seq<char>, spans: Seq<(usize, usize)>, i: int)
    requires
        is_one_window(text, spans),
        0 < i <= spans.len(),
    ensures
        windows_from(text, spans, i, text.subrange(0, spans[i - 1].1 as int)) == seq![text],
    decreases spans.len() - i,
{
    if i < spans.len() {
        let current = text.subrange(0, spans[i - 1].1 as int);
        let gap = text.subrange(spans[i - 1].1 as int, spans[i].0 as int);
        let matched = text.subrange(spans[i].0 as int, spans[i].1 as int);
        assert(spans[i - 1].1 <= spans[i].0);
        assert(spans[i].0 <= spans[i].1 <= text.len());
        assert(current + spec_trim(gap) + matched =~= text.subrange(0, spans[i].1 as int));
        lemma_one_window_from(text, spans, i + 1);
    } else {
        assert(spans.last() == spans[spans.len() - 1]);
        assert(text.subrange(0, text.len() as int) =~= text);
    }
}

/// Windowing a text that is one window already gives the text back.
pub proof fn lemma_one_window_is_kept(text: Seq<char>, spans: Seq<(usize, usize)>)
    requires
        is_one_window(text, spans),
    ensures
        spec_windowed(text, spans) == text,
{
    let start = spans[0].0 as int;
    let before = text.subrange(0, start);
    assert(spans[0].0 <= spans[0].1 <= text.len());
    assert(context_before(text, start) == before);
    assert(Seq::<char>::empty() + before + text.subrange(start, spans[0].1 as int) =~= text.subrange(
        0,
        spans[0].1 as int,
    ));
    lemma_one_window_from(text, spans, 1);
    assert(raw_windows(text, spans) == seq![text]);
    let windows = seq![text];
    assert(windows.drop_last() =~= Seq::<Seq<char>>::empty());
    assert(trimmed_nonempty(windows.drop_last()) == Seq::<Seq<char>>::empty());
    assert(windows.last() == text);
    assert(trimmed_nonempty(windows) =~= seq![text]);
}

} // verus!
