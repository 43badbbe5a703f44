//! Putting chunks that arrive in any order back into the order of their
//! indices.

use std::collections::BTreeMap;
use vstd::prelude::*;

verus! {

/// How many chunks can be handed on: the length of the run of consecutive
/// indices held in `pending` that starts at `next`. An index of `u64::MAX`
/// ends the run: the cursor could not move past it.
pub open spec fn ready_len<T>(pending: Map<u64, T>, next: nat) -> nat
    decreases u64::MAX - next,
{
    if next < u64::MAX && pending.contains_key(next as u64) {
        1 + ready_len(pending, next + 1)
    } else {
        0
    }
}

/// The chunks that can be handed on, in the order of their indices.
pub open spec fn ready<T>(pending: Map<u64, T>, next: nat) -> Seq<T> {
    Seq::new(ready_len(pending, next), |k: int| pending[(next + k) as u64])
}

/// What stays behind when the chunks that can be handed on have left.
pub open spec fn held_back<T>(pending: Map<u64, T>, next: nat) -> Map<u64, T> {
    pending.remove_keys(Set::new(|k: u64| next <= k < next + ready_len(pending, next)))
}

pub proof fn lemma_ready_len<T>(pending: Map<u64, T>, next: nat)
    ensures
        forall|k: int|
            0 <= k < ready_len(pending, next) ==> next + k < u64::MAX
                && #[trigger] pending.contains_key((next + k) as u64),
        !(next + ready_len(pending, next) < u64::MAX && pending.contains_key(
            (next + ready_len(pending, next)) as u64,
        )),
        next <= u64::MAX ==> next + ready_len(pending, next) <= u64::MAX,
    decreases u64::MAX - next,
{
    if next < u64::MAX && pending.contains_key(next as u64) {
        lemma_ready_len(pending, next + 1);
        assert forall|k: int| 0 <= k < ready_len(pending, next) implies next + k < u64::MAX
            && #[trigger] pending.contains_key((next + k) as u64) by {
            if k > 0 {
                assert(pending.contains_key(((next + 1) + (k - 1)) as u64));
            }
        }
    }
}

/// Chunks that have arrived and wait for their turn, and the index of the
/// chunk that is handed on next.
pub struct ReassemblyBuffer<T> {
    pending: BTreeMap<u64, T>,
    next_expected: u64,
}

impl<T> ReassemblyBuffer<T> {
    /// The chunks that wait, by index.
    pub closed spec fn pending(&self) -> Map<u64, T> {
        self.pending@
    }

    /// The index of the chunk that is handed on next.
    pub closed spec fn cursor(&self) -> nat {
        self.next_expected as nat
    }

    /// A buffer that holds nothing and expects chunk 0.
    pub fn new() -> (buffer: Self)
        ensures
            buffer.pending() == Map::<u64, T>::empty(),
            buffer.cursor() == 0,
    {
        ReassemblyBuffer { pending: BTreeMap::new(), next_expected: 0 }
    }

    /// The index of the chunk that is handed on next.
    pub fn next_expected(&self) -> (next: u64)
        ensures
            next == self.cursor(),
    {
        self.next_expected
    }

    /// How many chunks wait.
    pub fn waiting(&self) -> (n: usize)
        ensures
            n == self.pending().len(),
    {
        self.pending.len()
    }

    /// Takes in chunk `index` and hands on every chunk whose turn has come:
    /// the expected one and those that follow it without a gap. They leave
    /// the buffer in the order of their indices, and the cursor moves past
    /// them. A chunk that came in before under the same index and still
    /// waits is replaced.
    pub fn accept(&mut self, index: u64, item: T) -> (out: Vec<T>)
        ensures
            out@ == ready(old(self).pending().insert(index, item), old(self).cursor()),
            final(self).pending() == held_back(
                old(self).pending().insert(index, item),
                old(self).cursor(),
            ),
            final(self).cursor() == old(self).cursor() + ready_len(
                old(self).pending().insert(index, item),
                old(self).cursor(),
            ),
    {
        self.pending.insert(index, item);
        let ghost all = self.pending@;
        let ghost first = self.next_expected as nat;
        let mut out: Vec<T> = Vec::new();
        loop
            invariant
                first <= self.next_expected,
                out@.len() == self.next_expected - first,
                forall|k: int|
                    0 <= k < out@.len() ==> (#[trigger] out@[k]) == all[(first + k) as u64]
                        && all.contains_key((first + k) as u64),
                self.pending@ == all.remove_keys(
                    Set::new(|k: u64| first <= k < self.next_expected),
                ),
                ready_len(all, first) == out@.len() + ready_len(all, self.next_expected as nat),
            ensures
                ready_len(all, first) == out@.len(),
                self.next_expected == first + out@.len(),
            decreases u64::MAX - self.next_expected,
        {
            if self.next_expected == u64::MAX {
                break;
            }
            let cursor = self.next_expected;
            match self.pending.remove(&cursor) {
                Some(chunk) => {
                    assert(all.contains_key(cursor) && all[cursor] == chunk);
                    let ghost before = out@;
                    out.push(chunk);
                    self.next_expected = cursor + 1;
                    assert forall|k: int| 0 <= k < out@.len() implies (#[trigger] out@[k])
                        == all[(first + k) as u64] && all.contains_key((first + k) as u64) by {
                        if k < before.len() {
                            assert(out@[k] == before[k]);
                        } else {
                            assert((first + k) as u64 == cursor);
                        }
                    }
                    assert(self.pending@ =~= all.remove_keys(
                        Set::new(|k: u64| first <= k < self.next_expected),
                    ));
                },
                None => {
                    break;
                },
            }
        }
        proof {
            assert(out@ =~= ready(all, first));
            assert(self.pending@ =~= held_back(all, first));
        }
        out
    }
}

/// The buffer's state, and everything it has handed on so far, after the
/// chunks of `arrivals` came in one by one, in that order, into a new
/// buffer. Each arrival is a chunk's index and the chunk.
pub open spec fn after_arrivals<T>(arrivals: Seq<(u64, T)>) -> (Map<u64, T>, nat, Seq<T>)
    decreases arrivals.len(),
{
    if arrivals.len() == 0 {
        (Map::empty(), 0, Seq::empty())
    } else {
        let (pending, next, out) = after_arrivals(arrivals.drop_last());
        let added = pending.insert(arrivals.last().0, arrivals.last().1);
        (held_back(added, next), next + ready_len(added, next), out + ready(added, next))
    }
}

/// Whether chunk `i` is among the first `m` arrivals.
pub open spec fn arrived<T>(arrivals: Seq<(u64, T)>, m: int, i: int) -> bool {
    exists|j: int| 0 <= j < m && (#[trigger] arrivals[j]).0 == i
}

/// Whether `arrivals` holds each index below its length exactly once.
pub open spec fn each_index_once<T>(arrivals: Seq<(u64, T)>) -> bool {
    &&& arrivals.len() <= u64::MAX
    &&& forall|j: int| 0 <= j < arrivals.len() ==> (#[trigger] arrivals[j]).0 < arrivals.len()
    &&& forall|j: int, k: int|
        0 <= j < k < arrivals.len() ==> (#[trigger] arrivals[j]).0 != (#[trigger] arrivals[k]).0
    &&& forall|i: int| 0 <= i < arrivals.len() ==> arrived(arrivals, arrivals.len() as int, i)
}

/// What holds after the first `m` arrivals: the chunks below the cursor
/// have all arrived and been handed on at their places, the cursor's own
/// chunk has not arrived, and the chunks above it wait.
spec fn in_order_so_far<T>(arrivals: Seq<(u64, T)>, m: int) -> bool {
    let (pending, next, out) = after_arrivals(arrivals.take(m));
    &&& out.len() == next
    &&& next <= arrivals.len()
    &&& forall|i: int| 0 <= i < next ==> arrived(arrivals, m, i)
    &&& forall|j: int|
        0 <= j < m ==> {
            let (index, item) = #[trigger] arrivals[j];
            &&& index != next
            &&& index < next ==> out[index as int] == item
            &&& index > next ==> pending.contains_key(index) && pending[index] == item
        }
    &&& forall|k: u64| #[trigger] pending.contains_key(k) ==> k > next && arrived(arrivals, m, k as int)
}

proof fn lemma_in_order_so_far<T>(arrivals: Seq<(u64, T)>, m: int)
    requires
        each_index_once(arrivals),
        0 <= m <= arrivals.len(),
    ensures
        in_order_so_far(arrivals, m),
    decreases m,
{
    if m == 0 {
        assert(arrivals.take(0).len() == 0);
    } else {
        lemma_in_order_so_far(arrivals, m - 1);
        let prefix = arrivals.take(m);
        assert(prefix.drop_last() == arrivals.take(m - 1));
        assert(prefix.last() == arrivals[m - 1]);
        let (pending0, next0, out0) = after_arrivals(arrivals.take(m - 1));
        let (index, item) = arrivals[m - 1];
        let added = pending0.insert(index, item);
        let len = ready_len(added, next0);
        let (pending, next, out) = after_arrivals(prefix);
        assert(pending == held_back(added, next0));
        assert(next == next0 + len);
        assert(out == out0 + ready(added, next0));
        lemma_ready_len(added, next0);
        // The new chunk has not arrived before.
        assert(!arrived(arrivals, m - 1, index as int));
        assert(index >= next0);
        assert forall|i: int| next0 <= i < next0 + len implies #[trigger] arrived(
            arrivals,
            m,
            i,
        ) by {
            let key = (next0 + (i - next0)) as u64;
            assert(added.contains_key(key));
            if key == index {
                assert(arrivals[m - 1].0 == key);
            } else {
                assert(pending0.contains_key(key));
                assert(arrived(arrivals, m - 1, key as int));
                let j = choose|j: int| 0 <= j < m - 1 && (#[trigger] arrivals[j]).0 == key;
                assert(arrivals[j].0 == key);
            }
        }
        assert forall|i: int| 0 <= i < next implies arrived(arrivals, m, i) by {
            if i < next0 {
                assert(arrived(arrivals, m - 1, i));
                let j = choose|j: int| 0 <= j < m - 1 && (#[trigger] arrivals[j]).0 == i;
                assert(arrivals[j].0 == i);
            }
        }
        // The chunks handed on are in range, so the cursor stays in range.
        if len > 0 {
            assert(arrived(arrivals, m, next0 + len - 1));
            let j = choose|j: int| 0 <= j < m && (#[trigger] arrivals[j]).0 == next0 + len - 1;
            assert(arrivals[j].0 < arrivals.len());
        }
        assert forall|j: int| 0 <= j < m implies ({
            let (index_j, item_j) = #[trigger] arrivals[j];
            &&& index_j != next
            &&& index_j < next ==> out[index_j as int] == item_j
            &&& index_j > next ==> pending.contains_key(index_j) && pending[index_j] == item_j
        }) by {
            let (index_j, item_j) = arrivals[j];
            if j < m - 1 {
                assert(index_j != index);
            }
            assert(index_j >= next0 ==> added.contains_key(index_j) && added[index_j] == item_j);
            assert(index_j < arrivals.len());
            if index_j == next {
                assert(added.contains_key(next as u64));
            }
            if next0 <= index_j < next {
                assert(ready(added, next0)[index_j - next0] == added[(next0 + (index_j - next0)) as u64]);
            }
        }
        assert forall|k: u64| #[trigger] pending.contains_key(k) implies k > next && arrived(
            arrivals,
            m,
            k as int,
        ) by {
            assert(added.contains_key(k));
            assert(!(next0 <= k < next));
            if k == index {
                assert(arrivals[m - 1].0 == k);
            } else {
                assert(pending0.contains_key(k));
                assert(arrived(arrivals, m - 1, k as int));
                let j = choose|j: int| 0 <= j < m - 1 && (#[trigger] arrivals[j]).0 == k as int;
                assert(arrivals[j].0 == k);
            }
            if k == next {
                let j = choose|j: int| 0 <= j < m && (#[trigger] arrivals[j]).0 == k as int;
                assert(arrivals[j].0 != next);
            }
        }
    }
}

/// In whatever order the chunks 0 to n-1 arrive, each once, the buffer hands
/// on all of them, chunk `i` at place `i`, and nothing stays behind.
pub proof fn lemma_reassembly_in_order<T>(arrivals: Seq<(u64, T)>)
    requires
        each_index_once(arrivals),
    ensures
        ({
            let (pending, next, out) = after_arrivals(arrivals);
            &&& next == arrivals.len()
            &&& out.len() == arrivals.len()
            &&& pending == Map::<u64, T>::empty()
            &&& forall|j: int|
                0 <= j < arrivals.len() ==> out[(#[trigger] arrivals[j]).0 as int] == arrivals[j].1
        }),
{
    let n = arrivals.len() as int;
    lemma_in_order_so_far(arrivals, n);
    assert(arrivals.take(n) == arrivals);
    let (pending, next, out) = after_arrivals(arrivals);
    if next < n {
        assert(arrived(arrivals, n, next as int));
        let j = choose|j: int| 0 <= j < n && (#[trigger] arrivals[j]).0 == next;
        assert(arrivals[j].0 != next);
    }
    assert forall|k: u64| !pending.contains_key(k) by {
        if pending.contains_key(k) {
            let j = choose|j: int| 0 <= j < n && (#[trigger] arrivals[j]).0 == k as int;
            assert(arrivals[j].0 < n);
        }
    }
    assert(pending =~= Map::<u64, T>::empty());
}

} // verus!
