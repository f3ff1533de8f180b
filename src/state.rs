//! A transition node: the successors seen after one state, their counts,
//! and the running totals used for weighted sampling.

use std::collections::HashMap;
use vstd::prelude::*;
use vstd::set_lib::{lemma_int_range, set_int_range};

use crate::random::random_below;

verus! {

broadcast use vstd::std_specs::hash::group_hash_axioms;

/// The sum of a sequence of counts.
pub open spec fn total_of(s: Seq<usize>) -> nat
    decreases s.len(),
{
    if s.len() == 0 {
        0
    } else {
        total_of(s.drop_last()) + s.last() as nat
    }
}

/// The running totals of a sequence of counts: entry `i` is the sum of the
/// first `i + 1` counts.
pub open spec fn running_totals(s: Seq<usize>) -> Seq<nat> {
    Seq::new(s.len(), |i: int| total_of(s.subrange(0, i + 1)))
}

/// The index that a draw in `[0, total_of(counts))` selects: entry `i` owns
/// the draws from the sum of the counts before it up to, but excluding, the
/// sum of those up to and including it.
pub open spec fn pick_index(counts: Seq<usize>, draw: nat) -> nat
    decreases counts.len(),
{
    if counts.len() <= 1 {
        0
    } else if draw >= total_of(counts.drop_last()) {
        (counts.len() - 1) as nat
    } else {
        pick_index(counts.drop_last(), draw)
    }
}

/// How often `word` was counted in a node with these successors and counts.
pub open spec fn count_in(next: Seq<usize>, counts: Seq<usize>, word: usize) -> nat
    decreases next.len(),
{
    if next.len() == 0 || counts.len() == 0 {
        0
    } else if next.last() == word {
        counts.last() as nat
    } else {
        count_in(next.drop_last(), counts.drop_last(), word)
    }
}

/// The successors and counts after one more occurrence of `word`.
pub open spec fn with_one_more(next: Seq<usize>, counts: Seq<usize>, word: usize) -> (
    Seq<usize>,
    Seq<usize>,
) {
    if next.contains(word) {
        let i = choose|i: int| 0 <= i < next.len() && next[i] == word;
        (next, counts.update(i, (counts[i] + 1) as usize))
    } else {
        (next.push(word), counts.push(1))
    }
}

/// Successor lists that a node can hold: as many counts as successors, each
/// successor once, and every count positive.
pub open spec fn valid_counts(next: Seq<usize>, counts: Seq<usize>) -> bool {
    &&& next.len() == counts.len()
    &&& forall|i: int, j: int| 0 <= i < j < next.len() ==> next[i] != next[j]
    &&& forall|i: int| 0 <= i < counts.len() ==> counts[i] >= 1
    &&& total_of(counts) <= usize::MAX
}

/// The successors of one state, with counts and running totals.
#[derive(Debug, Clone)]
pub struct State {
    next_words: Vec<usize>,
    counts: Vec<usize>,
    cumulative: Vec<usize>,
    total: usize,
    next_word_index: HashMap<usize, usize>,
}

impl State {
    /// The successors, in the order in which they were first seen.
    pub closed spec fn successors(&self) -> Seq<usize> {
        self.next_words@
    }

    /// The count of each successor.
    pub closed spec fn weights(&self) -> Seq<usize> {
        self.counts@
    }

    /// The running totals of the counts, as last computed.
    pub closed spec fn running(&self) -> Seq<usize> {
        self.cumulative@
    }

    pub fn next_words(&self) -> (r: &Vec<usize>)
        ensures
            r@ == self.successors(),
    {
        &self.next_words
    }

    pub fn counts(&self) -> (r: &Vec<usize>)
        ensures
            r@ == self.weights(),
    {
        &self.counts
    }

    pub fn cumulative(&self) -> (r: &Vec<usize>)
        ensures
            r@ == self.running(),
    {
        &self.cumulative
    }

    /// The counts are consistent and the position index is up to date; the
    /// running totals may lag behind.
    pub open spec fn counts_wf(&self) -> bool {
        &&& valid_counts(self.successors(), self.weights())
        &&& self.index_wf()
    }

    pub closed spec fn index_wf(&self) -> bool {
        &&& self.total == total_of(self.weights())
        &&& forall|w: usize| #[trigger]
            self.next_word_index@.contains_key(w) <==> self.successors().contains(w)
        &&& forall|w: usize| #[trigger]
            self.next_word_index@.contains_key(w) ==> {
                &&& self.next_word_index@[w] < self.successors().len()
                &&& self.successors()[self.next_word_index@[w] as int] == w
            }
    }

    /// The counts are consistent and the running totals match them.
    pub open spec fn wf(&self) -> bool {
        &&& self.counts_wf()
        &&& self.running().len() == self.weights().len()
        &&& forall|i: int|
            0 <= i < self.running().len() ==> self.running()[i] as nat == #[trigger] running_totals(
                self.weights(),
            )[i]
    }

    pub fn new() -> (r: Self)
        ensures
            r.wf(),
            r.successors() == Seq::<usize>::empty(),
            r.weights() == Seq::<usize>::empty(),
    {
        let r = State {
            next_words: Vec::new(),
            counts: Vec::new(),
            cumulative: Vec::new(),
            total: 0,
            next_word_index: HashMap::new(),
        };
        assert(r.successors() =~= Seq::<usize>::empty());
        assert(r.weights() =~= Seq::<usize>::empty());
        r
    }

    /// The sum of the counts.
    pub fn total(&self) -> (r: usize)
        requires
            self.counts_wf(),
        ensures
            r == total_of(self.weights()),
    {
        self.total
    }

    /// Recomputes the running totals from the counts.
    pub fn update_cumulative(&mut self)
        requires
            old(self).counts_wf(),
        ensures
            final(self).wf(),
            final(self).successors() == old(self).successors(),
            final(self).weights() == old(self).weights(),
    {
        self.cumulative.clear();
        let mut run: usize = 0;
        let mut i: usize = 0;
        while i < self.counts.len()
            invariant
                self.counts_wf(),
                self.weights() == old(self).weights(),
                self.successors() == old(self).successors(),
                i <= self.weights().len(),
                run == total_of(self.weights().subrange(0, i as int)),
                self.running().len() == i,
                forall|k: int|
                    0 <= k < i ==> self.running()[k] as nat == #[trigger] running_totals(
                        self.weights(),
                    )[k],
            decreases self.weights().len() - i,
        {
            let c = self.counts[i];
            proof {
                let s = self.weights().subrange(0, i + 1);
                assert(s.drop_last() == self.weights().subrange(0, i as int));
                lemma_total_prefix_le(self.weights(), i + 1);
            }
            run = run + c;
            self.cumulative.push(run);
            i = i + 1;
        }
    }

    /// Counts one more occurrence of `word` after this state.
    pub fn increment(&mut self, word: usize)
        requires
            old(self).counts_wf(),
            total_of(old(self).weights()) < usize::MAX,
        ensures
            final(self).counts_wf(),
            (final(self).successors(), final(self).weights()) == with_one_more(
                old(self).successors(),
                old(self).weights(),
                word,
            ),
            final(self).running() == old(self).running(),
    {
        match self.next_word_index.get(&word) {
            Some(idx) => {
                let idx = *idx;
                assert(self.successors().contains(word));
                proof {
                    let i = choose|i: int|
                        0 <= i < self.successors().len() && self.successors()[i] == word;
                    assert(i == idx as int);
                    lemma_total_update(self.weights(), idx as int, (self.weights()[idx as int] + 1) as usize);
                    lemma_total_ge_each(self.weights(), idx as int);
                }
                let c = self.counts[idx];
                self.counts.set(idx, c + 1);
                self.total = self.total + 1;
            },
            None => {
                let idx = self.next_words.len();
                let ghost before = self.weights();
                self.next_words.push(word);
                self.counts.push(1);
                self.next_word_index.insert(word, idx);
                self.total = self.total + 1;
                assert(self.weights().drop_last() == before);
                assert(self.successors()[idx as int] == word);
                assert forall|w: usize| #[trigger]
                    self.next_word_index@.contains_key(w) <==> self.successors().contains(w) by {
                    if w != word {
                        if self.successors().contains(w) {
                            let i = choose|i: int|
                                0 <= i < self.successors().len() && self.successors()[i] == w;
                            assert(old(self).successors()[i] == w);
                            assert(old(self).successors().contains(w));
                        }
                        if old(self).successors().contains(w) {
                            let i = choose|i: int|
                                0 <= i < old(self).successors().len() && old(self).successors()[i]
                                    == w;
                            assert(self.successors()[i] == w);
                        }
                    }
                }
            },
        }
    }

    /// Whether `word` is among the successors.
    pub fn has_successor(&self, word: usize) -> (r: bool)
        requires
            self.counts_wf(),
        ensures
            r == self.successors().contains(word),
    {
        self.next_word_index.contains_key(&word)
    }

    /// Appends a successor not yet listed, with its count.
    pub fn push_successor(&mut self, word: usize, count: usize)
        requires
            old(self).counts_wf(),
            !old(self).successors().contains(word),
            count >= 1,
            total_of(old(self).weights()) + count <= usize::MAX,
        ensures
            final(self).counts_wf(),
            final(self).successors() == old(self).successors().push(word),
            final(self).weights() == old(self).weights().push(count),
            final(self).running() == old(self).running(),
    {
        let idx = self.next_words.len();
        let ghost before = self.weights();
        self.next_words.push(word);
        self.counts.push(count);
        self.next_word_index.insert(word, idx);
        self.total = self.total + count;
        assert(self.weights().drop_last() == before);
        assert(self.successors()[idx as int] == word);
        assert forall|w: usize| #[trigger]
            self.next_word_index@.contains_key(w) <==> self.successors().contains(w) by {
            if w != word {
                if self.successors().contains(w) {
                    let i = choose|i: int|
                        0 <= i < self.successors().len() && self.successors()[i] == w;
                    assert(old(self).successors()[i] == w);
                    assert(old(self).successors().contains(w));
                }
                if old(self).successors().contains(w) {
                    let i = choose|i: int|
                        0 <= i < old(self).successors().len() && old(self).successors()[i] == w;
                    assert(self.successors()[i] == w);
                }
            }
        }
    }

    /// Draws a successor at random, each with probability its count over the
    /// total: a uniform draw in `[0, total)` selects as `select_with` does.
    pub fn select_next(&self) -> (r: Option<usize>)
        requires
            self.wf(),
        ensures
            self.successors().len() == 0 ==> r is None,
            self.successors().len() > 0 ==> exists|d: nat|
                d < total_of(self.weights()) && r == Some(
                    self.successors()[pick_index(self.weights(), d) as int],
                ),
    {
        if self.next_words.len() == 0 {
            return None;
        }
        proof {
            lemma_total_ge_each(self.weights(), 0);
        }
        let draw = random_below(self.total);
        self.select_with(draw)
    }

    /// The successor that `draw` selects: the first whose running total
    /// exceeds it. `None` for a node with no successors.
    pub fn select_with(&self, draw: usize) -> (r: Option<usize>)
        requires
            self.wf(),
        ensures
            self.successors().len() == 0 ==> r is None,
            self.successors().len() > 0 && draw < total_of(self.weights()) ==> r == Some(
                self.successors()[pick_index(self.weights(), draw as nat) as int],
            ),
            self.successors().len() > 0 && draw >= total_of(self.weights()) ==> r is None,
    {
        let n = self.cumulative.len();
        if n == 0 || draw >= self.total {
            return None;
        }
        let mut lo: usize = 0;
        let mut hi: usize = n - 1;
        proof {
            lemma_running_totals_last(self.weights());
        }
        while lo < hi
            invariant
                self.wf(),
                n == self.running().len(),
                lo <= hi < n,
                draw < self.running()[hi as int],
                lo > 0 ==> self.running()[lo - 1] <= draw,
            decreases hi - lo,
        {
            let mid = lo + (hi - lo) / 2;
            if self.cumulative[mid] > draw {
                hi = mid;
            } else {
                lo = mid + 1;
            }
        }
        proof {
            lemma_pick_index(self.weights(), draw as nat, lo as int);
        }
        Some(self.next_words[lo])
    }
}

/// The index that a draw selects is a position of the counts.
pub proof fn lemma_pick_index_in_range(counts: Seq<usize>, draw: nat)
    requires
        counts.len() > 0,
    ensures
        pick_index(counts, draw) < counts.len(),
    decreases counts.len(),
{
    if counts.len() > 1 && draw < total_of(counts.drop_last()) {
        lemma_pick_index_in_range(counts.drop_last(), draw);
    }
}

/// The draw lies in the interval of the index that it selects.
proof fn lemma_pick_index_interval(c: Seq<usize>, d: nat)
    requires
        c.len() > 0,
        d < total_of(c),
    ensures
        total_of(c.subrange(0, pick_index(c, d) as int)) <= d,
        d < total_of(c.subrange(0, pick_index(c, d) as int + 1)),
    decreases c.len(),
{
    let p = pick_index(c, d) as int;
    if c.len() == 1 {
        assert(c.subrange(0, 0) =~= Seq::<usize>::empty());
        assert(c.subrange(0, 1) == c);
    } else if d >= total_of(c.drop_last()) {
        assert(c.subrange(0, p) == c.drop_last());
        assert(c.subrange(0, p + 1) == c);
    } else {
        lemma_pick_index_interval(c.drop_last(), d);
        lemma_pick_index_in_range(c.drop_last(), d);
        assert(c.drop_last().subrange(0, p) == c.subrange(0, p));
        assert(c.drop_last().subrange(0, p + 1) == c.subrange(0, p + 1));
    }
}

/// Weighted selection is exact: with positive counts, a draw in
/// `[0, total_of(c))` selects index `i` exactly when it lies in the interval
/// from the sum of the counts before `i` to that sum plus `c[i]`. So of the
/// `total_of(c)` equally likely draws, exactly `c[i]` select index `i`.
pub proof fn lemma_selection_intervals(c: Seq<usize>, d: nat, i: int)
    requires
        forall|k: int| 0 <= k < c.len() ==> c[k] >= 1,
        0 <= i < c.len(),
        d < total_of(c),
    ensures
        total_of(c.subrange(0, i + 1)) == total_of(c.subrange(0, i)) + c[i],
        pick_index(c, d) == i <==> total_of(c.subrange(0, i)) <= d < total_of(c.subrange(0, i + 1)),
{
    assert(c.subrange(0, i + 1).drop_last() == c.subrange(0, i));
    lemma_pick_index_in_range(c, d);
    lemma_pick_index_interval(c, d);
    let p = pick_index(c, d) as int;
    if total_of(c.subrange(0, i)) <= d && d < total_of(c.subrange(0, i + 1)) {
        if p < i {
            lemma_total_prefix_le(c.subrange(0, i), p + 1);
            assert(c.subrange(0, i).subrange(0, p + 1) == c.subrange(0, p + 1));
        } else if p > i {
            lemma_total_prefix_le(c.subrange(0, p), i + 1);
            assert(c.subrange(0, p).subrange(0, i + 1) == c.subrange(0, i + 1));
        }
    }
}

/// Weighted selection is unbiased: with positive counts, of the
/// `total_of(c)` equally likely draws in `[0, total_of(c))`, exactly `c[i]`
/// select index `i`, so index `i` is selected with probability
/// `c[i] / total_of(c)`.
pub proof fn lemma_selection_counts(c: Seq<usize>, i: int)
    requires
        forall|k: int| 0 <= k < c.len() ==> c[k] >= 1,
        0 <= i < c.len(),
    ensures
        Set::new(|d: int| 0 <= d < total_of(c) && pick_index(c, d as nat) == i).finite(),
        Set::new(|d: int| 0 <= d < total_of(c) && pick_index(c, d as nat) == i).len() == c[i],
{
    let lo = total_of(c.subrange(0, i)) as int;
    let hi = total_of(c.subrange(0, i + 1)) as int;
    assert(c.subrange(0, i + 1).drop_last() == c.subrange(0, i));
    lemma_total_prefix_le(c, i + 1);
    let chosen = Set::new(|d: int| 0 <= d < total_of(c) && pick_index(c, d as nat) == i);
    assert forall|d: int| chosen.contains(d) <==> set_int_range(lo, hi).contains(d) by {
        if 0 <= d < total_of(c) {
            lemma_selection_intervals(c, d as nat, i);
        }
    }
    assert(chosen =~= set_int_range(lo, hi));
    lemma_int_range(lo, hi);
}

/// A single count sums to itself.
pub proof fn lemma_total_single(x: usize)
    ensures
        total_of(seq![x]) == x,
{
    assert(seq![x].drop_last() =~= Seq::<usize>::empty());
    assert(total_of(Seq::<usize>::empty()) == 0);
}

pub proof fn lemma_total_prefix_le(s: Seq<usize>, k: int)
    requires
        0 <= k <= s.len(),
    ensures
        total_of(s.subrange(0, k)) <= total_of(s),
    decreases s.len(),
{
    if k < s.len() {
        assert(s.drop_last().subrange(0, k) == s.subrange(0, k));
        lemma_total_prefix_le(s.drop_last(), k);
    } else {
        assert(s.subrange(0, k) == s);
    }
}

pub proof fn lemma_total_ge_each(s: Seq<usize>, i: int)
    requires
        0 <= i < s.len(),
    ensures
        s[i] <= total_of(s),
    decreases s.len(),
{
    if i < s.len() - 1 {
        lemma_total_ge_each(s.drop_last(), i);
    }
}

pub proof fn lemma_total_update(s: Seq<usize>, i: int, v: usize)
    requires
        0 <= i < s.len(),
    ensures
        total_of(s.update(i, v)) == total_of(s) - s[i] + v,
    decreases s.len(),
{
    if i < s.len() - 1 {
        assert(s.update(i, v).drop_last() == s.drop_last().update(i, v));
        lemma_total_update(s.drop_last(), i, v);
    } else {
        assert(s.update(i, v).drop_last() == s.drop_last());
    }
}

proof fn lemma_running_totals_last(s: Seq<usize>)
    requires
        s.len() > 0,
    ensures
        running_totals(s)[s.len() - 1] == total_of(s),
{
    assert(s.subrange(0, s.len() as int) == s);
}

/// Running totals strictly increase when every count is positive.
proof fn lemma_running_totals_increase(s: Seq<usize>, j: int, k: int)
    requires
        forall|i: int| 0 <= i < s.len() ==> s[i] >= 1,
        0 <= j < k < s.len(),
    ensures
        running_totals(s)[j] < running_totals(s)[k],
    decreases k - j,
{
    let t = s.subrange(0, k + 1);
    assert(t.drop_last() == s.subrange(0, k));
    if j < k - 1 {
        lemma_running_totals_increase(s, j, k - 1);
    }
}

/// The draw lies in the interval that index `i` owns, so `pick_index` is `i`.
proof fn lemma_pick_index(s: Seq<usize>, draw: nat, i: int)
    requires
        forall|m: int| 0 <= m < s.len() ==> s[m] >= 1,
        0 <= i < s.len(),
        draw < running_totals(s)[i],
        i > 0 ==> running_totals(s)[i - 1] <= draw,
    ensures
        pick_index(s, draw) == i,
    decreases s.len(),
{
    if s.len() <= 1 {
    } else {
        let head = s.drop_last();
        let last = s.len() - 1;
        assert(s.subrange(0, last) == head);
        if i == last {
            assert(running_totals(s)[i - 1] == total_of(head));
        } else {
            if i < last - 1 {
                lemma_running_totals_increase(s, i, last - 1);
            }
            assert(running_totals(s)[last - 1] == total_of(head));
            assert forall|m: int| 0 <= m < head.len() implies running_totals(head)[m]
                == running_totals(s)[m] by {
                assert(head.subrange(0, m + 1) == s.subrange(0, m + 1));
            }
            lemma_pick_index(head, draw, i);
        }
    }
}

} // verus!
