//! The chain: a table from states (the last `order` token ids) to transition
//! nodes, trained over sliding windows of a token stream.

use vstd::arithmetic::div_mod::lemma_small_mod;
use vstd::prelude::*;

use crate::index::{hash_ids, ids_hash, BucketIndex};
use crate::interner::{distinct_words, intern_all, Interner};
use crate::state::{lemma_total_ge_each, lemma_total_single, total_of, valid_counts, with_one_more, State};
use crate::random::random_below;
use crate::text::{join_words, joined, split_words, views, words};
use crate::walk::{
    as_nats, begin, draw_range, generated, ids_result, lemma_step_from, lemma_walk_ended,
    lemma_walk_fails_only_when_empty, lemma_walk_ids_valid, outcome, spell, start_walk, step,
    step_from, step_status, text_result, walk, whole_generation, whole_walk, Walk,
};

verus! {

/// One row of the table: a state key, its successors, and their counts.
pub type Row = (Seq<usize>, Seq<usize>, Seq<usize>);

/// The row whose key is `key`, if there is one.
pub open spec fn find_row(t: Seq<Row>, key: Seq<usize>) -> Option<int> {
    if exists|i: int| 0 <= i < t.len() && t[i].0 == key {
        Some(choose|i: int| 0 <= i < t.len() && t[i].0 == key)
    } else {
        None
    }
}

/// A table of a chain of order `order` over `n_words` interned words.
pub open spec fn valid_table(t: Seq<Row>, order: nat, n_words: nat) -> bool {
    &&& forall|i: int, j: int| 0 <= i < t.len() && 0 <= j < t.len() && i != j ==> t[i].0 != t[j].0
    &&& forall|i: int| 0 <= i < t.len() ==> (#[trigger] t[i]).0.len() == order
    &&& forall|i: int| 0 <= i < t.len() ==> valid_counts((#[trigger] t[i]).1, t[i].2)
    &&& forall|i: int, k: int|
        0 <= i < t.len() && 0 <= k < t[i].0.len() ==> (#[trigger] t[i].0[k]) < n_words
    &&& forall|i: int, k: int|
        0 <= i < t.len() && 0 <= k < t[i].1.len() ==> (#[trigger] t[i].1[k]) < n_words
}

/// The table after one more window: `next` seen after `key`. A node whose
/// total weight has reached `usize::MAX` takes no more weight.
pub open spec fn add_window(t: Seq<Row>, key: Seq<usize>, next: usize) -> Seq<Row> {
    match find_row(t, key) {
        Some(i) => if total_of(t[i].2) < usize::MAX {
            let (n, c) = with_one_more(t[i].1, t[i].2, next);
            t.update(i, (key, n, c))
        } else {
            t
        },
        None => t.push((key, seq![next], seq![1usize])),
    }
}

/// The number of windows of width `order + 1` in a stream of `len` tokens.
pub open spec fn window_count(len: nat, order: nat) -> nat {
    if len > order { (len - order) as nat } else { 0 }
}

/// The table after the first `n` windows of `ids`.
pub open spec fn trained(t: Seq<Row>, ids: Seq<usize>, order: nat, n: nat) -> Seq<Row>
    decreases n,
{
    if n == 0 {
        t
    } else {
        let j = n - 1;
        add_window(trained(t, ids, order, j as nat), ids.subrange(j, j + order), ids[j + order])
    }
}

/// Training on words: the words afterwards and the table afterwards.
pub open spec fn train_result(t: Seq<Row>, vocab: Seq<Seq<char>>, input: Seq<Seq<char>>, order: nat) -> (
    Seq<Seq<char>>,
    Seq<Row>,
) {
    let (ws, ids) = intern_all(vocab, input);
    (ws, trained(t, ids, order, window_count(ids.len(), order)))
}

/// Counting one more successor in row `i` keeps the table valid.
proof fn lemma_one_more_keeps_valid(t: Seq<Row>, s: Seq<Row>, order: nat, n: nat, i: int, next: usize)
    requires
        valid_table(t, order, n),
        0 <= i < t.len(),
        next < n,
        s == t.update(i, (t[i].0, s[i].1, s[i].2)),
        (s[i].1, s[i].2) == with_one_more(t[i].1, t[i].2, next),
        valid_counts(s[i].1, s[i].2),
    ensures
        valid_table(s, order, n),
{
    assert forall|j: int, k: int| 0 <= j < s.len() && 0 <= k < s[j].1.len() implies (#[trigger] s[j].1[k]) < n by {
        if j == i && !t[i].1.contains(next) && k < t[i].1.len() {
            assert(s[j].1[k] == t[i].1[k]);
        }
    }
}

/// A table stays valid when the vocabulary grows.
proof fn lemma_valid_table_grow(t: Seq<Row>, order: nat, n: nat, m: nat)
    requires
        valid_table(t, order, n),
        n <= m,
    ensures
        valid_table(t, order, m),
{
}

/// Why generation could not produce text.
#[derive(Debug, Clone, Copy, PartialEq, Eq)]
pub enum GenerationError {
    /// A state that cannot be walked from. The table's invariants rule it
    /// out, so generation never returns it.
    InvalidState,
    /// The table holds no state at all where one was needed.
    NoTransitions,
}

/// The count of `next` after `key` and the total weight of `key`, if `key`
/// is a state of the table and `next` one of its successors.
pub open spec fn transition_weight_of(t: Seq<Row>, key: Seq<usize>, next: usize) -> Option<(usize, usize)> {
    match find_row(t, key) {
        None => None,
        Some(i) => if t[i].1.contains(next) {
            let k = choose|k: int| 0 <= k < t[i].1.len() && t[i].1[k] == next;
            Some((t[i].2[k], total_of(t[i].2) as usize))
        } else {
            None
        },
    }
}

/// A text generator over an n-gram Markov chain.
pub struct MarkovChain {
    order: usize,
    keys: Vec<Vec<usize>>,
    nodes: Vec<State>,
    key_index: BucketIndex,
    interner: Interner,
}

/// Copies `s[lo..hi]`.
fn copy_range(s: &Vec<usize>, lo: usize, hi: usize) -> (r: Vec<usize>)
    requires
        lo <= hi <= s@.len(),
    ensures
        r@ == s@.subrange(lo as int, hi as int),
{
    let mut r: Vec<usize> = Vec::new();
    let mut i: usize = lo;
    while i < hi
        invariant
            lo <= i <= hi <= s@.len(),
            r@ == s@.subrange(lo as int, i as int),
        decreases hi - i,
    {
        r.push(s[i]);
        i = i + 1;
    }
    r
}

fn same_ids(a: &[usize], b: &[usize]) -> (r: bool)
    ensures
        r == (a@ == b@),
{
    if a.len() != b.len() {
        return false;
    }
    let mut i: usize = 0;
    while i < a.len()
        invariant
            a@.len() == b@.len(),
            i <= a@.len(),
            forall|k: int| 0 <= k < i ==> a@[k] == b@[k],
        decreases a@.len() - i,
    {
        if a[i] != b[i] {
            return false;
        }
        i = i + 1;
    }
    assert(a@ == b@);
    true
}

impl MarkovChain {
    /// The rows of the table, in the order in which their states first appeared.
    pub closed spec fn table(&self) -> Seq<Row> {
        Seq::new(
            self.keys@.len(),
            |i: int| (self.keys@[i]@, self.nodes@[i].successors(), self.nodes@[i].weights()),
        )
    }

    /// The chain's order: the number of tokens in a state.
    pub closed spec fn order_spec(&self) -> nat {
        self.order as nat
    }

    /// The interned words, by id.
    pub closed spec fn vocabulary(&self) -> Seq<Seq<char>> {
        self.interner@
    }

    /// Everything but the running totals of the nodes is consistent.
    pub closed spec fn counts_wf(&self) -> bool {
        &&& self.order > 0
        &&& self.interner.wf()
        &&& self.keys@.len() == self.nodes@.len()
        &&& self.key_index.wf()
        &&& self.key_index.hashes() == self.keys@.map_values(|k: Vec<usize>| ids_hash(k@))
        &&& valid_table(self.table(), self.order as nat, self.interner@.len())
        &&& forall|i: int| 0 <= i < self.nodes@.len() ==> (#[trigger] self.nodes@[i]).counts_wf()
    }

    pub closed spec fn wf(&self) -> bool {
        &&& self.counts_wf()
        &&& forall|i: int| 0 <= i < self.nodes@.len() ==> (#[trigger] self.nodes@[i]).wf()
    }

    /// A chain of the given order with no words and no states.
    pub fn new(order: usize) -> (r: Self)
        requires
            order > 0,
        ensures
            r.wf(),
            r.order_spec() == order,
            r.table() == Seq::<Row>::empty(),
            r.vocabulary() == Seq::<Seq<char>>::empty(),
    {
        let r = MarkovChain {
            order,
            keys: Vec::new(),
            nodes: Vec::new(),
            key_index: BucketIndex::new(),
            interner: Interner::new(),
        };
        assert(r.table() =~= Seq::<Row>::empty());
        assert(r.key_index.hashes() =~= r.keys@.map_values(|k: Vec<usize>| ids_hash(k@)));
        r
    }

    pub fn order(&self) -> (r: usize)
        ensures
            r == self.order_spec(),
    {
        self.order
    }

    /// The number of states in the table.
    pub fn state_count(&self) -> (r: usize)
        requires
            self.wf(),
        ensures
            r == self.table().len(),
    {
        self.keys.len()
    }

    pub fn interner(&self) -> (r: &Interner)
        ensures
            r@ == self.vocabulary(),
            self.wf() ==> r.wf(),
    {
        &self.interner
    }

    /// The count of `next` after the state `key` and the total weight of
    /// that state, if the state is in the table and `next` follows it; the
    /// probability of the transition is their quotient.
    pub fn transition_weight(&self, key: &[usize], next: usize) -> (r: Option<(usize, usize)>)
        requires
            self.wf(),
        ensures
            r == transition_weight_of(self.table(), key@, next),
    {
        match self.find_state(key) {
            None => None,
            Some(i) => {
                let node = &self.nodes[i];
                assert(node.wf());
                assert(self.table()[i as int].1 == node.successors());
                let succ = node.next_words();
                let mut k: usize = 0;
                while k < succ.len()
                    invariant
                        node.wf(),
                        succ@ == node.successors(),
                        i < self.table().len(),
                        find_row(self.table(), key@) == Some(i as int),
                        self.table()[i as int].1 == succ@,
                        self.table()[i as int].2 == node.weights(),
                        k <= succ@.len(),
                        forall|m: int| 0 <= m < k ==> succ@[m] != next,
                    decreases succ@.len() - k,
                {
                    if succ[k] == next {
                        let count = node.counts()[k];
                        let total = node.total();
                        proof {
                            let t = self.table();
                            assert(t[i as int].1[k as int] == next);
                            let c = choose|c: int| 0 <= c < t[i as int].1.len() && t[i as int].1[c] == next;
                            assert(c == k as int);
                        }
                        return Some((count, total));
                    }
                    k = k + 1;
                }
                None
            },
        }
    }

    /// The key and node of the row at `i`.
    pub fn row(&self, i: usize) -> (r: (&Vec<usize>, &State))
        requires
            self.wf(),
            i < self.table().len(),
        ensures
            r.0@ == self.table()[i as int].0,
            r.1.successors() == self.table()[i as int].1,
            r.1.weights() == self.table()[i as int].2,
            r.1.wf(),
    {
        (&self.keys[i], &self.nodes[i])
    }

    /// What a well-formed chain guarantees of its table and vocabulary.
    pub proof fn lemma_wf(&self)
        requires
            self.wf(),
        ensures
            self.counts_wf(),
            self.order_spec() > 0,
            valid_table(self.table(), self.order_spec(), self.vocabulary().len()),
            distinct_words(self.vocabulary()),
    {
        self.interner.lemma_wf();
    }

    /// A chain of the given order over these words, with no states yet.
    pub(crate) fn with_vocabulary(order: usize, interner: Interner) -> (r: Self)
        requires
            order > 0,
            interner.wf(),
        ensures
            r.wf(),
            r.order_spec() == order,
            r.table() == Seq::<Row>::empty(),
            r.vocabulary() == interner@,
    {
        let r = MarkovChain {
            order,
            keys: Vec::new(),
            nodes: Vec::new(),
            key_index: BucketIndex::new(),
            interner,
        };
        assert(r.table() =~= Seq::<Row>::empty());
        assert(r.key_index.hashes() =~= r.keys@.map_values(|k: Vec<usize>| ids_hash(k@)));
        r
    }

    /// Appends a row for a state not yet in the table.
    pub(crate) fn push_row(&mut self, key: Vec<usize>, node: State)
        requires
            old(self).wf(),
            node.wf(),
            key@.len() == old(self).order_spec(),
            find_row(old(self).table(), key@) is None,
            forall|k: int| 0 <= k < key@.len() ==> key@[k] < old(self).vocabulary().len(),
            forall|k: int|
                0 <= k < node.successors().len() ==> node.successors()[k] < old(self).vocabulary().len(),
        ensures
            final(self).wf(),
            final(self).order_spec() == old(self).order_spec(),
            final(self).vocabulary() == old(self).vocabulary(),
            final(self).table() == old(self).table().push((key@, node.successors(), node.weights())),
    {
        let ghost t = self.table();
        let h = hash_ids(key.as_slice());
        let pos = self.keys.len();
        self.key_index.push(h, pos);
        self.keys.push(key);
        self.nodes.push(node);
        assert(self.table() =~= t.push((key@, node.successors(), node.weights())));
        assert(self.key_index.hashes() =~= self.keys@.map_values(|k: Vec<usize>| ids_hash(k@)));
    }

    /// The position in the table of the state `key`, if it is there.
    pub fn find_state(&self, key: &[usize]) -> (r: Option<usize>)
        requires
            self.counts_wf(),
        ensures
            r == match find_row(self.table(), key@) {
                Some(i) => Some(i as usize),
                None => None::<usize>,
            },
            r matches Some(i) ==> i < self.table().len() && self.table()[i as int].0 == key@,
    {
        let h = hash_ids(key);
        let cands = self.key_index.candidates(h);
        let mut k: usize = 0;
        while k < cands.len()
            invariant
                self.counts_wf(),
                h == ids_hash(key@),
                forall|m: int|
                    0 <= m < cands@.len() ==> (#[trigger] cands@[m] as int) < self.keys@.len(),
                forall|m: int| 0 <= m < k ==> self.keys@[#[trigger] cands@[m] as int]@ != key@,
                forall|i: int|
                    0 <= i < self.keys@.len() && #[trigger] self.key_index.hashes()[i] == h
                        ==> exists|m: int| 0 <= m < cands@.len() && cands@[m] as int == i,
                k <= cands@.len(),
            decreases cands@.len() - k,
        {
            let pos = cands[k];
            if same_ids(self.keys[pos].as_slice(), key) {
                proof {
                    assert(self.table()[pos as int].0 == key@);
                    let i = choose|i: int|
                        0 <= i < self.table().len() && self.table()[i].0 == key@;
                    assert(i == pos as int);
                }
                return Some(pos);
            }
            k = k + 1;
        }
        proof {
            if exists|i: int| 0 <= i < self.table().len() && self.table()[i].0 == key@ {
                let i = choose|i: int| 0 <= i < self.table().len() && self.table()[i].0 == key@;
                assert(self.table()[i].0 == self.keys@[i]@);
                assert(self.key_index.hashes()[i] == ids_hash(self.keys@[i]@));
                let m = choose|m: int| 0 <= m < cands@.len() && cands@[m] as int == i;
                assert(self.keys@[cands@[m] as int]@ != key@);
            }
        }
        None
    }

    /// Counts one window: `next` seen after `key`.
    fn add_window(&mut self, key: Vec<usize>, next: usize)
        requires
            old(self).counts_wf(),
            key@.len() == old(self).order,
            forall|k: int| 0 <= k < key@.len() ==> key@[k] < old(self).interner@.len(),
            next < old(self).interner@.len(),
        ensures
            final(self).counts_wf(),
            final(self).order == old(self).order,
            final(self).interner@ == old(self).interner@,
            final(self).table() == add_window(old(self).table(), key@, next),
    {
        let ghost t = self.table();
        match self.find_state(key.as_slice()) {
            Some(i) => {
                assert(self.nodes@[i as int].counts_wf());
                if self.nodes[i].total() < usize::MAX {
                    self.nodes[i].increment(next);
                    assert(self.table() =~= t.update(
                        i as int,
                        (key@, self.nodes@[i as int].successors(), self.nodes@[i as int].weights()),
                    ));
                    proof {
                        lemma_one_more_keeps_valid(t, self.table(), self.order as nat, self.interner@.len(), i as int, next);
                    }
                } else {
                    assert(self.table() == t);
                }
            },
            None => {
                let h = hash_ids(key.as_slice());
                let pos = self.keys.len();
                let mut node = State::new();
                node.increment(next);
                self.key_index.push(h, pos);
                self.keys.push(key);
                self.nodes.push(node);
                proof {
                    assert(Seq::<usize>::empty().push(next) =~= seq![next]);
                    assert(Seq::<usize>::empty().push(1usize) =~= seq![1usize]);
                    lemma_total_single(1usize);
                    assert(self.table().last() == (key@, seq![next], seq![1usize]));
                }
                assert(self.table() =~= t.push((key@, seq![next], seq![1usize])));
                assert(self.key_index.hashes() =~= self.keys@.map_values(|k: Vec<usize>| ids_hash(k@)));
            },
        }
    }

    /// Recomputes the running totals of every node.
    fn finalize(&mut self)
        requires
            old(self).counts_wf(),
        ensures
            final(self).wf(),
            final(self).order == old(self).order,
            final(self).interner@ == old(self).interner@,
            final(self).table() == old(self).table(),
    {
        let mut i: usize = 0;
        while i < self.nodes.len()
            invariant
                self.counts_wf(),
                self.order == old(self).order,
                self.interner@ == old(self).interner@,
                self.table() == old(self).table(),
                i <= self.nodes@.len(),
                forall|k: int| 0 <= k < i ==> (#[trigger] self.nodes@[k]).wf(),
            decreases self.nodes@.len() - i,
        {
            let ghost t = self.table();
            self.nodes[i].update_cumulative();
            assert(self.table() =~= t);
            i = i + 1;
        }
    }

    /// Counts every window of `order + 1` consecutive ids: the first `order`
    /// ids form the state and the last is the successor. Existing counts are
    /// kept and added to; a node whose total weight has reached `usize::MAX`
    /// takes no more. The running totals are recomputed once, at the end.
    pub fn train_ids(&mut self, ids: &Vec<usize>)
        requires
            old(self).wf(),
            forall|k: int| 0 <= k < ids@.len() ==> ids@[k] < old(self).vocabulary().len(),
        ensures
            final(self).wf(),
            final(self).order_spec() == old(self).order_spec(),
            final(self).vocabulary() == old(self).vocabulary(),
            final(self).table() == trained(
                old(self).table(),
                ids@,
                old(self).order_spec(),
                window_count(ids@.len(), old(self).order_spec()),
            ),
    {
        let n = ids.len();
        if n > self.order {
            let windows = n - self.order;
            let mut j: usize = 0;
            while j < windows
                invariant
                    self.counts_wf(),
                    self.order == old(self).order,
                    self.interner@ == old(self).interner@,
                    n == ids@.len(),
                    windows == n - self.order,
                    j <= windows,
                    forall|k: int| 0 <= k < ids@.len() ==> ids@[k] < self.interner@.len(),
                    self.table() == trained(old(self).table(), ids@, self.order as nat, j as nat),
                decreases windows - j,
            {
                let key = copy_range(ids, j, j + self.order);
                self.add_window(key, ids[j + self.order]);
                j = j + 1;
            }
        }
        self.finalize();
    }

    /// Interns the words in order, then counts every window of their ids.
    pub fn train_words(&mut self, input: &Vec<String>)
        requires
            old(self).wf(),
        ensures
            final(self).wf(),
            final(self).order_spec() == old(self).order_spec(),
            (final(self).vocabulary(), final(self).table()) == train_result(
                old(self).table(),
                old(self).vocabulary(),
                views(input@),
                old(self).order_spec(),
            ),
    {
        let ids = self.interner.intern_words(input);
        proof {
            lemma_valid_table_grow(
                self.table(),
                self.order as nat,
                old(self).interner@.len(),
                self.interner@.len(),
            );
        }
        self.train_ids(&ids);
    }

    /// Trains on the whitespace-separated words of `text`. A text of at most
    /// `order` words adds words to the vocabulary but leaves the table as it is.
    pub fn train(&mut self, text: &str)
        requires
            old(self).wf(),
        ensures
            final(self).wf(),
            final(self).order_spec() == old(self).order_spec(),
            (final(self).vocabulary(), final(self).table()) == train_result(
                old(self).table(),
                old(self).vocabulary(),
                words(text@),
                old(self).order_spec(),
            ),
    {
        let input = split_words(text);
        self.train_words(&input);
    }

    /// The range that the next step of a walk at `window` draws from: the
    /// node's total weight for a state in the table, else the number of
    /// states. Zero where the walk cannot go on.
    pub fn draw_bound(&self, window: &Vec<usize>) -> (r: usize)
        requires
            self.wf(),
        ensures
            r == draw_range(self.table(), window@),
    {
        match self.find_state(window.as_slice()) {
            Some(i) => {
                assert(self.nodes@[i as int].wf());
                self.nodes[i].total()
            },
            None => self.keys.len(),
        }
    }

    /// Takes one step of a walk that has emitted `emitted` and is at
    /// `window`, with the random number `draw`. `Ok(true)` when the walk
    /// moved on, `Ok(false)` when it stopped at a node with no successors.
    pub fn advance(&self, emitted: &mut Vec<usize>, window: &mut Vec<usize>, draw: usize) -> (r:
        Result<bool, GenerationError>)
        requires
            self.wf(),
        ensures
            final(emitted)@ == step_from(
                self.table(),
                self.order_spec(),
                old(emitted)@,
                old(window)@,
                draw as nat,
            ).out,
            final(window)@ == step_from(
                self.table(),
                self.order_spec(),
                old(emitted)@,
                old(window)@,
                draw as nat,
            ).window,
            r == step_status(
                step_from(self.table(), self.order_spec(), old(emitted)@, old(window)@, draw as nat),
            ),
    {
        let ghost t = self.table();
        let ghost order = self.order as nat;
        match self.find_state(window.as_slice()) {
            None => {
                if self.keys.len() == 0 {
                    return Err(GenerationError::NoTransitions);
                }
                let pick = draw % self.keys.len();
                let key = copy_range(&self.keys[pick], 0, self.keys[pick].len());
                let ghost before = emitted@;
                let mut k: usize = 0;
                while k < key.len()
                    invariant
                        k <= key@.len(),
                        emitted@ == before + key@.subrange(0, k as int),
                    decreases key@.len() - k,
                {
                    emitted.push(key[k]);
                    k = k + 1;
                }
                assert(key@ == t[pick as int].0);
                assert(key@.subrange(0, key@.len() as int) == key@);
                *window = key;
                Ok(true)
            },
            Some(i) => {
                assert(self.nodes@[i as int].wf());
                assert(t[i as int].1 == self.nodes@[i as int].successors());
                assert(t[i as int].2 == self.nodes@[i as int].weights());
                if self.nodes[i].next_words().len() == 0 {
                    return Ok(false);
                }
                let total = self.nodes[i].total();
                proof {
                    lemma_total_ge_each(t[i as int].2, 0);
                }
                let next = self.nodes[i].select_with(draw % total).unwrap();
                emitted.push(next);
                window.push(next);
                if window.len() > self.order {
                    window.remove(0);
                }
                assert(window@ =~= step_from(t, order, old(emitted)@, old(window)@, draw as nat).window);
                Ok(true)
            },
        }
    }

    /// Walks the chain from `out` and `window`, one step for each draw in
    /// order, until the draws run out or the walk ends.
    pub fn walk_with_draws(&self, out: Vec<usize>, window: Vec<usize>, draws: &Vec<usize>) -> (r:
        Result<Vec<usize>, GenerationError>)
        requires
            self.wf(),
        ensures
            ids_result(r) == outcome(
                walk(self.table(), self.order_spec(), begin(out@, window@), as_nats(draws@)),
            ),
    {
        let ghost t = self.table();
        let ghost order = self.order as nat;
        let ghost start = begin(out@, window@);
        let mut emitted = out;
        let mut win = window;
        let ghost mut cur: Walk = start;
        let mut k: usize = 0;
        while k < draws.len()
            invariant
                self.wf(),
                t == self.table(),
                order == self.order,
                start == begin(out@, window@),
                k <= draws@.len(),
                walk(t, order, start, as_nats(draws@.subrange(0, k as int))) == cur,
                cur.window == win@,
                cur.out == emitted@,
                !cur.stopped,
                !cur.failed,
            decreases draws@.len() - k,
        {
            let ghost prefix = as_nats(draws@.subrange(0, k + 1));
            assert(prefix.drop_last() == as_nats(draws@.subrange(0, k as int)));
            let status = self.advance(&mut emitted, &mut win, draws[k]);
            proof {
                lemma_step_from(t, order, cur, draws@[k as int] as nat);
                cur = step(t, order, cur, draws@[k as int] as nat);
                assert(walk(t, order, start, prefix) == cur);
                if cur.stopped || cur.failed {
                    let rest = as_nats(draws@.subrange(k + 1, draws@.len() as int));
                    lemma_walk_ended(t, order, start, prefix, rest);
                    assert(prefix + rest == as_nats(draws@));
                }
            }
            match status {
                Err(e) => {
                    return Err(e);
                },
                Ok(false) => {
                    return Ok(emitted);
                },
                Ok(true) => {},
            }
            k = k + 1;
        }
        assert(draws@.subrange(0, draws@.len() as int) == draws@);
        Ok(emitted)
    }

    /// Walks the chain from `out` and `window` for at most `max_words` steps,
    /// drawing a random number at each step.
    pub fn walk_from(&self, out: Vec<usize>, window: Vec<usize>, max_words: usize) -> (r: Result<
        Vec<usize>,
        GenerationError,
    >)
        requires
            self.wf(),
        ensures
            exists|draws: Seq<nat>|
                whole_walk(self.table(), self.order_spec(), begin(out@, window@), draws, max_words as nat)
                    && ids_result(r) == outcome(
                    walk(self.table(), self.order_spec(), begin(out@, window@), draws),
                ),
    {
        let ghost t = self.table();
        let ghost order = self.order as nat;
        let ghost start = begin(out@, window@);
        let mut emitted = out;
        let mut win = window;
        let ghost mut draws: Seq<nat> = Seq::empty();
        let ghost mut cur: Walk = start;
        let mut steps: usize = 0;
        while steps < max_words
            invariant
                self.wf(),
                t == self.table(),
                order == self.order,
                start == begin(out@, window@),
                steps <= max_words,
                draws.len() == steps,
                walk(t, order, start, draws) == cur,
                cur.window == win@,
                cur.out == emitted@,
                !cur.stopped,
                !cur.failed,
            decreases max_words - steps,
        {
            let bound = self.draw_bound(&win);
            let draw = if bound > 0 {
                random_below(bound)
            } else {
                0
            };
            let status = self.advance(&mut emitted, &mut win, draw);
            proof {
                let prev = draws;
                draws = draws.push(draw as nat);
                assert(draws.drop_last() == prev);
                lemma_step_from(t, order, cur, draw as nat);
                cur = step(t, order, cur, draw as nat);
                assert(walk(t, order, start, draws) == cur);
            }
            match status {
                Err(e) => {
                    assert(whole_walk(self.table(), self.order_spec(), start, draws, max_words as nat));
                    return Err(e);
                },
                Ok(false) => {
                    assert(whole_walk(self.table(), self.order_spec(), start, draws, max_words as nat));
                    return Ok(emitted);
                },
                Ok(true) => {},
            }
            steps = steps + 1;
        }
        assert(whole_walk(self.table(), self.order_spec(), start, draws, max_words as nat));
        assert(outcome(walk(self.table(), self.order_spec(), start, draws)) == Ok::<Seq<usize>, GenerationError>(emitted@));
        Ok(emitted)
    }

    /// Generates text from the prompt's ids: the walk starts as the prompt
    /// and seed say and runs for at most `max_words` steps, and its ids are
    /// spelled out and joined by single spaces.
    pub fn generate_ids(&self, prompt: Vec<usize>, max_words: usize) -> (r: Result<String, GenerationError>)
        requires
            self.wf(),
            forall|k: int| 0 <= k < prompt@.len() ==> prompt@[k] < self.vocabulary().len(),
        ensures
            exists|seed: nat, draws: Seq<nat>|
                whole_generation(self.table(), self.order_spec(), prompt@, seed, draws, max_words as nat)
                    && text_result(r) == generated(
                    self.table(),
                    self.order_spec(),
                    self.vocabulary(),
                    prompt@,
                    seed,
                    draws,
                ),
            r is Err ==> self.table().len() == 0 && r == Err::<String, GenerationError>(
                GenerationError::NoTransitions,
            ),
            self.table().len() > 0 ==> r is Ok,
            self.table().len() == 0 && prompt@.len() < self.order_spec() ==> r is Err,
    {
        let ghost t = self.table();
        let ghost order = self.order as nat;
        let n = prompt.len();
        let walked;
        let ghost seed: nat = 0;
        if n < self.order {
            if self.keys.len() == 0 {
                let r = Err(GenerationError::NoTransitions);
                assert(text_result(r) == generated(t, order, self.vocabulary(), prompt@, 0, Seq::empty()));
                assert(whole_generation(t, order, prompt@, 0, Seq::empty(), max_words as nat));
                return r;
            }
            let pick = random_below(self.keys.len());
            let out = copy_range(&self.keys[pick], 0, self.keys[pick].len());
            let window = copy_range(&self.keys[pick], 0, self.keys[pick].len());
            proof {
                seed = pick as nat;
                lemma_small_mod(seed, t.len());
                assert(out@ =~= t[pick as int].0);
                assert(window@ =~= t[pick as int].0);
                assert(start_walk(t, order, prompt@, seed) == Some(begin(out@, window@)));
                assert(forall|k: int| 0 <= k < out@.len() ==> out@[k] < self.vocabulary().len());
                lemma_valid_table_grow(t, order, self.interner@.len(), self.vocabulary().len());
            }
            walked = self.walk_from(out, window, max_words);
        } else {
            let window = copy_range(&prompt, n - self.order, n);
            assert(start_walk(t, order, prompt@, seed) == Some(begin(prompt@, window@)));
            walked = self.walk_from(prompt, window, max_words);
        }
        let ghost s = start_walk(t, order, prompt@, seed)->Some_0;
        let ghost draws = choose|d: Seq<nat>|
            whole_walk(t, order, s, d, max_words as nat) && ids_result(walked) == outcome(
                walk(t, order, s, d),
            );
        proof {
            lemma_valid_table_grow(t, order, self.interner@.len(), self.vocabulary().len());
            lemma_walk_ids_valid(t, order, self.vocabulary().len(), s.out, s.window, draws);
            if walk(t, order, s, draws).failed {
                lemma_walk_fails_only_when_empty(t, order, s, draws);
            }
        }
        match walked {
            Ok(ids) => {
                let text = self.render(&ids);
                let r = Ok(text);
                assert(text_result(r) == generated(t, order, self.vocabulary(), prompt@, seed, draws));
                assert(whole_generation(t, order, prompt@, seed, draws, max_words as nat));
                r
            },
            Err(e) => {
                let r = Err(e);
                assert(text_result(r) == generated(t, order, self.vocabulary(), prompt@, seed, draws));
                assert(whole_generation(t, order, prompt@, seed, draws, max_words as nat));
                r
            },
        }
    }

    /// Interns the prompt's words, then generates from their ids.
    pub fn generate_words(&mut self, input: &Vec<String>, max_words: usize) -> (r: Result<
        String,
        GenerationError,
    >)
        requires
            old(self).wf(),
        ensures
            final(self).wf(),
            final(self).order_spec() == old(self).order_spec(),
            final(self).table() == old(self).table(),
            final(self).vocabulary() == intern_all(old(self).vocabulary(), views(input@)).0,
            exists|seed: nat, draws: Seq<nat>|
                whole_generation(
                    old(self).table(),
                    old(self).order_spec(),
                    intern_all(old(self).vocabulary(), views(input@)).1,
                    seed,
                    draws,
                    max_words as nat,
                ) && text_result(r) == generated(
                    old(self).table(),
                    old(self).order_spec(),
                    final(self).vocabulary(),
                    intern_all(old(self).vocabulary(), views(input@)).1,
                    seed,
                    draws,
                ),
            r is Err ==> old(self).table().len() == 0 && r == Err::<String, GenerationError>(
                GenerationError::NoTransitions,
            ),
            old(self).table().len() > 0 ==> r is Ok,
            old(self).table().len() == 0 && input@.len() < old(self).order_spec() ==> r is Err,
    {
        let ids = self.interner.intern_words(input);
        proof {
            lemma_valid_table_grow(
                self.table(),
                self.order as nat,
                old(self).interner@.len(),
                self.interner@.len(),
            );
            assert(self.table() =~= old(self).table());
        }
        let r = self.generate_ids(ids, max_words);
        proof {
            let (seed, draws) = choose|seed: nat, draws: Seq<nat>|
                whole_generation(self.table(), self.order_spec(), ids@, seed, draws, max_words as nat)
                    && text_result(r) == generated(
                    self.table(),
                    self.order_spec(),
                    self.vocabulary(),
                    ids@,
                    seed,
                    draws,
                );
            assert(ids@ == intern_all(old(self).vocabulary(), views(input@)).1);
            assert(self.vocabulary() == intern_all(old(self).vocabulary(), views(input@)).0);
            assert(whole_generation(old(self).table(), old(self).order_spec(), ids@, seed, draws, max_words as nat));
            assert(text_result(r) == generated(
                old(self).table(),
                old(self).order_spec(),
                self.vocabulary(),
                ids@,
                seed,
                draws,
            ));
        }
        r
    }

    /// Generates text from the whitespace-separated words of `prompt`, for
    /// at most `max_words` steps of the walk. Prompt words never seen before
    /// get new ids, which match no state.
    ///
    /// A prompt of at least `order` words is emitted whole and its last
    /// `order` words start the walk; a shorter one is replaced by a random
    /// state of the table. Each step uses one unit of `max_words`: it either
    /// samples one word, or, from a state not in the table, restarts at a
    /// random state and emits its `order` words.
    pub fn generate(&mut self, prompt: &str, max_words: usize) -> (r: Result<String, GenerationError>)
        requires
            old(self).wf(),
        ensures
            final(self).wf(),
            final(self).order_spec() == old(self).order_spec(),
            final(self).table() == old(self).table(),
            final(self).vocabulary() == intern_all(old(self).vocabulary(), words(prompt@)).0,
            exists|seed: nat, draws: Seq<nat>|
                whole_generation(
                    old(self).table(),
                    old(self).order_spec(),
                    intern_all(old(self).vocabulary(), words(prompt@)).1,
                    seed,
                    draws,
                    max_words as nat,
                ) && text_result(r) == generated(
                    old(self).table(),
                    old(self).order_spec(),
                    final(self).vocabulary(),
                    intern_all(old(self).vocabulary(), words(prompt@)).1,
                    seed,
                    draws,
                ),
            r is Err ==> old(self).table().len() == 0 && r == Err::<String, GenerationError>(
                GenerationError::NoTransitions,
            ),
            old(self).table().len() > 0 ==> r is Ok,
            old(self).table().len() == 0 && words(prompt@).len() < old(self).order_spec() ==> r is Err,
    {
        let input = split_words(prompt);
        self.generate_words(&input, max_words)
    }

    /// The words of the ids joined by single spaces.
    pub fn render(&self, ids: &Vec<usize>) -> (r: String)
        requires
            self.wf(),
            forall|k: int| 0 <= k < ids@.len() ==> ids@[k] < self.vocabulary().len(),
        ensures
            r@ == joined(spell(self.vocabulary(), ids@)),
    {
        let all = self.interner.words();
        let mut ws: Vec<String> = Vec::new();
        let mut k: usize = 0;
        while k < ids.len()
            invariant
                self.wf(),
                views(all@) == self.vocabulary(),
                forall|m: int| 0 <= m < ids@.len() ==> ids@[m] < self.vocabulary().len(),
                k <= ids@.len(),
                views(ws@) == spell(self.vocabulary(), ids@.subrange(0, k as int)),
            decreases ids@.len() - k,
        {
            let w = all[ids[k]].clone();
            let ghost before = ws@;
            assert(w@ == views(all@)[ids@[k as int] as int]);
            ws.push(w);
            assert(views(ws@) =~= views(before).push(w@));
            assert(spell(self.vocabulary(), ids@.subrange(0, k + 1)) =~= spell(
                self.vocabulary(),
                ids@.subrange(0, k as int),
            ).push(self.vocabulary()[ids@[k as int] as int]));
            k = k + 1;
        }
        assert(ids@.subrange(0, ids@.len() as int) == ids@);
        join_words(&ws)
    }
}

} // verus!
