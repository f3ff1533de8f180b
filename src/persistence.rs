//! The saved form of a chain: its order, its words by id, and each state
//! under the string form of its key with its successors and counts. The
//! running totals are not saved; loading recomputes them.

use vstd::prelude::*;

use crate::chain::{valid_table, MarkovChain, Row};
use crate::codec::{decode_key, decoded, encode_key, encoded, lemma_decode_encode};
use crate::interner::{distinct_words, Interner};
use crate::state::{valid_counts, State};
use crate::text::views;

verus! {

/// One saved state: its key in string form, its successors and their counts.
pub struct SavedState {
    pub key: String,
    pub next_words: Vec<usize>,
    pub counts: Vec<usize>,
}

/// A chain as plain values, ready for a file format.
pub struct SavedModel {
    pub order: usize,
    pub interner_words: Vec<String>,
    pub states: Vec<SavedState>,
}

/// Why a saved model could not be loaded.
#[derive(Debug, Clone, Copy, PartialEq, Eq)]
pub enum ModelError {
    /// The record does not describe a chain: an order of zero, a word
    /// listed twice, a key that is not ids joined by `_` or not of the
    /// chain's order, a state listed twice, an unknown id, successors and
    /// counts of different lengths, a repeated successor, a zero count, or
    /// a total weight beyond `usize::MAX`.
    InvalidFormat,
}

/// A saved row: the key's string form, the successors, the counts.
pub type SavedRow = (Seq<char>, Seq<usize>, Seq<usize>);

pub open spec fn saved_rows(m: SavedModel) -> Seq<SavedRow> {
    m.states@.map_values(|s: SavedState| (s.key@, s.next_words@, s.counts@))
}

/// The rows of a chain's table in saved form.
pub open spec fn rows_saved(t: Seq<Row>) -> Seq<SavedRow> {
    t.map_values(|r: Row| (encoded(r.0), r.1, r.2))
}

/// The rows that saved rows describe, with their keys decoded.
pub open spec fn rows_loaded(rows: Seq<SavedRow>) -> Seq<Row> {
    rows.map_values(|r: SavedRow| (decoded(r.0)->Some_0, r.1, r.2))
}

/// Saved parts that describe a chain.
pub open spec fn loadable(order: nat, words: Seq<Seq<char>>, rows: Seq<SavedRow>) -> bool {
    &&& order > 0
    &&& distinct_words(words)
    &&& forall|i: int| 0 <= i < rows.len() ==> decoded(#[trigger] rows[i].0) is Some
    &&& valid_table(rows_loaded(rows), order, words.len())
}

/// Saving and then loading gives back the same chain: what `save` makes of
/// a chain is loadable, and `load` rebuilds the same
/// order, the same words under the same ids, and the same states with the
/// same successors and counts, in the same order.
pub proof fn lemma_load_after_save(c: &MarkovChain)
    requires
        c.wf(),
    ensures
        loadable(c.order_spec(), c.vocabulary(), rows_saved(c.table())),
        rows_loaded(rows_saved(c.table())) == c.table(),
{
    c.lemma_wf();
    let t = c.table();
    assert forall|i: int| 0 <= i < t.len() implies decoded(#[trigger] rows_saved(t)[i].0) == Some(
        t[i].0,
    ) by {
        lemma_decode_encode(t[i].0);
    }
    assert(rows_loaded(rows_saved(t)) =~= t);
}

/// The chain in saved form.
pub fn save(chain: &MarkovChain) -> (r: SavedModel)
    requires
        chain.wf(),
    ensures
        r.order == chain.order_spec(),
        views(r.interner_words@) == chain.vocabulary(),
        saved_rows(r) == rows_saved(chain.table()),
{
    let all = chain.interner().words();
    let mut words: Vec<String> = Vec::new();
    let mut k: usize = 0;
    while k < all.len()
        invariant
            k <= all@.len(),
            views(words@) == views(all@.subrange(0, k as int)),
        decreases all@.len() - k,
    {
        let ghost before = words@;
        words.push(all[k].clone());
        assert(views(words@) =~= views(before).push(all@[k as int]@));
        assert(views(all@.subrange(0, k + 1)) =~= views(all@.subrange(0, k as int)).push(
            all@[k as int]@,
        ));
        k = k + 1;
    }
    assert(all@.subrange(0, all@.len() as int) == all@);
    let n = chain.state_count();
    let mut states: Vec<SavedState> = Vec::new();
    let mut i: usize = 0;
    while i < n
        invariant
            chain.wf(),
            n == chain.table().len(),
            i <= n,
            states@.map_values(|s: SavedState| (s.key@, s.next_words@, s.counts@)) == rows_saved(
                chain.table().subrange(0, i as int),
            ),
        decreases n - i,
    {
        let (key, node) = chain.row(i);
        let saved = SavedState {
            key: encode_key(key.as_slice()),
            next_words: copy_all(node.next_words()),
            counts: copy_all(node.counts()),
        };
        let ghost before = states@;
        states.push(saved);
        assert(states@.map_values(|s: SavedState| (s.key@, s.next_words@, s.counts@)) =~= before.map_values(
            |s: SavedState| (s.key@, s.next_words@, s.counts@),
        ).push((encoded(key@), node.successors(), node.weights())));
        assert(rows_saved(chain.table().subrange(0, i + 1)) =~= rows_saved(
            chain.table().subrange(0, i as int),
        ).push((encoded(key@), node.successors(), node.weights())));
        assert(states@.map_values(|s: SavedState| (s.key@, s.next_words@, s.counts@)) =~= rows_saved(
            chain.table().subrange(0, i + 1),
        ));
        i = i + 1;
    }
    assert(chain.table().subrange(0, n as int) == chain.table());
    SavedModel { order: chain.order(), interner_words: words, states }
}

/// Rebuilds a chain from its saved form, with the running totals recomputed.
pub fn load(m: &SavedModel) -> (r: Result<MarkovChain, ModelError>)
    ensures
        r is Ok <==> loadable(m.order as nat, views(m.interner_words@), saved_rows(*m)),
        r matches Ok(c) ==> {
            &&& c.wf()
            &&& c.order_spec() == m.order
            &&& c.vocabulary() == views(m.interner_words@)
            &&& c.table() == rows_loaded(saved_rows(*m))
        },
        r matches Err(e) ==> e == ModelError::InvalidFormat,
{
    let ghost words = views(m.interner_words@);
    let ghost rows = saved_rows(*m);
    let ghost order = m.order as nat;
    if m.order == 0 {
        return Err(ModelError::InvalidFormat);
    }
    let mut interner = Interner::new();
    let mut k: usize = 0;
    while k < m.interner_words.len()
        invariant
            words == views(m.interner_words@),
            interner.wf(),
            k <= m.interner_words@.len(),
            interner@ == words.subrange(0, k as int),
        decreases m.interner_words@.len() - k,
    {
        let w = m.interner_words[k].as_str();
        if let Some(j) = interner.lookup(w) {
            proof {
                assert(words[j as int] == words[k as int]);
                assert(!distinct_words(words));
            }
            return Err(ModelError::InvalidFormat);
        }
        interner.get_or_intern(w);
        assert(interner@ =~= words.subrange(0, k + 1));
        k = k + 1;
    }
    assert(words.subrange(0, words.len() as int) == words);
    let n = interner.len();
    proof {
        interner.lemma_wf();
    }
    let mut chain = MarkovChain::with_vocabulary(m.order, interner);
    let mut i: usize = 0;
    while i < m.states.len()
        invariant
            words == views(m.interner_words@),
            rows == saved_rows(*m),
            order == m.order,
            order > 0,
            distinct_words(words),
            n == words.len(),
            chain.wf(),
            chain.order_spec() == order,
            chain.vocabulary() == words,
            i <= m.states@.len(),
            forall|a: int| 0 <= a < i ==> decoded(#[trigger] rows[a].0) is Some,
            chain.table() == rows_loaded(rows.subrange(0, i as int)),
        decreases m.states@.len() - i,
    {
        let st = &m.states[i];
        assert(rows[i as int] == (st.key@, st.next_words@, st.counts@));
        let ghost loaded = rows_loaded(rows);
        assert(rows_loaded(rows.subrange(0, i as int)) =~= loaded.subrange(0, i as int));
        proof {
            chain.lemma_wf();
        }
        let key = match decode_key(st.key.as_str()) {
            Some(key) => key,
            None => {
                assert(decoded(rows[i as int].0) is None);
                return Err(ModelError::InvalidFormat);
            },
        };
        assert(loaded[i as int].0 == key@);
        if key.len() != m.order {
            return Err(ModelError::InvalidFormat);
        }
        if !all_below(&key, n) {
            return Err(ModelError::InvalidFormat);
        }
        if let Some(j) = chain.find_state(key.as_slice()) {
            proof {
                assert(loaded[j as int].0 == loaded[i as int].0);
            }
            return Err(ModelError::InvalidFormat);
        }
        let node = match load_node(&st.next_words, &st.counts, n) {
            Some(node) => node,
            None => {
                return Err(ModelError::InvalidFormat);
            },
        };
        chain.push_row(key, node);
        assert(chain.table() =~= rows_loaded(rows.subrange(0, i + 1)));
        i = i + 1;
    }
    assert(rows.subrange(0, rows.len() as int) == rows);
    proof {
        chain.lemma_wf();
    }
    Ok(chain)
}

/// Whether every id is below `n`.
fn all_below(v: &Vec<usize>, n: usize) -> (r: bool)
    ensures
        r == forall|p: int| 0 <= p < v@.len() ==> v@[p] < n,
{
    let mut q: usize = 0;
    while q < v.len()
        invariant
            q <= v@.len(),
            forall|p: int| 0 <= p < q ==> v@[p] < n,
        decreases v@.len() - q,
    {
        if v[q] >= n {
            return false;
        }
        q = q + 1;
    }
    true
}

/// The node with these successors and counts, if they are valid for a
/// vocabulary of `n` words.
fn load_node(next: &Vec<usize>, counts: &Vec<usize>, n: usize) -> (r: Option<State>)
    ensures
        r is Some <==> valid_counts(next@, counts@) && forall|p: int|
            0 <= p < next@.len() ==> next@[p] < n,
        r matches Some(node) ==> {
            &&& node.wf()
            &&& node.successors() == next@
            &&& node.weights() == counts@
        },
{
    if next.len() != counts.len() {
        return None;
    }
    let mut node = State::new();
    let mut j: usize = 0;
    while j < next.len()
        invariant
            next@.len() == counts@.len(),
            j <= next@.len(),
            node.counts_wf(),
            node.successors() == next@.subrange(0, j as int),
            node.weights() == counts@.subrange(0, j as int),
            forall|p: int| 0 <= p < j ==> next@[p] < n,
        decreases next@.len() - j,
    {
        let w = next[j];
        let c = counts[j];
        if w >= n {
            return None;
        }
        if c == 0 {
            assert(!valid_counts(next@, counts@));
            return None;
        }
        if node.has_successor(w) {
            proof {
                let a = choose|a: int| 0 <= a < node.successors().len() && node.successors()[a] == w;
                assert(next@[a] == next@[j as int]);
                assert(!valid_counts(next@, counts@));
            }
            return None;
        }
        assert(counts@.subrange(0, j + 1).drop_last() == counts@.subrange(0, j as int));
        if node.total() > usize::MAX - c {
            proof {
                crate::state::lemma_total_prefix_le(counts@, j + 1);
                assert(!valid_counts(next@, counts@));
            }
            return None;
        }
        node.push_successor(w, c);
        assert(node.successors() =~= next@.subrange(0, j + 1));
        assert(node.weights() =~= counts@.subrange(0, j + 1));
        j = j + 1;
    }
    assert(next@.subrange(0, next@.len() as int) == next@);
    assert(counts@.subrange(0, counts@.len() as int) == counts@);
    node.update_cumulative();
    Some(node)
}

fn copy_all(v: &Vec<usize>) -> (r: Vec<usize>)
    ensures
        r@ == v@,
{
    let mut r: Vec<usize> = Vec::new();
    let mut i: usize = 0;
    while i < v.len()
        invariant
            i <= v@.len(),
            r@ == v@.subrange(0, i as int),
        decreases v@.len() - i,
    {
        r.push(v[i]);
        i = i + 1;
    }
    assert(v@.subrange(0, v@.len() as int) == v@);
    r
}

} // verus!
