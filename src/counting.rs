//! What training counts: laws relating the table that training builds to
//! the windows of the token stream.

use vstd::prelude::*;

use crate::chain::{add_window, find_row, train_result, trained, valid_table, window_count, Row};
use crate::interner::intern_all;
use crate::state::{count_in, total_of, with_one_more};

verus! {

/// How many of the first `n` windows of `ids` are `key` followed by `next`.
pub open spec fn occurrences(ids: Seq<usize>, order: nat, key: Seq<usize>, next: usize, n: nat) -> nat
    decreases n,
{
    if n == 0 {
        0
    } else {
        let j = n - 1;
        occurrences(ids, order, key, next, j as nat) + if ids.subrange(j, j + order) == key
            && ids[j + order] == next {
            1nat
        } else {
            0nat
        }
    }
}

/// How often the table counted `next` after `key`.
pub open spec fn table_count(t: Seq<Row>, key: Seq<usize>, next: usize) -> nat {
    match find_row(t, key) {
        None => 0,
        Some(i) => count_in(t[i].1, t[i].2, next),
    }
}

/// Keys differ from row to row, and each row lists each successor once,
/// with one count each.
pub open spec fn well_keyed(t: Seq<Row>) -> bool {
    &&& forall|i: int, j: int| 0 <= i < t.len() && 0 <= j < t.len() && i != j ==> t[i].0 != t[j].0
    &&& forall|i: int| 0 <= i < t.len() ==> (#[trigger] t[i]).1.len() == t[i].2.len()
    &&& forall|i: int, a: int, b: int|
        0 <= i < t.len() && 0 <= a < b < t[i].1.len() ==> (#[trigger] t[i].1[a]) != #[trigger] t[i].1[b]
}

/// Interning yields one id per word.
pub proof fn lemma_intern_all_len(ws: Seq<Seq<char>>, input: Seq<Seq<char>>)
    ensures
        intern_all(ws, input).1.len() == input.len(),
    decreases input.len(),
{
    if input.len() > 0 {
        lemma_intern_all_len(ws, input.drop_last());
    }
}

/// Training on a stream of at most `order` words leaves the table unchanged:
/// such a stream has no window.
pub proof fn lemma_short_stream_keeps_table(
    t: Seq<Row>,
    vocab: Seq<Seq<char>>,
    input: Seq<Seq<char>>,
    order: nat,
)
    requires
        input.len() <= order,
    ensures
        train_result(t, vocab, input, order).1 == t,
{
    lemma_intern_all_len(vocab, input);
}

proof fn lemma_count_absent(n: Seq<usize>, c: Seq<usize>, x: usize)
    requires
        !n.contains(x),
    ensures
        count_in(n, c, x) == 0,
    decreases n.len(),
{
    if n.len() > 0 && c.len() > 0 {
        assert(n.last() == n[n.len() - 1]);
        if !n.drop_last().contains(x) {
            lemma_count_absent(n.drop_last(), c.drop_last(), x);
        } else {
            let k = choose|k: int| 0 <= k < n.drop_last().len() && n.drop_last()[k] == x;
            assert(n[k] == x);
        }
    }
}

proof fn lemma_count_update(n: Seq<usize>, c: Seq<usize>, i: int, v: usize, x: usize)
    requires
        n.len() == c.len(),
        0 <= i < n.len(),
        forall|a: int, b: int| 0 <= a < b < n.len() ==> n[a] != n[b],
    ensures
        count_in(n, c.update(i, v), x) == if n[i] == x {
            v as nat
        } else {
            count_in(n, c, x)
        },
    decreases n.len(),
{
    let last = n.len() - 1;
    if i == last {
        assert(c.update(i, v).drop_last() == c.drop_last());
    } else {
        assert(c.update(i, v).drop_last() == c.drop_last().update(i, v));
        if n.last() != x {
            lemma_count_update(n.drop_last(), c.drop_last(), i, v, x);
        }
    }
}

proof fn lemma_count_one_more(n: Seq<usize>, c: Seq<usize>, w: usize, x: usize)
    requires
        n.len() == c.len(),
        forall|a: int, b: int| 0 <= a < b < n.len() ==> n[a] != n[b],
        n.contains(w) ==> total_of(c) < usize::MAX,
        forall|k: int| 0 <= k < c.len() ==> c[k] <= total_of(c),
    ensures
        count_in(with_one_more(n, c, w).0, with_one_more(n, c, w).1, x) == count_in(n, c, x) + if x
            == w {
            1nat
        } else {
            0nat
        },
{
    if n.contains(w) {
        let i = choose|i: int| 0 <= i < n.len() && n[i] == w;
        lemma_count_update(n, c, i, (c[i] + 1) as usize, x);
        if x == w {
            lemma_count_at(n, c, i);
        }
    } else {
        assert(n.push(w).drop_last() == n);
        assert(c.push(1usize).drop_last() == c);
        if x == w {
            lemma_count_absent(n, c, x);
        }
    }
}

proof fn lemma_count_at(n: Seq<usize>, c: Seq<usize>, i: int)
    requires
        n.len() == c.len(),
        0 <= i < n.len(),
        forall|a: int, b: int| 0 <= a < b < n.len() ==> n[a] != n[b],
    ensures
        count_in(n, c, n[i]) == c[i],
    decreases n.len(),
{
    if i < n.len() - 1 {
        lemma_count_at(n.drop_last(), c.drop_last(), i);
    }
}

proof fn lemma_total_bounds_each(c: Seq<usize>, k: int)
    requires
        0 <= k < c.len(),
    ensures
        c[k] <= total_of(c),
    decreases c.len(),
{
    if k < c.len() - 1 {
        lemma_total_bounds_each(c.drop_last(), k);
    }
}

proof fn lemma_find_unique(t: Seq<Row>, key: Seq<usize>, i: int)
    requires
        well_keyed(t),
        0 <= i < t.len(),
        t[i].0 == key,
    ensures
        find_row(t, key) == Some(i),
{
}

/// One window keeps the table well keyed, bounds each row's weight by the
/// number of windows, and adds one to the count of exactly its own pair.
proof fn lemma_add_window(t: Seq<Row>, key: Seq<usize>, w: usize, n: nat)
    requires
        well_keyed(t),
        forall|i: int| 0 <= i < t.len() ==> total_of((#[trigger] t[i]).2) <= n,
        n < usize::MAX,
    ensures
        well_keyed(add_window(t, key, w)),
        forall|i: int|
            0 <= i < add_window(t, key, w).len() ==> total_of((#[trigger] add_window(t, key, w)[i]).2)
                <= n + 1,
        forall|k: Seq<usize>, x: usize|
            #![trigger table_count(add_window(t, key, w), k, x)]
            table_count(add_window(t, key, w), k, x) == table_count(t, k, x) + if k == key && x
                == w {
                1nat
            } else {
                0nat
            },
{
    let t2 = add_window(t, key, w);
    match find_row(t, key) {
        Some(i) => {
            let (nn, cc) = with_one_more(t[i].1, t[i].2, w);
            assert(t2 == t.update(i, (key, nn, cc)));
            assert forall|k: int| 0 <= k < t[i].2.len() implies t[i].2[k] <= total_of(t[i].2) by {
                lemma_total_bounds_each(t[i].2, k);
            }
            if t[i].1.contains(w) {
                let j = choose|j: int| 0 <= j < t[i].1.len() && t[i].1[j] == w;
                crate::state::lemma_total_update(t[i].2, j, (t[i].2[j] + 1) as usize);
            } else {
                assert(cc.drop_last() == t[i].2);
                assert forall|a: int, b: int| 0 <= a < b < nn.len() implies nn[a] != nn[b] by {
                    if b == nn.len() - 1 {
                        assert(nn[a] == t[i].1[a]);
                    }
                }
            }
            assert(well_keyed(t2)) by {
                assert forall|r: int, a: int, b: int|
                    0 <= r < t2.len() && 0 <= a < b < t2[r].1.len() implies (#[trigger] t2[r].1[a])
                    != #[trigger] t2[r].1[b] by {
                    if r == i {
                        assert(t2[r].1 == nn);
                    }
                }
            }
            assert forall|k: Seq<usize>, x: usize|
                #![trigger table_count(t2, k, x)]
                table_count(t2, k, x) == table_count(t, k, x) + if k == key && x == w {
                    1nat
                } else {
                    0nat
                } by {
                if exists|j: int| 0 <= j < t.len() && t[j].0 == k {
                    let j = choose|j: int| 0 <= j < t.len() && t[j].0 == k;
                    lemma_find_unique(t, k, j);
                    lemma_find_unique(t2, k, j);
                    if j == i {
                        lemma_count_one_more(t[i].1, t[i].2, w, x);
                    }
                } else {
                    assert forall|j: int| 0 <= j < t2.len() implies t2[j].0 != k by {
                        assert(t2[j].0 == t[j].0);
                    }
                }
            }
        },
        None => {
            assert(t2 == t.push((key, seq![w], seq![1usize])));
            crate::state::lemma_total_single(1usize);
            assert(well_keyed(t2)) by {
                assert forall|a: int, b: int|
                    0 <= a < t2.len() && 0 <= b < t2.len() && a != b implies t2[a].0 != t2[b].0 by {
                    if a == t.len() {
                        assert(t[b].0 != key);
                    } else if b == t.len() {
                        assert(t[a].0 != key);
                    }
                }
                assert forall|r: int, a: int, b: int|
                    0 <= r < t2.len() && 0 <= a < b < t2[r].1.len() implies (#[trigger] t2[r].1[a])
                    != #[trigger] t2[r].1[b] by {
                    if r < t.len() {
                        assert(t2[r] == t[r]);
                    }
                }
            }
            assert forall|k: Seq<usize>, x: usize|
                #![trigger table_count(t2, k, x)]
                table_count(t2, k, x) == table_count(t, k, x) + if k == key && x == w {
                    1nat
                } else {
                    0nat
                } by {
                if k == key {
                    lemma_find_unique(t2, k, t.len() as int);
                    assert(t2[t.len() as int] == (key, seq![w], seq![1usize]));
                    assert(seq![w].drop_last() =~= Seq::<usize>::empty());
                    assert(seq![1usize].drop_last() =~= Seq::<usize>::empty());
                    assert(table_count(t, k, x) == 0);
                    assert(count_in(Seq::<usize>::empty(), Seq::<usize>::empty(), x) == 0);
                    assert(count_in(seq![w], seq![1usize], x) == if x == w { 1nat } else { 0nat });
                    assert(table_count(t2, k, x) == count_in(seq![w], seq![1usize], x));
                } else if exists|j: int| 0 <= j < t.len() && t[j].0 == k {
                    let j = choose|j: int| 0 <= j < t.len() && t[j].0 == k;
                    lemma_find_unique(t, k, j);
                    lemma_find_unique(t2, k, j);
                    assert(t2[j] == t[j]);
                    assert(table_count(t2, k, x) == table_count(t, k, x));
                } else {
                    assert forall|j: int| 0 <= j < t2.len() implies t2[j].0 != k by {
                        if j < t.len() {
                            assert(t2[j].0 == t[j].0);
                        }
                    }
                    assert(table_count(t2, k, x) == 0);
                    assert(table_count(t, k, x) == 0);
                }
            }
        },
    }
}

proof fn lemma_trained_counts(t0: Seq<Row>, ids: Seq<usize>, order: nat, bound: nat, n: nat)
    requires
        well_keyed(t0),
        forall|i: int| 0 <= i < t0.len() ==> total_of((#[trigger] t0[i]).2) <= bound,
        n <= window_count(ids.len(), order),
        bound + window_count(ids.len(), order) <= usize::MAX,
    ensures
        well_keyed(trained(t0, ids, order, n)),
        forall|i: int|
            0 <= i < trained(t0, ids, order, n).len() ==> total_of(
                (#[trigger] trained(t0, ids, order, n)[i]).2,
            ) <= bound + n,
        forall|k: Seq<usize>, x: usize|
            #![trigger table_count(trained(t0, ids, order, n), k, x)]
            table_count(trained(t0, ids, order, n), k, x) == table_count(t0, k, x) + occurrences(
                ids,
                order,
                k,
                x,
                n,
            ),
    decreases n,
{
    if n > 0 {
        let j = (n - 1) as nat;
        lemma_trained_counts(t0, ids, order, bound, j);
        let t = trained(t0, ids, order, j);
        let key = ids.subrange(j as int, (j + order) as int);
        let w = ids[(j + order) as int];
        lemma_add_window(t, key, w, bound + j);
        assert forall|k: Seq<usize>, x: usize|
            #![trigger table_count(trained(t0, ids, order, n), k, x)]
            table_count(trained(t0, ids, order, n), k, x) == table_count(t0, k, x) + occurrences(
                ids,
                order,
                k,
                x,
                n,
            ) by {
            assert(table_count(add_window(t, key, w), k, x) == table_count(t, k, x) + if k == key
                && x == w {
                1nat
            } else {
                0nat
            });
        }
    }
}

/// Training adds to each pair of a state and a successor exactly the number
/// of times it occurs among the windows of `order + 1` consecutive ids of
/// the stream, as long as no node's total weight could pass `usize::MAX`:
/// every node of the table before training weighs at most `bound`, and the
/// stream has at most `usize::MAX - bound` windows.
pub proof fn lemma_counts_add_window_occurrences(
    t: Seq<Row>,
    n_words: nat,
    ids: Seq<usize>,
    order: nat,
    bound: nat,
    key: Seq<usize>,
    next: usize,
)
    requires
        valid_table(t, order, n_words),
        forall|i: int| 0 <= i < t.len() ==> total_of((#[trigger] t[i]).2) <= bound,
        bound + window_count(ids.len(), order) <= usize::MAX,
    ensures
        table_count(trained(t, ids, order, window_count(ids.len(), order)), key, next)
            == table_count(t, key, next) + occurrences(
            ids,
            order,
            key,
            next,
            window_count(ids.len(), order),
        ),
{
    lemma_trained_counts(t, ids, order, bound, window_count(ids.len(), order));
}

/// Trained from an empty table, each pair of a state and a successor is
/// counted exactly as often as it occurs among the windows of `order + 1`
/// consecutive ids of the stream.
pub proof fn lemma_counts_are_window_occurrences(
    ids: Seq<usize>,
    order: nat,
    key: Seq<usize>,
    next: usize,
)
    requires
        ids.len() <= usize::MAX,
    ensures
        table_count(
            trained(Seq::empty(), ids, order, window_count(ids.len(), order)),
            key,
            next,
        ) == occurrences(ids, order, key, next, window_count(ids.len(), order)),
{
    lemma_trained_counts(Seq::empty(), ids, order, 0, window_count(ids.len(), order));
    assert(table_count(Seq::<Row>::empty(), key, next) == 0);
}

} // verus!
