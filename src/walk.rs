//! Walks over a chain's table, as a function of the random draws: where a
//! walk starts, what each step does, and what the walk emits.

use vstd::prelude::*;

use crate::chain::{find_row, valid_table, GenerationError, Row};
use crate::state::{lemma_pick_index_in_range, pick_index, total_of};
use crate::text::{all_tokens, is_token, joined, lemma_words_of_joined, words};

verus! {

/// Where a walk over the chain stands: the current window, the ids emitted
/// so far, how many of them came one by one from sampling, how many random
/// restarts happened, and whether the walk has ended.
pub struct Walk {
    pub window: Seq<usize>,
    pub out: Seq<usize>,
    pub samples: nat,
    pub restarts: nat,
    pub stopped: bool,
    pub failed: bool,
}

/// A walk that has emitted `out` and is at `window`.
pub open spec fn begin(out: Seq<usize>, window: Seq<usize>) -> Walk {
    Walk { window, out, samples: 0, restarts: 0, stopped: false, failed: false }
}

/// The window after `next`: it is appended and, past `order` ids, the
/// oldest id leaves.
pub open spec fn slide(window: Seq<usize>, next: usize, order: nat) -> Seq<usize> {
    if window.push(next).len() > order {
        window.push(next).drop_first()
    } else {
        window.push(next)
    }
}

/// One step of a walk with the random number `draw`. From a state in the
/// table, the draw, taken modulo the node's total weight, picks a successor.
/// From a state not in the table, the draw, taken modulo the number of
/// states, picks a state to restart from, whose ids are all emitted. With no
/// states at all the walk fails; at a node with no successors it stops.
pub open spec fn step(t: Seq<Row>, order: nat, w: Walk, draw: nat) -> Walk {
    if w.stopped || w.failed {
        w
    } else {
        match find_row(t, w.window) {
            None => if t.len() == 0 {
                Walk { failed: true, ..w }
            } else {
                let k = t[(draw % t.len()) as int].0;
                Walk { window: k, out: w.out + k, restarts: w.restarts + 1, ..w }
            },
            Some(i) => if t[i].1.len() == 0 {
                Walk { stopped: true, ..w }
            } else {
                let next = t[i].1[pick_index(t[i].2, draw % total_of(t[i].2)) as int];
                Walk {
                    window: slide(w.window, next, order),
                    out: w.out.push(next),
                    samples: w.samples + 1,
                    ..w
                }
            },
        }
    }
}

/// The walk after one step for each draw, in order.
pub open spec fn walk(t: Seq<Row>, order: nat, start: Walk, draws: Seq<nat>) -> Walk
    decreases draws.len(),
{
    if draws.len() == 0 {
        start
    } else {
        step(t, order, walk(t, order, start, draws.drop_last()), draws.last())
    }
}

/// The draws make a whole walk of at most `max` steps: fewer only where it ended.
pub open spec fn whole_walk(t: Seq<Row>, order: nat, start: Walk, draws: Seq<nat>, max: nat) -> bool {
    &&& draws.len() <= max
    &&& draws.len() < max ==> walk(t, order, start, draws).stopped || walk(
        t,
        order,
        start,
        draws,
    ).failed
}

/// The ids a walk emitted, or the failure.
pub open spec fn outcome(w: Walk) -> Result<Seq<usize>, GenerationError> {
    if w.failed {
        Err(GenerationError::NoTransitions)
    } else {
        Ok(w.out)
    }
}

/// Where generation starts from the prompt's ids: a prompt of at least
/// `order` ids is emitted whole and its last `order` ids are the window;
/// otherwise the state that `seed` picks (modulo the number of states) is
/// both. `None` where a state is needed and the table has none.
pub open spec fn start_walk(t: Seq<Row>, order: nat, prompt: Seq<usize>, seed: nat) -> Option<Walk> {
    if prompt.len() < order {
        if t.len() == 0 {
            None
        } else {
            let k = t[(seed % t.len()) as int].0;
            Some(begin(k, k))
        }
    } else {
        Some(begin(prompt, prompt.subrange(prompt.len() - order, prompt.len() as int)))
    }
}

/// The words of a sequence of ids.
pub open spec fn spell(vocab: Seq<Seq<char>>, ids: Seq<usize>) -> Seq<Seq<char>> {
    ids.map_values(|id: usize| vocab[id as int])
}

/// The text that generation gives for the prompt's ids, the seed and the
/// draws of the walk, as ids spelled out and joined by single spaces.
pub open spec fn generated(
    t: Seq<Row>,
    order: nat,
    vocab: Seq<Seq<char>>,
    prompt: Seq<usize>,
    seed: nat,
    draws: Seq<nat>,
) -> Result<Seq<char>, GenerationError> {
    match start_walk(t, order, prompt, seed) {
        None => Err(GenerationError::NoTransitions),
        Some(s) => match outcome(walk(t, order, s, draws)) {
            Err(e) => Err(e),
            Ok(out) => Ok(joined(spell(vocab, out))),
        },
    }
}

/// The draws make a whole walk from where the prompt and seed start it.
pub open spec fn whole_generation(
    t: Seq<Row>,
    order: nat,
    prompt: Seq<usize>,
    seed: nat,
    draws: Seq<nat>,
    max: nat,
) -> bool {
    match start_walk(t, order, prompt, seed) {
        None => true,
        Some(s) => whole_walk(t, order, s, draws, max),
    }
}

pub open spec fn text_result(r: Result<String, GenerationError>) -> Result<Seq<char>, GenerationError> {
    match r {
        Ok(s) => Ok(s@),
        Err(e) => Err(e),
    }
}

pub open spec fn ids_result(r: Result<Vec<usize>, GenerationError>) -> Result<Seq<usize>, GenerationError> {
    match r {
        Ok(v) => Ok(v@),
        Err(e) => Err(e),
    }
}

/// One step from a walk that has emitted `out` and is at `window`.
pub open spec fn step_from(t: Seq<Row>, order: nat, out: Seq<usize>, window: Seq<usize>, draw: nat) -> Walk {
    step(t, order, begin(out, window), draw)
}

/// How a step ended: moved on, stopped, or failed.
pub open spec fn step_status(w: Walk) -> Result<bool, GenerationError> {
    if w.failed {
        Err(GenerationError::NoTransitions)
    } else {
        Ok(!w.stopped)
    }
}

/// The range that the next draw of a walk at `window` comes from.
pub open spec fn draw_range(t: Seq<Row>, window: Seq<usize>) -> nat {
    match find_row(t, window) {
        None => t.len(),
        Some(i) => total_of(t[i].2),
    }
}

pub open spec fn as_nats(s: Seq<usize>) -> Seq<nat> {
    s.map_values(|x: usize| x as nat)
}

/// A step depends on where the walk is and what it emitted, not on its counters.
pub(crate) proof fn lemma_step_from(t: Seq<Row>, order: nat, cur: Walk, draw: nat)
    requires
        !cur.stopped,
        !cur.failed,
    ensures
        step(t, order, cur, draw).out == step_from(t, order, cur.out, cur.window, draw).out,
        step(t, order, cur, draw).window == step_from(t, order, cur.out, cur.window, draw).window,
        step(t, order, cur, draw).stopped == step_from(t, order, cur.out, cur.window, draw).stopped,
        step(t, order, cur, draw).failed == step_from(t, order, cur.out, cur.window, draw).failed,
{
}

/// Once a walk has ended, further draws change nothing.
pub(crate) proof fn lemma_walk_ended(t: Seq<Row>, order: nat, start: Walk, d1: Seq<nat>, d2: Seq<nat>)
    requires
        walk(t, order, start, d1).stopped || walk(t, order, start, d1).failed,
    ensures
        walk(t, order, start, d1 + d2) == walk(t, order, start, d1),
    decreases d2.len(),
{
    if d2.len() == 0 {
        assert(d1 + d2 == d1);
    } else {
        lemma_walk_ended(t, order, start, d1, d2.drop_last());
        assert((d1 + d2).drop_last() == d1 + d2.drop_last());
    }
}

/// A walk fails only over an empty table.
pub proof fn lemma_walk_fails_only_when_empty(t: Seq<Row>, order: nat, start: Walk, draws: Seq<nat>)
    requires
        !start.failed,
        walk(t, order, start, draws).failed,
    ensures
        t.len() == 0,
    decreases draws.len(),
{
    if draws.len() > 0 && walk(t, order, start, draws.drop_last()).failed {
        lemma_walk_fails_only_when_empty(t, order, start, draws.drop_last());
    }
}

/// Every step of a walk emits either one sampled id or, on a restart, the
/// `order` ids of a state of the table. So no more ids come from sampling
/// than there were steps, and restarts are the only other source of output.
pub proof fn lemma_walk_length(
    t: Seq<Row>,
    order: nat,
    n_words: nat,
    out: Seq<usize>,
    window: Seq<usize>,
    draws: Seq<nat>,
)
    requires
        valid_table(t, order, n_words),
    ensures
        walk(t, order, begin(out, window), draws).out.len() == out.len() + walk(
            t,
            order,
            begin(out, window),
            draws,
        ).samples + order * walk(t, order, begin(out, window), draws).restarts,
        walk(t, order, begin(out, window), draws).samples + walk(
            t,
            order,
            begin(out, window),
            draws,
        ).restarts <= draws.len(),
    decreases draws.len(),
{
    if draws.len() > 0 {
        lemma_walk_length(t, order, n_words, out, window, draws.drop_last());
        let w = walk(t, order, begin(out, window), draws.drop_last());
        if !w.stopped && !w.failed && find_row(t, w.window) is None && t.len() > 0 {
            let k = t[(draws.last() % t.len()) as int];
            assert(k.0.len() == order);
            assert(order * (w.restarts + 1) == order * w.restarts + order) by (nonlinear_arith);
        }
    }
}

/// A walk that starts from known ids emits only known ids.
pub proof fn lemma_walk_ids_valid(
    t: Seq<Row>,
    order: nat,
    n_words: nat,
    out: Seq<usize>,
    window: Seq<usize>,
    draws: Seq<nat>,
)
    requires
        valid_table(t, order, n_words),
        forall|k: int| 0 <= k < out.len() ==> out[k] < n_words,
    ensures
        forall|k: int|
            0 <= k < walk(t, order, begin(out, window), draws).out.len() ==> walk(
                t,
                order,
                begin(out, window),
                draws,
            ).out[k] < n_words,
    decreases draws.len(),
{
    if draws.len() > 0 {
        lemma_walk_ids_valid(t, order, n_words, out, window, draws.drop_last());
        let w = walk(t, order, begin(out, window), draws.drop_last());
        if !w.stopped && !w.failed {
            match find_row(t, w.window) {
                None => {
                    if t.len() > 0 {
                        let j = (draws.last() % t.len()) as int;
                        assert(forall|k: int| 0 <= k < t[j].0.len() ==> t[j].0[k] < n_words);
                    }
                },
                Some(i) => {
                    if t[i].1.len() > 0 {
                        let d = draws.last() % total_of(t[i].2);
                        lemma_pick_index_in_range(t[i].2, d);
                        assert(t[i].1[pick_index(t[i].2, d) as int] < n_words);
                    }
                },
            }
        }
    }
}

/// A walk only appends to what it started with.
proof fn lemma_walk_keeps_start(t: Seq<Row>, order: nat, start: Walk, draws: Seq<nat>)
    ensures
        walk(t, order, start, draws).out.len() >= start.out.len(),
        walk(t, order, start, draws).out.subrange(0, start.out.len() as int) == start.out,
    decreases draws.len(),
{
    if draws.len() > 0 {
        lemma_walk_keeps_start(t, order, start, draws.drop_last());
        let w = walk(t, order, start, draws.drop_last());
        let n = start.out.len() as int;
        let w2 = step(t, order, w, draws.last());
        assert(w2.out.subrange(0, n) == w.out.subrange(0, n));
    } else {
        assert(start.out.subrange(0, start.out.len() as int) == start.out);
    }
}

/// Over a vocabulary of tokens, the words of generated text are the words
/// of the ids that the walk emitted, one word per id. The text begins with
/// the whole prompt when it has at least `order` words, and otherwise with
/// the `order` words of a state of the table. After that, each step adds
/// one sampled word or the `order` words of a restart state. There are at
/// most as many steps as draws, so at most that many words come from
/// sampling.
pub proof fn lemma_generated_words(
    t: Seq<Row>,
    order: nat,
    vocab: Seq<Seq<char>>,
    prompt: Seq<usize>,
    seed: nat,
    draws: Seq<nat>,
)
    requires
        valid_table(t, order, vocab.len()),
        all_tokens(vocab),
        forall|k: int| 0 <= k < prompt.len() ==> prompt[k] < vocab.len(),
    ensures
        generated(t, order, vocab, prompt, seed, draws) is Ok ==> ({
            let text = generated(t, order, vocab, prompt, seed, draws)->Ok_0;
            let start = start_walk(t, order, prompt, seed)->Some_0;
            let w = walk(t, order, start, draws);
            &&& w.samples + w.restarts <= draws.len()
            &&& words(text).len() == start.out.len() + w.samples + order * w.restarts
        }),
        generated(t, order, vocab, prompt, seed, draws) is Ok && prompt.len() >= order ==> words(
            generated(t, order, vocab, prompt, seed, draws)->Ok_0,
        ).subrange(0, prompt.len() as int) == spell(vocab, prompt),
        generated(t, order, vocab, prompt, seed, draws) is Ok && prompt.len() < order ==> (exists|
            i: int,
        |
            0 <= i < t.len() && words(generated(t, order, vocab, prompt, seed, draws)->Ok_0).subrange(
                0,
                order as int,
            ) == spell(vocab, t[i].0)),
{
    if generated(t, order, vocab, prompt, seed, draws) is Ok {
        let start = start_walk(t, order, prompt, seed)->Some_0;
        let w = walk(t, order, start, draws);
        let text = generated(t, order, vocab, prompt, seed, draws)->Ok_0;
        assert(forall|k: int| 0 <= k < start.out.len() ==> start.out[k] < vocab.len());
        lemma_walk_ids_valid(t, order, vocab.len(), start.out, start.window, draws);
        lemma_walk_length(t, order, vocab.len(), start.out, start.window, draws);
        lemma_walk_keeps_start(t, order, start, draws);
        let ws = spell(vocab, w.out);
        assert(all_tokens(ws)) by {
            assert forall|k: int| 0 <= k < ws.len() implies is_token(#[trigger] ws[k]) by {
                assert(w.out[k] < vocab.len());
            }
        }
        lemma_words_of_joined(ws);
        assert(words(text) == ws);
        let n = start.out.len() as int;
        assert(ws.subrange(0, n) =~= spell(vocab, start.out)) by {
            assert forall|k: int| 0 <= k < n implies ws.subrange(0, n)[k] == spell(vocab, start.out)[k] by {
                assert(w.out.subrange(0, n)[k] == start.out[k]);
            }
        }
        if prompt.len() < order {
            let i = (seed % t.len()) as int;
            assert(start.out == t[i].0);
        }
    }
}

} // verus!
