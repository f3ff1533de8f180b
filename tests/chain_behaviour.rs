use promptly::{GenerationError, MarkovChain, State};

fn ids(chain: &MarkovChain, words: &[&str]) -> Vec<usize> {
    words
        .iter()
        .map(|w| chain.interner().lookup(w).expect("word is interned"))
        .collect()
}

fn weight(chain: &MarkovChain, key: &[&str], next: &str) -> Option<(usize, usize)> {
    let k = ids(chain, key);
    let n = chain.interner().lookup(next)?;
    chain.transition_weight(&k, n)
}

#[test]
fn order_one_example_distribution() {
    let mut chain = MarkovChain::new(1);
    chain.train("a b a c a b");
    assert_eq!(chain.state_count(), 3);
    assert_eq!(weight(&chain, &["a"], "b"), Some((2, 3)));
    assert_eq!(weight(&chain, &["a"], "c"), Some((1, 3)));
    assert_eq!(weight(&chain, &["a"], "a"), None);
    assert_eq!(weight(&chain, &["b"], "a"), Some((1, 1)));
    assert_eq!(weight(&chain, &["c"], "a"), Some((1, 1)));
}

#[test]
fn order_one_example_sampling_frequencies() {
    let mut chain = MarkovChain::new(1);
    chain.train("a b a c a b");
    let key = ids(&chain, &["a"]);
    let b = chain.interner().lookup("b").unwrap();
    let c = chain.interner().lookup("c").unwrap();
    let row = chain.find_state(&key).unwrap();
    let (_, node) = chain.row(row);
    let mut seen_b = 0;
    let mut seen_c = 0;
    for _ in 0..3000 {
        let next = node.select_next().unwrap();
        if next == b {
            seen_b += 1;
        } else if next == c {
            seen_c += 1;
        } else {
            panic!("unexpected successor {next}");
        }
    }
    assert!((1850..=2150).contains(&seen_b), "b drawn {seen_b} times");
    assert!((850..=1150).contains(&seen_c), "c drawn {seen_c} times");
}

#[test]
fn empty_table_cannot_generate() {
    let mut chain = MarkovChain::new(2);
    assert_eq!(chain.generate("hello world", 5), Err(GenerationError::NoTransitions));
}

#[test]
fn empty_table_with_short_prompt_cannot_generate() {
    let mut chain = MarkovChain::new(2);
    assert_eq!(chain.generate("hello", 5), Err(GenerationError::NoTransitions));
}

#[test]
fn empty_table_with_zero_budget_returns_prompt() {
    let mut chain = MarkovChain::new(2);
    assert_eq!(chain.generate("hello big world", 0), Ok("hello big world".to_string()));
}

#[test]
fn short_prompt_starts_from_existing_state() {
    let mut chain = MarkovChain::new(2);
    chain.train("the cat sat on the mat and the dog sat on the rug");
    for _ in 0..50 {
        let text = chain.generate("zebra", 3).unwrap();
        let words: Vec<&str> = text.split(' ').collect();
        assert!(words.len() >= 2);
        assert_ne!(words[0], "zebra");
        let key = ids(&chain, &words[..2]);
        assert!(chain.find_state(&key).is_some(), "{text} does not start with a state");
    }
}

#[test]
fn short_stream_leaves_table_unchanged() {
    let mut chain = MarkovChain::new(2);
    chain.train("one two");
    assert_eq!(chain.state_count(), 0);
    assert_eq!(chain.interner().len(), 2);
    chain.train("");
    assert_eq!(chain.state_count(), 0);
    let mut other = MarkovChain::new(3);
    other.train("x y z");
    assert_eq!(other.state_count(), 0);
}

#[test]
fn counts_match_window_occurrences() {
    let mut chain = MarkovChain::new(2);
    chain.train("a b c a b c a b d");
    assert_eq!(chain.state_count(), 3);
    assert_eq!(weight(&chain, &["a", "b"], "c"), Some((2, 3)));
    assert_eq!(weight(&chain, &["a", "b"], "d"), Some((1, 3)));
    assert_eq!(weight(&chain, &["b", "c"], "a"), Some((2, 2)));
    assert_eq!(weight(&chain, &["c", "a"], "b"), Some((2, 2)));
    assert_eq!(weight(&chain, &["b", "a"], "c"), None);
}

#[test]
fn training_again_adds_weight() {
    let mut chain = MarkovChain::new(1);
    chain.train("a b");
    chain.train("a b a c");
    assert_eq!(weight(&chain, &["a"], "b"), Some((2, 3)));
    assert_eq!(weight(&chain, &["a"], "c"), Some((1, 3)));
    assert_eq!(weight(&chain, &["b"], "a"), Some((1, 1)));
}

#[test]
fn state_keys_keep_their_order() {
    let mut chain = MarkovChain::new(2);
    chain.train("a b c b a c");
    let ab = ids(&chain, &["a", "b"]);
    let ba = ids(&chain, &["b", "a"]);
    assert_eq!(weight(&chain, &["a", "b"], "c"), Some((1, 1)));
    assert_eq!(weight(&chain, &["b", "a"], "c"), Some((1, 1)));
    assert_ne!(chain.find_state(&ab), chain.find_state(&ba));
}

#[test]
fn generation_stays_within_budget() {
    let mut chain = MarkovChain::new(1);
    chain.train("a b c a b c a b c a");
    for max in 0..8 {
        let text = chain.generate("a", max).unwrap();
        assert_eq!(text.split(' ').count(), 1 + max);
    }
}

#[test]
fn generation_of_a_cycle_is_determined() {
    let mut chain = MarkovChain::new(1);
    chain.train("a b c a b c a");
    assert_eq!(chain.generate("x a", 4), Ok("x a b c a b".to_string()));
}

#[test]
fn teleport_emits_a_whole_state() {
    let mut chain = MarkovChain::new(2);
    chain.train("p q r p q r");
    let text = chain.generate("unseen words", 1).unwrap();
    let words: Vec<&str> = text.split(' ').collect();
    assert_eq!(&words[..2], &["unseen", "words"]);
    assert_eq!(words.len(), 4);
    let key = ids(&chain, &words[2..4]);
    assert!(chain.find_state(&key).is_some());
}

#[test]
fn generation_output_never_exceeds_restart_bound() {
    let mut chain = MarkovChain::new(3);
    chain.train("w1 w2 w3 w4 w5 w6 w7");
    for max in 0..6 {
        let text = chain.generate("one two three", max).unwrap();
        assert!(text.split(' ').count() <= 3 + 3 * max);
    }
}

#[test]
fn prompt_words_are_interned() {
    let mut chain = MarkovChain::new(1);
    chain.train("a b a");
    let before = chain.interner().len();
    let _ = chain.generate("brand new", 2);
    assert_eq!(chain.interner().len(), before + 2);
    assert!(chain.interner().lookup("brand").is_some());
}

#[test]
fn node_counts_and_running_totals() {
    let mut node = State::new();
    assert_eq!(node.select_with(0), None);
    node.increment(7);
    node.increment(9);
    node.increment(7);
    node.increment(4);
    node.update_cumulative();
    assert_eq!(node.next_words(), &vec![7, 9, 4]);
    assert_eq!(node.counts(), &vec![2, 1, 1]);
    assert_eq!(node.cumulative(), &vec![2, 3, 4]);
    assert_eq!(node.total(), 4);
}

#[test]
fn weighted_selection_owns_half_open_intervals() {
    let mut node = State::new();
    node.increment(10);
    node.increment(10);
    node.increment(20);
    node.increment(30);
    node.increment(30);
    node.increment(30);
    node.update_cumulative();
    let picks: Vec<Option<usize>> = (0..7).map(|d| node.select_with(d)).collect();
    assert_eq!(
        picks,
        vec![Some(10), Some(10), Some(20), Some(30), Some(30), Some(30), None]
    );
}

#[test]
fn selection_frequencies_follow_counts() {
    let mut node = State::new();
    for _ in 0..3 {
        node.increment(1);
    }
    node.increment(2);
    node.update_cumulative();
    let mut ones = 0;
    for _ in 0..4000 {
        if node.select_next() == Some(1) {
            ones += 1;
        }
    }
    assert!((2800..=3200).contains(&ones), "1 drawn {ones} times");
    assert_eq!(State::new().select_next(), None);
}
