use promptly::{GenerationError, MarkovChain};

fn example() -> MarkovChain {
    let mut chain = MarkovChain::new(1);
    chain.train("a b a c a b");
    chain
}

#[test]
fn draw_bounds_follow_the_table() {
    let chain = example();
    assert_eq!(chain.draw_bound(&vec![0]), 3);
    assert_eq!(chain.draw_bound(&vec![1]), 1);
    assert_eq!(chain.draw_bound(&vec![2]), 1);
    assert_eq!(chain.draw_bound(&vec![42]), 3);
    assert_eq!(MarkovChain::new(2).draw_bound(&vec![0, 1]), 0);
}

#[test]
fn walk_with_given_draws_is_determined() {
    let chain = example();
    assert_eq!(chain.walk_with_draws(vec![0], vec![0], &vec![0, 0, 2, 0]), Ok(vec![0, 1, 0, 2, 0]));
    assert_eq!(chain.walk_with_draws(vec![0], vec![0], &vec![1, 0]), Ok(vec![0, 1, 0]));
    assert_eq!(chain.walk_with_draws(vec![0], vec![0], &vec![]), Ok(vec![0]));
}

#[test]
fn draws_are_taken_modulo_the_range() {
    let chain = example();
    assert_eq!(chain.walk_with_draws(vec![0], vec![0], &vec![4]), Ok(vec![0, 1]));
    assert_eq!(chain.walk_with_draws(vec![0], vec![0], &vec![5]), Ok(vec![0, 2]));
}

#[test]
fn walk_restarts_from_unknown_state() {
    let chain = example();
    assert_eq!(chain.walk_with_draws(vec![7, 8], vec![8], &vec![1, 0]), Ok(vec![7, 8, 1, 0]));
    assert_eq!(chain.walk_with_draws(vec![8], vec![8], &vec![5]), Ok(vec![8, 2]));
}

#[test]
fn walk_over_empty_table_fails() {
    let chain = MarkovChain::new(1);
    assert_eq!(chain.walk_with_draws(vec![3], vec![3], &vec![0]), Err(GenerationError::NoTransitions));
    assert_eq!(chain.walk_with_draws(vec![3], vec![3], &vec![]), Ok(vec![3]));
}

#[test]
fn advance_takes_one_step() {
    let chain = example();
    let mut emitted = vec![0];
    let mut window = vec![0];
    assert_eq!(chain.advance(&mut emitted, &mut window, 2), Ok(true));
    assert_eq!(emitted, vec![0, 2]);
    assert_eq!(window, vec![2]);
    let mut order_two = MarkovChain::new(2);
    order_two.train("x y z x y");
    let mut emitted = vec![0, 1];
    let mut window = vec![0, 1];
    assert_eq!(order_two.advance(&mut emitted, &mut window, 0), Ok(true));
    assert_eq!(emitted, vec![0, 1, 2]);
    assert_eq!(window, vec![1, 2]);
}

#[test]
fn random_walk_uses_at_most_the_budget() {
    let chain = example();
    for max in 0..10 {
        let ids = chain.walk_from(vec![0], vec![0], max).unwrap();
        assert_eq!(ids.len(), 1 + max);
    }
}
