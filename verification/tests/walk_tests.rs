use simple_mcmc::sample::get_sample_transition_probs;
use simple_mcmc::sampler::SampleError;
use simple_mcmc::state_map::StateMap;
use simple_mcmc::table::{TransitionProb, PROB_ONE};
use simple_mcmc::walk::{monte_carlo_run, record_visit, state_ordinal, walk_with_draws};

fn record(origin: char, dest: char, jump_prob: u64) -> TransitionProb {
    TransitionProb { origin, dest, jump_prob }
}

#[test]
fn ordinals_count_from_a() {
    assert_eq!(state_ordinal('a'), 0);
    assert_eq!(state_ordinal('b'), 1);
    assert_eq!(state_ordinal('c'), 2);
    assert_eq!(state_ordinal('z'), 25);
    assert_eq!(state_ordinal(' '), -65);
    assert_eq!(state_ordinal('\0'), -97);
    assert_eq!(state_ordinal(char::MAX), 0x10FFFF - 97);
}

#[test]
fn record_visit_counts_each_state() {
    let mut histogram: StateMap<i64> = StateMap::new();
    record_visit(&mut histogram, 'b');
    assert_eq!(histogram.as_slice(), &[('b', 1)]);
    record_visit(&mut histogram, 'a');
    record_visit(&mut histogram, 'b');
    assert_eq!(histogram.as_slice(), &[('a', 1), ('b', 2)]);
}

#[test]
fn sample_walk_of_two_hundred_steps() {
    let list = get_sample_transition_probs();
    let out = monte_carlo_run('a', &list, 200).unwrap();
    assert_eq!(out.random_walk.len(), 200);
    assert_eq!(out.random_walk[0], (0, 0));
    let total: i64 = out.histogram.as_slice().iter().map(|&(_, count)| count).sum();
    assert_eq!(total, 200);
    for &(state, count) in out.histogram.as_slice() {
        assert!(state == 'a' || state == 'b' || state == 'c');
        assert!(count > 0);
    }
    for &(_, ordinal) in &out.random_walk {
        assert!((0..=2).contains(&ordinal));
    }
}

#[test]
fn step_indices_count_up_from_zero() {
    let list = get_sample_transition_probs();
    for distance in [1i64, 2, 17, 500] {
        let out = monte_carlo_run('b', &list, distance).unwrap();
        assert_eq!(out.random_walk.len() as i64, distance);
        for (i, &(step, _)) in out.random_walk.iter().enumerate() {
            assert_eq!(step, i as i64);
        }
        assert_eq!(out.random_walk[0].1, 1);
    }
}

#[test]
fn visit_counts_sum_to_the_distance() {
    let list = get_sample_transition_probs();
    for distance in [0i64, 1, 3, 64, 1000] {
        let out = monte_carlo_run('c', &list, distance).unwrap();
        let total: i64 = out.histogram.as_slice().iter().map(|&(_, count)| count).sum();
        assert_eq!(total, distance);
    }
}

#[test]
fn histogram_counts_the_states_of_the_trace() {
    let list = get_sample_transition_probs();
    let out = monte_carlo_run('a', &list, 300).unwrap();
    for state in ['a', 'b', 'c'] {
        let in_trace =
            out.random_walk.iter().filter(|&&(_, o)| o == state_ordinal(state)).count() as i64;
        match out.histogram.get(&state) {
            Some(&count) => assert_eq!(count, in_trace),
            None => assert_eq!(in_trace, 0),
        }
    }
}

#[test]
fn a_distance_below_one_gives_an_empty_walk() {
    let list = get_sample_transition_probs();
    for distance in [0i64, -1, i64::MIN] {
        let out = monte_carlo_run('a', &list, distance).unwrap();
        assert!(out.random_walk.is_empty());
        assert_eq!(out.histogram.len(), 0);
        let out = monte_carlo_run('z', &list, distance).unwrap();
        assert!(out.random_walk.is_empty());
        assert_eq!(out.histogram.len(), 0);
    }
}

#[test]
fn a_walk_from_an_unknown_state_fails() {
    let list = get_sample_transition_probs();
    for distance in [1i64, 5, 200] {
        let res = monte_carlo_run('z', &list, distance);
        assert_eq!(res.err(), Some(SampleError::UnknownState { state: 'z' }));
    }
    let res = monte_carlo_run('a', &[], 1);
    assert_eq!(res.err(), Some(SampleError::UnknownState { state: 'a' }));
}

#[test]
fn a_walk_that_reaches_an_unknown_state_fails() {
    let list = [record('a', 'z', PROB_ONE)];
    let res = monte_carlo_run('a', &list, 2);
    assert_eq!(res.err(), Some(SampleError::UnknownState { state: 'z' }));
    let out = monte_carlo_run('a', &list, 1).unwrap();
    assert_eq!(out.random_walk, vec![(0, 0)]);
    assert_eq!(out.histogram.as_slice(), &[('a', 1)]);
}

#[test]
fn a_walk_with_given_draws_is_determined() {
    let list = get_sample_transition_probs();
    let draws = [0, 500_000_001, 150_000_000, 999_999_999, 250_000_001, 950_000_001, 500_000_001];
    // a -> a -> b -> a -> c -> b -> c (-> c)
    let out = walk_with_draws('a', &list, &draws).unwrap();
    assert_eq!(out.random_walk, vec![(0, 0), (1, 0), (2, 1), (3, 0), (4, 2), (5, 1), (6, 2)]);
    assert_eq!(out.histogram.as_slice(), &[('a', 3), ('b', 2), ('c', 2)]);
    let again = walk_with_draws('a', &list, &draws).unwrap();
    assert_eq!(again.random_walk, out.random_walk);
    assert_eq!(again.histogram.as_slice(), out.histogram.as_slice());
}

#[test]
fn a_walk_without_draws_is_empty() {
    let list = get_sample_transition_probs();
    let out = walk_with_draws('a', &list, &[]).unwrap();
    assert!(out.random_walk.is_empty());
    assert_eq!(out.histogram.len(), 0);
    let out = walk_with_draws('z', &list, &[]).unwrap();
    assert!(out.random_walk.is_empty());
}

#[test]
fn a_walk_with_given_draws_fails_at_the_first_step_that_fails() {
    let list = [record('a', 'a', 10), record('a', 'z', 10), record('z', 'a', 5)];
    // a -> a -> z -> a, and from there the draw 21 is above the 20 parts of a
    let res = walk_with_draws('a', &list, &[10, 11, 5, 21, 0, 0]);
    assert_eq!(res.err(), Some(SampleError::UnmatchedDraw { state: 'a', draw: 21 }));
    let out = walk_with_draws('a', &list, &[10, 11, 5]).unwrap();
    assert_eq!(out.random_walk, vec![(0, 0), (1, 0), (2, 25)]);
    assert_eq!(out.histogram.as_slice(), &[('a', 2), ('z', 1)]);
    let res = walk_with_draws('q', &list, &[0]);
    assert_eq!(res.err(), Some(SampleError::UnknownState { state: 'q' }));
}

#[test]
fn the_last_step_samples_too() {
    // The state after the last recorded step is sampled, so it must be known.
    let list = [record('a', 'b', PROB_ONE), record('b', 'z', PROB_ONE)];
    let out = walk_with_draws('a', &list, &[0, 0]).unwrap();
    assert_eq!(out.random_walk, vec![(0, 0), (1, 1)]);
    let res = walk_with_draws('a', &list, &[0, 0, 0]);
    assert_eq!(res.err(), Some(SampleError::UnknownState { state: 'z' }));
}

#[test]
fn each_state_of_a_walk_follows_the_one_before_by_a_listed_transition() {
    let list = [
        record('a', 'b', PROB_ONE),
        record('b', 'a', PROB_ONE / 2),
        record('b', 'c', PROB_ONE / 2),
        record('c', 'a', PROB_ONE),
    ];
    let listed = [(0, 1), (1, 0), (1, 2), (2, 0)];
    for _ in 0..20 {
        let out = monte_carlo_run('a', &list, 300).unwrap();
        assert_eq!(out.random_walk[0].1, 0);
        for pair in out.random_walk.windows(2) {
            assert!(listed.contains(&(pair[0].1, pair[1].1)));
        }
    }
}

#[test]
fn a_walk_through_an_incomplete_row_fails_at_a_draw_that_the_row_does_not_reach() {
    let list = [record('a', 'a', PROB_ONE / 2)];
    match monte_carlo_run('a', &list, 200) {
        Err(SampleError::UnmatchedDraw { state, draw }) => {
            assert_eq!(state, 'a');
            assert!(draw > PROB_ONE / 2 && draw < PROB_ONE);
        }
        other => panic!("unexpected {:?}", other),
    }
    let out = walk_with_draws('a', &list, &[0, PROB_ONE / 2, 1]).unwrap();
    assert_eq!(out.random_walk, vec![(0, 0), (1, 0), (2, 0)]);
    let res = walk_with_draws('a', &list, &[0, PROB_ONE / 2 + 1, 1]);
    assert_eq!(
        res.err(),
        Some(SampleError::UnmatchedDraw { state: 'a', draw: PROB_ONE / 2 + 1 })
    );
}
