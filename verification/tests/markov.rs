use simple_mcmc::report::visits_histogram_to_string;
use simple_mcmc::sampler::{next_state, SampleError};
use simple_mcmc::state_map::StateMap;
use simple_mcmc::sample::get_sample_transition_probs;
use simple_mcmc::table::transition_prob_list_to_map;
use simple_mcmc::walk::record_visit;

#[test]
fn test_transition_prob_list_to_map() -> () {
    let transition_list = get_sample_transition_probs();
    let transition_map = transition_prob_list_to_map(&transition_list);

    for tp in &transition_list {
        assert!(transition_map.contains_key(&tp.origin) && transition_map.contains_key(&tp.dest));
    }
}

#[test]
fn test_next_step() -> Result<(), SampleError> {
    let mut count = 0;
    let mut curr_state = 'a';

    let transition_list = get_sample_transition_probs();
    let transition_map = transition_prob_list_to_map(&transition_list);

    loop {
        count += 1;
        curr_state = next_state(curr_state, &transition_map)?;
        assert!(transition_map.contains_key(&curr_state));
        if count > 100 {
            break;
        }
    }

    Ok(())
}

#[test]
fn test_visits_histogram_to_string() -> () {
    let mut mock_visits_hist: StateMap<i64> = StateMap::new();
    for c in "aabbbcccc".chars() {
        record_visit(&mut mock_visits_hist, c);
    }
    let for_display = visits_histogram_to_string(&mock_visits_hist);
    assert!(for_display.contains("a - 2"));
    assert!(for_display.contains("b - 3"));
    assert!(!for_display.contains("c - 3"));
}
