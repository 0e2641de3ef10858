use markov_chain::{ChainError, MarkovChain, WeightMatrix};
use rand::distributions::WeightedError;

fn labels(names: &[&str]) -> Vec<String> {
    names.iter().map(|s| s.to_string()).collect()
}

fn chain(n: usize, column_major: Vec<u64>, names: &[&str]) -> MarkovChain {
    let m = WeightMatrix::from_vec(n, n, column_major).unwrap();
    MarkovChain::new(m, labels(names)).unwrap()
}

/// A: 2 to A, 1 to B, 1 to C. B: 1 to A, 1 to C. C: 1 to B, 1 to D. D: 1 to B, 1 to C, 2 to D.
fn four_states() -> MarkovChain {
    chain(
        4,
        vec![2, 1, 1, 0, 1, 0, 1, 0, 0, 1, 0, 1, 0, 1, 1, 2],
        &["A", "B", "C", "D"],
    )
}

#[test]
fn next_state_of_unknown_label_is_not_found() {
    let c = four_states();
    assert_eq!(c.next_state("Z".to_string()), Err(ChainError::StateNotFound));
    assert_eq!(c.next_state("".to_string()), Err(ChainError::StateNotFound));
}

#[test]
fn next_state_of_a_dead_end_has_no_transition() {
    let c = chain(2, vec![0, 1, 0, 0], &["A", "B"]);
    assert_eq!(c.next_state("B".to_string()), Err(ChainError::NoOutgoingTransitions));
}

#[test]
fn next_state_reads_the_column_of_the_current_state() {
    // Column A holds (0, 1): the only step from A leads to B. Column B is empty.
    let c = chain(2, vec![0, 1, 0, 0], &["A", "B"]);
    for _ in 0..50 {
        assert_eq!(c.next_state("A".to_string()), Ok("B".to_string()));
    }
}

#[test]
fn next_state_with_one_successor_is_that_successor() {
    let c = chain(3, vec![0, 0, 7, 1, 0, 0, 0, 9, 0], &["A", "B", "C"]);
    for _ in 0..50 {
        assert_eq!(c.next_state("A".to_string()), Ok("C".to_string()));
        assert_eq!(c.next_state("B".to_string()), Ok("A".to_string()));
        assert_eq!(c.next_state("C".to_string()), Ok("B".to_string()));
    }
}

#[test]
fn next_state_never_takes_a_step_of_weight_zero() {
    let c = four_states();
    for _ in 0..2000 {
        let from_a = c.next_state("A".to_string()).unwrap();
        assert!(["A", "B", "C"].contains(&from_a.as_str()));
        let from_b = c.next_state("B".to_string()).unwrap();
        assert!(["A", "C"].contains(&from_b.as_str()));
        let from_c = c.next_state("C".to_string()).unwrap();
        assert!(["B", "D"].contains(&from_c.as_str()));
        let from_d = c.next_state("D".to_string()).unwrap();
        assert!(["B", "C", "D"].contains(&from_d.as_str()));
    }
}

#[test]
fn next_state_takes_every_step_of_positive_weight() {
    let c = four_states();
    let mut seen = [false; 4];
    for _ in 0..2000 {
        let next = c.next_state("A".to_string()).unwrap();
        seen[c.index_of(&next).unwrap()] = true;
    }
    assert_eq!(seen, [true, true, true, false]);
}

#[test]
fn next_state_handles_the_largest_column_total() {
    let c = chain(2, vec![u64::MAX - 1, 1, 0, u64::MAX], &["A", "B"]);
    for _ in 0..50 {
        let next = c.next_state("A".to_string()).unwrap();
        assert!(next == "A" || next == "B");
        assert_eq!(c.next_state("B".to_string()), Ok("B".to_string()));
    }
}

#[test]
fn picked_state_names_the_state_that_was_drawn() {
    let c = four_states();
    assert_eq!(c.picked_state(Ok((0, 2))), Ok("A".to_string()));
    assert_eq!(c.picked_state(Ok((3, 1))), Ok("D".to_string()));
}

#[test]
fn picked_state_outside_the_chain_is_not_found() {
    let c = four_states();
    assert_eq!(c.picked_state(Ok((4, 1))), Err(ChainError::StateNotFound));
    assert_eq!(c.picked_state(Ok((usize::MAX, 1))), Err(ChainError::StateNotFound));
}

#[test]
fn picked_state_of_a_failed_draw_has_no_transition() {
    let c = four_states();
    for e in [
        WeightedError::NoItem,
        WeightedError::InvalidWeight,
        WeightedError::AllWeightsZero,
        WeightedError::TooMany,
    ] {
        assert_eq!(c.picked_state(Err(e)), Err(ChainError::NoOutgoingTransitions));
    }
}

#[test]
fn generate_states_returns_as_many_labels_as_asked() {
    let c = four_states();
    for n in [0u32, 1, 2, 17, 500] {
        let states = c.generate_states("A".to_string(), n).unwrap();
        assert_eq!(states.len(), n as usize);
    }
}

#[test]
fn generate_states_of_zero_steps_is_empty() {
    let c = four_states();
    assert_eq!(c.generate_states("A".to_string(), 0), Ok(vec![]));
    assert_eq!(c.generate_states("Z".to_string(), 0), Ok(vec![]));
}

#[test]
fn generate_states_follows_steps_of_positive_weight() {
    let c = four_states();
    let allowed = |from: &str, to: &str| match from {
        "A" => ["A", "B", "C"].contains(&to),
        "B" => ["A", "C"].contains(&to),
        "C" => ["B", "D"].contains(&to),
        "D" => ["B", "C", "D"].contains(&to),
        _ => false,
    };
    for _ in 0..20 {
        let states = c.generate_states("C".to_string(), 200).unwrap();
        let mut current = "C".to_string();
        for next in states {
            assert!(allowed(&current, &next));
            current = next;
        }
    }
}

#[test]
fn generate_states_walks_a_cycle_in_order() {
    let c = chain(3, vec![0, 1, 0, 0, 0, 1, 1, 0, 0], &["A", "B", "C"]);
    assert_eq!(
        c.generate_states("A".to_string(), 7),
        Ok(labels(&["B", "C", "A", "B", "C", "A", "B"]))
    );
}

#[test]
fn generate_states_from_unknown_label_is_not_found() {
    let c = four_states();
    assert_eq!(c.generate_states("Z".to_string(), 1), Err(ChainError::StateNotFound));
    assert_eq!(c.generate_states("Z".to_string(), 10), Err(ChainError::StateNotFound));
}

#[test]
fn generate_states_stops_at_a_dead_end() {
    // A leads to B only, and nothing leaves B.
    let c = chain(2, vec![0, 1, 0, 0], &["A", "B"]);
    assert_eq!(c.generate_states("A".to_string(), 1), Ok(labels(&["B"])));
    assert_eq!(
        c.generate_states("A".to_string(), 2),
        Err(ChainError::NoOutgoingTransitions)
    );
    assert_eq!(
        c.generate_states("B".to_string(), 1),
        Err(ChainError::NoOutgoingTransitions)
    );
}
