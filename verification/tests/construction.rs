use markov_chain::{ChainError, MarkovChain, WeightMatrix};

fn labels(names: &[&str]) -> Vec<String> {
    names.iter().map(|s| s.to_string()).collect()
}

#[test]
fn from_vec_accepts_matching_size() {
    assert!(WeightMatrix::from_vec(2, 3, vec![1, 2, 3, 4, 5, 6]).is_some());
    assert!(WeightMatrix::from_vec(0, 0, vec![]).is_some());
    assert!(WeightMatrix::from_vec(0, 7, vec![]).is_some());
}

#[test]
fn from_vec_rejects_wrong_size() {
    assert!(WeightMatrix::from_vec(2, 2, vec![1, 2, 3]).is_none());
    assert!(WeightMatrix::from_vec(2, 2, vec![1, 2, 3, 4, 5]).is_none());
    assert!(WeightMatrix::from_vec(1, 1, vec![]).is_none());
}

#[test]
fn from_vec_rejects_size_beyond_usize() {
    assert!(WeightMatrix::from_vec(usize::MAX, 2, vec![]).is_none());
    assert!(WeightMatrix::from_vec(usize::MAX, usize::MAX, vec![1]).is_none());
}

#[test]
fn new_builds_a_square_chain() {
    let m = WeightMatrix::from_vec(2, 2, vec![1, 1, 1, 1]).unwrap();
    let chain = MarkovChain::new(m, labels(&["A", "B"])).unwrap();
    assert_eq!(chain.len(), 2);
}

#[test]
fn new_builds_the_empty_chain() {
    let m = WeightMatrix::from_vec(0, 0, vec![]).unwrap();
    let chain = MarkovChain::new(m, vec![]).unwrap();
    assert_eq!(chain.len(), 0);
}

#[test]
fn new_rejects_a_matrix_that_is_not_square() {
    let wide = WeightMatrix::from_vec(2, 3, vec![1, 1, 1, 1, 1, 1]).unwrap();
    assert_eq!(
        MarkovChain::new(wide, labels(&["A", "B", "C"])).err(),
        Some(ChainError::InvalidChainDefinition)
    );
    let tall = WeightMatrix::from_vec(3, 2, vec![1, 1, 1, 1, 1, 1]).unwrap();
    assert_eq!(
        MarkovChain::new(tall, labels(&["A", "B"])).err(),
        Some(ChainError::InvalidChainDefinition)
    );
}

#[test]
fn new_rejects_a_wrong_number_of_labels() {
    let m = WeightMatrix::from_vec(2, 2, vec![1, 1, 1, 1]).unwrap();
    assert_eq!(
        MarkovChain::new(m, labels(&["A"])).err(),
        Some(ChainError::InvalidChainDefinition)
    );
    let m = WeightMatrix::from_vec(2, 2, vec![1, 1, 1, 1]).unwrap();
    assert_eq!(
        MarkovChain::new(m, labels(&["A", "B", "C"])).err(),
        Some(ChainError::InvalidChainDefinition)
    );
    let m = WeightMatrix::from_vec(1, 1, vec![1]).unwrap();
    assert_eq!(MarkovChain::new(m, vec![]).err(), Some(ChainError::InvalidChainDefinition));
}

#[test]
fn new_rejects_a_repeated_label() {
    let m = WeightMatrix::from_vec(3, 3, vec![1; 9]).unwrap();
    assert_eq!(
        MarkovChain::new(m, labels(&["A", "B", "A"])).err(),
        Some(ChainError::InvalidChainDefinition)
    );
}

#[test]
fn new_rejects_a_column_whose_weights_overflow() {
    let m = WeightMatrix::from_vec(2, 2, vec![u64::MAX, 1, 0, 0]).unwrap();
    assert_eq!(
        MarkovChain::new(m, labels(&["A", "B"])).err(),
        Some(ChainError::InvalidChainDefinition)
    );
}

#[test]
fn new_accepts_a_column_that_adds_up_to_the_largest_weight() {
    let m = WeightMatrix::from_vec(2, 2, vec![u64::MAX - 1, 1, u64::MAX, 0]).unwrap();
    assert!(MarkovChain::new(m, labels(&["A", "B"])).is_ok());
}

#[test]
fn new_sums_each_column_by_itself() {
    // Each row adds up to more than a u64 holds, each column does not.
    let m = WeightMatrix::from_vec(2, 2, vec![u64::MAX, 0, u64::MAX, 0]).unwrap();
    assert!(MarkovChain::new(m, labels(&["A", "B"])).is_ok());
}
