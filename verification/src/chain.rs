//! The chain itself: construction, the index of states, sampling and the
//! reachability queries.

use crate::matrix::{columns_of, matrix_column, matrix_ncols, matrix_nrows, WeightMatrix};
use crate::model::{lemma_total_of_prefix, total, ChainModel};
use crate::sampling::{choose_weighted, weights_of};
use rand::distributions::WeightedError;
use vstd::prelude::*;

verus! {

/// Why an operation on a chain failed.
#[derive(Debug, Clone, Copy, PartialEq, Eq, Structural)]
pub enum ChainError {
    /// A label names no state of the chain.
    StateNotFound,
    /// Every weight in the column of the current state is zero.
    NoOutgoingTransitions,
    /// The matrix is not square, the number of labels differs from its size,
    /// a label occurs twice, or the weights of a column exceed `u64::MAX`
    /// when added up.
    InvalidChainDefinition,
}

/// A Markov chain over labelled states.
///
/// State `i` is the label at position `i`; column `i` of the matrix holds the
/// weights of the steps that leave it. Every value of this type is well
/// formed in the sense of [`ChainModel::well_formed`].
#[derive(Debug)]
pub struct MarkovChain {
    transition_matrix: WeightMatrix,
    states: Vec<String>,
}

/// The labels that a list of strings spells out.
pub open spec fn labels_of(states: Seq<String>) -> Seq<Seq<char>> {
    states.map_values(|s: String| s@)
}

/// The model of the chain that `new` would build from these parts.
pub open spec fn model_of(transition_matrix: WeightMatrix, states: Seq<String>) -> ChainModel {
    ChainModel { labels: labels_of(states), weights: columns_of(transition_matrix) }
}

impl View for MarkovChain {
    type V = ChainModel;

    closed spec fn view(&self) -> ChainModel {
        model_of(self.transition_matrix, self.states@)
    }
}

/// Adds up a column, or returns `None` when the sum does not fit in a `u64`.
fn column_total(column: &Vec<u64>) -> (sum: Option<u64>)
    ensures
        match sum {
            Some(s) => s == total(column@),
            None => total(column@) > u64::MAX,
        },
{
    let mut sum: u64 = 0;
    let mut k: usize = 0;
    while k < column.len()
        invariant
            k <= column.len(),
            sum == total(column@.take(k as int)),
        decreases column.len() - k,
    {
        proof {
            assert(column@.take(k + 1).drop_last() =~= column@.take(k as int));
            lemma_total_of_prefix(column@, k + 1);
        }
        match sum.checked_add(column[k]) {
            Some(next) => {
                sum = next;
            },
            None => {
                return None;
            },
        }
        k += 1;
    }
    proof {
        assert(column@.take(k as int) =~= column@);
    }
    Some(sum)
}

/// Whether the matrix has `n` columns of `n` entries each.
fn is_square(matrix: &WeightMatrix, n: usize) -> (square: bool)
    ensures
        square <==> {
            &&& columns_of(*matrix).len() == n
            &&& forall|c: int| 0 <= c < n ==> (#[trigger] columns_of(*matrix)[c]).len() == n
        },
{
    if matrix_ncols(matrix) != n {
        return false;
    }
    if n == 0 {
        return true;
    }
    let rows = matrix_nrows(matrix);
    proof {
        assert(columns_of(*matrix)[0].len() == rows);
    }
    rows == n
}

/// Whether no two of the strings are equal.
fn all_distinct(states: &Vec<String>) -> (distinct: bool)
    ensures
        distinct <==> forall|i: int, j: int| 0 <= i < j < states.len() ==> states[i]@ != states[j]@,
{
    let mut j: usize = 0;
    while j < states.len()
        invariant
            j <= states.len(),
            forall|a: int, b: int| 0 <= a < b < j ==> states[a]@ != states[b]@,
        decreases states.len() - j,
    {
        let mut i: usize = 0;
        while i < j
            invariant
                i <= j < states.len(),
                forall|a: int| 0 <= a < i ==> states[a]@ != states[j as int]@,
            decreases j - i,
        {
            if states[i] == states[j] {
                return false;
            }
            i += 1;
        }
        j += 1;
    }
    true
}

/// Whether the weights of every column add up to a `u64`.
fn totals_fit(matrix: &WeightMatrix) -> (fit: bool)
    ensures
        fit <==> forall|c: int|
            0 <= c < columns_of(*matrix).len() ==> total(#[trigger] columns_of(*matrix)[c])
                <= u64::MAX,
{
    let n = matrix_ncols(matrix);
    let mut c: usize = 0;
    while c < n
        invariant
            c <= n == columns_of(*matrix).len(),
            forall|d: int| 0 <= d < c ==> total(#[trigger] columns_of(*matrix)[d]) <= u64::MAX,
        decreases n - c,
    {
        let column = matrix_column(matrix, c);
        if column_total(&column).is_none() {
            return false;
        }
        c += 1;
    }
    true
}

impl MarkovChain {
    #[verifier::type_invariant]
    spec fn valid(&self) -> bool {
        self@.well_formed()
    }

    /// Builds the chain whose state `k` is named `states[k]` and whose
    /// weights are those of `transition_matrix`, column `k` holding the
    /// weights of the steps that leave state `k`.
    ///
    /// The parts are validated first: the result is
    /// `Err(ChainError::InvalidChainDefinition)` exactly when they do not
    /// make a well-formed chain.
    pub fn new(transition_matrix: WeightMatrix, states: Vec<String>) -> (chain: Result<
        MarkovChain,
        ChainError,
    >)
        ensures
            match chain {
                Ok(c) => c@ == model_of(transition_matrix, states@) && c@.well_formed(),
                Err(e) => e == ChainError::InvalidChainDefinition && !model_of(
                    transition_matrix,
                    states@,
                ).well_formed(),
            },
    {
        let n = states.len();
        if !is_square(&transition_matrix, n) {
            return Err(ChainError::InvalidChainDefinition);
        }
        if !all_distinct(&states) {
            proof {
                let (i, j) = choose|i: int, j: int|
                    0 <= i < j < states.len() && states[i]@ == states[j]@;
                assert(labels_of(states@)[i] == labels_of(states@)[j]);
            }
            return Err(ChainError::InvalidChainDefinition);
        }
        if !totals_fit(&transition_matrix) {
            return Err(ChainError::InvalidChainDefinition);
        }
        Ok(MarkovChain { transition_matrix, states })
    }

    /// The number of states.
    pub fn len(&self) -> (n: usize)
        ensures
            n == self@.len(),
    {
        self.states.len()
    }

    /// The index of the state that `label` names, if there is one.
    pub fn index_of(&self, label: &String) -> (index: Option<usize>)
        ensures
            match index {
                Some(i) => self@.index_of(label@) == Some(i as int),
                None => self@.index_of(label@) is None,
            },
    {
        proof {
            use_type_invariant(self);
        }
        let mut k: usize = 0;
        while k < self.states.len()
            invariant
                k <= self.states.len(),
                self@.well_formed(),
                self@.labels == labels_of(self.states@),
                forall|a: int| 0 <= a < k ==> self@.labels[a] != label@,
            decreases self.states.len() - k,
        {
            if self.states[k] == *label {
                proof {
                    self@.lemma_index_of(k as int);
                }
                return Some(k);
            }
            k += 1;
        }
        None
    }

    /// The label of state `index`, if there is such a state.
    pub fn label_of(&self, index: usize) -> (label: Option<String>)
        ensures
            match label {
                Some(l) => index < self@.len() && l@ == self@.labels[index as int],
                None => index >= self@.len(),
            },
    {
        if index < self.states.len() {
            Some(self.states[index].clone())
        } else {
            None
        }
    }

    /// The choices that state `i` offers: every state, paired with the weight
    /// of the step to it.
    fn choices(&self, i: usize) -> (choices: Vec<(usize, u64)>)
        requires
            i < self@.len(),
        ensures
            choices.len() == self@.len(),
            forall|j: int|
                0 <= j < choices.len() ==> #[trigger] choices[j] == (
                    j as usize,
                    self@.weight(i as int, j),
                ),
            weights_of(choices@) == self@.weights[i as int],
    {
        proof {
            use_type_invariant(self);
        }
        let column = matrix_column(&self.transition_matrix, i);
        let mut choices: Vec<(usize, u64)> = Vec::new();
        let mut j: usize = 0;
        while j < column.len()
            invariant
                j <= column.len(),
                choices.len() == j,
                forall|k: int| 0 <= k < j ==> #[trigger] choices[k] == (k as usize, column[k]),
            decreases column.len() - j,
        {
            choices.push((j, column[j]));
            j += 1;
        }
        proof {
            assert(weights_of(choices@) =~= column@);
        }
        choices
    }

    /// Turns the outcome of a weighted draw into the next state: the label
    /// of the state that was drawn, `StateNotFound` when the draw names no
    /// state of this chain, and `NoOutgoingTransitions` when there was
    /// nothing to draw from.
    pub fn picked_state(&self, pick: Result<(usize, u64), WeightedError>) -> (next: Result<
        String,
        ChainError,
    >)
        ensures
            match pick {
                Ok(choice) => match next {
                    Ok(label) => choice.0 < self@.len() && label@ == self@.labels[choice.0 as int],
                    Err(e) => choice.0 >= self@.len() && e == ChainError::StateNotFound,
                },
                Err(_) => next == Err::<String, ChainError>(ChainError::NoOutgoingTransitions),
            },
    {
        match pick {
            Ok(choice) => match self.label_of(choice.0) {
                Some(label) => Ok(label),
                None => Err(ChainError::StateNotFound),
            },
            Err(_) => Err(ChainError::NoOutgoingTransitions),
        }
    }

    /// Draws the state that follows `current_state`, each state with a
    /// probability proportional to the weight of the step to it.
    ///
    /// Fails with `StateNotFound` when `current_state` names no state, and
    /// with `NoOutgoingTransitions` when the state it names is a dead end.
    /// Otherwise the result names a state that a step of positive weight
    /// leads to; which one is up to the draw.
    pub fn next_state(&self, current_state: String) -> (next: Result<String, ChainError>)
        ensures
            match self@.index_of(current_state@) {
                None => next == Err::<String, ChainError>(ChainError::StateNotFound),
                Some(i) => if self@.dead_end(i) {
                    next == Err::<String, ChainError>(ChainError::NoOutgoingTransitions)
                } else {
                    next matches Ok(label) && self@.follows(current_state@, label@)
                },
            },
    {
        proof {
            use_type_invariant(self);
        }
        let i = match self.index_of(&current_state) {
            Some(i) => i,
            None => {
                return Err(ChainError::StateNotFound);
            },
        };
        let choices = self.choices(i);
        let mut rng = rand::thread_rng();
        let pick = choose_weighted(&choices, &mut rng);
        proof {
            match pick {
                Ok(choice) => {
                    let at = choose|at: int| 0 <= at < choices.len() && choices[at] == choice;
                    assert(self@.edge(i as int, at));
                },
                Err(_) => {
                    assert forall|j: int| !self@.edge(i as int, j) by {
                        if 0 <= j < self@.len() {
                            assert(choices[j].1 == 0);
                        }
                    }
                },
            }
        }
        self.picked_state(pick)
    }

    /// Draws a trajectory of `no` states: the first follows `current_state`,
    /// and each of the others follows the one before it.
    ///
    /// With `no == 0` the result is empty, whatever `current_state` is.
    /// Otherwise a label that names no state gives `StateNotFound`, and a
    /// trajectory that runs into a dead end before it is complete gives
    /// `NoOutgoingTransitions`; nothing else fails. So the result holds
    /// exactly `no` labels whenever `current_state` names a state from which
    /// no dead end is fewer than `no` steps away.
    pub fn generate_states(&self, current_state: String, no: u32) -> (trajectory: Result<
        Vec<String>,
        ChainError,
    >)
        ensures
            match trajectory {
                Ok(states) => states.len() == no && self@.is_trajectory(
                    current_state@,
                    labels_of(states@),
                ),
                Err(e) => no > 0 && match self@.index_of(current_state@) {
                    None => e == ChainError::StateNotFound,
                    Some(i) => e == ChainError::NoOutgoingTransitions && self@.can_strand(
                        i,
                        no as nat,
                    ),
                },
            },
    {
        proof {
            use_type_invariant(self);
        }
        let ghost start = self@.index_of(current_state@);
        let ghost mut walk: Seq<int> = seq![start.unwrap_or(0)];
        let mut states: Vec<String> = Vec::new();
        let mut current = current_state.clone();
        let mut k: u32 = 0;
        proof {
            if start is Some {
                self@.lemma_trace_start(current_state@);
            }
            assert(labels_of(states@) =~= Seq::empty());
        }
        while k < no
            invariant
                self@.well_formed(),
                k <= no,
                states.len() == k,
                start == self@.index_of(current_state@),
                start is None ==> k == 0 && current@ == current_state@,
                start is Some ==> {
                    &&& self@.traces(walk, current_state@, labels_of(states@))
                    &&& walk.first() == start->0
                    &&& self@.labels[walk.last()] == current@
                },
            decreases no - k,
        {
            proof {
                if start is Some {
                    self@.lemma_index_of(walk.last());
                }
            }
            let next = match self.next_state(current) {
                Ok(next) => next,
                Err(e) => {
                    return Err(e);
                },
            };
            proof {
                walk = self@.lemma_trace_step(walk, current_state@, labels_of(states@), next@);
                assert(labels_of(states@.push(next)) =~= labels_of(states@).push(next@));
            }
            states.push(next.clone());
            current = next;
            k += 1;
        }
        proof {
            if start is Some {
                self@.lemma_trace_trajectory(walk, current_state@, labels_of(states@));
            }
        }
        Ok(states)
    }

    /// The states that can be reached from state `i` in one step, in
    /// ascending order: those with a strictly positive weight in column `i`.
    pub(crate) fn get_states(&self, i: usize) -> (successors: Vec<usize>)
        requires
            i < self@.len(),
        ensures
            forall|k: int|
                0 <= k < successors.len() ==> self@.edge(i as int, #[trigger] successors[k] as int),
            forall|j: int| self@.edge(i as int, j) ==> successors@.contains(j as usize),
            forall|a: int, b: int|
                0 <= a < b < successors.len() ==> successors[a] < successors[b],
    {
        proof {
            use_type_invariant(self);
        }
        let column = matrix_column(&self.transition_matrix, i);
        let mut successors: Vec<usize> = Vec::new();
        let mut j: usize = 0;
        while j < column.len()
            invariant
                self@.well_formed(),
                i < self@.len(),
                column@ == self@.weights[i as int],
                j <= column.len() == self@.len(),
                forall|k: int|
                    0 <= k < successors.len() ==> (#[trigger] successors[k]) < j && self@.edge(
                        i as int,
                        successors[k] as int,
                    ),
                forall|t: int|
                    0 <= t < j && self@.edge(i as int, t) ==> successors@.contains(t as usize),
                forall|a: int, b: int|
                    0 <= a < b < successors.len() ==> successors[a] < successors[b],
            decreases column.len() - j,
        {
            if column[j] > 0 {
                let ghost before = successors@;
                successors.push(j);
                proof {
                    assert forall|t: int|
                        0 <= t < j + 1 && self@.edge(i as int, t) implies successors@.contains(
                        t as usize,
                    ) by {
                        if t < j {
                            let at = choose|at: int|
                                0 <= at < before.len() && before[at] == t as usize;
                            assert(successors@[at] == t as usize);
                        } else {
                            assert(successors@[before.len() as int] == t as usize);
                        }
                    }
                }
            }
            j += 1;
        }
        successors
    }

    /// Whether the state named `f_state` is a successor of a state that can
    /// be reached from the state named `i_state` in one or more steps; that
    /// is, whether a walk of two or more steps leads from the one to the
    /// other. A label that names no state is accessible from nothing, and
    /// nothing is accessible from it.
    pub fn is_accessible(&self, i_state: String, f_state: String) -> (accessible: bool)
        ensures
            accessible == match (self@.index_of(i_state@), self@.index_of(f_state@)) {
                (Some(from), Some(to)) => self@.accessible(from, to),
                _ => false,
            },
    {
        match self.index_of(&i_state) {
            Some(from) => match self.index_of(&f_state) {
                Some(to) => self.search(from, to),
                None => false,
            },
            None => false,
        }
    }

    /// Whether the chain is irreducible: `true` when every state can be
    /// reached from every state, itself included, in one or more steps.
    pub fn is_reducible(&self) -> (irreducible: bool)
        ensures
            irreducible == self@.irreducible(),
    {
        let n = self.states.len();
        let mut i: usize = 0;
        while i < n
            invariant
                n == self@.len(),
                i <= n,
                forall|a: int, b: int|
                    0 <= a < i && 0 <= b < n ==> #[trigger] self@.accessible(a, b),
            decreases n - i,
        {
            let mut j: usize = 0;
            while j < n
                invariant
                    n == self@.len(),
                    i < n,
                    j <= n,
                    forall|a: int, b: int|
                        0 <= a < i && 0 <= b < n ==> #[trigger] self@.accessible(a, b),
                    forall|b: int| 0 <= b < j ==> #[trigger] self@.accessible(i as int, b),
                decreases n - j,
            {
                if !self.search(i, j) {
                    proof {
                        self@.lemma_irreducible_iff_all_accessible();
                    }
                    return false;
                }
                j += 1;
            }
            i += 1;
        }
        proof {
            self@.lemma_irreducible_iff_all_accessible();
        }
        true
    }
}

} // verus!
