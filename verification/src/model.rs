//! The mathematical model of a chain: its labels, its weights, and the
//! directed graph whose edges are the strictly positive weights.

use vstd::prelude::*;

verus! {

/// The sum of a sequence of weights.
pub open spec fn total(weights: Seq<u64>) -> nat
    decreases weights.len(),
{
    if weights.len() == 0 {
        0
    } else {
        total(weights.drop_last()) + weights.last() as nat
    }
}

/// A prefix of a sequence of weights adds up to no more than the whole.
pub proof fn lemma_total_of_prefix(weights: Seq<u64>, k: int)
    requires
        0 <= k <= weights.len(),
    ensures
        total(weights.take(k)) <= total(weights),
    decreases weights.len(),
{
    if k < weights.len() {
        lemma_total_of_prefix(weights.drop_last(), k);
        assert(weights.drop_last().take(k) =~= weights.take(k));
    } else {
        assert(weights.take(k) =~= weights);
    }
}

/// What a chain is, as plain mathematics.
///
/// `labels[i]` names state `i`. `weights[i]` is the column of state `i`:
/// `weights[i][j]` is the weight of the step from state `i` to state `j`.
pub struct ChainModel {
    pub labels: Seq<Seq<char>>,
    pub weights: Seq<Seq<u64>>,
}

impl ChainModel {
    /// The number of states.
    pub open spec fn len(self) -> nat {
        self.labels.len()
    }

    /// The matrix is square with one column per label, no label occurs
    /// twice, and the weights of each column add up to a `u64`.
    pub open spec fn well_formed(self) -> bool {
        &&& self.weights.len() == self.labels.len()
        &&& forall|c: int|
            0 <= c < self.weights.len() ==> (#[trigger] self.weights[c]).len() == self.labels.len()
        &&& forall|i: int, j: int|
            0 <= i < j < self.labels.len() ==> self.labels[i] != self.labels[j]
        &&& forall|c: int|
            0 <= c < self.weights.len() ==> total(#[trigger] self.weights[c]) <= u64::MAX
    }

    /// `label` names one of the states.
    pub open spec fn has_label(self, label: Seq<char>) -> bool {
        exists|i: int| 0 <= i < self.labels.len() && self.labels[i] == label
    }

    /// The index of the state that `label` names, if there is one.
    pub open spec fn index_of(self, label: Seq<char>) -> Option<int> {
        if self.has_label(label) {
            Some(choose|i: int| 0 <= i < self.labels.len() && self.labels[i] == label)
        } else {
            None
        }
    }

    /// The weight of the step from state `from` to state `to`.
    pub open spec fn weight(self, from: int, to: int) -> u64 {
        self.weights[from][to]
    }

    /// The structural graph: there is an edge for each strictly positive weight.
    pub open spec fn edge(self, from: int, to: int) -> bool {
        &&& 0 <= from < self.len()
        &&& 0 <= to < self.len()
        &&& self.weight(from, to) > 0
    }

    /// State `i` has no outgoing edge.
    pub open spec fn dead_end(self, i: int) -> bool {
        forall|j: int| !self.edge(i, j)
    }

    /// One step can lead from the state named `from` to the state named `to`.
    pub open spec fn follows(self, from: Seq<char>, to: Seq<char>) -> bool {
        exists|i: int, j: int| #[trigger]
            self.edge(i, j) && self.labels[i] == from && self.labels[j] == to
    }

    /// Each label of `visited` follows the one before it, and the first
    /// follows `start`.
    pub open spec fn is_trajectory(self, start: Seq<char>, visited: Seq<Seq<char>>) -> bool {
        forall|k: int|
            0 <= k < visited.len() ==> self.follows(
                if k == 0 {
                    start
                } else {
                    visited[k - 1]
                },
                #[trigger] visited[k],
            )
    }

    /// A walk of fewer than `steps` steps leads from state `from` to a dead
    /// end (which may be `from` itself).
    pub open spec fn can_strand(self, from: int, steps: nat) -> bool {
        exists|path: Seq<int>| #[trigger]
            self.is_walk(path) && path.first() == from && path.len() <= steps && self.dead_end(
                path.last(),
            )
    }

    /// `path` is a non-empty sequence of states, each joined to the next by an edge.
    pub open spec fn is_walk(self, path: Seq<int>) -> bool {
        &&& path.len() >= 1
        &&& forall|k: int| 0 <= k < path.len() ==> 0 <= #[trigger] path[k] < self.len()
        &&& forall|k: int| 0 <= k < path.len() - 1 ==> self.edge(#[trigger] path[k], path[k + 1])
    }

    /// `path` is a walk from `from` to `to`.
    pub open spec fn joins(self, path: Seq<int>, from: int, to: int) -> bool {
        &&& self.is_walk(path)
        &&& path.first() == from
        &&& path.last() == to
    }

    /// Some walk of at least `min_edges` edges leads from `from` to `to`.
    pub open spec fn has_walk(self, from: int, to: int, min_edges: nat) -> bool {
        exists|path: Seq<int>| #[trigger] self.joins(path, from, to) && path.len() > min_edges
    }

    /// `to` can be reached from `from` in one or more steps.
    pub open spec fn reachable(self, from: int, to: int) -> bool {
        self.has_walk(from, to, 1)
    }

    /// `to` can be reached from `from` in two or more steps: it is a successor
    /// of some state that can be reached from `from`.
    pub open spec fn accessible(self, from: int, to: int) -> bool {
        self.has_walk(from, to, 2)
    }

    /// Every state can be reached from every state.
    pub open spec fn irreducible(self) -> bool {
        forall|i: int, j: int|
            0 <= i < self.len() && 0 <= j < self.len() ==> #[trigger] self.reachable(i, j)
    }
}

impl ChainModel {
    /// Index to label and back: in a well-formed chain the label of state `i`
    /// is the label of no other state, so looking it up gives `i` again.
    pub proof fn lemma_index_of(self, i: int)
        requires
            self.well_formed(),
            0 <= i < self.len(),
        ensures
            self.index_of(self.labels[i]) == Some(i),
    {
        let found = self.index_of(self.labels[i])->0;
        assert(self.has_label(self.labels[i]));
        if found < i {
            assert(self.labels[found] != self.labels[i]);
        } else if i < found {
            assert(self.labels[i] != self.labels[found]);
        }
    }

    /// Label to index and back: the index that a label is found at is the
    /// index of a state, and that state carries the label.
    pub proof fn lemma_label_of(self, label: Seq<char>)
        requires
            self.has_label(label),
        ensures
            self.index_of(label) matches Some(i) && 0 <= i < self.len() && self.labels[i] == label,
    {
    }
}

} // verus!
