//! Facts about walks in the structural graph of a chain.

use crate::model::ChainModel;
use vstd::prelude::*;

verus! {

impl ChainModel {
    /// An edge is a walk of one step.
    pub proof fn lemma_edge_reachable(self, from: int, to: int)
        requires
            self.edge(from, to),
        ensures
            self.reachable(from, to),
    {
        let path = seq![from, to];
        assert(self.joins(path, from, to));
    }

    /// A walk followed by one more edge is a walk, longer by one step.
    pub proof fn lemma_walk_then_edge(self, from: int, via: int, to: int, min_edges: nat)
        requires
            self.has_walk(from, via, min_edges),
            self.edge(via, to),
        ensures
            self.has_walk(from, to, min_edges + 1),
    {
        let path = choose|path: Seq<int>| #[trigger]
            self.joins(path, from, via) && path.len() > min_edges;
        let longer = path.push(to);
        assert forall|k: int| 0 <= k < longer.len() - 1 implies self.edge(
            #[trigger] longer[k],
            longer[k + 1],
        ) by {
            if k < path.len() - 1 {
                assert(self.edge(path[k], path[k + 1]));
            }
        }
        assert(self.joins(longer, from, to));
    }

    /// Two walks that meet end to start make one walk with the steps of both.
    pub proof fn lemma_walk_then_walk(
        self,
        from: int,
        via: int,
        to: int,
        first_edges: nat,
        second_edges: nat,
    )
        requires
            self.has_walk(from, via, first_edges),
            self.has_walk(via, to, second_edges),
        ensures
            self.has_walk(from, to, first_edges + second_edges),
    {
        let p = choose|path: Seq<int>| #[trigger]
            self.joins(path, from, via) && path.len() > first_edges;
        let q = choose|path: Seq<int>| #[trigger]
            self.joins(path, via, to) && path.len() > second_edges;
        let joined = p + q.drop_first();
        assert forall|k: int| 0 <= k < joined.len() implies 0 <= #[trigger] joined[k]
            < self.len() by {
            if k >= p.len() {
                assert(joined[k] == q[k - p.len() + 1]);
            }
        }
        assert forall|k: int| 0 <= k < joined.len() - 1 implies self.edge(
            #[trigger] joined[k],
            joined[k + 1],
        ) by {
            if k < p.len() - 1 {
                assert(self.edge(p[k], p[k + 1]));
            } else {
                let at = k - p.len() + 1;
                assert(self.edge(q[at], q[at + 1]));
            }
        }
        assert(self.joins(joined, from, to));
    }

    /// A walk of one or more steps is a single edge or a walk of two or more
    /// steps.
    pub proof fn lemma_reachable_split(self, from: int, to: int)
        ensures
            self.reachable(from, to) <==> self.edge(from, to) || self.accessible(from, to),
    {
        if self.reachable(from, to) {
            let path = choose|path: Seq<int>| #[trigger]
                self.joins(path, from, to) && path.len() > 1;
            if path.len() == 2 {
                assert(self.edge(path[0], path[1]));
            }
        }
        if self.edge(from, to) {
            self.lemma_edge_reachable(from, to);
        }
        if self.accessible(from, to) {
            let path = choose|path: Seq<int>| #[trigger]
                self.joins(path, from, to) && path.len() > 2;
            assert(self.joins(path, from, to) && path.len() > 1);
        }
    }

    /// A walk of two or more steps is there exactly when a walk of one or
    /// more steps is, except where `to` is a successor of `from` that no
    /// longer walk leads to: there the single edge is a walk of one step and
    /// nothing is a walk of two.
    pub proof fn lemma_accessible_iff_reachable(self, from: int, to: int)
        requires
            self.edge(from, to) ==> self.accessible(from, to),
        ensures
            self.accessible(from, to) <==> self.reachable(from, to),
    {
        self.lemma_reachable_split(from, to);
    }

    /// Every state after the first of a walk from `from` lies in a set that
    /// holds the successors of `from` and the successors of its own members.
    proof fn lemma_walk_stays_inside(self, inside: Set<int>, path: Seq<int>, k: int)
        requires
            self.is_walk(path),
            1 <= k < path.len(),
            forall|v: int| self.edge(path[0], v) ==> inside.contains(v),
            forall|u: int, v: int| inside.contains(u) && self.edge(u, v) ==> inside.contains(v),
        ensures
            inside.contains(path[k]),
        decreases k,
    {
        assert(self.edge(path[k - 1], path[k]));
        if k > 1 {
            self.lemma_walk_stays_inside(inside, path, k - 1);
        }
    }

    /// Let a set hold the successors of `from` and the successors of its own
    /// members. If `to` is a successor of none of its members, no walk of two
    /// or more steps leads from `from` to `to`.
    pub proof fn lemma_closed_set_excludes(self, inside: Set<int>, from: int, to: int)
        requires
            forall|v: int| self.edge(from, v) ==> inside.contains(v),
            forall|u: int, v: int|
                inside.contains(u) && self.edge(u, v) ==> inside.contains(v) && v != to,
        ensures
            !self.accessible(from, to),
    {
        if self.accessible(from, to) {
            let path = choose|path: Seq<int>| #[trigger]
                self.joins(path, from, to) && path.len() > 2;
            let before = path.len() - 2;
            self.lemma_walk_stays_inside(inside, path, before);
            assert(self.edge(path[before], path[before + 1]));
        }
    }

    /// A state on a cycle that can be reached at all can be reached in two
    /// or more steps: the walk to it goes on round the cycle.
    pub proof fn lemma_accessible_on_cycle(self, from: int, to: int)
        requires
            self.reachable(from, to),
            self.reachable(to, to),
        ensures
            self.accessible(from, to),
    {
        self.lemma_walk_then_walk(from, to, to, 1, 1);
    }

    /// A chain is irreducible exactly when every state can be reached from
    /// every state in two or more steps.
    pub proof fn lemma_irreducible_iff_all_accessible(self)
        ensures
            self.irreducible() <==> forall|i: int, j: int|
                0 <= i < self.len() && 0 <= j < self.len() ==> #[trigger] self.accessible(i, j),
    {
        if self.irreducible() {
            assert forall|i: int, j: int|
                0 <= i < self.len() && 0 <= j < self.len() implies #[trigger] self.accessible(
                i,
                j,
            ) by {
                assert(self.reachable(i, j));
                assert(self.reachable(j, j));
                self.lemma_accessible_on_cycle(i, j);
            }
        }
        if forall|i: int, j: int|
            0 <= i < self.len() && 0 <= j < self.len() ==> #[trigger] self.accessible(i, j) {
            assert forall|i: int, j: int|
                0 <= i < self.len() && 0 <= j < self.len() implies #[trigger] self.reachable(
                i,
                j,
            ) by {
                assert(self.accessible(i, j));
                self.lemma_reachable_split(i, j);
            }
        }
    }

    /// Where no state is a dead end, no walk strands, however long it is.
    pub proof fn lemma_no_dead_end_no_strand(self, from: int, steps: nat)
        requires
            forall|j: int| 0 <= j < self.len() ==> !self.dead_end(j),
        ensures
            !self.can_strand(from, steps),
    {
        if self.can_strand(from, steps) {
            let path = choose|path: Seq<int>| #[trigger]
                self.is_walk(path) && path.first() == from && path.len() <= steps
                    && self.dead_end(path.last());
            assert(0 <= path[path.len() - 1] < self.len());
        }
    }

    /// `walk` is the walk that a trajectory took: it begins at the state
    /// named `start`, and each of its later states is named by the label
    /// that the trajectory has in that place.
    pub open spec fn traces(self, walk: Seq<int>, start: Seq<char>, visited: Seq<Seq<char>>) -> bool {
        &&& self.is_walk(walk)
        &&& walk.len() == visited.len() + 1
        &&& self.labels[walk.first()] == start
        &&& forall|k: int| 0 <= k < visited.len() ==> self.labels[walk[k + 1]] == #[trigger] visited[k]
    }

    /// A walk of one state traces the empty trajectory.
    pub proof fn lemma_trace_start(self, start: Seq<char>)
        requires
            self.index_of(start) is Some,
        ensures
            self.traces(seq![self.index_of(start)->0], start, Seq::empty()),
    {
    }

    /// A traced trajectory that goes on with a label that follows its last
    /// one is traced by a walk that is one state longer.
    pub proof fn lemma_trace_step(
        self,
        walk: Seq<int>,
        start: Seq<char>,
        visited: Seq<Seq<char>>,
        next: Seq<char>,
    ) -> (longer: Seq<int>)
        requires
            self.well_formed(),
            self.traces(walk, start, visited),
            self.follows(self.labels[walk.last()], next),
        ensures
            self.traces(longer, start, visited.push(next)),
            longer.first() == walk.first(),
            self.labels[longer.last()] == next,
    {
        let (i, j) = choose|i: int, j: int| #[trigger]
            self.edge(i, j) && self.labels[i] == self.labels[walk.last()] && self.labels[j]
                == next;
        self.lemma_index_of(i);
        self.lemma_index_of(walk.last());
        let longer = walk.push(j);
        assert forall|k: int| 0 <= k < longer.len() - 1 implies self.edge(
            #[trigger] longer[k],
            longer[k + 1],
        ) by {
            if k < walk.len() - 1 {
                assert(self.edge(walk[k], walk[k + 1]));
            }
        }
        longer
    }

    /// The labels along a walk make a trajectory.
    pub proof fn lemma_trace_trajectory(
        self,
        walk: Seq<int>,
        start: Seq<char>,
        visited: Seq<Seq<char>>,
    )
        requires
            self.traces(walk, start, visited),
        ensures
            self.is_trajectory(start, visited),
    {
        assert forall|k: int| 0 <= k < visited.len() implies self.follows(
            if k == 0 {
                start
            } else {
                visited[k - 1]
            },
            #[trigger] visited[k],
        ) by {
            assert(self.edge(walk[k], walk[k + 1]));
        }
    }
}

} // verus!
