//! Breadth-first search over the structural graph of a chain.

use crate::chain::MarkovChain;
use crate::model::ChainModel;
use vstd::prelude::*;

verus! {

/// What a search from `from` holds at any moment: `frontier` lists, without
/// repeats, exactly the states marked in `seen`, and each of them can be
/// reached from `from`.
spec fn discovered(m: ChainModel, from: int, seen: Seq<bool>, frontier: Seq<usize>) -> bool {
    &&& seen.len() == m.len()
    &&& forall|k: int|
        0 <= k < frontier.len() ==> (#[trigger] frontier[k]) < m.len() && seen[frontier[k] as int]
            && m.reachable(from, frontier[k] as int)
    &&& forall|v: int| 0 <= v < seen.len() && seen[v] ==> frontier.contains(v as usize)
    &&& frontier.no_duplicates()
}

/// The first `head` states of `frontier` are done with: their successors are
/// all marked, and none of them is `to`.
spec fn explored(m: ChainModel, to: int, seen: Seq<bool>, frontier: Seq<usize>, head: int) -> bool {
    forall|k: int, v: int|
        0 <= k < head && #[trigger] m.edge(frontier[k] as int, v) ==> seen[v] && v != to
}

/// Marking a state that was not marked and putting it at the end of the
/// frontier keeps the search in order.
proof fn lemma_discover(m: ChainModel, from: int, seen: Seq<bool>, frontier: Seq<usize>, v: usize)
    requires
        discovered(m, from, seen, frontier),
        v < m.len(),
        !seen[v as int],
        m.reachable(from, v as int),
    ensures
        discovered(m, from, seen.update(v as int, true), frontier.push(v)),
{
    let seen2 = seen.update(v as int, true);
    let frontier2 = frontier.push(v);
    assert forall|w: int| 0 <= w < seen2.len() && seen2[w] implies frontier2.contains(
        w as usize,
    ) by {
        if w == v {
            assert(frontier2[frontier.len() as int] == v);
        } else {
            let at = choose|at: int| 0 <= at < frontier.len() && frontier[at] == w as usize;
            assert(frontier2[at] == w as usize);
        }
    }
    assert forall|a: int, b: int|
        0 <= a < frontier2.len() && 0 <= b < frontier2.len() && a != b implies frontier2[a]
        != frontier2[b] by {
        if a < frontier.len() {
            assert(seen[frontier[a] as int]);
        }
        if b < frontier.len() {
            assert(seen[frontier[b] as int]);
        }
    }
}

/// Marking one more state and putting it at the end of the frontier leaves
/// the explored part as it was.
proof fn lemma_discover_keeps_explored(
    m: ChainModel,
    to: int,
    seen: Seq<bool>,
    frontier: Seq<usize>,
    head: int,
    v: usize,
)
    requires
        explored(m, to, seen, frontier, head),
        seen.len() == m.len(),
        v < m.len(),
        head <= frontier.len(),
    ensures
        explored(m, to, seen.update(v as int, true), frontier.push(v), head),
{
    let seen2 = seen.update(v as int, true);
    let frontier2 = frontier.push(v);
    assert forall|k: int, w: int|
        0 <= k < head && #[trigger] m.edge(frontier2[k] as int, w) implies seen2[w] && w != to by {
        assert(m.edge(frontier[k] as int, w));
    }
}

/// A list without repeats of numbers below `n` has at most `n` entries.
proof fn lemma_distinct_below(s: Seq<usize>, n: nat)
    requires
        s.no_duplicates(),
        forall|k: int| 0 <= k < s.len() ==> (#[trigger] s[k]) < n,
    ensures
        s.len() <= n,
    decreases n,
{
    if s.len() > 0 {
        if n == 0 {
            assert(s[0] < n);
        } else if exists|k: int| 0 <= k < s.len() && s[k] == n - 1 {
            let k = choose|k: int| 0 <= k < s.len() && s[k] == n - 1;
            let rest = s.subrange(0, k) + s.subrange(k + 1, s.len() as int);
            assert forall|a: int| 0 <= a < rest.len() implies (#[trigger] rest[a]) < n - 1 by {
                if a < k {
                    assert(rest[a] == s[a]);
                } else {
                    assert(rest[a] == s[a + 1]);
                }
            }
            assert forall|a: int, b: int|
                0 <= a < rest.len() && 0 <= b < rest.len() && a != b implies rest[a]
                != rest[b] by {
                let a0 = if a < k {
                    a
                } else {
                    a + 1
                };
                let b0 = if b < k {
                    b
                } else {
                    b + 1
                };
                assert(rest[a] == s[a0] && rest[b] == s[b0]);
            }
            lemma_distinct_below(rest, (n - 1) as nat);
        } else {
            lemma_distinct_below(s, (n - 1) as nat);
        }
    }
}

impl MarkovChain {
    /// Breadth-first search from the successors of `from`: whether `to` is a
    /// successor of a state that the search visits.
    ///
    /// `frontier` lists the states in the order in which they were found;
    /// those before `head` have been visited, the others wait their turn.
    /// `seen` marks the states that `frontier` holds.
    pub(crate) fn search(&self, from: usize, to: usize) -> (found: bool)
        requires
            from < self@.len(),
            to < self@.len(),
        ensures
            found == self@.accessible(from as int, to as int),
    {
        let n = self.len();
        let mut seen: Vec<bool> = Vec::new();
        while seen.len() < n
            invariant
                seen.len() <= n,
                forall|v: int| 0 <= v < seen.len() ==> !seen[v],
            decreases n - seen.len(),
        {
            seen.push(false);
        }
        let mut frontier: Vec<usize> = Vec::new();
        let first = self.get_states(from);
        let mut k: usize = 0;
        while k < first.len()
            invariant
                n == self@.len(),
                k <= first.len(),
                discovered(self@, from as int, seen@, frontier@),
                forall|a: int|
                    0 <= a < first.len() ==> self@.edge(from as int, #[trigger] first[a] as int),
                forall|a: int| 0 <= a < k ==> seen[#[trigger] first[a] as int],
            decreases first.len() - k,
        {
            let v = first[k];
            if !seen[v] {
                proof {
                    self@.lemma_edge_reachable(from as int, v as int);
                    lemma_discover(self@, from as int, seen@, frontier@, v);
                }
                seen.set(v, true);
                frontier.push(v);
            }
            k += 1;
        }
        proof {
            assert forall|v: int| self@.edge(from as int, v) implies seen[v] by {
                let at = choose|at: int| 0 <= at < first.len() && first[at] == v as usize;
                assert(seen[first[at] as int]);
            }
        }
        let mut head: usize = 0;
        while head < frontier.len()
            invariant
                n == self@.len(),
                from < n,
                to < n,
                head <= frontier.len(),
                discovered(self@, from as int, seen@, frontier@),
                forall|v: int| self@.edge(from as int, v) ==> seen[v],
                explored(self@, to as int, seen@, frontier@, head as int),
            decreases n - head,
        {
            proof {
                lemma_distinct_below(frontier@, n as nat);
            }
            let state = frontier[head];
            let next = self.get_states(state);
            let mut t: usize = 0;
            while t < next.len()
                invariant
                    n == self@.len(),
                    from < n,
                    to < n,
                    head < frontier.len(),
                    state == frontier[head as int],
                    t <= next.len(),
                    discovered(self@, from as int, seen@, frontier@),
                    forall|v: int| self@.edge(from as int, v) ==> seen[v],
                    explored(self@, to as int, seen@, frontier@, head as int),
                    forall|a: int|
                        0 <= a < next.len() ==> self@.edge(
                            state as int,
                            #[trigger] next[a] as int,
                        ),
                    forall|a: int| 0 <= a < t ==> seen[#[trigger] next[a] as int] && next[a] != to,
                decreases next.len() - t,
            {
                let v = next[t];
                if v == to {
                    proof {
                        self@.lemma_walk_then_edge(from as int, state as int, to as int, 1);
                    }
                    return true;
                }
                if !seen[v] {
                    proof {
                        self@.lemma_walk_then_edge(from as int, state as int, v as int, 1);
                        self@.lemma_reachable_split(from as int, v as int);
                        lemma_discover(self@, from as int, seen@, frontier@, v);
                        lemma_discover_keeps_explored(
                            self@,
                            to as int,
                            seen@,
                            frontier@,
                            head as int,
                            v,
                        );
                    }
                    seen.set(v, true);
                    frontier.push(v);
                }
                t += 1;
            }
            proof {
                assert forall|k: int, v: int|
                    0 <= k < head + 1 && #[trigger] self@.edge(
                        frontier@[k] as int,
                        v,
                    ) implies seen@[v] && v != to by {
                    if k == head {
                        let at = choose|at: int| 0 <= at < next.len() && next[at] == v as usize;
                        assert(seen[next[at] as int] && next[at] != to);
                    }
                }
            }
            head += 1;
        }
        proof {
            let inside = Set::new(|v: int| 0 <= v < n && seen@[v]);
            assert forall|u: int, v: int|
                inside.contains(u) && self@.edge(u, v) implies inside.contains(v) && v != to by {
                let at = choose|at: int| 0 <= at < frontier.len() && frontier[at] == u as usize;
                assert(self@.edge(frontier@[at] as int, v));
            }
            self@.lemma_closed_set_excludes(inside, from as int, to as int);
        }
        false
    }
}

} // verus!
