use crate::automaton::Automaton;
use vstd::prelude::*;

verus! {

/// The states of a set, as integers.
pub open spec fn ints(set: Set<usize>) -> Set<int> {
    Set::new(|q: int| 0 <= q <= usize::MAX && set.contains(q as usize))
}

impl Automaton {
    /// An epsilon edge leads from `p` to `q`.
    pub open spec fn eps_edge(self, p: int, q: int) -> bool {
        &&& 0 <= p < self.states()
        &&& exists|k: int|
            0 <= k < self.edges[p].len() && (#[trigger] self.edges[p][k]).label is Epsilon
                && self.edges[p][k].end == q
    }

    /// An edge that can be taken on reading `c` leads from `p` to `q`.
    pub open spec fn char_edge(self, p: int, c: char, q: int) -> bool {
        &&& 0 <= p < self.states()
        &&& exists|k: int|
            0 <= k < self.edges[p].len() && (#[trigger] self.edges[p][k]).label.accepts(c)
                && self.edges[p][k].end == q
    }

    /// `q` is reached from `p` by at most `n` epsilon edges.
    pub open spec fn eps_reach_within(self, p: int, q: int, n: nat) -> bool
        decreases n,
    {
        p == q || (n > 0 && exists|r: int|
            #[trigger] self.eps_edge(p, r) && self.eps_reach_within(r, q, (n - 1) as nat))
    }

    /// `q` is reached from `p` by epsilon edges alone, possibly none.
    pub open spec fn eps_reach(self, p: int, q: int) -> bool {
        exists|n: nat| self.eps_reach_within(p, q, n)
    }

    /// No epsilon edge leaves the set.
    pub open spec fn closed(self, set: Set<int>) -> bool {
        forall|p: int, q: int| set.contains(p) && #[trigger] self.eps_edge(p, q) ==> set.contains(q)
    }

    /// The states reached from a state of `set` by epsilon edges alone.
    pub open spec fn closure(self, set: Set<int>) -> Set<int> {
        Set::new(|q: int| exists|p: int| set.contains(p) && #[trigger] self.eps_reach(p, q))
    }

    /// The states reached from a state of `set` by one edge that reads `c`.
    pub open spec fn step(self, set: Set<int>, c: char) -> Set<int> {
        Set::new(|q: int| exists|p: int| set.contains(p) && #[trigger] self.char_edge(p, c, q))
    }

    /// The states in which the automaton can be after reading `w` from the
    /// initial state: the set of live states of the simulation.
    pub open spec fn frontier(self, w: Seq<char>) -> Set<int>
        decreases w.len(),
    {
        if w.len() == 0 {
            self.closure(set![0int])
        } else {
            self.closure(self.step(self.frontier(w.drop_last()), w.last()))
        }
    }

    /// The automaton can be in its accepting state after reading exactly `w`.
    pub open spec fn accepts(self, w: Seq<char>) -> bool {
        self.frontier(w).contains(self.accept())
    }
}

/// What is reached by at most `n` edges is reached by at most `m >= n` edges.
pub proof fn lemma_eps_reach_monotone(a: Automaton, p: int, q: int, n: nat, m: nat)
    requires
        a.eps_reach_within(p, q, n),
        n <= m,
    ensures
        a.eps_reach_within(p, q, m),
    decreases n,
{
    if p != q {
        let r = choose|r: int|
            #[trigger] a.eps_edge(p, r) && a.eps_reach_within(r, q, (n - 1) as nat);
        lemma_eps_reach_monotone(a, r, q, (n - 1) as nat, (m - 1) as nat);
    }
}

/// A path of epsilon edges can be extended by one more edge at its end.
pub proof fn lemma_eps_reach_extend(a: Automaton, p: int, r: int, q: int, n: nat)
    requires
        a.eps_reach_within(p, r, n),
        a.eps_edge(r, q),
    ensures
        a.eps_reach_within(p, q, n + 1),
        a.eps_reach(p, q),
    decreases n,
{
    if p == r {
        assert(a.eps_reach_within(q, q, 0));
        assert(a.eps_reach_within(p, q, 1));
        lemma_eps_reach_monotone(a, p, q, 1, n + 1);
    } else {
        let m = choose|m: int|
            #[trigger] a.eps_edge(p, m) && a.eps_reach_within(m, r, (n - 1) as nat);
        lemma_eps_reach_extend(a, m, r, q, (n - 1) as nat);
        assert(a.eps_reach_within(m, q, n));
    }
}

/// A set that no epsilon edge leaves holds whatever is reached from it.
pub proof fn lemma_closed_holds_reached(a: Automaton, set: Set<int>, p: int, q: int, n: nat)
    requires
        a.closed(set),
        set.contains(p),
        a.eps_reach_within(p, q, n),
    ensures
        set.contains(q),
    decreases n,
{
    if p != q {
        let r = choose|r: int|
            #[trigger] a.eps_edge(p, r) && a.eps_reach_within(r, q, (n - 1) as nat);
        lemma_closed_holds_reached(a, set, r, q, (n - 1) as nat);
    }
}

/// The closure of a set is the smallest set that contains it and that no
/// epsilon edge leaves.
pub proof fn lemma_closure_is_least(a: Automaton, set: Set<int>, other: Set<int>)
    ensures
        set.subset_of(a.closure(set)),
        a.closed(a.closure(set)),
        set.subset_of(other) && a.closed(other) ==> a.closure(set).subset_of(other),
{
    assert forall|p: int| set.contains(p) implies a.closure(set).contains(p) by {
        assert(a.eps_reach_within(p, p, 0));
        assert(a.eps_reach(p, p));
    }
    assert forall|p: int, q: int|
        a.closure(set).contains(p) && #[trigger] a.eps_edge(p, q) implies a.closure(set).contains(
        q,
    ) by {
        let o = choose|o: int| set.contains(o) && #[trigger] a.eps_reach(o, p);
        let n = choose|n: nat| a.eps_reach_within(o, p, n);
        lemma_eps_reach_extend(a, o, p, q, n);
    }
    if set.subset_of(other) && a.closed(other) {
        assert forall|q: int| a.closure(set).contains(q) implies other.contains(q) by {
            let o = choose|o: int| set.contains(o) && #[trigger] a.eps_reach(o, q);
            let n = choose|n: nat| a.eps_reach_within(o, q, n);
            lemma_closed_holds_reached(a, other, o, q, n);
        }
    }
}

/// In a well-formed automaton, what is reached from `p` is `p` or a state.
pub proof fn lemma_eps_reach_in_range(a: Automaton, p: int, q: int)
    requires
        a.wf(),
        a.eps_reach(p, q),
    ensures
        q == p || 0 <= q < a.states(),
        !(0 <= p < a.states()) ==> q == p,
{
    let n = choose|n: nat| a.eps_reach_within(p, q, n);
    lemma_eps_reach_within_in_range(a, p, q, n);
}

proof fn lemma_eps_reach_within_in_range(a: Automaton, p: int, q: int, n: nat)
    requires
        a.wf(),
        a.eps_reach_within(p, q, n),
    ensures
        q == p || 0 <= q < a.states(),
        !(0 <= p < a.states()) ==> q == p,
    decreases n,
{
    if p != q {
        let r = choose|r: int|
            #[trigger] a.eps_edge(p, r) && a.eps_reach_within(r, q, (n - 1) as nat);
        lemma_eps_reach_within_in_range(a, r, q, (n - 1) as nat);
    }
}

/// From no state, no state is reached.
pub proof fn lemma_empty_frontier(a: Automaton, c: char)
    ensures
        a.closure(Set::empty()) == Set::<int>::empty(),
        a.step(Set::empty(), c) == Set::<int>::empty(),
{
    assert(a.closure(Set::empty()) =~= Set::<int>::empty());
    assert(a.step(Set::empty(), c) =~= Set::<int>::empty());
}

/// Once no state is live, none becomes live again: after a prefix with an
/// empty frontier, every longer input has an empty frontier too.
pub proof fn lemma_frontier_stays_empty(a: Automaton, w: Seq<char>, k: int)
    requires
        0 <= k <= w.len(),
        a.frontier(w.take(k)) == Set::<int>::empty(),
    ensures
        a.frontier(w) == Set::<int>::empty(),
        !a.accepts(w),
    decreases w.len() - k,
{
    if k == w.len() {
        assert(w.take(k) == w);
    } else {
        lemma_empty_frontier(a, w[k]);
        assert(w.take(k + 1).drop_last() == w.take(k));
        assert(w.take(k + 1).last() == w[k]);
        lemma_frontier_stays_empty(a, w, k + 1);
    }
}

} // verus!
