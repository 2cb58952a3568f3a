//! Runs of an automaton: paths of edges and the words that they read.

use crate::automaton::{Automaton, Edge, Label};
use vstd::prelude::*;

verus! {

impl Automaton {
    /// An edge with label `label` leads from `p` to `q`.
    pub open spec fn has_edge(self, p: int, label: Label, q: int) -> bool {
        &&& 0 <= p < self.states()
        &&& exists|k: int|
            0 <= k < self.edges[p].len() && #[trigger] self.edges[p][k] == (Edge { label, end: q })
    }

    /// A path of at most `n` edges leads from `p` to `q` and reads `w`:
    /// its epsilon edges read nothing and each other edge reads one
    /// character that its label accepts.
    pub open spec fn run_within(self, p: int, w: Seq<char>, q: int, n: nat) -> bool
        decreases n,
    {
        (p == q && w.len() == 0) || (n > 0 && exists|label: Label, r: int|
            #[trigger] self.has_edge(p, label, r) && ((label is Epsilon && self.run_within(
                r,
                w,
                q,
                (n - 1) as nat,
            )) || (w.len() > 0 && label.accepts(w[0]) && self.run_within(
                r,
                w.drop_first(),
                q,
                (n - 1) as nat,
            ))))
    }

    /// Some path leads from `p` to `q` and reads `w`.
    pub open spec fn run(self, p: int, w: Seq<char>, q: int) -> bool {
        exists|n: nat| self.run_within(p, w, q, n)
    }

    /// The automaton reads `w` on some path from its initial state to its
    /// accepting state.
    pub open spec fn recognizes(self, w: Seq<char>) -> bool {
        self.run(0, w, self.accept())
    }

    /// The words that the automaton reads, as a predicate.
    pub open spec fn language(self) -> spec_fn(Seq<char>) -> bool {
        |w: Seq<char>| self.recognizes(w)
    }
}

/// An epsilon edge is an edge whose label is epsilon.
pub proof fn lemma_eps_edge_is_edge(a: Automaton, p: int, q: int)
    ensures
        a.eps_edge(p, q) <==> a.has_edge(p, Label::Epsilon, q),
{
    if a.eps_edge(p, q) {
        let k = choose|k: int|
            0 <= k < a.edges[p].len() && (#[trigger] a.edges[p][k]).label is Epsilon
                && a.edges[p][k].end == q;
        assert(a.edges[p][k] == Edge { label: Label::Epsilon, end: q });
    }
    if a.has_edge(p, Label::Epsilon, q) {
        let k = choose|k: int|
            0 <= k < a.edges[p].len() && #[trigger] a.edges[p][k] == (Edge {
                label: Label::Epsilon,
                end: q,
            });
        assert(a.edges[p][k].label is Epsilon);
    }
}

/// An edge that reads `c` is an edge whose label accepts `c`.
pub proof fn lemma_char_edge_is_edge(a: Automaton, p: int, c: char, q: int)
    ensures
        a.char_edge(p, c, q) <==> exists|label: Label|
            label.accepts(c) && #[trigger] a.has_edge(p, label, q),
{
    if a.char_edge(p, c, q) {
        let k = choose|k: int|
            0 <= k < a.edges[p].len() && (#[trigger] a.edges[p][k]).label.accepts(c)
                && a.edges[p][k].end == q;
        let label = a.edges[p][k].label;
        assert(a.edges[p][k] == Edge { label, end: q });
        assert(a.has_edge(p, label, q));
    }
    if exists|label: Label| label.accepts(c) && #[trigger] a.has_edge(p, label, q) {
        let label = choose|label: Label| label.accepts(c) && #[trigger] a.has_edge(p, label, q);
        let k = choose|k: int|
            0 <= k < a.edges[p].len() && #[trigger] a.edges[p][k] == (Edge { label, end: q });
        assert(a.edges[p][k].label.accepts(c));
    }
}

/// A run of at most `n` edges is a run of at most `m >= n` edges.
pub proof fn lemma_run_monotone(a: Automaton, p: int, w: Seq<char>, q: int, n: nat, m: nat)
    requires
        a.run_within(p, w, q, n),
        n <= m,
    ensures
        a.run_within(p, w, q, m),
    decreases n,
{
    if !(p == q && w.len() == 0) {
        let (label, r) = choose|label: Label, r: int|
            #[trigger] a.has_edge(p, label, r) && ((label is Epsilon && a.run_within(
                r,
                w,
                q,
                (n - 1) as nat,
            )) || (w.len() > 0 && label.accepts(w[0]) && a.run_within(
                r,
                w.drop_first(),
                q,
                (n - 1) as nat,
            )));
        if label is Epsilon && a.run_within(r, w, q, (n - 1) as nat) {
            lemma_run_monotone(a, r, w, q, (n - 1) as nat, (m - 1) as nat);
        } else {
            lemma_run_monotone(a, r, w.drop_first(), q, (n - 1) as nat, (m - 1) as nat);
        }
    }
}

/// An epsilon edge in front of a run gives a run of the same word.
pub proof fn lemma_run_after_eps(a: Automaton, p: int, r: int, w: Seq<char>, q: int, n: nat)
    requires
        a.has_edge(p, Label::Epsilon, r),
        a.run_within(r, w, q, n),
    ensures
        a.run_within(p, w, q, n + 1),
        a.run(p, w, q),
{
    assert(a.run_within(p, w, q, (n + 1) as nat));
}

/// An edge that reads `c` in front of a run gives a run of `c` and the word.
pub proof fn lemma_run_after_char(
    a: Automaton,
    p: int,
    label: Label,
    c: char,
    r: int,
    w: Seq<char>,
    q: int,
    n: nat,
)
    requires
        a.has_edge(p, label, r),
        label.accepts(c),
        a.run_within(r, w, q, n),
    ensures
        a.run_within(p, seq![c] + w, q, n + 1),
        a.run(p, seq![c] + w, q),
{
    let word = seq![c] + w;
    assert(word[0] == c);
    assert(word.drop_first() == w);
    assert(a.run_within(p, word, q, (n + 1) as nat));
}

/// Two runs, the second from where the first ends, make one run of the
/// two words in a row.
pub proof fn lemma_run_within_compose(
    a: Automaton,
    p: int,
    u: Seq<char>,
    r: int,
    v: Seq<char>,
    q: int,
    n: nat,
    m: nat,
)
    requires
        a.run_within(p, u, r, n),
        a.run_within(r, v, q, m),
    ensures
        a.run_within(p, u + v, q, n + m),
    decreases n,
{
    if p == r && u.len() == 0 {
        assert(u + v == v);
        lemma_run_monotone(a, r, v, q, m, n + m);
    } else {
        let (label, s) = choose|label: Label, s: int|
            #[trigger] a.has_edge(p, label, s) && ((label is Epsilon && a.run_within(
                s,
                u,
                r,
                (n - 1) as nat,
            )) || (u.len() > 0 && label.accepts(u[0]) && a.run_within(
                s,
                u.drop_first(),
                r,
                (n - 1) as nat,
            )));
        if label is Epsilon && a.run_within(s, u, r, (n - 1) as nat) {
            lemma_run_within_compose(a, s, u, r, v, q, (n - 1) as nat, m);
        } else {
            lemma_run_within_compose(a, s, u.drop_first(), r, v, q, (n - 1) as nat, m);
            assert((u + v).drop_first() == u.drop_first() + v);
            assert((u + v)[0] == u[0]);
        }
    }
}

/// Two runs, the second from where the first ends, make one run of the
/// two words in a row.
pub proof fn lemma_run_compose(a: Automaton, p: int, u: Seq<char>, r: int, v: Seq<char>, q: int)
    requires
        a.run(p, u, r),
        a.run(r, v, q),
    ensures
        a.run(p, u + v, q),
{
    let n = choose|n: nat| a.run_within(p, u, r, n);
    let m = choose|m: nat| a.run_within(r, v, q, m);
    lemma_run_within_compose(a, p, u, r, v, q, n, m);
}

/// Reaching by epsilon edges is running on the empty word.
pub proof fn lemma_eps_reach_is_run(a: Automaton, p: int, q: int)
    ensures
        a.eps_reach(p, q) <==> a.run(p, Seq::empty(), q),
{
    if a.eps_reach(p, q) {
        let n = choose|n: nat| a.eps_reach_within(p, q, n);
        lemma_eps_reach_within_is_run(a, p, q, n);
    }
    if a.run(p, Seq::empty(), q) {
        let n = choose|n: nat| a.run_within(p, Seq::empty(), q, n);
        lemma_empty_run_is_eps_reach(a, p, q, n);
    }
}

proof fn lemma_eps_reach_within_is_run(a: Automaton, p: int, q: int, n: nat)
    requires
        a.eps_reach_within(p, q, n),
    ensures
        a.run_within(p, Seq::empty(), q, n),
    decreases n,
{
    if p != q {
        let r = choose|r: int|
            #[trigger] a.eps_edge(p, r) && a.eps_reach_within(r, q, (n - 1) as nat);
        lemma_eps_reach_within_is_run(a, r, q, (n - 1) as nat);
        lemma_eps_edge_is_edge(a, p, r);
    }
}

proof fn lemma_empty_run_is_eps_reach(a: Automaton, p: int, q: int, n: nat)
    requires
        a.run_within(p, Seq::empty(), q, n),
    ensures
        a.eps_reach_within(p, q, n),
    decreases n,
{
    let w = Seq::<char>::empty();
    if p != q {
        let (label, r) = choose|label: Label, r: int|
            #[trigger] a.has_edge(p, label, r) && ((label is Epsilon && a.run_within(
                r,
                w,
                q,
                (n - 1) as nat,
            )) || (w.len() > 0 && label.accepts(w[0]) && a.run_within(
                r,
                w.drop_first(),
                q,
                (n - 1) as nat,
            )));
        lemma_empty_run_is_eps_reach(a, r, q, (n - 1) as nat);
        lemma_eps_edge_is_edge(a, p, r);
    }
}

/// A run of a word and one more character is a run of the word, one edge
/// that reads the character, and epsilon edges.
pub proof fn lemma_run_split_last(a: Automaton, p: int, w: Seq<char>, c: char, q: int, n: nat)
    requires
        a.run_within(p, w.push(c), q, n),
    ensures
        exists|before: int, after: int|
            #![trigger a.char_edge(before, c, after)]
            a.run(p, w, before) && a.char_edge(before, c, after) && a.eps_reach(after, q),
    decreases n,
{
    let word = w.push(c);
    let (label, r) = choose|label: Label, r: int|
        #[trigger] a.has_edge(p, label, r) && ((label is Epsilon && a.run_within(
            r,
            word,
            q,
            (n - 1) as nat,
        )) || (word.len() > 0 && label.accepts(word[0]) && a.run_within(
            r,
            word.drop_first(),
            q,
            (n - 1) as nat,
        )));
    if label is Epsilon && a.run_within(r, word, q, (n - 1) as nat) {
        lemma_run_split_last(a, r, w, c, q, (n - 1) as nat);
        let (before, after) = choose|before: int, after: int|
            #![trigger a.char_edge(before, c, after)]
            a.run(r, w, before) && a.char_edge(before, c, after) && a.eps_reach(after, q);
        let m = choose|m: nat| a.run_within(r, w, before, m);
        lemma_run_after_eps(a, p, r, w, before, m);
    } else if w.len() == 0 {
        assert(word.drop_first() == Seq::<char>::empty());
        assert(word[0] == c);
        assert(a.run(r, Seq::empty(), q));
        lemma_eps_reach_is_run(a, r, q);
        lemma_char_edge_is_edge(a, p, c, r);
        assert(a.run_within(p, w, p, 0));
        assert(a.char_edge(p, c, r));
    } else {
        assert(word.drop_first() == w.drop_first().push(c));
        lemma_run_split_last(a, r, w.drop_first(), c, q, (n - 1) as nat);
        let (before, after) = choose|before: int, after: int|
            #![trigger a.char_edge(before, c, after)]
            a.run(r, w.drop_first(), before) && a.char_edge(before, c, after) && a.eps_reach(
                after,
                q,
            );
        let m = choose|m: nat| a.run_within(r, w.drop_first(), before, m);
        assert(word[0] == w[0]);
        lemma_run_after_char(a, p, label, w[0], r, w.drop_first(), before, m);
        assert(seq![w[0]] + w.drop_first() == w);
    }
}

/// The live states after reading `w` are the states that a run from the
/// initial state reaches on `w`.
pub proof fn lemma_frontier_is_run(a: Automaton, w: Seq<char>, q: int)
    ensures
        a.frontier(w).contains(q) <==> a.run(0, w, q),
    decreases w.len(),
{
    if w.len() == 0 {
        assert(w == Seq::<char>::empty());
        lemma_eps_reach_is_run(a, 0, q);
        if a.frontier(w).contains(q) {
            let p = choose|p: int| set![0int].contains(p) && #[trigger] a.eps_reach(p, q);
        }
    } else {
        let head = w.drop_last();
        let c = w.last();
        assert(head.push(c) == w);
        let mid = a.step(a.frontier(head), c);
        if a.frontier(w).contains(q) {
            let after = choose|after: int| mid.contains(after) && #[trigger] a.eps_reach(after, q);
            let before = choose|before: int|
                a.frontier(head).contains(before) && #[trigger] a.char_edge(before, c, after);
            lemma_frontier_is_run(a, head, before);
            lemma_char_edge_is_edge(a, before, c, after);
            let label = choose|label: Label|
                label.accepts(c) && #[trigger] a.has_edge(before, label, after);
            lemma_eps_reach_is_run(a, after, q);
            let m = choose|m: nat| a.run_within(after, Seq::empty(), q, m);
            lemma_run_after_char(a, before, label, c, after, Seq::empty(), q, m);
            assert(seq![c] + Seq::<char>::empty() == seq![c]);
            lemma_run_compose(a, 0, head, before, seq![c], q);
            assert(head + seq![c] == w);
        }
        if a.run(0, w, q) {
            let n = choose|n: nat| a.run_within(0, w, q, n);
            lemma_run_split_last(a, 0, head, c, q, n);
            let (before, after) = choose|before: int, after: int|
                #![trigger a.char_edge(before, c, after)]
                a.run(0, head, before) && a.char_edge(before, c, after) && a.eps_reach(after, q);
            lemma_frontier_is_run(a, head, before);
            assert(mid.contains(after));
        }
    }
}

/// The simulation accepts a word exactly when some path from the initial
/// state to the accepting state reads it.
pub proof fn lemma_accepts_is_recognizes(a: Automaton, w: Seq<char>)
    ensures
        a.accepts(w) <==> a.recognizes(w),
{
    lemma_frontier_is_run(a, w, a.accept());
}

} // verus!
