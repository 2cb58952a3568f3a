//! Why the automaton of a syntax tree reads exactly the words that the
//! tree describes.

use crate::automaton::{grow_rows, lemma_add_edge_wf, shift_edges, Automaton, Edge, Label};
use crate::ast::Ast;
use crate::language::{
    effective_bound, in_power, in_powers, in_sequence, lemma_in_power_append, lemma_in_power_one,
    lemma_in_power_or_empty, lemma_in_power_or_empty_grows, lemma_in_power_split,
    lemma_in_powers_congruence, lemma_in_sequence_congruence, or_empty,
};
use crate::runs::{lemma_run_monotone, lemma_run_within_compose};
use vstd::prelude::*;

verus! {

/// The edges after `add_edge` are the edges before and the one added.
pub proof fn lemma_edges_of_add_edge(
    a: Automaton,
    from: int,
    added: Label,
    to: int,
    p: int,
    label: Label,
    q: int,
)
    requires
        0 <= from,
        0 <= to,
    ensures
        a.add_edge(from, added, to).has_edge(p, label, q) <==> a.has_edge(p, label, q) || (p
            == from && label == added && q == to),
{
    let b = a.add_edge(from, added, to);
    let wide = grow_rows(
        a.edges,
        if from < to {
            to + 1
        } else {
            from + 1
        },
    );
    let edge = Edge { label, end: q };
    if a.has_edge(p, label, q) {
        let k = choose|k: int| 0 <= k < a.edges[p].len() && #[trigger] a.edges[p][k] == edge;
        assert(b.edges[p][k] == edge);
    }
    if p == from && label == added && q == to {
        assert(b.edges[p][wide[p].len() as int] == edge);
    }
    if b.has_edge(p, label, q) {
        let k = choose|k: int| 0 <= k < b.edges[p].len() && #[trigger] b.edges[p][k] == edge;
        if p == from && k == wide[p].len() {
        } else {
            assert(p < a.states());
            assert(a.edges[p][k] == edge);
        }
    }
}

/// The edges after `embed` are the edges before and those of the copy.
pub proof fn lemma_edges_of_embed(
    a: Automaton,
    other: Automaton,
    offset: int,
    p: int,
    label: Label,
    q: int,
)
    requires
        0 <= offset,
    ensures
        a.embed(other, offset).has_edge(p, label, q) <==> a.has_edge(p, label, q)
            || other.has_edge(p - offset, label, q - offset),
{
    let b = a.embed(other, offset);
    let wide = grow_rows(a.edges, offset + other.states());
    let edge = Edge { label, end: q };
    if a.has_edge(p, label, q) {
        let k = choose|k: int| 0 <= k < a.edges[p].len() && #[trigger] a.edges[p][k] == edge;
        assert(b.edges[p][k] == edge);
    }
    if other.has_edge(p - offset, label, q - offset) {
        let inner = Edge { label, end: q - offset };
        let k = choose|k: int|
            0 <= k < other.edges[p - offset].len() && #[trigger] other.edges[p - offset][k]
                == inner;
        assert(shift_edges(other.edges[p - offset], offset)[k] == edge);
        assert(b.edges[p][wide[p].len() + k] == edge);
    }
    if b.has_edge(p, label, q) {
        let k = choose|k: int| 0 <= k < b.edges[p].len() && #[trigger] b.edges[p][k] == edge;
        if k < wide[p].len() {
            assert(a.edges[p][k] == edge);
        } else {
            let j = k - wide[p].len();
            assert(shift_edges(other.edges[p - offset], offset)[j] == edge);
            assert(other.edges[p - offset][j] == Edge { label, end: q - offset });
        }
    }
}

/// A run of `c` that starts in a set of states which no edge of `c`
/// leaves, and in which every edge of `c` is an edge of `a` moved by
/// `offset`, is a run of `a`.
pub proof fn lemma_run_transfer(
    c: Automaton,
    a: Automaton,
    offset: int,
    good: Set<int>,
    p: int,
    w: Seq<char>,
    q: int,
    n: nat,
)
    requires
        good.contains(p),
        forall|s: int, label: Label, t: int|
            good.contains(s) && #[trigger] c.has_edge(s, label, t) ==> good.contains(t)
                && a.has_edge(s - offset, label, t - offset),
        c.run_within(p, w, q, n),
    ensures
        a.run_within(p - offset, w, q - offset, n),
        good.contains(q),
    decreases n,
{
    if !(p == q && w.len() == 0) {
        let (label, r) = choose|label: Label, r: int|
            #[trigger] c.has_edge(p, label, r) && ((label is Epsilon && c.run_within(
                r,
                w,
                q,
                (n - 1) as nat,
            )) || (w.len() > 0 && label.accepts(w[0]) && c.run_within(
                r,
                w.drop_first(),
                q,
                (n - 1) as nat,
            )));
        assert(a.has_edge(p - offset, label, r - offset));
        if label is Epsilon && c.run_within(r, w, q, (n - 1) as nat) {
            lemma_run_transfer(c, a, offset, good, r, w, q, (n - 1) as nat);
        } else {
            lemma_run_transfer(c, a, offset, good, r, w.drop_first(), q, (n - 1) as nat);
        }
    }
}

/// A run of `a` is a run of every automaton that has the edges of `a`
/// moved by `offset`.
pub proof fn lemma_run_embed(
    c: Automaton,
    a: Automaton,
    offset: int,
    p: int,
    w: Seq<char>,
    q: int,
    n: nat,
)
    requires
        forall|s: int, label: Label, t: int| #[trigger]
            a.has_edge(s, label, t) ==> c.has_edge(s + offset, label, t + offset),
        a.run_within(p, w, q, n),
    ensures
        c.run_within(p + offset, w, q + offset, n),
        c.run(p + offset, w, q + offset),
    decreases n,
{
    if !(p == q && w.len() == 0) {
        let (label, r) = choose|label: Label, r: int|
            #[trigger] a.has_edge(p, label, r) && ((label is Epsilon && a.run_within(
                r,
                w,
                q,
                (n - 1) as nat,
            )) || (w.len() > 0 && label.accepts(w[0]) && a.run_within(
                r,
                w.drop_first(),
                q,
                (n - 1) as nat,
            )));
        assert(c.has_edge(p + offset, label, r + offset));
        if label is Epsilon && a.run_within(r, w, q, (n - 1) as nat) {
            lemma_run_embed(c, a, offset, r, w, q, (n - 1) as nat);
        } else {
            lemma_run_embed(c, a, offset, r, w.drop_first(), q, (n - 1) as nat);
        }
    }
    assert(c.run_within(p + offset, w, q + offset, n));
}

/// The copy of `a` at `offset` in `c` is intact but for its last state:
/// from each other state of the copy, `c` has the edges of `a` and no others.
pub open spec fn holds_copy(c: Automaton, a: Automaton, offset: int) -> bool {
    &&& forall|s: int, label: Label, t: int| #[trigger]
        a.has_edge(s, label, t) ==> c.has_edge(s + offset, label, t + offset)
    &&& forall|s: int, label: Label, t: int|
        offset <= s < offset + a.accept() && #[trigger] c.has_edge(s, label, t) ==> a.has_edge(
            s - offset,
            label,
            t - offset,
        )
}

/// A run of `c` that starts in an intact copy of `a` either stays in the
/// copy, and is a run of `a`, or passes through the last state of the copy:
/// up to there it is a run of `a`, and what remains is a run of `c`.
pub proof fn lemma_run_leaves_copy(
    c: Automaton,
    a: Automaton,
    offset: int,
    p: int,
    w: Seq<char>,
    q: int,
    n: nat,
)
    requires
        a.wf(),
        holds_copy(c, a, offset),
        offset <= p < offset + a.states(),
        c.run_within(p, w, q, n),
    ensures
        (offset <= q < offset + a.states() && a.run_within(p - offset, w, q - offset, n))
            || exists|k: int, m: nat|
            #![trigger c.run_within(offset + a.accept(), w.skip(k), q, m)]
            0 <= k <= w.len() && m <= n && a.run_within(p - offset, w.take(k), a.accept(), n)
                && c.run_within(offset + a.accept(), w.skip(k), q, m),
    decreases n,
{
    let exit = offset + a.accept();
    if p == exit {
        assert(w.skip(0) == w);
        assert(w.take(0).len() == 0);
        assert(a.run_within(p - offset, w.take(0), a.accept(), n));
        assert(c.run_within(exit, w.skip(0), q, n));
    } else if p == q && w.len() == 0 {
    } else {
        let (label, r) = choose|label: Label, r: int|
            #[trigger] c.has_edge(p, label, r) && ((label is Epsilon && c.run_within(
                r,
                w,
                q,
                (n - 1) as nat,
            )) || (w.len() > 0 && label.accepts(w[0]) && c.run_within(
                r,
                w.drop_first(),
                q,
                (n - 1) as nat,
            )));
        assert(a.has_edge(p - offset, label, r - offset));
        lemma_edge_in_range(a, p - offset, label, r - offset);
        if label is Epsilon && c.run_within(r, w, q, (n - 1) as nat) {
            lemma_run_leaves_copy(c, a, offset, r, w, q, (n - 1) as nat);
            if offset <= q < offset + a.states() && a.run_within(
                r - offset,
                w,
                q - offset,
                (n - 1) as nat,
            ) {
                assert(a.run_within(p - offset, w, q - offset, n));
            } else {
                let (k, m) = choose|k: int, m: nat|
                    #![trigger c.run_within(exit, w.skip(k), q, m)]
                    0 <= k <= w.len() && m <= n - 1 && a.run_within(
                        r - offset,
                        w.take(k),
                        a.accept(),
                        (n - 1) as nat,
                    ) && c.run_within(exit, w.skip(k), q, m);
                assert(a.run_within(p - offset, w.take(k), a.accept(), n));
                assert(c.run_within(exit, w.skip(k), q, m));
            }
        } else {
            let rest = w.drop_first();
            lemma_run_leaves_copy(c, a, offset, r, rest, q, (n - 1) as nat);
            if offset <= q < offset + a.states() && a.run_within(
                r - offset,
                rest,
                q - offset,
                (n - 1) as nat,
            ) {
                assert(a.run_within(p - offset, w, q - offset, n));
            } else {
                let (k, m) = choose|k: int, m: nat|
                    #![trigger c.run_within(exit, rest.skip(k), q, m)]
                    0 <= k <= rest.len() && m <= n - 1 && a.run_within(
                        r - offset,
                        rest.take(k),
                        a.accept(),
                        (n - 1) as nat,
                    ) && c.run_within(exit, rest.skip(k), q, m);
                assert(w.take(k + 1).drop_first() == rest.take(k));
                assert(w.take(k + 1)[0] == w[0]);
                assert(w.skip(k + 1) == rest.skip(k));
                assert(a.run_within(p - offset, w.take(k + 1), a.accept(), n));
                assert(c.run_within(exit, w.skip(k + 1), q, m));
            }
        }
    }
}

/// An edge of a well-formed automaton leads to a state.
pub proof fn lemma_edge_in_range(a: Automaton, p: int, label: Label, q: int)
    requires
        a.wf(),
        a.has_edge(p, label, q),
    ensures
        0 <= p < a.states(),
        0 <= q < a.states(),
{
    let k = choose|k: int|
        0 <= k < a.edges[p].len() && #[trigger] a.edges[p][k] == (Edge { label, end: q });
    assert(a.edges[p][k].end == q);
}

/// A run that starts in a state without edges goes nowhere and reads nothing.
pub proof fn lemma_run_from_dead_end(a: Automaton, p: int, w: Seq<char>, q: int, n: nat)
    requires
        forall|label: Label, t: int| !#[trigger] a.has_edge(p, label, t),
        a.run_within(p, w, q, n),
    ensures
        p == q,
        w.len() == 0,
{
}

/// The shape of the automaton of a syntax tree: at least two states, no
/// edge out of the accepting state, and no edge into the initial state.
pub open spec fn shaped(a: Automaton) -> bool {
    &&& a.wf()
    &&& a.states() >= 2
    &&& forall|label: Label, t: int| !#[trigger] a.has_edge(a.accept(), label, t)
    &&& forall|s: int, label: Label| !#[trigger] a.has_edge(s, label, 0)
}

/// The words that an edge with label `label` reads.
pub open spec fn reads(label: Label, w: Seq<char>) -> bool {
    match label {
        Label::Epsilon => w.len() == 0,
        _ => w.len() == 1 && label.accepts(w[0]),
    }
}

/// The automaton of one edge has one edge.
pub proof fn lemma_atom_edges(added: Label)
    ensures
        forall|p: int, label: Label, q: int| #[trigger]
            Automaton::atom(added).has_edge(p, label, q) <==> p == 0 && label == added && q == 1,
{
    assert forall|p: int, label: Label, q: int| #[trigger]
        Automaton::atom(added).has_edge(p, label, q) <==> p == 0 && label == added && q
            == 1 by {
        lemma_edges_of_add_edge(Automaton::empty(), 0, added, 1, p, label, q);
    }
}

/// The automaton of one edge reads what the edge reads.
pub proof fn lemma_atom_reads(added: Label, w: Seq<char>)
    ensures
        shaped(Automaton::atom(added)),
        Automaton::atom(added).recognizes(w) <==> reads(added, w),
{
    let a = Automaton::atom(added);
    lemma_atom_edges(added);
    lemma_add_edge_wf(Automaton::empty(), 0, added, 1);
    assert(a.has_edge(0, added, 1));
    if a.recognizes(w) {
        let n = choose|n: nat| a.run_within(0, w, 1, n);
        let (label, r) = choose|label: Label, r: int|
            #[trigger] a.has_edge(0, label, r) && ((label is Epsilon && a.run_within(
                r,
                w,
                1,
                (n - 1) as nat,
            )) || (w.len() > 0 && label.accepts(w[0]) && a.run_within(
                r,
                w.drop_first(),
                1,
                (n - 1) as nat,
            )));
        if label is Epsilon && a.run_within(r, w, 1, (n - 1) as nat) {
            lemma_run_from_dead_end(a, 1, w, 1, (n - 1) as nat);
        } else {
            lemma_run_from_dead_end(a, 1, w.drop_first(), 1, (n - 1) as nat);
        }
    }
    if reads(added, w) {
        assert(a.run_within(1, Seq::empty(), 1, 0));
        if added is Epsilon {
            assert(w == Seq::<char>::empty());
            assert(a.run_within(0, w, 1, 1));
        } else {
            assert(w.drop_first() == Seq::<char>::empty());
            assert(a.run_within(0, w, 1, 1));
        }
    }
}

/// The edges of a concatenation: those of the first automaton, those of
/// the copy of the second, and the edge that joins them.
pub proof fn lemma_concatenate_edges(a: Automaton, b: Automaton)
    requires
        a.states() >= 1,
    ensures
        forall|p: int, label: Label, q: int| #[trigger]
            a.concatenate(b).has_edge(p, label, q) <==> a.has_edge(p, label, q) || b.has_edge(
                p - a.states(),
                label,
                q - a.states(),
            ) || (p == a.states() - 1 && label == Label::Epsilon && q == a.states()),
{
    let n = a.states();
    assert forall|p: int, label: Label, q: int| #[trigger]
        a.concatenate(b).has_edge(p, label, q) <==> a.has_edge(p, label, q) || b.has_edge(
            p - n,
            label,
            q - n,
        ) || (p == n - 1 && label == Label::Epsilon && q == n) by {
        lemma_edges_of_embed(a, b, n, p, label, q);
        lemma_edges_of_add_edge(a.embed(b, n), n - 1, Label::Epsilon, n, p, label, q);
    }
}

/// A concatenation reads a word of the first automaton followed by a word
/// of the second.
pub proof fn lemma_concatenate_reads(a: Automaton, b: Automaton, w: Seq<char>)
    requires
        shaped(a),
        shaped(b),
    ensures
        a.concatenate(b).recognizes(w) <==> exists|k: int|
            0 <= k <= w.len() && a.recognizes(#[trigger] w.take(k)) && b.recognizes(w.skip(k)),
{
    let c = a.concatenate(b);
    let n = a.states();
    lemma_concatenate_edges(a, b);
    crate::automaton::lemma_concatenate(a, b);
    assert(holds_copy(c, a, 0)) by {
        assert forall|s: int, label: Label, t: int|
            0 <= s < a.accept() && #[trigger] c.has_edge(s, label, t) implies a.has_edge(
            s,
            label,
            t,
        ) by {}
    }
    assert(holds_copy(c, b, n)) by {
        assert forall|s: int, label: Label, t: int|
            n <= s < n + b.accept() && #[trigger] c.has_edge(s, label, t) implies b.has_edge(
            s - n,
            label,
            t - n,
        ) by {
            if a.has_edge(s, label, t) {
                lemma_edge_in_range(a, s, label, t);
            }
        }
    }
    if c.recognizes(w) {
        let steps = choose|steps: nat| c.run_within(0, w, c.accept(), steps);
        lemma_run_leaves_copy(c, a, 0, 0, w, c.accept(), steps);
        let (k, m) = choose|k: int, m: nat|
            #![trigger c.run_within(a.accept(), w.skip(k), c.accept(), m)]
            0 <= k <= w.len() && m <= steps && a.run_within(0, w.take(k), a.accept(), steps)
                && c.run_within(a.accept(), w.skip(k), c.accept(), m);
        let v = w.skip(k);
        // the only way on from the first automaton is the joining edge
        let (label, r) = choose|label: Label, r: int|
            #[trigger] c.has_edge(a.accept(), label, r) && ((label is Epsilon && c.run_within(
                r,
                v,
                c.accept(),
                (m - 1) as nat,
            )) || (v.len() > 0 && label.accepts(v[0]) && c.run_within(
                r,
                v.drop_first(),
                c.accept(),
                (m - 1) as nat,
            )));
        if b.has_edge(a.accept() - n, label, r - n) {
            lemma_edge_in_range(b, a.accept() - n, label, r - n);
        }
        assert(r == n && label == Label::Epsilon);
        lemma_run_leaves_copy(c, b, n, n, v, c.accept(), (m - 1) as nat);
        if !b.run_within(0, v, b.accept(), (m - 1) as nat) {
            let (j, i) = choose|j: int, i: nat|
                #![trigger c.run_within(n + b.accept(), v.skip(j), c.accept(), i)]
                0 <= j <= v.len() && i <= m - 1 && b.run_within(
                    0,
                    v.take(j),
                    b.accept(),
                    (m - 1) as nat,
                ) && c.run_within(n + b.accept(), v.skip(j), c.accept(), i);
            assert forall|label: Label, t: int| !#[trigger] c.has_edge(
                c.accept(),
                label,
                t,
            ) by {
                if a.has_edge(c.accept(), label, t) {
                    lemma_edge_in_range(a, c.accept(), label, t);
                }
            }
            lemma_run_from_dead_end(c, c.accept(), v.skip(j), c.accept(), i);
            assert(v.take(j) == v);
        }
        assert(a.recognizes(w.take(k)));
        assert(b.recognizes(w.skip(k)));
    }
    if exists|k: int|
        0 <= k <= w.len() && a.recognizes(#[trigger] w.take(k)) && b.recognizes(w.skip(k)) {
        let k = choose|k: int|
            0 <= k <= w.len() && a.recognizes(#[trigger] w.take(k)) && b.recognizes(w.skip(k));
        let i = choose|i: nat| a.run_within(0, w.take(k), a.accept(), i);
        let j = choose|j: nat| b.run_within(0, w.skip(k), b.accept(), j);
        lemma_run_embed(c, a, 0, 0, w.take(k), a.accept(), i);
        lemma_run_embed(c, b, n, 0, w.skip(k), b.accept(), j);
        assert(c.has_edge(n - 1, Label::Epsilon, n));
        crate::runs::lemma_run_after_eps(c, n - 1, n, w.skip(k), c.accept(), j);
        lemma_run_within_compose(c, 0, w.take(k), n - 1, w.skip(k), c.accept(), i, j + 1);
        assert(w.take(k) + w.skip(k) == w);
        assert(c.run_within(0, w, c.accept(), i + j + 1));
    }
}

/// A concatenation of automata of the shape has the shape.
pub proof fn lemma_concatenate_shaped(a: Automaton, b: Automaton)
    requires
        shaped(a),
        shaped(b),
    ensures
        shaped(a.concatenate(b)),
{
    let c = a.concatenate(b);
    lemma_concatenate_edges(a, b);
    crate::automaton::lemma_concatenate(a, b);
    assert forall|label: Label, t: int| !#[trigger] c.has_edge(c.accept(), label, t) by {
        if a.has_edge(c.accept(), label, t) {
            lemma_edge_in_range(a, c.accept(), label, t);
        }
        assert(c.accept() - a.states() == b.accept());
        assert(!b.has_edge(b.accept(), label, t - a.states()));
    }
    assert forall|s: int, label: Label| !#[trigger] c.has_edge(s, label, 0) by {
        if b.has_edge(s - a.states(), label, 0 - a.states()) {
            lemma_edge_in_range(b, s - a.states(), label, 0 - a.states());
        }
    }
}

/// The edges of an alternation: from the new initial state into both
/// copies, those of both copies, and from both copies to the new accepting
/// state.
pub proof fn lemma_alternate_edges(a: Automaton, b: Automaton)
    requires
        a.states() >= 1,
        b.states() >= 1,
    ensures
        forall|p: int, label: Label, q: int| #[trigger]
            a.alternate(b).has_edge(p, label, q) <==> (p == 0 && label == Label::Epsilon && (q == 1
                || q == a.states() + 1)) || a.has_edge(p - 1, label, q - 1) || b.has_edge(
                p - (a.states() + 1),
                label,
                q - (a.states() + 1),
            ) || (label == Label::Epsilon && q == a.states() + 1 + b.states() && (p == a.states()
                || p == a.states() + b.states())),
{
    let offset = a.states() + 1;
    let end = offset + b.states();
    let s0 = Automaton::empty();
    let s1 = s0.add_edge(0, Label::Epsilon, 1);
    let s2 = s1.add_edge(0, Label::Epsilon, offset);
    let s3 = s2.embed(a, 1);
    let s4 = s3.embed(b, offset);
    let s5 = s4.add_edge(offset - 1, Label::Epsilon, end);
    assert forall|p: int, label: Label, q: int| #[trigger]
        a.alternate(b).has_edge(p, label, q) <==> (p == 0 && label == Label::Epsilon && (q == 1
            || q == offset)) || a.has_edge(p - 1, label, q - 1) || b.has_edge(
            p - offset,
            label,
            q - offset,
        ) || (label == Label::Epsilon && q == end && (p == offset - 1 || p == end - 1)) by {
        lemma_edges_of_add_edge(s0, 0, Label::Epsilon, 1, p, label, q);
        lemma_edges_of_add_edge(s1, 0, Label::Epsilon, offset, p, label, q);
        lemma_edges_of_embed(s2, a, 1, p, label, q);
        lemma_edges_of_embed(s3, b, offset, p, label, q);
        lemma_edges_of_add_edge(s4, offset - 1, Label::Epsilon, end, p, label, q);
        lemma_edges_of_add_edge(s5, end - 1, Label::Epsilon, end, p, label, q);
    }
}

/// The first edge of a run that goes somewhere.
pub open spec fn first_edge(a: Automaton, p: int, w: Seq<char>, q: int, n: nat) -> (Label, int) {
    choose|label: Label, r: int|
        #[trigger] a.has_edge(p, label, r) && ((label is Epsilon && a.run_within(
            r,
            w,
            q,
            (n - 1) as nat,
        )) || (w.len() > 0 && label.accepts(w[0]) && a.run_within(
            r,
            w.drop_first(),
            q,
            (n - 1) as nat,
        )))
}

/// A run that does not end where it starts, or that reads something,
/// begins with an edge.
pub proof fn lemma_first_edge(a: Automaton, p: int, w: Seq<char>, q: int, n: nat)
    requires
        a.run_within(p, w, q, n),
        p != q || w.len() > 0,
    ensures
        n > 0,
        ({
            let (label, r) = first_edge(a, p, w, q, n);
            a.has_edge(p, label, r) && ((label is Epsilon && a.run_within(
                r,
                w,
                q,
                (n - 1) as nat,
            )) || (w.len() > 0 && label.accepts(w[0]) && a.run_within(
                r,
                w.drop_first(),
                q,
                (n - 1) as nat,
            )))
        }),
{
}

/// One branch of an alternation: a run from the first state of a copy to
/// the new accepting state reads a word of the copy.
proof fn lemma_branch_reads(
    c: Automaton,
    a: Automaton,
    offset: int,
    end: int,
    w: Seq<char>,
    n: nat,
)
    requires
        shaped(a),
        holds_copy(c, a, offset),
        forall|label: Label, t: int| #[trigger]
            c.has_edge(offset + a.accept(), label, t) ==> label == Label::Epsilon && t == end,
        forall|label: Label, t: int| !#[trigger] c.has_edge(end, label, t),
        !(offset <= end < offset + a.states()),
        c.run_within(offset, w, end, n),
    ensures
        a.recognizes(w),
{
    lemma_run_leaves_copy(c, a, offset, offset, w, end, n);
    let exit = offset + a.accept();
    let (k, m) = choose|k: int, m: nat|
        #![trigger c.run_within(exit, w.skip(k), end, m)]
        0 <= k <= w.len() && m <= n && a.run_within(0, w.take(k), a.accept(), n) && c.run_within(
            exit,
            w.skip(k),
            end,
            m,
        );
    let v = w.skip(k);
    lemma_first_edge(c, exit, v, end, m);
    let (label, r) = first_edge(c, exit, v, end, m);
    assert(r == end && label == Label::Epsilon);
    lemma_run_from_dead_end(c, end, v, end, (m - 1) as nat);
    assert(w.take(k) == w);
}

/// An alternation reads the words of the first automaton and those of the second.
pub proof fn lemma_alternate_reads(a: Automaton, b: Automaton, w: Seq<char>)
    requires
        shaped(a),
        shaped(b),
    ensures
        a.alternate(b).recognizes(w) <==> a.recognizes(w) || b.recognizes(w),
{
    let c = a.alternate(b);
    let offset = a.states() + 1;
    let end = offset + b.states();
    lemma_alternate_edges(a, b);
    crate::automaton::lemma_alternate(a, b);
    assert(holds_copy(c, a, 1)) by {
        assert forall|s: int, label: Label, t: int|
            1 <= s < 1 + a.accept() && #[trigger] c.has_edge(s, label, t) implies a.has_edge(
            s - 1,
            label,
            t - 1,
        ) by {}
    }
    assert(holds_copy(c, b, offset)) by {
        assert forall|s: int, label: Label, t: int|
            offset <= s < offset + b.accept() && #[trigger] c.has_edge(
                s,
                label,
                t,
            ) implies b.has_edge(s - offset, label, t - offset) by {
            if a.has_edge(s - 1, label, t - 1) {
                lemma_edge_in_range(a, s - 1, label, t - 1);
            }
        }
    }
    assert forall|label: Label, t: int| !#[trigger] c.has_edge(end, label, t) by {
        if a.has_edge(end - 1, label, t - 1) {
            lemma_edge_in_range(a, end - 1, label, t - 1);
        }
        if b.has_edge(end - offset, label, t - offset) {
            lemma_edge_in_range(b, end - offset, label, t - offset);
        }
    }
    assert forall|label: Label, t: int| #[trigger]
        c.has_edge(1 + a.accept(), label, t) implies label == Label::Epsilon && t == end by {
        assert(!a.has_edge(a.accept(), label, t - 1));
        if b.has_edge(1 + a.accept() - offset, label, t - offset) {
            lemma_edge_in_range(b, 1 + a.accept() - offset, label, t - offset);
        }
    }
    assert forall|label: Label, t: int| #[trigger]
        c.has_edge(offset + b.accept(), label, t) implies label == Label::Epsilon && t == end by {
        assert(!b.has_edge(b.accept(), label, t - offset));
        if a.has_edge(offset + b.accept() - 1, label, t - 1) {
            lemma_edge_in_range(a, offset + b.accept() - 1, label, t - 1);
        }
    }
    if c.recognizes(w) {
        let n = choose|n: nat| c.run_within(0, w, end, n);
        lemma_first_edge(c, 0, w, end, n);
        let (label, r) = first_edge(c, 0, w, end, n);
        if a.has_edge(0 - 1, label, r - 1) {
            lemma_edge_in_range(a, 0 - 1, label, r - 1);
        }
        if b.has_edge(0 - offset, label, r - offset) {
            lemma_edge_in_range(b, 0 - offset, label, r - offset);
        }
        assert(label == Label::Epsilon && (r == 1 || r == offset));
        if r == 1 {
            lemma_branch_reads(c, a, 1, end, w, (n - 1) as nat);
        } else {
            lemma_branch_reads(c, b, offset, end, w, (n - 1) as nat);
        }
    }
    if a.recognizes(w) {
        let i = choose|i: nat| a.run_within(0, w, a.accept(), i);
        lemma_run_embed(c, a, 1, 0, w, a.accept(), i);
        assert(c.has_edge(offset - 1, Label::Epsilon, end));
        assert(c.run_within(end, Seq::empty(), end, 0));
        crate::runs::lemma_run_after_eps(c, offset - 1, end, Seq::empty(), end, 0);
        lemma_run_within_compose(c, 1, w, offset - 1, Seq::empty(), end, i, 1);
        assert(w + Seq::<char>::empty() == w);
        assert(c.has_edge(0, Label::Epsilon, 1));
        crate::runs::lemma_run_after_eps(c, 0, 1, w, end, i + 1);
    }
    if b.recognizes(w) {
        let i = choose|i: nat| b.run_within(0, w, b.accept(), i);
        lemma_run_embed(c, b, offset, 0, w, b.accept(), i);
        assert(c.has_edge(end - 1, Label::Epsilon, end));
        assert(c.run_within(end, Seq::empty(), end, 0));
        crate::runs::lemma_run_after_eps(c, end - 1, end, Seq::empty(), end, 0);
        lemma_run_within_compose(c, offset, w, end - 1, Seq::empty(), end, i, 1);
        assert(w + Seq::<char>::empty() == w);
        assert(c.has_edge(0, Label::Epsilon, offset));
        crate::runs::lemma_run_after_eps(c, 0, offset, w, end, i + 1);
    }
}

/// An alternation of automata of the shape has the shape.
pub proof fn lemma_alternate_shaped(a: Automaton, b: Automaton)
    requires
        shaped(a),
        shaped(b),
    ensures
        shaped(a.alternate(b)),
{
    let c = a.alternate(b);
    let offset = a.states() + 1;
    let end = offset + b.states();
    lemma_alternate_edges(a, b);
    crate::automaton::lemma_alternate(a, b);
    assert forall|label: Label, t: int| !#[trigger] c.has_edge(c.accept(), label, t) by {
        if a.has_edge(end - 1, label, t - 1) {
            lemma_edge_in_range(a, end - 1, label, t - 1);
        }
        if b.has_edge(end - offset, label, t - offset) {
            lemma_edge_in_range(b, end - offset, label, t - offset);
        }
    }
    assert forall|s: int, label: Label| !#[trigger] c.has_edge(s, label, 0) by {
        if a.has_edge(s - 1, label, 0 - 1) {
            lemma_edge_in_range(a, s - 1, label, 0 - 1);
        }
        if b.has_edge(s - offset, label, 0 - offset) {
            lemma_edge_in_range(b, s - offset, label, 0 - offset);
        }
    }
}

/// The edges of an optional automaton: its own and the one that skips it.
pub proof fn lemma_zero_or_one_edges(a: Automaton)
    requires
        a.states() >= 1,
    ensures
        forall|p: int, label: Label, q: int| #[trigger]
            a.zero_or_one().has_edge(p, label, q) <==> a.has_edge(p, label, q) || (p == 0 && label
                == Label::Epsilon && q == a.accept()),
{
    assert forall|p: int, label: Label, q: int| #[trigger]
        a.zero_or_one().has_edge(p, label, q) <==> a.has_edge(p, label, q) || (p == 0 && label
            == Label::Epsilon && q == a.accept()) by {
        lemma_edges_of_add_edge(a, 0, Label::Epsilon, a.accept(), p, label, q);
    }
}

/// An optional automaton reads the words of the automaton and the empty word.
pub proof fn lemma_zero_or_one_reads(a: Automaton, w: Seq<char>)
    requires
        shaped(a),
    ensures
        a.zero_or_one().recognizes(w) <==> w.len() == 0 || a.recognizes(w),
{
    let c = a.zero_or_one();
    let end = a.accept();
    lemma_zero_or_one_edges(a);
    crate::automaton::lemma_zero_or_one(a);
    if c.recognizes(w) {
        let n = choose|n: nat| c.run_within(0, w, end, n);
        lemma_first_edge(c, 0, w, end, n);
        let (label, r) = first_edge(c, 0, w, end, n);
        let rest = if label is Epsilon && c.run_within(r, w, end, (n - 1) as nat) {
            w
        } else {
            w.drop_first()
        };
        assert(c.run_within(r, rest, end, (n - 1) as nat));
        if a.has_edge(0, label, r) {
            lemma_edge_in_range(a, 0, label, r);
            let good = Set::new(|s: int| 1 <= s < a.states());
            assert forall|s: int, other: Label, t: int|
                good.contains(s) && #[trigger] c.has_edge(s, other, t) implies good.contains(t)
                && a.has_edge(s, other, t) by {
                lemma_edge_in_range(a, s, other, t);
            }
            lemma_run_transfer(c, a, 0, good, r, rest, end, (n - 1) as nat);
            assert(a.run_within(0, w, end, n));
        } else {
            lemma_run_from_dead_end(c, end, rest, end, (n - 1) as nat);
        }
    }
    if a.recognizes(w) {
        let i = choose|i: nat| a.run_within(0, w, end, i);
        lemma_run_embed(c, a, 0, 0, w, end, i);
    }
    if w.len() == 0 {
        assert(c.has_edge(0, Label::Epsilon, end));
        assert(c.run_within(end, w, end, 0));
        crate::runs::lemma_run_after_eps(c, 0, end, w, end, 0);
    }
}

/// An optional automaton of the shape has the shape.
pub proof fn lemma_zero_or_one_shaped(a: Automaton)
    requires
        shaped(a),
    ensures
        shaped(a.zero_or_one()),
{
    lemma_zero_or_one_edges(a);
    crate::automaton::lemma_zero_or_one(a);
}

/// A run around a loop: from the first state of an intact copy of `u`,
/// whose last state leads only back, to where the copy is entered again, or
/// forward, to a state without edges, a run to that state reads one or more
/// words of `u` in a row.
pub proof fn lemma_loop_reads(
    c: Automaton,
    u: Automaton,
    offset: int,
    back: int,
    forward: int,
    w: Seq<char>,
    n: nat,
)
    requires
        shaped(u),
        holds_copy(c, u, offset),
        forall|label: Label, t: int| #[trigger]
            c.has_edge(offset + u.accept(), label, t) ==> label == Label::Epsilon && (t == back
                || t == forward),
        forall|label: Label, t: int| !#[trigger] c.has_edge(forward, label, t),
        !(offset <= forward < offset + u.states()),
        forall|v: Seq<char>, m: nat| #[trigger]
            c.run_within(back, v, forward, m) ==> c.run_within(offset, v, forward, m),
        c.run_within(offset, w, forward, n),
    ensures
        in_powers(u.language(), w, 1, None),
    decreases n,
{
    let lang = u.language();
    let exit = offset + u.accept();
    lemma_run_leaves_copy(c, u, offset, offset, w, forward, n);
    let (k, m) = choose|k: int, m: nat|
        #![trigger c.run_within(exit, w.skip(k), forward, m)]
        0 <= k <= w.len() && m <= n && u.run_within(0, w.take(k), u.accept(), n) && c.run_within(
            exit,
            w.skip(k),
            forward,
            m,
        );
    let v = w.skip(k);
    assert(lang(w.take(k)));
    lemma_first_edge(c, exit, v, forward, m);
    let (label, r) = first_edge(c, exit, v, forward, m);
    assert(label == Label::Epsilon);
    assert(c.run_within(r, v, forward, (m - 1) as nat));
    if r == forward {
        lemma_run_from_dead_end(c, forward, v, forward, (m - 1) as nat);
        assert(in_power(lang, v, 0));
        assert(in_power(lang, w, 1));
    } else {
        assert(c.run_within(back, v, forward, (m - 1) as nat));
        lemma_loop_reads(c, u, offset, back, forward, v, (m - 1) as nat);
        let j = choose|j: nat| 1 <= j && #[trigger] in_power(lang, v, j);
        assert(in_power(lang, w, j + 1));
    }
}

/// A run around a loop exists for one or more words of `u` in a row.
pub proof fn lemma_loop_runs(
    c: Automaton,
    u: Automaton,
    offset: int,
    back: int,
    forward: int,
    w: Seq<char>,
    j: nat,
)
    requires
        forall|s: int, label: Label, t: int| #[trigger]
            u.has_edge(s, label, t) ==> c.has_edge(s + offset, label, t + offset),
        c.has_edge(offset + u.accept(), Label::Epsilon, back),
        c.has_edge(offset + u.accept(), Label::Epsilon, forward),
        c.run(back, Seq::empty(), offset),
        j >= 1,
        in_power(u.language(), w, j),
    ensures
        c.run(offset, w, forward),
    decreases j,
{
    let lang = u.language();
    let exit = offset + u.accept();
    let empty = Seq::<char>::empty();
    let k = choose|k: int|
        0 <= k <= w.len() && lang(#[trigger] w.take(k)) && in_power(
            lang,
            w.skip(k),
            (j - 1) as nat,
        );
    assert(u.recognizes(w.take(k)));
    let i = choose|i: nat| u.run_within(0, w.take(k), u.accept(), i);
    lemma_run_embed(c, u, offset, 0, w.take(k), u.accept(), i);
    assert(w.take(k) + w.skip(k) == w);
    if j == 1 {
        assert(c.run_within(forward, empty, forward, 0));
        crate::runs::lemma_run_after_eps(c, exit, forward, empty, forward, 0);
        assert(w.skip(k) == empty);
        crate::runs::lemma_run_compose(c, offset, w.take(k), exit, empty, forward);
    } else {
        lemma_loop_runs(c, u, offset, back, forward, w.skip(k), (j - 1) as nat);
        assert(c.run_within(back, empty, back, 0));
        crate::runs::lemma_run_after_eps(c, exit, back, empty, back, 0);
        crate::runs::lemma_run_compose(c, exit, empty, back, empty, offset);
        assert(empty + empty == empty);
        crate::runs::lemma_run_compose(c, exit, empty, offset, w.skip(k), forward);
        assert(empty + w.skip(k) == w.skip(k));
        crate::runs::lemma_run_compose(c, offset, w.take(k), exit, w.skip(k), forward);
    }
}

/// The edges of a repetition: into the copy, those of the copy, and from
/// the copy back to its first state and on to the new accepting state.
pub proof fn lemma_one_or_more_edges(a: Automaton)
    requires
        a.states() >= 1,
    ensures
        forall|p: int, label: Label, q: int| #[trigger]
            a.one_or_more().has_edge(p, label, q) <==> (p == 0 && label == Label::Epsilon && q
                == 1) || a.has_edge(p - 1, label, q - 1) || (p == a.states() && label
                == Label::Epsilon && (q == 1 || q == a.states() + 1)),
{
    let offset = a.states();
    let s0 = Automaton::empty();
    let s1 = s0.add_edge(0, Label::Epsilon, 1);
    let s2 = s1.embed(a, 1);
    let s3 = s2.add_edge(offset, Label::Epsilon, 1);
    assert forall|p: int, label: Label, q: int| #[trigger]
        a.one_or_more().has_edge(p, label, q) <==> (p == 0 && label == Label::Epsilon && q == 1)
            || a.has_edge(p - 1, label, q - 1) || (p == offset && label == Label::Epsilon && (q
            == 1 || q == offset + 1)) by {
        lemma_edges_of_add_edge(s0, 0, Label::Epsilon, 1, p, label, q);
        lemma_edges_of_embed(s1, a, 1, p, label, q);
        lemma_edges_of_add_edge(s2, offset, Label::Epsilon, 1, p, label, q);
        lemma_edges_of_add_edge(s3, offset, Label::Epsilon, offset + 1, p, label, q);
    }
}

/// A repetition reads one or more words of the automaton in a row.
pub proof fn lemma_one_or_more_reads(a: Automaton, w: Seq<char>)
    requires
        shaped(a),
    ensures
        a.one_or_more().recognizes(w) <==> in_powers(a.language(), w, 1, None),
{
    let c = a.one_or_more();
    let offset = a.states();
    let end = offset + 1;
    lemma_one_or_more_edges(a);
    crate::automaton::lemma_one_or_more(a);
    assert(holds_copy(c, a, 1)) by {
        assert forall|s: int, label: Label, t: int|
            1 <= s < 1 + a.accept() && #[trigger] c.has_edge(s, label, t) implies a.has_edge(
            s - 1,
            label,
            t - 1,
        ) by {}
    }
    assert forall|label: Label, t: int| !#[trigger] c.has_edge(end, label, t) by {
        if a.has_edge(end - 1, label, t - 1) {
            lemma_edge_in_range(a, end - 1, label, t - 1);
        }
    }
    assert forall|label: Label, t: int| #[trigger]
        c.has_edge(1 + a.accept(), label, t) implies label == Label::Epsilon && (t == 1 || t
        == end) by {
        assert(!a.has_edge(a.accept(), label, t - 1));
    }
    if c.recognizes(w) {
        let n = choose|n: nat| c.run_within(0, w, end, n);
        lemma_first_edge(c, 0, w, end, n);
        let (label, r) = first_edge(c, 0, w, end, n);
        if a.has_edge(0 - 1, label, r - 1) {
            lemma_edge_in_range(a, 0 - 1, label, r - 1);
        }
        assert(label == Label::Epsilon && r == 1);
        lemma_loop_reads(c, a, 1, 1, end, w, (n - 1) as nat);
    }
    if in_powers(a.language(), w, 1, None) {
        let j = choose|j: nat| 1 <= j && #[trigger] in_power(a.language(), w, j);
        assert(c.run_within(1, Seq::empty(), 1, 0));
        assert(c.has_edge(offset, Label::Epsilon, 1));
        assert(c.has_edge(offset, Label::Epsilon, end));
        lemma_loop_runs(c, a, 1, 1, end, w, j);
        let i = choose|i: nat| c.run_within(1, w, end, i);
        assert(c.has_edge(0, Label::Epsilon, 1));
        crate::runs::lemma_run_after_eps(c, 0, 1, w, end, i);
    }
}

/// A repetition of an automaton of the shape has the shape.
pub proof fn lemma_one_or_more_shaped(a: Automaton)
    requires
        shaped(a),
    ensures
        shaped(a.one_or_more()),
{
    let c = a.one_or_more();
    lemma_one_or_more_edges(a);
    crate::automaton::lemma_one_or_more(a);
    assert forall|label: Label, t: int| !#[trigger] c.has_edge(c.accept(), label, t) by {
        if a.has_edge(c.accept() - 1, label, t - 1) {
            lemma_edge_in_range(a, c.accept() - 1, label, t - 1);
        }
    }
    assert forall|s: int, label: Label| !#[trigger] c.has_edge(s, label, 0) by {
        if a.has_edge(s - 1, label, 0 - 1) {
            lemma_edge_in_range(a, s - 1, label, 0 - 1);
        }
    }
}

/// A repetition that may be empty reads any number of words of the
/// automaton in a row.
pub proof fn lemma_zero_or_more_reads(a: Automaton, w: Seq<char>)
    requires
        shaped(a),
    ensures
        shaped(a.zero_or_more()),
        a.zero_or_more().recognizes(w) <==> in_powers(a.language(), w, 0, None),
{
    let optional = a.zero_or_one();
    let lang = a.language();
    let wide = or_empty(lang);
    lemma_zero_or_one_shaped(a);
    lemma_one_or_more_shaped(optional);
    lemma_one_or_more_reads(optional, w);
    assert forall|v: Seq<char>| #[trigger] optional.language()(v) <==> wide(v) by {
        lemma_zero_or_one_reads(a, v);
    }
    lemma_in_powers_congruence(optional.language(), wide, w, 1, None);
    if in_powers(wide, w, 1, None) {
        let n = choose|n: nat| 1 <= n && #[trigger] in_power(wide, w, n);
        lemma_in_power_or_empty(lang, w, n);
        let m = choose|m: nat| m <= n && #[trigger] in_power(lang, w, m);
        assert(in_power(lang, w, m));
    }
    if in_powers(lang, w, 0, None) {
        let m = choose|m: nat| #[trigger] in_power(lang, w, m);
        lemma_in_power_or_empty(lang, w, m);
        let n: nat = if m == 0 {
            1
        } else {
            m
        };
        lemma_in_power_or_empty_grows(lang, w, m, n);
        assert(in_power(wide, w, n));
    }
}

/// Copies of an automaton in a row read words of the automaton in a row.
pub proof fn lemma_power_reads(unit: Automaton, count: nat, w: Seq<char>)
    requires
        shaped(unit),
    ensures
        shaped(unit.power(count)),
        unit.power(count).recognizes(w) <==> in_power(unit.language(), w, count),
    decreases count,
{
    let lang = unit.language();
    if count == 0 {
        lemma_atom_reads(Label::Epsilon, w);
    } else if count == 1 {
        lemma_in_power_one(lang, w);
    } else {
        let before = unit.power((count - 1) as nat);
        lemma_power_reads(unit, (count - 1) as nat, w);
        lemma_concatenate_shaped(before, unit);
        lemma_concatenate_reads(before, unit, w);
        if unit.power(count).recognizes(w) {
            let k = choose|k: int|
                0 <= k <= w.len() && before.recognizes(#[trigger] w.take(k)) && unit.recognizes(
                    w.skip(k),
                );
            lemma_power_reads(unit, (count - 1) as nat, w.take(k));
            lemma_in_power_one(lang, w.skip(k));
            lemma_in_power_append(lang, w.take(k), w.skip(k), (count - 1) as nat, 1);
            assert(w.take(k) + w.skip(k) == w);
        }
        if in_power(lang, w, count) {
            lemma_in_power_split(lang, w, (count - 1) as nat, 1);
            let k = choose|k: int|
                0 <= k <= w.len() && in_power(lang, #[trigger] w.take(k), (count - 1) as nat)
                    && in_power(lang, w.skip(k), 1);
            lemma_power_reads(unit, (count - 1) as nat, w.take(k));
            lemma_in_power_one(lang, w.skip(k));
            assert(before.recognizes(w.take(k)) && unit.recognizes(w.skip(k)));
        }
    }
}

/// An automaton followed by optional copies of another reads a word of the
/// first followed by at most that many words of the other in a row.
pub proof fn lemma_then_optional_reads(head: Automaton, unit: Automaton, count: nat, w: Seq<char>)
    requires
        shaped(head),
        shaped(unit),
    ensures
        shaped(head.then_optional(unit, count)),
        head.then_optional(unit, count).recognizes(w) <==> exists|k: int|
            0 <= k <= w.len() && head.recognizes(#[trigger] w.take(k)) && in_powers(
                unit.language(),
                w.skip(k),
                0,
                Some(count),
            ),
    decreases count,
{
    let lang = unit.language();
    let all = head.then_optional(unit, count);
    if count == 0 {
        if head.recognizes(w) {
            let k = w.len() as int;
            assert(w.take(k) == w);
            assert(in_power(lang, w.skip(k), 0));
            assert(in_powers(lang, w.skip(k), 0, Some(count)));
        }
        if exists|k: int|
            0 <= k <= w.len() && head.recognizes(#[trigger] w.take(k)) && in_powers(
                lang,
                w.skip(k),
                0,
                Some(count),
            ) {
            let k = choose|k: int|
                0 <= k <= w.len() && head.recognizes(#[trigger] w.take(k)) && in_powers(
                    lang,
                    w.skip(k),
                    0,
                    Some(count),
                );
            let n = choose|n: nat| 0 <= n && n <= count && #[trigger] in_power(lang, w.skip(k), n);
            assert(w.take(k) == w);
        }
    } else {
        let less = (count - 1) as nat;
        let before = head.then_optional(unit, less);
        let optional = unit.zero_or_one();
        lemma_then_optional_reads(head, unit, less, w);
        lemma_zero_or_one_shaped(unit);
        lemma_concatenate_shaped(before, optional);
        lemma_concatenate_reads(before, optional, w);
        if all.recognizes(w) {
            let k = choose|k: int|
                0 <= k <= w.len() && before.recognizes(#[trigger] w.take(k))
                    && optional.recognizes(w.skip(k));
            let front = w.take(k);
            lemma_then_optional_reads(head, unit, less, front);
            lemma_zero_or_one_reads(unit, w.skip(k));
            let j = choose|j: int|
                0 <= j <= front.len() && head.recognizes(#[trigger] front.take(j)) && in_powers(
                    lang,
                    front.skip(j),
                    0,
                    Some(less),
                );
            let n = choose|n: nat| 0 <= n && n <= less && #[trigger] in_power(lang, front.skip(j), n);
            assert(front.take(j) == w.take(j));
            assert(front.skip(j) + w.skip(k) == w.skip(j));
            if w.skip(k).len() == 0 {
                assert(in_power(lang, w.skip(k), 0));
                lemma_in_power_append(lang, front.skip(j), w.skip(k), n, 0);
                assert(in_power(lang, w.skip(j), n));
            } else {
                lemma_in_power_one(lang, w.skip(k));
                lemma_in_power_append(lang, front.skip(j), w.skip(k), n, 1);
                assert(in_power(lang, w.skip(j), n + 1));
            }
            assert(in_powers(lang, w.skip(j), 0, Some(count)));
        }
        if exists|k: int|
            0 <= k <= w.len() && head.recognizes(#[trigger] w.take(k)) && in_powers(
                lang,
                w.skip(k),
                0,
                Some(count),
            ) {
            let j = choose|j: int|
                0 <= j <= w.len() && head.recognizes(#[trigger] w.take(j)) && in_powers(
                    lang,
                    w.skip(j),
                    0,
                    Some(count),
                );
            let n = choose|n: nat| 0 <= n && n <= count && #[trigger] in_power(lang, w.skip(j), n);
            if n <= less {
                assert(in_powers(lang, w.skip(j), 0, Some(less)));
                assert(before.recognizes(w));
                let k = w.len() as int;
                assert(w.take(k) == w);
                lemma_zero_or_one_reads(unit, w.skip(k));
                assert(before.recognizes(w.take(k)) && optional.recognizes(w.skip(k)));
            } else {
                lemma_in_power_split(lang, w.skip(j), less, 1);
                let i = choose|i: int|
                    0 <= i <= w.skip(j).len() && in_power(lang, #[trigger] w.skip(j).take(i), less)
                        && in_power(lang, w.skip(j).skip(i), 1);
                let k = j + i;
                let front = w.take(k);
                assert(front.take(j) == w.take(j));
                assert(front.skip(j) == w.skip(j).take(i));
                assert(w.skip(k) == w.skip(j).skip(i));
                lemma_then_optional_reads(head, unit, less, front);
                assert(in_powers(lang, front.skip(j), 0, Some(less)));
                assert(before.recognizes(front));
                lemma_in_power_one(lang, w.skip(k));
                lemma_zero_or_one_reads(unit, w.skip(k));
                assert(before.recognizes(w.take(k)) && optional.recognizes(w.skip(k)));
            }
        }
    }
}

/// The edges of an automaton whose last copy was made repeatable: its own,
/// and from its accepting state back and on to the new accepting state.
pub proof fn lemma_repeat_last_edges(a: Automaton, unit_states: int)
    requires
        a.states() >= 1,
        0 <= unit_states <= a.accept(),
    ensures
        forall|p: int, label: Label, q: int| #[trigger]
            a.repeat_last(unit_states).has_edge(p, label, q) <==> a.has_edge(p, label, q) || (p
                == a.accept() && label == Label::Epsilon && (q == a.accept() - unit_states || q
                == a.accept() + 1)),
{
    let end = a.accept();
    let back = end - unit_states;
    let s1 = a.add_edge(end, Label::Epsilon, back);
    assert forall|p: int, label: Label, q: int| #[trigger]
        a.repeat_last(unit_states).has_edge(p, label, q) <==> a.has_edge(p, label, q) || (p == end
            && label == Label::Epsilon && (q == back || q == end + 1)) by {
        lemma_edges_of_add_edge(a, end, Label::Epsilon, back, p, label, q);
        lemma_edges_of_add_edge(s1, end, Label::Epsilon, end + 1, p, label, q);
    }
}

/// `c` is `head` followed by `unit`, with the copy of `unit` made
/// repeatable: both copies are intact, the last state of `head` leads only
/// into the copy of `unit`, and the last state of that copy leads only back
/// to the last state of `head` and on to the accepting state, which has no edges.
pub open spec fn repeats_last(c: Automaton, head: Automaton, unit: Automaton) -> bool {
    let offset = head.states();
    let glue = offset - 1;
    let end = offset + unit.accept();
    let last = end + 1;
    &&& c.accept() == last
    &&& holds_copy(c, head, 0)
    &&& holds_copy(c, unit, offset)
    &&& forall|label: Label, t: int| !#[trigger] c.has_edge(last, label, t)
    &&& forall|label: Label, t: int| #[trigger]
        c.has_edge(end, label, t) ==> label == Label::Epsilon && (t == glue || t == last)
    &&& forall|label: Label, t: int| #[trigger]
        c.has_edge(glue, label, t) ==> label == Label::Epsilon && t == offset
    &&& c.has_edge(glue, Label::Epsilon, offset)
    &&& c.has_edge(end, Label::Epsilon, glue)
    &&& c.has_edge(end, Label::Epsilon, last)
}

/// Making the last of two or more copies in a row repeatable gives an
/// automaton of the shape, made as `repeats_last` says.
pub proof fn lemma_repeat_last_built(unit: Automaton, count: nat)
    requires
        shaped(unit),
        count >= 2,
    ensures
        shaped(unit.power(count).repeat_last(unit.states())),
        repeats_last(
            unit.power(count).repeat_last(unit.states()),
            unit.power((count - 1) as nat),
            unit,
        ),
{
    let less = (count - 1) as nat;
    let head = unit.power(less);
    let row = unit.power(count);
    let c = row.repeat_last(unit.states());
    let offset = head.states();
    let glue = offset - 1;
    let end = row.accept();
    let last = end + 1;
    lemma_power_reads(unit, less, Seq::empty());
    lemma_power_reads(unit, count, Seq::empty());
    crate::automaton::lemma_concatenate(head, unit);
    crate::automaton::lemma_repeat_last(row, unit.states());
    assert(row == head.concatenate(unit));
    assert(end == offset + unit.accept());
    assert(end - unit.states() == glue);
    lemma_concatenate_edges(head, unit);
    lemma_repeat_last_edges(row, unit.states());
    assert forall|p: int, label: Label, q: int| #[trigger]
        c.has_edge(p, label, q) <==> head.has_edge(p, label, q) || unit.has_edge(
            p - offset,
            label,
            q - offset,
        ) || (p == glue && label == Label::Epsilon && q == offset) || (p == end && label
            == Label::Epsilon && (q == glue || q == last)) by {
        assert(row.has_edge(p, label, q) <==> head.has_edge(p, label, q) || unit.has_edge(
            p - offset,
            label,
            q - offset,
        ) || (p == glue && label == Label::Epsilon && q == offset));
    }
    assert forall|p: int, label: Label, q: int| #[trigger]
        head.has_edge(p, label, q) implies 0 <= p < offset && 0 <= q < offset by {
        lemma_edge_in_range(head, p, label, q);
    }
    assert forall|p: int, label: Label, q: int| #[trigger]
        unit.has_edge(p, label, q) implies 0 <= p < unit.states() && 0 <= q < unit.states() by {
        lemma_edge_in_range(unit, p, label, q);
    }
    assert(holds_copy(c, head, 0)) by {
        assert forall|s: int, label: Label, t: int|
            0 <= s < head.accept() && #[trigger] c.has_edge(s, label, t) implies head.has_edge(
            s,
            label,
            t,
        ) by {
            assert(!unit.has_edge(s - offset, label, t - offset));
        }
    }
    assert(holds_copy(c, unit, offset)) by {
        assert forall|s: int, label: Label, t: int|
            offset <= s < offset + unit.accept() && #[trigger] c.has_edge(
                s,
                label,
                t,
            ) implies unit.has_edge(s - offset, label, t - offset) by {
            assert(!head.has_edge(s, label, t));
        }
    }
    assert forall|label: Label, t: int| !#[trigger] c.has_edge(last, label, t) by {
        assert(!head.has_edge(last, label, t));
        assert(!unit.has_edge(last - offset, label, t - offset));
    }
    assert forall|label: Label, t: int| #[trigger]
        c.has_edge(end, label, t) implies label == Label::Epsilon && (t == glue || t == last) by {
        assert(!unit.has_edge(unit.accept(), label, t - offset));
        assert(!head.has_edge(end, label, t));
    }
    assert forall|label: Label, t: int| #[trigger]
        c.has_edge(glue, label, t) implies label == Label::Epsilon && t == offset by {
        assert(!head.has_edge(head.accept(), label, t));
        assert(!unit.has_edge(glue - offset, label, t - offset));
    }
    assert forall|s: int, label: Label| !#[trigger] c.has_edge(s, label, 0) by {
        assert(!head.has_edge(s, label, 0));
        assert(!unit.has_edge(s - offset, label, 0 - offset));
    }
    assert(c.has_edge(glue, Label::Epsilon, offset));
    assert(c.has_edge(end, Label::Epsilon, glue));
    assert(c.has_edge(end, Label::Epsilon, last));
}

/// What an automaton made as `repeats_last` says reads: a word of `head`
/// followed by one or more words of `unit` in a row.
pub proof fn lemma_repeats_last_reads(c: Automaton, head: Automaton, unit: Automaton, w: Seq<char>)
    requires
        shaped(head),
        shaped(unit),
        repeats_last(c, head, unit),
    ensures
        c.recognizes(w) <==> exists|k: int|
            0 <= k <= w.len() && head.recognizes(#[trigger] w.take(k)) && in_powers(
                unit.language(),
                w.skip(k),
                1,
                None,
            ),
{
    let lang = unit.language();
    let offset = head.states();
    let glue = offset - 1;
    let end = offset + unit.accept();
    let last = end + 1;
    let empty = Seq::<char>::empty();
    if c.recognizes(w) {
        assert forall|v: Seq<char>, m: nat| #[trigger]
            c.run_within(glue, v, last, m) implies c.run_within(offset, v, last, m) by {
            lemma_first_edge(c, glue, v, last, m);
            let (label, r) = first_edge(c, glue, v, last, m);
            lemma_run_monotone(c, offset, v, last, (m - 1) as nat, m);
        }
        let n = choose|n: nat| c.run_within(0, w, last, n);
        lemma_run_leaves_copy(c, head, 0, 0, w, last, n);
        let (k, m) = choose|k: int, m: nat|
            #![trigger c.run_within(head.accept(), w.skip(k), last, m)]
            0 <= k <= w.len() && m <= n && head.run_within(0, w.take(k), head.accept(), n)
                && c.run_within(head.accept(), w.skip(k), last, m);
        lemma_loop_reads(c, unit, offset, glue, last, w.skip(k), m);
        assert(head.recognizes(w.take(k)));
    }
    if exists|k: int|
        0 <= k <= w.len() && head.recognizes(#[trigger] w.take(k)) && in_powers(
            lang,
            w.skip(k),
            1,
            None,
        ) {
        let k = choose|k: int|
            0 <= k <= w.len() && head.recognizes(#[trigger] w.take(k)) && in_powers(
                lang,
                w.skip(k),
                1,
                None,
            );
        let j = choose|j: nat| 1 <= j && #[trigger] in_power(lang, w.skip(k), j);
        let i = choose|i: nat| head.run_within(0, w.take(k), head.accept(), i);
        lemma_run_embed(c, head, 0, 0, w.take(k), head.accept(), i);
        assert(c.run_within(offset, empty, offset, 0));
        crate::runs::lemma_run_after_eps(c, glue, offset, empty, offset, 0);
        lemma_loop_runs(c, unit, offset, glue, last, w.skip(k), j);
        crate::runs::lemma_run_compose(c, glue, empty, offset, w.skip(k), last);
        assert(empty + w.skip(k) == w.skip(k));
        crate::runs::lemma_run_compose(c, 0, w.take(k), glue, w.skip(k), last);
        assert(w.take(k) + w.skip(k) == w);
    }
}

/// Copies of an automaton in a row, two or more, with the last one made
/// repeatable, read that many or more words of the automaton in a row.
pub proof fn lemma_repeat_last_reads(unit: Automaton, count: nat, w: Seq<char>)
    requires
        shaped(unit),
        count >= 2,
    ensures
        shaped(unit.power(count).repeat_last(unit.states())),
        unit.power(count).repeat_last(unit.states()).recognizes(w) <==> in_powers(
            unit.language(),
            w,
            count,
            None,
        ),
{
    let lang = unit.language();
    let less = (count - 1) as nat;
    let head = unit.power(less);
    let c = unit.power(count).repeat_last(unit.states());
    lemma_repeat_last_built(unit, count);
    lemma_power_reads(unit, less, w);
    lemma_repeats_last_reads(c, head, unit, w);
    if c.recognizes(w) {
        let k = choose|k: int|
            0 <= k <= w.len() && head.recognizes(#[trigger] w.take(k)) && in_powers(
                lang,
                w.skip(k),
                1,
                None,
            );
        let j = choose|j: nat| 1 <= j && #[trigger] in_power(lang, w.skip(k), j);
        lemma_power_reads(unit, less, w.take(k));
        lemma_in_power_append(lang, w.take(k), w.skip(k), less, j);
        assert(w.take(k) + w.skip(k) == w);
        assert(in_power(lang, w, less + j));
    }
    if in_powers(lang, w, count, None) {
        let total = choose|total: nat| count <= total && #[trigger] in_power(lang, w, total);
        lemma_in_power_split(lang, w, less, (total - less) as nat);
        let k = choose|k: int|
            0 <= k <= w.len() && in_power(lang, #[trigger] w.take(k), less) && in_power(
                lang,
                w.skip(k),
                (total - less) as nat,
            );
        lemma_power_reads(unit, less, w.take(k));
        assert(in_powers(lang, w.skip(k), 1, None));
        assert(head.recognizes(w.take(k)));
    }
}

/// A counted repetition, other than one or more without an upper bound,
/// reads a number of words of the automaton in a row that is within its
/// bounds.
pub proof fn lemma_repeat_reads(unit: Automaton, min: nat, max: Option<nat>, w: Seq<char>)
    requires
        shaped(unit),
        !(min == 1 && max is None),
    ensures
        shaped(unit.repeat(min, max)),
        unit.repeat(min, max).recognizes(w) <==> in_powers(
            unit.language(),
            w,
            min,
            effective_bound(min, max),
        ),
{
    let lang = unit.language();
    match max {
        Some(m) => {
            let extra: nat = if m > min {
                (m - min) as nat
            } else {
                0
            };
            let head = unit.power(min);
            lemma_power_reads(unit, min, w);
            lemma_then_optional_reads(head, unit, extra, w);
            if unit.repeat(min, max).recognizes(w) {
                let k = choose|k: int|
                    0 <= k <= w.len() && head.recognizes(#[trigger] w.take(k)) && in_powers(
                        lang,
                        w.skip(k),
                        0,
                        Some(extra),
                    );
                let n = choose|n: nat|
                    0 <= n && n <= extra && #[trigger] in_power(lang, w.skip(k), n);
                lemma_power_reads(unit, min, w.take(k));
                lemma_in_power_append(lang, w.take(k), w.skip(k), min, n);
                assert(w.take(k) + w.skip(k) == w);
                assert(in_power(lang, w, min + n));
            }
            if in_powers(lang, w, min, effective_bound(min, max)) {
                let total = choose|total: nat|
                    min <= total && total <= min + extra && #[trigger] in_power(lang, w, total);
                lemma_in_power_split(lang, w, min, (total - min) as nat);
                let k = choose|k: int|
                    0 <= k <= w.len() && in_power(lang, #[trigger] w.take(k), min) && in_power(
                        lang,
                        w.skip(k),
                        (total - min) as nat,
                    );
                lemma_power_reads(unit, min, w.take(k));
                assert(in_powers(lang, w.skip(k), 0, Some(extra)));
                assert(head.recognizes(w.take(k)));
            }
        },
        None => {
            if min == 0 {
                lemma_zero_or_more_reads(unit, w);
            } else {
                lemma_repeat_last_reads(unit, min, w);
            }
        },
    }
}

/// Listing an automaton as a group changes neither its shape nor what it reads.
pub proof fn lemma_group_reads(
    a: Automaton,
    is_capturing: bool,
    name: Option<Seq<char>>,
    w: Seq<char>,
)
    requires
        shaped(a),
    ensures
        shaped(a.group(is_capturing, name)),
        a.group(is_capturing, name).recognizes(w) <==> a.recognizes(w),
{
    let c = a.group(is_capturing, name);
    crate::automaton::lemma_group(a, is_capturing, name);
    assert(c.edges == a.edges);
    assert forall|p: int, label: Label, q: int| #[trigger]
        c.has_edge(p, label, q) <==> a.has_edge(p, label, q) by {}
    let all = Set::new(|s: int| true);
    if c.recognizes(w) {
        let n = choose|n: nat| c.run_within(0, w, c.accept(), n);
        lemma_run_transfer(c, a, 0, all, 0, w, c.accept(), n);
    }
    if a.recognizes(w) {
        let n = choose|n: nat| a.run_within(0, w, a.accept(), n);
        lemma_run_transfer(a, c, 0, all, 0, w, a.accept(), n);
    }
}

/// No repetition of the tree is one or more times without an upper bound.
pub open spec fn plain(ast: Ast) -> bool
    decreases ast,
{
    match ast {
        Ast::Concatenation(a, b) => plain(*a) && plain(*b),
        Ast::Alternation(a, b) => plain(*a) && plain(*b),
        Ast::Star(a) => plain(*a),
        Ast::Plus(a) => plain(*a),
        Ast::Optional(a) => plain(*a),
        Ast::Repeat { inner, min, max } => plain(*inner) && !(min == 1 && max is None),
        Ast::Group { inner, .. } => plain(*inner),
        _ => true,
    }
}

/// The automaton of a syntax tree without a repetition `{1,}` has the shape
/// and reads, on a path from its initial to its accepting state, exactly
/// the words that the tree describes.
pub proof fn lemma_compile_recognizes(ast: Ast)
    requires
        plain(ast),
    ensures
        shaped(Automaton::compile(ast)),
        forall|w: Seq<char>| #[trigger] Automaton::compile(ast).recognizes(w) <==> ast.matches(w),
    decreases ast,
{
    let c = Automaton::compile(ast);
    match ast {
        Ast::Empty => {
            assert forall|w: Seq<char>| #[trigger] c.recognizes(w) <==> ast.matches(w) by {
                lemma_atom_reads(Label::Epsilon, w);
            }
            lemma_atom_reads(Label::Epsilon, Seq::empty());
        },
        Ast::Character(ch) => {
            assert forall|w: Seq<char>| #[trigger] c.recognizes(w) <==> ast.matches(w) by {
                lemma_atom_reads(Label::Character(ch), w);
                if w.len() == 1 && w[0] == ch {
                    assert(w == seq![ch]);
                }
            }
            lemma_atom_reads(Label::Character(ch), Seq::empty());
        },
        Ast::Wildcard => {
            assert forall|w: Seq<char>| #[trigger] c.recognizes(w) <==> ast.matches(w) by {
                lemma_atom_reads(Label::Wildcard, w);
            }
            lemma_atom_reads(Label::Wildcard, Seq::empty());
        },
        Ast::Class(class) => {
            assert forall|w: Seq<char>| #[trigger] c.recognizes(w) <==> ast.matches(w) by {
                lemma_atom_reads(Label::Class(class), w);
            }
            lemma_atom_reads(Label::Class(class), Seq::empty());
        },
        Ast::Concatenation(a, b) => {
            let first = Automaton::compile(*a);
            let second = Automaton::compile(*b);
            lemma_compile_recognizes(*a);
            lemma_compile_recognizes(*b);
            lemma_concatenate_shaped(first, second);
            assert forall|w: Seq<char>| #[trigger] c.recognizes(w) <==> ast.matches(w) by {
                lemma_concatenate_reads(first, second, w);
                lemma_in_sequence_congruence(
                    first.language(),
                    second.language(),
                    (*a).language(),
                    (*b).language(),
                    w,
                );
                assert(c.recognizes(w) <==> in_sequence(first.language(), second.language(), w))
                    by {
                    if c.recognizes(w) {
                        let k = choose|k: int|
                            0 <= k <= w.len() && first.recognizes(#[trigger] w.take(k))
                                && second.recognizes(w.skip(k));
                        assert(first.language()(w.take(k)) && second.language()(w.skip(k)));
                    }
                    if in_sequence(first.language(), second.language(), w) {
                        let k = choose|k: int|
                            0 <= k <= w.len() && first.language()(#[trigger] w.take(k))
                                && second.language()(w.skip(k));
                        assert(first.recognizes(w.take(k)) && second.recognizes(w.skip(k)));
                    }
                }
            }
        },
        Ast::Alternation(a, b) => {
            let first = Automaton::compile(*a);
            let second = Automaton::compile(*b);
            lemma_compile_recognizes(*a);
            lemma_compile_recognizes(*b);
            lemma_alternate_shaped(first, second);
            assert forall|w: Seq<char>| #[trigger] c.recognizes(w) <==> ast.matches(w) by {
                lemma_alternate_reads(first, second, w);
                assert(first.recognizes(w) <==> (*a).matches(w));
                assert(second.recognizes(w) <==> (*b).matches(w));
            }
        },
        Ast::Star(a) => {
            let inner = Automaton::compile(*a);
            lemma_compile_recognizes(*a);
            lemma_zero_or_more_reads(inner, Seq::empty());
            assert forall|w: Seq<char>| #[trigger] c.recognizes(w) <==> ast.matches(w) by {
                lemma_zero_or_more_reads(inner, w);
                lemma_in_powers_congruence(inner.language(), (*a).language(), w, 0, None);
            }
        },
        Ast::Plus(a) => {
            let inner = Automaton::compile(*a);
            lemma_compile_recognizes(*a);
            lemma_one_or_more_shaped(inner);
            assert forall|w: Seq<char>| #[trigger] c.recognizes(w) <==> ast.matches(w) by {
                lemma_one_or_more_reads(inner, w);
                lemma_in_powers_congruence(inner.language(), (*a).language(), w, 1, None);
            }
        },
        Ast::Optional(a) => {
            let inner = Automaton::compile(*a);
            lemma_compile_recognizes(*a);
            lemma_zero_or_one_shaped(inner);
            assert forall|w: Seq<char>| #[trigger] c.recognizes(w) <==> ast.matches(w) by {
                lemma_zero_or_one_reads(inner, w);
                assert(inner.recognizes(w) <==> (*a).matches(w));
            }
        },
        Ast::Repeat { inner, min, max } => {
            let unit = Automaton::compile(*inner);
            lemma_compile_recognizes(*inner);
            lemma_repeat_reads(unit, min, max, Seq::empty());
            assert forall|w: Seq<char>| #[trigger] c.recognizes(w) <==> ast.matches(w) by {
                lemma_repeat_reads(unit, min, max, w);
                lemma_in_powers_congruence(
                    unit.language(),
                    (*inner).language(),
                    w,
                    min,
                    effective_bound(min, max),
                );
            }
        },
        Ast::Group { inner, is_capturing, name } => {
            let unit = Automaton::compile(*inner);
            lemma_compile_recognizes(*inner);
            lemma_group_reads(unit, is_capturing, name, Seq::empty());
            assert forall|w: Seq<char>| #[trigger] c.recognizes(w) <==> ast.matches(w) by {
                lemma_group_reads(unit, is_capturing, name, w);
                assert(unit.recognizes(w) <==> (*inner).matches(w));
            }
        },
    }
}

/// The simulation of the automaton of a syntax tree without a repetition
/// `{1,}` accepts exactly the words that the tree describes.
pub proof fn lemma_accepts_what_the_pattern_describes(ast: Ast, w: Seq<char>)
    requires
        plain(ast),
    ensures
        Automaton::compile(ast).accepts(w) <==> ast.matches(w),
{
    lemma_compile_recognizes(ast);
    crate::runs::lemma_accepts_is_recognizes(Automaton::compile(ast), w);
}

/// `found` is the leftmost slice of `s` that the tree describes and, at
/// its start, the longest; or there is no slice that the tree describes and
/// nothing was found.
pub open spec fn leftmost_longest(ast: Ast, s: Seq<char>, found: Option<(int, int)>) -> bool {
    match found {
        Some((i, j)) => {
            &&& 0 <= i <= j <= s.len()
            &&& ast.matches(s.subrange(i, j))
            &&& forall|k: int| j < k <= s.len() ==> !#[trigger] ast.matches(s.subrange(i, k))
            &&& forall|h: int, k: int|
                0 <= h < i && h <= k <= s.len() ==> !#[trigger] ast.matches(s.subrange(h, k))
        },
        None => forall|h: int, k: int|
            0 <= h <= k <= s.len() ==> !#[trigger] ast.matches(s.subrange(h, k)),
    }
}

/// `found` is a slice of `s` that the tree describes, and no longer slice
/// from the same start is one.
pub open spec fn longest_at_its_start(ast: Ast, s: Seq<char>, found: (int, int)) -> bool {
    &&& 0 <= found.0 <= found.1 <= s.len()
    &&& ast.matches(s.subrange(found.0, found.1))
    &&& forall|k: int| found.1 < k <= s.len() ==> !#[trigger] ast.matches(s.subrange(found.0, k))
}

/// The tree describes some slice of `s`.
pub open spec fn describes_a_slice(ast: Ast, s: Seq<char>) -> bool {
    exists|h: int, k: int| 0 <= h <= k <= s.len() && #[trigger] ast.matches(s.subrange(h, k))
}

/// For a syntax tree without a repetition `{1,}`, the search finds the
/// leftmost slice that the tree describes and, at its start, the longest.
pub proof fn lemma_find_by_pattern(ast: Ast, s: Seq<char>)
    requires
        plain(ast),
    ensures
        leftmost_longest(ast, s, Automaton::compile(ast).find(s)),
        Automaton::compile(ast).matches_somewhere(s) <==> describes_a_slice(ast, s),
{
    let a = Automaton::compile(ast);
    crate::search::lemma_find_from(a, s, 0);
    assert forall|h: int, k: int|
        #![trigger a.accepts(s.subrange(h, k))]
        #![trigger ast.matches(s.subrange(h, k))]
        a.accepts(s.subrange(h, k)) <==> ast.matches(s.subrange(h, k)) by {
        lemma_accepts_what_the_pattern_describes(ast, s.subrange(h, k));
    }
    if a.matches_somewhere(s) {
        let (h, k) = choose|h: int, k: int|
            0 <= h <= k <= s.len() && #[trigger] a.accepts(s.subrange(h, k));
        assert(ast.matches(s.subrange(h, k)));
    }
    if describes_a_slice(ast, s) {
        let (h, k) = choose|h: int, k: int|
            0 <= h <= k <= s.len() && #[trigger] ast.matches(s.subrange(h, k));
        assert(a.accepts(s.subrange(h, k)));
    }
}

/// For a syntax tree without a repetition `{1,}`, each match of the search
/// for all matches is a slice that the tree describes, the longest at its start.
pub proof fn lemma_find_all_by_pattern(ast: Ast, s: Seq<char>, k: int)
    requires
        plain(ast),
        0 <= k < Automaton::compile(ast).find_all(s).len(),
    ensures
        longest_at_its_start(ast, s, Automaton::compile(ast).find_all(s)[k]),
{
    let a = Automaton::compile(ast);
    let found = a.find_all(s)[k];
    crate::search::lemma_find_all_longest(a, s, 0, k);
    crate::search::lemma_longest_end(a, s, found.0, s.len() as int);
    assert forall|h: int, j: int|
        #![trigger a.accepts(s.subrange(h, j))]
        #![trigger ast.matches(s.subrange(h, j))]
        a.accepts(s.subrange(h, j)) <==> ast.matches(s.subrange(h, j)) by {
        lemma_accepts_what_the_pattern_describes(ast, s.subrange(h, j));
    }
}

} // verus!
