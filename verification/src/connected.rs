//! Why every state of the automaton of a syntax tree can be reached from
//! its initial state.

use crate::ast::Ast;
use crate::automaton::{
    lemma_alternate, lemma_atom, lemma_compile, lemma_concatenate,
    lemma_group, lemma_one_or_more, lemma_power, lemma_repeat_last, lemma_then_optional,
    lemma_zero_or_one, Automaton, Label,
};
use crate::thompson::{
    lemma_alternate_edges, lemma_atom_edges, lemma_concatenate_edges, lemma_edges_of_add_edge,
    lemma_one_or_more_edges, lemma_zero_or_one_edges,
};
use vstd::prelude::*;

verus! {

impl Automaton {
    /// A path of at most `n` edges leads from `p` to `q`.
    pub open spec fn linked_within(self, p: int, q: int, n: nat) -> bool
        decreases n,
    {
        p == q || (n > 0 && exists|label: Label, r: int|
            #[trigger] self.has_edge(p, label, r) && self.linked_within(r, q, (n - 1) as nat))
    }

    /// A path of edges leads from `p` to `q`.
    pub open spec fn linked(self, p: int, q: int) -> bool {
        exists|n: nat| self.linked_within(p, q, n)
    }

    /// The initial state has an edge, and every state is reached from the
    /// initial state by a path of edges.
    pub open spec fn connected(self) -> bool {
        &&& exists|label: Label, r: int| #[trigger] self.has_edge(0, label, r)
        &&& forall|q: int| 0 <= q < self.states() ==> #[trigger] self.linked(0, q)
    }
}

/// A path can be extended by one more edge at its end.
pub proof fn lemma_linked_extend(a: Automaton, p: int, r: int, label: Label, q: int, n: nat)
    requires
        a.linked_within(p, r, n),
        a.has_edge(r, label, q),
    ensures
        a.linked_within(p, q, n + 1),
        a.linked(p, q),
    decreases n,
{
    if p == r {
        assert(a.linked_within(q, q, 0));
        assert(a.linked_within(p, q, 1));
        lemma_linked_monotone(a, p, q, 1, n + 1);
    } else {
        let (first, m) = choose|first: Label, m: int|
            #[trigger] a.has_edge(p, first, m) && a.linked_within(m, r, (n - 1) as nat);
        lemma_linked_extend(a, m, r, label, q, (n - 1) as nat);
        assert(a.linked_within(m, q, n));
    }
    assert(a.linked_within(p, q, (n + 1) as nat));
}

/// A path of at most `n` edges is a path of at most `m >= n` edges.
pub proof fn lemma_linked_monotone(a: Automaton, p: int, q: int, n: nat, m: nat)
    requires
        a.linked_within(p, q, n),
        n <= m,
    ensures
        a.linked_within(p, q, m),
    decreases n,
{
    if p != q {
        let (label, r) = choose|label: Label, r: int|
            #[trigger] a.has_edge(p, label, r) && a.linked_within(r, q, (n - 1) as nat);
        lemma_linked_monotone(a, r, q, (n - 1) as nat, (m - 1) as nat);
    }
}

/// Two paths, the second from where the first ends, make one path.
pub proof fn lemma_linked_compose(a: Automaton, p: int, r: int, q: int)
    requires
        a.linked(p, r),
        a.linked(r, q),
    ensures
        a.linked(p, q),
{
    let n = choose|n: nat| a.linked_within(r, q, n);
    lemma_linked_append(a, p, r, q, n);
}

proof fn lemma_linked_append(a: Automaton, p: int, r: int, q: int, n: nat)
    requires
        a.linked(p, r),
        a.linked_within(r, q, n),
    ensures
        a.linked(p, q),
    decreases n,
{
    if r != q {
        let (label, m) = choose|label: Label, m: int|
            #[trigger] a.has_edge(r, label, m) && a.linked_within(m, q, (n - 1) as nat);
        let k = choose|k: nat| a.linked_within(p, r, k);
        lemma_linked_extend(a, p, r, label, m, k);
        lemma_linked_append(a, p, m, q, (n - 1) as nat);
    }
}

/// A path of `a` is a path of every automaton that has the edges of `a`
/// moved by `offset`.
pub proof fn lemma_linked_embed(c: Automaton, a: Automaton, offset: int, p: int, q: int, n: nat)
    requires
        forall|s: int, label: Label, t: int| #[trigger]
            a.has_edge(s, label, t) ==> c.has_edge(s + offset, label, t + offset),
        a.linked_within(p, q, n),
    ensures
        c.linked_within(p + offset, q + offset, n),
        c.linked(p + offset, q + offset),
    decreases n,
{
    if p != q {
        let (label, r) = choose|label: Label, r: int|
            #[trigger] a.has_edge(p, label, r) && a.linked_within(r, q, (n - 1) as nat);
        assert(c.has_edge(p + offset, label, r + offset));
        lemma_linked_embed(c, a, offset, r, q, (n - 1) as nat);
    }
    assert(c.linked_within(p + offset, q + offset, n));
}

/// Where `c` has the edges of a connected automaton `a` moved by `offset`,
/// and the state `offset` is reached from the initial state of `c`, every
/// state of the copy is reached from the initial state of `c`.
pub proof fn lemma_copy_is_reached(c: Automaton, a: Automaton, offset: int, q: int)
    requires
        a.connected(),
        forall|s: int, label: Label, t: int| #[trigger]
            a.has_edge(s, label, t) ==> c.has_edge(s + offset, label, t + offset),
        c.linked(0, offset),
        0 <= q < a.states(),
    ensures
        c.linked(0, q + offset),
{
    assert(a.linked(0, q));
    let n = choose|n: nat| a.linked_within(0, q, n);
    lemma_linked_embed(c, a, offset, 0, q, n);
    lemma_linked_compose(c, 0, offset, q + offset);
}

/// A state is reached from itself.
pub proof fn lemma_linked_to_itself(a: Automaton, p: int)
    ensures
        a.linked(p, p),
{
    assert(a.linked_within(p, p, 0));
}

/// An edge is a path.
pub proof fn lemma_edge_links(a: Automaton, p: int, label: Label, q: int)
    requires
        a.has_edge(p, label, q),
    ensures
        a.linked(p, q),
{
    assert(a.linked_within(p, p, 0));
    lemma_linked_extend(a, p, p, label, q, 0);
}

pub proof fn lemma_atom_connected(label: Label)
    ensures
        Automaton::atom(label).connected(),
{
    let a = Automaton::atom(label);
    lemma_atom_edges(label);
    lemma_atom(label);
    assert(a.has_edge(0, label, 1));
    lemma_edge_links(a, 0, label, 1);
    lemma_linked_to_itself(a, 0);
}

pub proof fn lemma_concatenate_connected(a: Automaton, b: Automaton)
    requires
        a.wf(),
        b.wf(),
        a.states() >= 1,
        b.states() >= 1,
        a.connected(),
        b.connected(),
    ensures
        a.concatenate(b).connected(),
{
    let c = a.concatenate(b);
    let n = a.states();
    lemma_concatenate_edges(a, b);
    lemma_concatenate(a, b);
    lemma_linked_to_itself(c, 0);
    lemma_copy_is_reached(c, a, 0, n - 1);
    assert(c.has_edge(n - 1, Label::Epsilon, n));
    lemma_edge_links(c, n - 1, Label::Epsilon, n);
    lemma_linked_compose(c, 0, n - 1, n);
    assert forall|q: int| 0 <= q < c.states() implies #[trigger] c.linked(0, q) by {
        if q < n {
            lemma_copy_is_reached(c, a, 0, q);
        } else {
            lemma_copy_is_reached(c, b, n, q - n);
        }
    }
    let (label, r) = choose|label: Label, r: int| #[trigger] a.has_edge(0, label, r);
    assert(c.has_edge(0, label, r));
}

pub proof fn lemma_alternate_connected(a: Automaton, b: Automaton)
    requires
        a.wf(),
        b.wf(),
        a.states() >= 1,
        b.states() >= 1,
        a.connected(),
        b.connected(),
    ensures
        a.alternate(b).connected(),
{
    let c = a.alternate(b);
    let offset = a.states() + 1;
    let end = offset + b.states();
    lemma_alternate_edges(a, b);
    lemma_alternate(a, b);
    lemma_linked_to_itself(c, 0);
    assert(c.has_edge(0, Label::Epsilon, 1));
    assert(c.has_edge(0, Label::Epsilon, offset));
    lemma_edge_links(c, 0, Label::Epsilon, 1);
    lemma_edge_links(c, 0, Label::Epsilon, offset);
    lemma_copy_is_reached(c, b, offset, b.states() - 1);
    assert(c.has_edge(end - 1, Label::Epsilon, end));
    lemma_edge_links(c, end - 1, Label::Epsilon, end);
    lemma_linked_compose(c, 0, end - 1, end);
    assert forall|q: int| 0 <= q < c.states() implies #[trigger] c.linked(0, q) by {
        if q == 0 || q == end {
        } else if q < offset {
            lemma_copy_is_reached(c, a, 1, q - 1);
        } else {
            lemma_copy_is_reached(c, b, offset, q - offset);
        }
    }
}

pub proof fn lemma_one_or_more_connected(a: Automaton)
    requires
        a.wf(),
        a.states() >= 1,
        a.connected(),
    ensures
        a.one_or_more().connected(),
{
    let c = a.one_or_more();
    let offset = a.states();
    lemma_one_or_more_edges(a);
    lemma_one_or_more(a);
    lemma_linked_to_itself(c, 0);
    assert(c.has_edge(0, Label::Epsilon, 1));
    lemma_edge_links(c, 0, Label::Epsilon, 1);
    lemma_copy_is_reached(c, a, 1, offset - 1);
    assert(c.has_edge(offset, Label::Epsilon, offset + 1));
    lemma_edge_links(c, offset, Label::Epsilon, offset + 1);
    lemma_linked_compose(c, 0, offset, offset + 1);
    assert forall|q: int| 0 <= q < c.states() implies #[trigger] c.linked(0, q) by {
        if q == 0 || q == offset + 1 {
        } else {
            lemma_copy_is_reached(c, a, 1, q - 1);
        }
    }
}

pub proof fn lemma_zero_or_one_connected(a: Automaton)
    requires
        a.wf(),
        a.states() >= 1,
        a.connected(),
    ensures
        a.zero_or_one().connected(),
{
    let c = a.zero_or_one();
    lemma_zero_or_one_edges(a);
    lemma_zero_or_one(a);
    lemma_linked_to_itself(c, 0);
    assert forall|q: int| 0 <= q < c.states() implies #[trigger] c.linked(0, q) by {
        lemma_copy_is_reached(c, a, 0, q);
    }
    assert(c.has_edge(0, Label::Epsilon, a.accept()));
}

pub proof fn lemma_power_connected(unit: Automaton, count: nat)
    requires
        unit.wf(),
        unit.states() >= 1,
        unit.connected(),
    ensures
        unit.power(count).connected(),
    decreases count,
{
    if count == 0 {
        lemma_atom_connected(Label::Epsilon);
    } else if count == 1 {
    } else {
        lemma_power_connected(unit, (count - 1) as nat);
        lemma_power(unit, (count - 1) as nat);
        assert((count - 1) * unit.states() >= 1) by (nonlinear_arith)
            requires
                count >= 2,
                unit.states() >= 1,
        ;
        lemma_concatenate_connected(unit.power((count - 1) as nat), unit);
    }
}

pub proof fn lemma_then_optional_connected(head: Automaton, unit: Automaton, count: nat)
    requires
        head.wf(),
        unit.wf(),
        head.states() >= 1,
        unit.states() >= 1,
        head.connected(),
        unit.connected(),
    ensures
        head.then_optional(unit, count).connected(),
    decreases count,
{
    if count > 0 {
        let less = (count - 1) as nat;
        lemma_then_optional_connected(head, unit, less);
        lemma_then_optional(head, unit, less);
        lemma_zero_or_one(unit);
        lemma_zero_or_one_connected(unit);
        assert(less * unit.states() >= 0) by (nonlinear_arith)
            requires
                unit.states() >= 1,
        ;
        lemma_concatenate_connected(head.then_optional(unit, less), unit.zero_or_one());
    }
}

pub proof fn lemma_repeat_last_connected(a: Automaton, unit_states: int)
    requires
        a.wf(),
        a.states() >= 1,
        unit_states >= 0,
        a.connected(),
    ensures
        a.repeat_last(unit_states).connected(),
{
    let c = a.repeat_last(unit_states);
    let end = a.accept();
    let back = if end >= unit_states {
        end - unit_states
    } else {
        0
    };
    let s1 = a.add_edge(end, Label::Epsilon, back);
    lemma_repeat_last(a, unit_states);
    assert forall|p: int, label: Label, q: int| #[trigger]
        c.has_edge(p, label, q) <==> a.has_edge(p, label, q) || (p == end && label
            == Label::Epsilon && (q == back || q == end + 1)) by {
        lemma_edges_of_add_edge(a, end, Label::Epsilon, back, p, label, q);
        lemma_edges_of_add_edge(s1, end, Label::Epsilon, end + 1, p, label, q);
    }
    lemma_linked_to_itself(c, 0);
    lemma_copy_is_reached(c, a, 0, end);
    assert(c.has_edge(end, Label::Epsilon, end + 1));
    lemma_edge_links(c, end, Label::Epsilon, end + 1);
    lemma_linked_compose(c, 0, end, end + 1);
    assert forall|q: int| 0 <= q < c.states() implies #[trigger] c.linked(0, q) by {
        if q <= end {
            lemma_copy_is_reached(c, a, 0, q);
        }
    }
    let (label, r) = choose|label: Label, r: int| #[trigger] a.has_edge(0, label, r);
    assert(c.has_edge(0, label, r));
}

pub proof fn lemma_repeat_connected(unit: Automaton, min: nat, max: Option<nat>)
    requires
        unit.wf(),
        unit.states() >= 1,
        unit.connected(),
    ensures
        unit.repeat(min, max).connected(),
{
    lemma_power(unit, min);
    lemma_power_connected(unit, min);
    assert(min > 0 ==> min * unit.states() >= 1) by (nonlinear_arith)
        requires
            unit.states() >= 1,
    ;
    match max {
        Some(m) => {
            let extra: nat = if m > min {
                (m - min) as nat
            } else {
                0
            };
            lemma_then_optional_connected(unit.power(min), unit, extra);
        },
        None => {
            if min == 0 {
                lemma_zero_or_one(unit);
                lemma_zero_or_one_connected(unit);
                lemma_one_or_more_connected(unit.zero_or_one());
            } else {
                lemma_repeat_last_connected(unit.power(min), unit.states());
            }
        },
    }
}

pub proof fn lemma_group_connected(a: Automaton, is_capturing: bool, name: Option<Seq<char>>)
    requires
        a.wf(),
        a.states() >= 1,
        a.connected(),
    ensures
        a.group(is_capturing, name).connected(),
{
    let c = a.group(is_capturing, name);
    lemma_group(a, is_capturing, name);
    assert(c.edges == a.edges);
    assert forall|p: int, label: Label, q: int| #[trigger]
        a.has_edge(p, label, q) implies c.has_edge(p, label, q) by {}
    lemma_linked_to_itself(c, 0);
    assert forall|q: int| 0 <= q < c.states() implies #[trigger] c.linked(0, q) by {
        lemma_copy_is_reached(c, a, 0, q);
    }
    let (label, r) = choose|label: Label, r: int| #[trigger] a.has_edge(0, label, r);
    assert(c.has_edge(0, label, r));
}

/// In the automaton of a syntax tree the initial state has an edge, and
/// every state is reached from the initial state by a path of edges.
pub proof fn lemma_compile_connected(ast: Ast)
    ensures
        Automaton::compile(ast).connected(),
    decreases ast,
{
    match ast {
        Ast::Empty => lemma_atom_connected(Label::Epsilon),
        Ast::Character(c) => lemma_atom_connected(Label::Character(c)),
        Ast::Wildcard => lemma_atom_connected(Label::Wildcard),
        Ast::Class(class) => lemma_atom_connected(Label::Class(class)),
        Ast::Concatenation(a, b) => {
            lemma_compile_connected(*a);
            lemma_compile_connected(*b);
            lemma_compile(*a);
            lemma_compile(*b);
            lemma_concatenate_connected(Automaton::compile(*a), Automaton::compile(*b));
        },
        Ast::Alternation(a, b) => {
            lemma_compile_connected(*a);
            lemma_compile_connected(*b);
            lemma_compile(*a);
            lemma_compile(*b);
            lemma_alternate_connected(Automaton::compile(*a), Automaton::compile(*b));
        },
        Ast::Star(a) => {
            lemma_compile_connected(*a);
            lemma_compile(*a);
            lemma_zero_or_one(Automaton::compile(*a));
            lemma_zero_or_one_connected(Automaton::compile(*a));
            lemma_one_or_more_connected(Automaton::compile(*a).zero_or_one());
        },
        Ast::Plus(a) => {
            lemma_compile_connected(*a);
            lemma_compile(*a);
            lemma_one_or_more_connected(Automaton::compile(*a));
        },
        Ast::Optional(a) => {
            lemma_compile_connected(*a);
            lemma_compile(*a);
            lemma_zero_or_one_connected(Automaton::compile(*a));
        },
        Ast::Repeat { inner, min, max } => {
            lemma_compile_connected(*inner);
            lemma_compile(*inner);
            lemma_repeat_connected(Automaton::compile(*inner), min, max);
        },
        Ast::Group { inner, is_capturing, name } => {
            lemma_compile_connected(*inner);
            lemma_compile(*inner);
            lemma_group_connected(Automaton::compile(*inner), is_capturing, name);
        },
    }
}

} // verus!
