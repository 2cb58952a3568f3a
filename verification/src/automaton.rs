use crate::ast::{Ast, ClassModel};
use crate::text::whitespace;
use vstd::prelude::*;

verus! {

/// What an edge of an automaton reads.
pub enum Label {
    /// Nothing: the edge is taken without reading a character.
    Epsilon,
    /// Exactly this character.
    Character(char),
    /// Any one character.
    Wildcard,
    /// Any one character that the class matches.
    Class(ClassModel),
}

impl Label {
    /// How the label is shown: `ε` for no character, `wildcard` for any,
    /// the character itself unless it is white space, and a class as it is
    /// written.
    pub open spec fn text(self) -> Seq<char> {
        match self {
            Label::Epsilon => seq!['ε'],
            Label::Wildcard => "wildcard"@,
            Label::Character(c) => if whitespace(c) {
                "whitespace"@
            } else {
                seq![c]
            },
            Label::Class(class) => class.text(),
        }
    }

    /// True when an edge with this label can be taken on reading `c`.
    pub open spec fn accepts(self, c: char) -> bool {
        match self {
            Label::Epsilon => false,
            Label::Character(x) => x == c,
            Label::Wildcard => true,
            Label::Class(class) => class.matches(c),
        }
    }
}

/// An edge, as seen from its source state.
pub struct Edge {
    pub label: Label,
    pub end: int,
}

/// The two states that delimit a capture group, and the group's name.
pub struct Span {
    pub start: int,
    pub end: int,
    pub name: Option<Seq<char>>,
}

/// Mathematical model of a nondeterministic automaton.
///
/// The states are `0 .. edges.len()`; `edges[s]` lists the edges that leave
/// state `s`, in the order in which they were added. State `0` is the initial
/// state and the last state is the accepting one. `groups` lists the capture
/// groups in the order in which their opening parentheses occur.
pub struct Automaton {
    pub edges: Seq<Seq<Edge>>,
    pub groups: Seq<Span>,
}

/// The edges `edges` with every target moved up by `offset`.
pub open spec fn shift_edges(edges: Seq<Edge>, offset: int) -> Seq<Edge> {
    Seq::new(edges.len(), |k: int| Edge { label: edges[k].label, end: edges[k].end + offset })
}

/// The spans `spans` with every endpoint moved up by `offset`.
pub open spec fn shift_spans(spans: Seq<Span>, offset: int) -> Seq<Span> {
    Seq::new(
        spans.len(),
        |g: int|
            Span { start: spans[g].start + offset, end: spans[g].end + offset, name: spans[g].name },
    )
}

/// The rows `rows`, one per state, made at least `n` long with empty rows.
pub open spec fn grow_rows(rows: Seq<Seq<Edge>>, n: int) -> Seq<Seq<Edge>> {
    Seq::new(
        if n > rows.len() {
            n as nat
        } else {
            rows.len()
        },
        |s: int|
            if s < rows.len() {
                rows[s]
            } else {
                Seq::empty()
            },
    )
}

/// The rows `rows` with one more edge at the end of row `from`, grown first
/// so that the rows `from` and `to` exist.
pub open spec fn add_edge_rows(rows: Seq<Seq<Edge>>, from: int, label: Label, to: int) -> Seq<
    Seq<Edge>,
> {
    let wide = grow_rows(
        rows,
        if from < to {
            to + 1
        } else {
            from + 1
        },
    );
    wide.update(from, wide[from].push(Edge { label, end: to }))
}

/// The rows `rows` with the rows `other`, shifted by `offset`, appended to
/// the rows `offset .. offset + other.len()`, which are made to exist first.
pub open spec fn embed_rows(rows: Seq<Seq<Edge>>, other: Seq<Seq<Edge>>, offset: int) -> Seq<
    Seq<Edge>,
> {
    let wide = grow_rows(rows, offset + other.len());
    Seq::new(
        wide.len(),
        |s: int|
            if offset <= s < offset + other.len() {
                wide[s] + shift_edges(other[s - offset], offset)
            } else {
                wide[s]
            },
    )
}

impl Automaton {
    /// The automaton without states.
    pub open spec fn empty() -> Automaton {
        Automaton { edges: Seq::empty(), groups: Seq::empty() }
    }

    /// Number of states.
    pub open spec fn states(self) -> int {
        self.edges.len() as int
    }

    /// The accepting state.
    pub open spec fn accept(self) -> int {
        self.states() - 1
    }

    /// Every edge and every capture endpoint stays within the states.
    pub open spec fn wf(self) -> bool {
        &&& forall|s: int, k: int|
            0 <= s < self.edges.len() && 0 <= k < self.edges[s].len() ==> 0 <= (
            #[trigger] self.edges[s][k]).end < self.states()
        &&& forall|g: int|
            0 <= g < self.groups.len() ==> 0 <= (#[trigger] self.groups[g]).start < self.states()
                && 0 <= self.groups[g].end < self.states()
    }

    /// The automaton with one more edge from `from` to `to`, placed after the
    /// edges that `from` already has. States are added so that both exist.
    pub open spec fn add_edge(self, from: int, label: Label, to: int) -> Automaton {
        Automaton { edges: add_edge_rows(self.edges, from, label, to), groups: self.groups }
    }

    /// The automaton with a copy of `other` laid over the states
    /// `offset .. offset + other.states()`: state `s` of `other` becomes state
    /// `s + offset`, its edges come after those that the state already has, and
    /// the capture groups of `other` come after those already listed.
    pub open spec fn embed(self, other: Automaton, offset: int) -> Automaton {
        Automaton {
            edges: embed_rows(self.edges, other.edges, offset),
            groups: self.groups + shift_spans(other.groups, offset),
        }
    }

    /// The automaton with `span` placed before the capture groups already listed.
    pub open spec fn add_group(self, span: Span) -> Automaton {
        Automaton { edges: self.edges, groups: seq![span] + self.groups }
    }

    /// Two states joined by one edge with the given label.
    pub open spec fn atom(label: Label) -> Automaton {
        Automaton::empty().add_edge(0, label, 1)
    }

    /// `self` followed by `other`: the accepting state of `self` leads into the
    /// copy of `other` by an epsilon edge.
    pub open spec fn concatenate(self, other: Automaton) -> Automaton {
        let offset = self.states();
        self.embed(other, offset).add_edge(offset - 1, Label::Epsilon, offset)
    }

    /// Either `self` or `other`: a new initial state leads into both copies,
    /// and both accepting states lead into a new accepting state.
    pub open spec fn alternate(self, other: Automaton) -> Automaton {
        let offset = self.states() + 1;
        let end = offset + other.states();
        Automaton::empty().add_edge(0, Label::Epsilon, 1).add_edge(0, Label::Epsilon, offset).embed(
            self,
            1,
        ).embed(other, offset).add_edge(offset - 1, Label::Epsilon, end).add_edge(
            end - 1,
            Label::Epsilon,
            end,
        )
    }

    /// `self` once or more: its accepting state leads back to its initial
    /// state and on to a new accepting state.
    pub open spec fn one_or_more(self) -> Automaton {
        let offset = self.states();
        Automaton::empty().add_edge(0, Label::Epsilon, 1).embed(self, 1).add_edge(
            offset,
            Label::Epsilon,
            1,
        ).add_edge(offset, Label::Epsilon, offset + 1)
    }

    /// `self` or nothing: the initial state leads straight to the accepting one.
    pub open spec fn zero_or_one(self) -> Automaton {
        self.add_edge(0, Label::Epsilon, self.accept())
    }

    /// `self` any number of times.
    pub open spec fn zero_or_more(self) -> Automaton {
        self.zero_or_one().one_or_more()
    }

    /// `count` copies of `self` in a row; the automaton of the empty pattern
    /// when `count` is zero.
    pub open spec fn power(self, count: nat) -> Automaton
        decreases count,
    {
        if count == 0 {
            Automaton::atom(Label::Epsilon)
        } else if count == 1 {
            self
        } else {
            self.power((count - 1) as nat).concatenate(self)
        }
    }

    /// `self` followed by `count` optional copies of `unit`.
    pub open spec fn then_optional(self, unit: Automaton, count: nat) -> Automaton
        decreases count,
    {
        if count == 0 {
            self
        } else {
            self.then_optional(unit, (count - 1) as nat).concatenate(unit.zero_or_one())
        }
    }

    /// `self`, which ends in a copy of an automaton of `unit_states` states,
    /// with that last copy made repeatable: the accepting state leads back to
    /// the state through which the last copy is entered (the accepting state
    /// of the copy before it, or the initial state when there is none) and on
    /// to a new accepting state.
    pub open spec fn repeat_last(self, unit_states: int) -> Automaton {
        let end = self.accept();
        let back = if end >= unit_states {
            end - unit_states
        } else {
            0
        };
        self.add_edge(end, Label::Epsilon, back).add_edge(end, Label::Epsilon, end + 1)
    }

    /// `self` at least `min` times and, where `max` is given, at most `max` times.
    ///
    /// With an upper bound below `min` the automaton is that of exactly `min`
    /// times. Without an upper bound, zero or more times is `zero_or_more`,
    /// and once or more leads from the accepting state of the one copy back
    /// into the initial state: an optional or repeated pattern that begins
    /// with such a repetition also reads the words that lead once around it.
    pub open spec fn repeat(self, min: nat, max: Option<nat>) -> Automaton {
        match max {
            Some(m) => self.power(min).then_optional(
                self,
                if m > min {
                    (m - min) as nat
                } else {
                    0
                },
            ),
            None => if min == 0 {
                self.zero_or_more()
            } else {
                self.power(min).repeat_last(self.states())
            },
        }
    }

    /// `self` as a group: a capturing group is listed, before the groups inside it.
    pub open spec fn group(self, is_capturing: bool, name: Option<Seq<char>>) -> Automaton {
        if is_capturing {
            self.add_group(Span { start: 0, end: self.accept(), name })
        } else {
            self
        }
    }

    /// The automaton of a syntax tree.
    pub open spec fn compile(ast: Ast) -> Automaton
        decreases ast,
    {
        match ast {
            Ast::Empty => Automaton::atom(Label::Epsilon),
            Ast::Character(c) => Automaton::atom(Label::Character(c)),
            Ast::Wildcard => Automaton::atom(Label::Wildcard),
            Ast::Class(class) => Automaton::atom(Label::Class(class)),
            Ast::Concatenation(a, b) => Automaton::compile(*a).concatenate(Automaton::compile(*b)),
            Ast::Alternation(a, b) => Automaton::compile(*a).alternate(Automaton::compile(*b)),
            Ast::Star(a) => Automaton::compile(*a).zero_or_more(),
            Ast::Plus(a) => Automaton::compile(*a).one_or_more(),
            Ast::Optional(a) => Automaton::compile(*a).zero_or_one(),
            Ast::Repeat { inner, min, max } => Automaton::compile(*inner).repeat(min, max),
            Ast::Group { inner, is_capturing, name } => Automaton::compile(*inner).group(
                is_capturing,
                name,
            ),
        }
    }
}

/// Adding an edge between states that then exist keeps an automaton well formed.
pub proof fn lemma_add_edge_wf(a: Automaton, from: int, label: Label, to: int)
    requires
        a.wf(),
        0 <= from,
        0 <= to,
    ensures
        a.add_edge(from, label, to).wf(),
        a.add_edge(from, label, to).states() == if from < to {
            if to + 1 > a.states() {
                to + 1
            } else {
                a.states()
            }
        } else {
            if from + 1 > a.states() {
                from + 1
            } else {
                a.states()
            }
        },
{
    let b = a.add_edge(from, label, to);
    assert forall|s: int, k: int| 0 <= s < b.edges.len() && 0 <= k < b.edges[s].len() implies 0
        <= (#[trigger] b.edges[s][k]).end < b.states() by {
        if s < a.states() && k < a.edges[s].len() {
            assert(b.edges[s][k] == a.edges[s][k]);
        }
    }
    assert forall|g: int| 0 <= g < b.groups.len() implies 0 <= (#[trigger] b.groups[g]).start
        < b.states() && 0 <= b.groups[g].end < b.states() by {
        assert(b.groups[g] == a.groups[g]);
    }
}

/// Laying a well-formed automaton over another keeps it well formed.
pub proof fn lemma_embed_wf(a: Automaton, other: Automaton, offset: int)
    requires
        a.wf(),
        other.wf(),
        0 <= offset,
    ensures
        a.embed(other, offset).wf(),
        a.embed(other, offset).states() == if offset + other.states() > a.states() {
            offset + other.states()
        } else {
            a.states()
        },
{
    let b = a.embed(other, offset);
    assert forall|s: int, k: int| 0 <= s < b.edges.len() && 0 <= k < b.edges[s].len() implies 0
        <= (#[trigger] b.edges[s][k]).end < b.states() by {
        let base = grow_rows(a.edges, offset + other.states())[s];
        if k < base.len() {
            assert(b.edges[s][k] == a.edges[s][k]);
        } else {
            let e = other.edges[s - offset][k - base.len()];
            assert(b.edges[s][k] == Edge { label: e.label, end: e.end + offset });
        }
    }
    assert forall|g: int| 0 <= g < b.groups.len() implies 0 <= (#[trigger] b.groups[g]).start
        < b.states() && 0 <= b.groups[g].end < b.states() by {
        if g < a.groups.len() {
            assert(b.groups[g] == a.groups[g]);
        } else {
            let span = other.groups[g - a.groups.len()];
            assert(b.groups[g] == Span {
                start: span.start + offset,
                end: span.end + offset,
                name: span.name,
            });
        }
    }
}

/// Number of states of the automaton of a syntax tree.
pub open spec fn state_count(ast: Ast) -> nat
    decreases ast,
{
    match ast {
        Ast::Empty => 2,
        Ast::Character(_) => 2,
        Ast::Wildcard => 2,
        Ast::Class(_) => 2,
        Ast::Concatenation(a, b) => state_count(*a) + state_count(*b),
        Ast::Alternation(a, b) => state_count(*a) + state_count(*b) + 2,
        Ast::Star(a) => state_count(*a) + 2,
        Ast::Plus(a) => state_count(*a) + 2,
        Ast::Optional(a) => state_count(*a),
        Ast::Repeat { inner, min, max } => repeat_count(state_count(*inner), min, max),
        Ast::Group { inner, .. } => state_count(*inner),
    }
}

/// Number of states of a counted repetition of an automaton of `unit` states.
pub open spec fn repeat_count(unit: nat, min: nat, max: Option<nat>) -> nat {
    let head = if min == 0 {
        2
    } else {
        min * unit
    };
    match max {
        Some(m) => if m > min {
            (head + (m - min) * unit) as nat
        } else {
            head
        },
        None => if min == 0 {
            unit + 2
        } else {
            head + 1
        },
    }
}

/// A single edge makes a well-formed automaton of two states.
pub proof fn lemma_atom(label: Label)
    ensures
        Automaton::atom(label).wf(),
        Automaton::atom(label).states() == 2,
{
    lemma_add_edge_wf(Automaton::empty(), 0, label, 1);
}

pub proof fn lemma_concatenate(a: Automaton, b: Automaton)
    requires
        a.wf(),
        b.wf(),
        a.states() >= 1,
    ensures
        a.concatenate(b).wf(),
        a.concatenate(b).states() == if b.states() == 0 {
            a.states() + 1
        } else {
            a.states() + b.states()
        },
{
    let offset = a.states();
    lemma_embed_wf(a, b, offset);
    lemma_add_edge_wf(a.embed(b, offset), offset - 1, Label::Epsilon, offset);
}

pub proof fn lemma_alternate(a: Automaton, b: Automaton)
    requires
        a.wf(),
        b.wf(),
        a.states() >= 1,
        b.states() >= 1,
    ensures
        a.alternate(b).wf(),
        a.alternate(b).states() == a.states() + b.states() + 2,
{
    let offset = a.states() + 1;
    let end = offset + b.states();
    let s0 = Automaton::empty();
    let s1 = s0.add_edge(0, Label::Epsilon, 1);
    let s2 = s1.add_edge(0, Label::Epsilon, offset);
    let s3 = s2.embed(a, 1);
    let s4 = s3.embed(b, offset);
    let s5 = s4.add_edge(offset - 1, Label::Epsilon, end);
    lemma_add_edge_wf(s0, 0, Label::Epsilon, 1);
    lemma_add_edge_wf(s1, 0, Label::Epsilon, offset);
    lemma_embed_wf(s2, a, 1);
    lemma_embed_wf(s3, b, offset);
    lemma_add_edge_wf(s4, offset - 1, Label::Epsilon, end);
    lemma_add_edge_wf(s5, end - 1, Label::Epsilon, end);
}

pub proof fn lemma_one_or_more(a: Automaton)
    requires
        a.wf(),
        a.states() >= 1,
    ensures
        a.one_or_more().wf(),
        a.one_or_more().states() == a.states() + 2,
{
    let offset = a.states();
    let s0 = Automaton::empty();
    let s1 = s0.add_edge(0, Label::Epsilon, 1);
    let s2 = s1.embed(a, 1);
    let s3 = s2.add_edge(offset, Label::Epsilon, 1);
    lemma_add_edge_wf(s0, 0, Label::Epsilon, 1);
    lemma_embed_wf(s1, a, 1);
    lemma_add_edge_wf(s2, offset, Label::Epsilon, 1);
    lemma_add_edge_wf(s3, offset, Label::Epsilon, offset + 1);
}

pub proof fn lemma_zero_or_one(a: Automaton)
    requires
        a.wf(),
        a.states() >= 1,
    ensures
        a.zero_or_one().wf(),
        a.zero_or_one().states() == a.states(),
{
    lemma_add_edge_wf(a, 0, Label::Epsilon, a.accept());
}

pub proof fn lemma_zero_or_more(a: Automaton)
    requires
        a.wf(),
        a.states() >= 1,
    ensures
        a.zero_or_more().wf(),
        a.zero_or_more().states() == a.states() + 2,
{
    lemma_zero_or_one(a);
    lemma_one_or_more(a.zero_or_one());
}

pub proof fn lemma_power(unit: Automaton, count: nat)
    requires
        unit.wf(),
        unit.states() >= 1,
    ensures
        unit.power(count).wf(),
        unit.power(count).states() == if count == 0 {
            2
        } else {
            count * unit.states()
        },
    decreases count,
{
    if count == 0 {
        lemma_atom(Label::Epsilon);
    } else if count == 1 {
        assert(1 * unit.states() == unit.states());
    } else {
        lemma_power(unit, (count - 1) as nat);
        assert((count - 1) * unit.states() + unit.states() == count * unit.states())
            by (nonlinear_arith);
        assert((count - 1) * unit.states() >= 1) by (nonlinear_arith)
            requires
                count >= 2,
                unit.states() >= 1,
        ;
        lemma_concatenate(unit.power((count - 1) as nat), unit);
    }
}

pub proof fn lemma_then_optional(a: Automaton, unit: Automaton, count: nat)
    requires
        a.wf(),
        unit.wf(),
        a.states() >= 1,
        unit.states() >= 1,
    ensures
        a.then_optional(unit, count).wf(),
        a.then_optional(unit, count).states() == a.states() + count * unit.states(),
    decreases count,
{
    if count == 0 {
        assert(0 * unit.states() == 0);
    } else {
        lemma_then_optional(a, unit, (count - 1) as nat);
        lemma_zero_or_one(unit);
        assert((count - 1) * unit.states() + unit.states() == count * unit.states())
            by (nonlinear_arith);
        assert((count - 1) * unit.states() >= 0) by (nonlinear_arith)
            requires
                count >= 1,
                unit.states() >= 1,
        ;
        lemma_concatenate(a.then_optional(unit, (count - 1) as nat), unit.zero_or_one());
    }
}

pub proof fn lemma_repeat_last(a: Automaton, unit_states: int)
    requires
        a.wf(),
        a.states() >= 1,
        unit_states >= 0,
    ensures
        a.repeat_last(unit_states).wf(),
        a.repeat_last(unit_states).states() == a.states() + 1,
{
    let end = a.accept();
    let back = if end >= unit_states {
        end - unit_states
    } else {
        0
    };
    lemma_add_edge_wf(a, end, Label::Epsilon, back);
    lemma_add_edge_wf(a.add_edge(end, Label::Epsilon, back), end, Label::Epsilon, end + 1);
}

pub proof fn lemma_repeat(unit: Automaton, min: nat, max: Option<nat>)
    requires
        unit.wf(),
        unit.states() >= 1,
    ensures
        unit.repeat(min, max).wf(),
        unit.repeat(min, max).states() == repeat_count(unit.states() as nat, min, max),
{
    lemma_power(unit, min);
    assert(min > 0 ==> min * unit.states() >= 1) by (nonlinear_arith)
        requires
            unit.states() >= 1,
    ;
    match max {
        Some(m) => {
            let extra: nat = if m > min {
                (m - min) as nat
            } else {
                0
            };
            lemma_then_optional(unit.power(min), unit, extra);
            assert(0 * unit.states() == 0);
        },
        None => {
            if min == 0 {
                lemma_zero_or_more(unit);
            } else {
                lemma_repeat_last(unit.power(min), unit.states());
            }
        },
    }
}

pub proof fn lemma_group(a: Automaton, is_capturing: bool, name: Option<Seq<char>>)
    requires
        a.wf(),
        a.states() >= 1,
    ensures
        a.group(is_capturing, name).wf(),
        a.group(is_capturing, name).states() == a.states(),
{
    let b = a.group(is_capturing, name);
    if is_capturing {
        assert forall|g: int| 0 <= g < b.groups.len() implies 0 <= (#[trigger] b.groups[g]).start
            < b.states() && 0 <= b.groups[g].end < b.states() by {
            if g > 0 {
                assert(b.groups[g] == a.groups[g - 1]);
            }
        }
    }
}

/// The automaton of a syntax tree is well formed and has as many states as
/// `state_count` says, at least two.
pub proof fn lemma_compile(ast: Ast)
    ensures
        Automaton::compile(ast).wf(),
        Automaton::compile(ast).states() == state_count(ast),
        state_count(ast) >= 2,
    decreases ast,
{
    match ast {
        Ast::Empty => lemma_atom(Label::Epsilon),
        Ast::Character(c) => lemma_atom(Label::Character(c)),
        Ast::Wildcard => lemma_atom(Label::Wildcard),
        Ast::Class(class) => lemma_atom(Label::Class(class)),
        Ast::Concatenation(a, b) => {
            lemma_compile(*a);
            lemma_compile(*b);
            lemma_concatenate(Automaton::compile(*a), Automaton::compile(*b));
        },
        Ast::Alternation(a, b) => {
            lemma_compile(*a);
            lemma_compile(*b);
            lemma_alternate(Automaton::compile(*a), Automaton::compile(*b));
        },
        Ast::Star(a) => {
            lemma_compile(*a);
            lemma_zero_or_more(Automaton::compile(*a));
        },
        Ast::Plus(a) => {
            lemma_compile(*a);
            lemma_one_or_more(Automaton::compile(*a));
        },
        Ast::Optional(a) => {
            lemma_compile(*a);
            lemma_zero_or_one(Automaton::compile(*a));
        },
        Ast::Repeat { inner, min, max } => {
            lemma_compile(*inner);
            lemma_repeat(Automaton::compile(*inner), min, max);
            let unit = state_count(*inner);
            assert(min > 0 ==> min * unit >= 2) by (nonlinear_arith)
                requires
                    unit >= 2,
            ;
            if let Some(m) = max {
                assert(m > min ==> (m - min) * unit >= 0) by (nonlinear_arith);
            }
        },
        Ast::Group { inner, is_capturing, name } => {
            lemma_compile(*inner);
            lemma_group(Automaton::compile(*inner), is_capturing, name);
        },
    }
}

} // verus!
