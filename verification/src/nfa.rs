use crate::ast::{name_model, CharacterClass};
use crate::ast::{bound_model, Ast, Group, Node, Range};
use crate::automaton::{
    add_edge_rows, embed_rows, grow_rows, lemma_add_edge_wf, lemma_compile, lemma_embed_wf,
    lemma_power, lemma_then_optional, lemma_zero_or_one, repeat_count, shift_edges, shift_spans,
    state_count, Automaton, Edge, Label, Span,
};
use crate::connected::lemma_compile_connected;
use crate::simulation::{
    ints, lemma_closed_holds_reached, lemma_eps_reach_extend, lemma_eps_reach_in_range,
};
use std::collections::HashSet;
use vstd::prelude::*;
use vstd::string::StringExecFns;
use vstd::set_lib::{lemma_int_range, set_int_range};
use vstd::std_specs::convert::FromSpecImpl;

verus! {

/// The initial state of every automaton.
pub const START: usize = 0;

/// States are numbered from zero.
pub type StateId = usize;

/// The transitions of an automaton: for each state, in the order of the
/// states, those that leave it, in the order in which they were added.
pub type TransitionMap = Vec<Vec<Transition>>;

/// What a transition reads.
#[derive(Debug, PartialEq)]
pub enum TransitionKind {
    Character(char),
    Epsilon,
    Wildcard,
    CharacterClass(CharacterClass),
}

impl View for TransitionKind {
    type V = Label;

    open spec fn view(&self) -> Label {
        match self {
            TransitionKind::Character(c) => Label::Character(*c),
            TransitionKind::Epsilon => Label::Epsilon,
            TransitionKind::Wildcard => Label::Wildcard,
            TransitionKind::CharacterClass(class) => Label::Class(class@),
        }
    }
}

impl TransitionKind {
    /// What the transition reads, in words.
    pub fn to_string(&self) -> (text: String)
        ensures
            text@ == self@.text(),
    {
        match self {
            TransitionKind::Epsilon => {
                let mut text = String::new();
                text.push('ε');
                text
            },
            TransitionKind::Wildcard => String::from_str("wildcard"),
            TransitionKind::Character(ch) => {
                if ch.is_whitespace() {
                    String::from_str("whitespace")
                } else {
                    let mut text = String::new();
                    text.push(*ch);
                    text
                }
            },
            TransitionKind::CharacterClass(class) => class.to_string(),
        }
    }
}

impl Clone for TransitionKind {
    fn clone(&self) -> (copy: TransitionKind)
        ensures
            copy@ == self@,
    {
        match self {
            TransitionKind::Character(c) => TransitionKind::Character(*c),
            TransitionKind::Epsilon => TransitionKind::Epsilon,
            TransitionKind::Wildcard => TransitionKind::Wildcard,
            TransitionKind::CharacterClass(class) => TransitionKind::CharacterClass(class.clone()),
        }
    }
}

/// An edge of an automaton, stored with the state that it leaves.
#[derive(Debug, PartialEq)]
pub struct Transition {
    pub kind: TransitionKind,
    pub end: StateId,
}

impl View for Transition {
    type V = Edge;

    open spec fn view(&self) -> Edge {
        Edge { label: self.kind@, end: self.end as int }
    }
}

impl Clone for Transition {
    fn clone(&self) -> (copy: Transition)
        ensures
            copy@ == self@,
    {
        Transition { kind: self.kind.clone(), end: self.end }
    }
}

impl Transition {
    pub fn new(kind: TransitionKind, end: StateId) -> (transition: Transition)
        ensures
            transition.kind == kind,
            transition.end == end,
    {
        Transition { kind, end }
    }

    /// What the transition reads.
    pub fn kind(&self) -> (kind: &TransitionKind)
        ensures
            kind@ == self@.label,
    {
        &self.kind
    }

    /// The state that the transition leads to.
    pub fn end(&self) -> (end: StateId)
        ensures
            end == self@.end,
    {
        self.end
    }

    /// True when the transition reads nothing.
    pub fn is_epsilon(&self) -> (b: bool)
        ensures
            b == (self@.label is Epsilon),
    {
        match self.kind {
            TransitionKind::Epsilon => true,
            _ => false,
        }
    }

    /// True when the transition can be taken on reading `input`.
    pub fn accept(&self, input: &char) -> (b: bool)
        ensures
            b == self@.label.accepts(*input),
    {
        match &self.kind {
            TransitionKind::Character(ch) => *ch == *input,
            TransitionKind::Wildcard => true,
            TransitionKind::Epsilon => false,
            TransitionKind::CharacterClass(class) => class.matches(*input),
        }
    }
}

/// The two states that delimit a capture group, and the name it was given.
#[derive(Debug, PartialEq)]
pub struct CaptureGroup {
    pub start: StateId,
    pub end: StateId,
    pub name: Option<String>,
}

impl View for CaptureGroup {
    type V = Span;

    open spec fn view(&self) -> Span {
        Span { start: self.start as int, end: self.end as int, name: name_model(self.name) }
    }
}

impl Clone for CaptureGroup {
    fn clone(&self) -> (copy: CaptureGroup)
        ensures
            copy@ == self@,
    {
        let name = match &self.name {
            Some(n) => Some(n.clone()),
            None => None,
        };
        CaptureGroup { start: self.start, end: self.end, name }
    }
}

/// The models of the transitions that leave one state.
pub open spec fn edge_models(row: Seq<Transition>) -> Seq<Edge> {
    Seq::new(row.len(), |k: int| row[k]@)
}

/// The models of the transitions of all states.
pub open spec fn row_models(rows: Seq<Vec<Transition>>) -> Seq<Seq<Edge>> {
    Seq::new(rows.len(), |s: int| edge_models(rows[s]@))
}

/// The models of a list of capture groups.
pub open spec fn span_models(groups: Seq<CaptureGroup>) -> Seq<Span> {
    Seq::new(groups.len(), |g: int| groups[g]@)
}

/// A nondeterministic automaton with capture annotations.
#[derive(Debug, PartialEq)]
pub struct Nfa {
    pub(crate) transitions: TransitionMap,
    pub(crate) capture_groups: Vec<CaptureGroup>,
}

impl View for Nfa {
    type V = Automaton;

    closed spec fn view(&self) -> Automaton {
        Automaton {
            edges: row_models(self.transitions@),
            groups: span_models(self.capture_groups@),
        }
    }
}

/// Assembles an automaton edge by edge.
#[derive(Debug)]
pub struct NfaBuilder {
    transitions: TransitionMap,
    capture_groups: Vec<CaptureGroup>,
}

impl View for NfaBuilder {
    type V = Automaton;

    closed spec fn view(&self) -> Automaton {
        Automaton {
            edges: row_models(self.transitions@),
            groups: span_models(self.capture_groups@),
        }
    }
}

impl Default for NfaBuilder {
    fn default() -> (builder: NfaBuilder)
        ensures
            builder@ == Automaton::empty(),
    {
        let builder = NfaBuilder { transitions: Vec::new(), capture_groups: Vec::new() };
        assert(builder@.edges == Automaton::empty().edges);
        assert(builder@.groups == Automaton::empty().groups);
        builder
    }
}

/// Adds one transition at the end of row `from`, after adding empty rows as
/// far as needed for the rows `from` and `to` to exist.
fn add_transition(rows: &mut Vec<Vec<Transition>>, from: StateId, kind: TransitionKind, to: StateId)
    requires
        from < usize::MAX,
        to < usize::MAX,
    ensures
        row_models(final(rows)@) == add_edge_rows(
            row_models(old(rows)@),
            from as int,
            kind@,
            to as int,
        ),
{
    let need = if from < to {
        to + 1
    } else {
        from + 1
    };
    let ghost before = row_models(rows@);
    while rows.len() < need
        invariant
            rows.len() >= before.len(),
            rows.len() <= need || rows.len() == before.len(),
            forall|s: int| 0 <= s < before.len() ==> row_models(rows@)[s] == before[s],
            forall|s: int| before.len() <= s < rows.len() ==> rows@[s]@.len() == 0,
        decreases need - rows.len(),
    {
        let ghost prev = row_models(rows@);
        rows.push(Vec::new());
        proof {
            assert forall|s: int| 0 <= s < before.len() implies row_models(rows@)[s]
                == before[s] by {
                assert(row_models(rows@)[s] == prev[s]);
            }
        }
    }
    let ghost wide = row_models(rows@);
    proof {
        assert forall|s: int| before.len() <= s < wide.len() implies wide[s] == Seq::<
            Edge,
        >::empty() by {}
        assert(wide == grow_rows(before, need as int));
    }
    let ghost row = rows@[from as int]@;
    rows[from].push(Transition::new(kind, to));
    proof {
        let after = row_models(rows@);
        let edge = Edge { label: kind@, end: to as int };
        assert(rows@[from as int]@ == row.push(Transition { kind, end: to }));
        assert(after[from as int] == wide[from as int].push(edge));
        assert forall|s: int| 0 <= s < wide.len() && s != from implies after[s] == wide[s] by {}
        assert(after == wide.update(from as int, wide[from as int].push(edge)));
    }
}

/// Appends to `row` a copy of each transition of `source`, its target moved
/// up by `offset`.
fn append_shifted(row: &mut Vec<Transition>, source: &Vec<Transition>, offset: usize)
    requires
        forall|k: int| 0 <= k < source.len() ==> (#[trigger] source[k]).end + offset <= usize::MAX,
    ensures
        edge_models(final(row)@) == edge_models(old(row)@) + shift_edges(
            edge_models(source@),
            offset as int,
        ),
{
    let ghost before = edge_models(row@);
    let ghost shifted = shift_edges(edge_models(source@), offset as int);
    let mut k: usize = 0;
    while k < source.len()
        invariant
            k <= source.len(),
            forall|j: int| 0 <= j < source.len() ==> (#[trigger] source[j]).end + offset <= usize::MAX,
            shifted == shift_edges(edge_models(source@), offset as int),
            edge_models(row@) == before + shifted.take(k as int),
        decreases source.len() - k,
    {
        let ghost prev = edge_models(row@);
        let t = &source[k];
        let copy = Transition::new(t.kind.clone(), t.end + offset);
        row.push(copy);
        proof {
            assert(copy@ == shifted[k as int]);
            assert(edge_models(row@) == prev.push(copy@));
            assert(shifted.take(k as int + 1) == shifted.take(k as int).push(shifted[k as int]));
        }
        k += 1;
    }
    proof {
        assert(shifted.take(source.len() as int) == shifted);
    }
}

/// Lays a copy of the rows `other`, shifted by `offset`, over `rows`.
fn embed_transitions(rows: &mut Vec<Vec<Transition>>, other: &Vec<Vec<Transition>>, offset: usize)
    requires
        offset + other.len() <= usize::MAX,
        forall|s: int, k: int|
            0 <= s < other.len() && 0 <= k < other[s].len() ==> (#[trigger] other[s][k]).end
                < other.len(),
    ensures
        row_models(final(rows)@) == embed_rows(
            row_models(old(rows)@),
            row_models(other@),
            offset as int,
        ),
{
    let ghost before = row_models(rows@);
    let need = offset + other.len();
    while rows.len() < need
        invariant
            rows.len() >= before.len(),
            rows.len() <= need || rows.len() == before.len(),
            forall|s: int| 0 <= s < before.len() ==> row_models(rows@)[s] == before[s],
            forall|s: int| before.len() <= s < rows.len() ==> rows@[s]@.len() == 0,
        decreases need - rows.len(),
    {
        let ghost prev = row_models(rows@);
        rows.push(Vec::new());
        proof {
            assert forall|s: int| 0 <= s < before.len() implies row_models(rows@)[s]
                == before[s] by {
                assert(row_models(rows@)[s] == prev[s]);
            }
        }
    }
    let ghost wide = row_models(rows@);
    proof {
        assert forall|s: int| before.len() <= s < wide.len() implies wide[s] == Seq::<
            Edge,
        >::empty() by {}
        assert(wide == grow_rows(before, need as int));
    }
    let ghost others = row_models(other@);
    let mut s: usize = 0;
    while s < other.len()
        invariant
            s <= other.len(),
            offset + other.len() <= rows.len(),
            rows.len() == wide.len(),
            others == row_models(other@),
            forall|r: int, k: int|
                0 <= r < other.len() && 0 <= k < other[r].len() ==> (#[trigger] other[r][k]).end
                    < other.len(),
            forall|r: int|
                0 <= r < rows.len() ==> #[trigger] row_models(rows@)[r] == if offset <= r < offset
                    + s {
                    wide[r] + shift_edges(others[r - offset], offset as int)
                } else {
                    wide[r]
                },
        decreases other.len() - s,
    {
        let ghost prev = row_models(rows@);
        let ghost prev_rows = rows@;
        let source = &other[s];
        assert forall|k: int| 0 <= k < source.len() implies (#[trigger] source[k]).end + offset
            <= usize::MAX by {
            assert(other[s as int][k].end < other.len());
        }
        append_shifted(&mut rows[s + offset], source, offset);
        proof {
            assert(rows@.len() == prev_rows.len());
            assert forall|r: int| 0 <= r < rows.len() implies #[trigger] row_models(rows@)[r]
                == if offset <= r < offset + s + 1 {
                wide[r] + shift_edges(others[r - offset], offset as int)
            } else {
                wide[r]
            } by {
                if r == s + offset {
                    assert(prev[r] == wide[r]);
                    assert(others[s as int] == edge_models(source@));
                } else {
                    assert(rows@[r] == prev_rows[r]);
                    assert(row_models(rows@)[r] == prev[r]);
                }
            }
        }
        s += 1;
    }
    proof {
        assert(row_models(rows@) == embed_rows(before, others, offset as int));
    }
}

/// Appends to `groups` a copy of each group of `other`, its endpoints moved
/// up by `offset`.
fn embed_groups(groups: &mut Vec<CaptureGroup>, other: &Vec<CaptureGroup>, offset: usize)
    requires
        forall|g: int|
            0 <= g < other.len() ==> (#[trigger] other[g]).start + offset <= usize::MAX
                && other[g].end + offset <= usize::MAX,
    ensures
        span_models(final(groups)@) == span_models(old(groups)@) + shift_spans(
            span_models(other@),
            offset as int,
        ),
{
    let ghost before = span_models(groups@);
    let ghost shifted = shift_spans(span_models(other@), offset as int);
    let mut g: usize = 0;
    while g < other.len()
        invariant
            g <= other.len(),
            forall|j: int|
                0 <= j < other.len() ==> (#[trigger] other[j]).start + offset <= usize::MAX
                    && other[j].end + offset <= usize::MAX,
            shifted == shift_spans(span_models(other@), offset as int),
            span_models(groups@) == before + shifted.take(g as int),
        decreases other.len() - g,
    {
        let ghost prev = span_models(groups@);
        let group = &other[g];
        let name = match &group.name {
            Some(n) => Some(n.clone()),
            None => None,
        };
        let copy = CaptureGroup { start: group.start + offset, end: group.end + offset, name };
        groups.push(copy);
        proof {
            assert(copy@ == shifted[g as int]);
            assert(span_models(groups@) == prev.push(copy@));
            assert(shifted.take(g as int + 1) == shifted.take(g as int).push(shifted[g as int]));
        }
        g += 1;
    }
    proof {
        assert(shifted.take(other.len() as int) == shifted);
    }
}

impl NfaBuilder {
    /// Holds of every value of the type: edges and capture endpoints stay
    /// within the states.
    #[verifier::type_invariant]
    pub open spec fn well_formed(self) -> bool {
        self@.wf()
    }

    /// The builder with one more transition.
    pub fn transition(self, from: StateId, transition: TransitionKind, to: StateId) -> (builder:
        NfaBuilder)
        requires
            from < usize::MAX,
            to < usize::MAX,
        ensures
            builder@ == self@.add_edge(from as int, transition@, to as int),
    {
        proof {
            use_type_invariant(&self);
            lemma_add_edge_wf(self@, from as int, transition@, to as int);
        }
        let mut transitions = self.transitions;
        add_transition(&mut transitions, from, transition, to);
        NfaBuilder { transitions, capture_groups: self.capture_groups }
    }

    /// The builder with a copy of `other` laid over the states from `offset` on.
    pub fn extend(self, other: Nfa, offset: usize) -> (builder: NfaBuilder)
        requires
            offset + other@.states() <= usize::MAX,
        ensures
            builder@ == self@.embed(other@, offset as int),
    {
        proof {
            use_type_invariant(&self);
            use_type_invariant(&other);
            lemma_embed_wf(self@, other@, offset as int);
            assert forall|s: int, k: int|
                0 <= s < other.transitions.len() && 0 <= k
                    < other.transitions[s].len() implies (#[trigger] other.transitions[s][k]).end
                < other.transitions.len() by {
                assert(other@.edges[s][k].end == other.transitions[s][k].end);
            }
            assert forall|g: int| 0 <= g < other.capture_groups.len() implies (
            #[trigger] other.capture_groups[g]).start + offset <= usize::MAX
                && other.capture_groups[g].end + offset <= usize::MAX by {
                assert(other@.groups[g].start == other.capture_groups[g].start);
            }
        }
        let mut transitions = self.transitions;
        let mut capture_groups = self.capture_groups;
        embed_transitions(&mut transitions, &other.transitions, offset);
        embed_groups(&mut capture_groups, &other.capture_groups, offset);
        NfaBuilder { transitions, capture_groups }
    }

    /// The builder with an unnamed capture group listed before the others.
    pub fn group(self, start: StateId, end: StateId) -> (builder: NfaBuilder)
        requires
            start < self@.states(),
            end < self@.states(),
        ensures
            builder@ == self@.add_group(Span { start: start as int, end: end as int, name: None }),
    {
        self.listed(CaptureGroup { start, end, name: None })
    }

    /// The builder with a named capture group listed before the others.
    pub fn named_group(self, start: StateId, end: StateId, name: String) -> (builder: NfaBuilder)
        requires
            start < self@.states(),
            end < self@.states(),
        ensures
            builder@ == self@.add_group(
                Span { start: start as int, end: end as int, name: Some(name@) },
            ),
    {
        self.listed(CaptureGroup { start, end, name: Some(name) })
    }

    fn listed(self, group: CaptureGroup) -> (builder: NfaBuilder)
        requires
            group.start < self@.states(),
            group.end < self@.states(),
        ensures
            builder@ == self@.add_group(group@),
    {
        proof {
            use_type_invariant(&self);
        }
        let ghost before = span_models(self.capture_groups@);
        let mut capture_groups = self.capture_groups;
        capture_groups.insert(0, group);
        proof {
            let after = span_models(capture_groups@);
            assert(after == seq![group@] + before) by {
                assert(after.len() == before.len() + 1);
                assert forall|g: int| 0 <= g < after.len() implies after[g] == (seq![group@]
                    + before)[g] by {
                    if g > 0 {
                        assert(capture_groups@[g] == self.capture_groups@[g - 1]);
                    }
                }
            }
            let target = self@.add_group(group@);
            assert forall|g: int| 0 <= g < target.groups.len() implies 0 <= (
            #[trigger] target.groups[g]).start < target.states() && 0 <= target.groups[g].end
                < target.states() by {
                if g > 0 {
                    assert(target.groups[g] == self@.groups[g - 1]);
                }
            }
        }
        NfaBuilder { transitions: self.transitions, capture_groups }
    }

    /// The finished automaton.
    pub fn build(self) -> (nfa: Nfa)
        ensures
            nfa@ == self@,
    {
        proof {
            use_type_invariant(&self);
        }
        Nfa { transitions: self.transitions, capture_groups: self.capture_groups }
    }
}

impl From<Nfa> for NfaBuilder {
    fn from(value: Nfa) -> (builder: NfaBuilder)
        ensures
            builder@ == value@,
    {
        proof {
            use_type_invariant(&value);
        }
        NfaBuilder { transitions: value.transitions, capture_groups: value.capture_groups }
    }
}

impl FromSpecImpl<Nfa> for NfaBuilder {
    open spec fn obeys_from_spec() -> bool {
        true
    }

    closed spec fn from_spec(value: Nfa) -> NfaBuilder {
        NfaBuilder { transitions: value.transitions, capture_groups: value.capture_groups }
    }
}

impl Clone for Nfa {
    fn clone(&self) -> (copy: Nfa)
        ensures
            copy@ == self@,
    {
        proof {
            use_type_invariant(self);
            assert forall|s: int, k: int|
                0 <= s < self.transitions.len() && 0 <= k
                    < self.transitions[s].len() implies (#[trigger] self.transitions[s][k]).end
                < self.transitions.len() by {
                assert(self@.edges[s][k].end == self.transitions[s][k].end);
            }
        }
        let mut transitions: Vec<Vec<Transition>> = Vec::new();
        let mut capture_groups: Vec<CaptureGroup> = Vec::new();
        embed_transitions(&mut transitions, &self.transitions, 0);
        embed_groups(&mut capture_groups, &self.capture_groups, 0);
        proof {
            let rows = row_models(self.transitions@);
            let copied = row_models(transitions@);
            assert(copied.len() == rows.len());
            assert forall|s: int| 0 <= s < rows.len() implies copied[s] == rows[s] by {
                assert(shift_edges(rows[s], 0) == rows[s]);
                assert(Seq::<Edge>::empty() + rows[s] == rows[s]);
            }
            assert(copied == rows);
            let spans = span_models(self.capture_groups@);
            assert(shift_spans(spans, 0) == spans);
            assert(Seq::<Span>::empty() + spans == spans);
            assert(span_models(Seq::<CaptureGroup>::empty()) == Seq::<Span>::empty());
            assert(span_models(capture_groups@) == spans);
        }
        Nfa { transitions, capture_groups }
    }
}

/// True when the automaton of `ast`, and of every part of `ast`, has a
/// number of states that a `usize` can hold.
pub open spec fn fits(ast: Ast) -> bool
    decreases ast,
{
    &&& state_count(ast) <= usize::MAX
    &&& match ast {
        Ast::Concatenation(a, b) => fits(*a) && fits(*b),
        Ast::Alternation(a, b) => fits(*a) && fits(*b),
        Ast::Star(a) => fits(*a),
        Ast::Plus(a) => fits(*a),
        Ast::Optional(a) => fits(*a),
        Ast::Repeat { inner, .. } => fits(*inner),
        Ast::Group { inner, .. } => fits(*inner),
        _ => true,
    }
}

/// Number of states of a counted repetition of an automaton of `unit`
/// states, where it fits a `usize`.
fn repeated_size(unit: usize, range: Range) -> (size: Option<usize>)
    ensures
        size == if repeat_count(unit as nat, range.min as nat, bound_model(range.max))
            <= usize::MAX {
            Some(repeat_count(unit as nat, range.min as nat, bound_model(range.max)) as usize)
        } else {
            None
        },
{
    let head = if range.min == 0 {
        Some(2)
    } else {
        range.min.checked_mul(unit)
    };
    match range.max {
        Some(max) => {
            if max > range.min {
                proof {
                    assert((max - range.min) * unit >= 0) by (nonlinear_arith)
                        requires
                            max > range.min,
                            unit >= 0,
                    ;
                    assert(range.min * unit >= 0) by (nonlinear_arith)
                        requires
                            range.min >= 0,
                            unit >= 0,
                    ;
                }
                match head {
                    Some(h) => match (max - range.min).checked_mul(unit) {
                        Some(extra) => h.checked_add(extra),
                        None => None,
                    },
                    None => None,
                }
            } else {
                head
            }
        },
        None => {
            if range.min == 0 {
                unit.checked_add(2)
            } else {
                match head {
                    Some(h) => h.checked_add(1),
                    None => None,
                }
            }
        },
    }
}

impl Nfa {
    /// Holds of every value of the type: edges and capture endpoints stay
    /// within the states.
    #[verifier::type_invariant]
    pub open spec fn well_formed(self) -> bool {
        self@.wf()
    }

    /// Number of states.
    pub fn state_count(&self) -> (n: usize)
        ensures
            n == self@.states(),
    {
        self.transitions.len()
    }

    /// The transitions that leave `state`, in the order in which they were added.
    pub fn transitions(&self, state: StateId) -> (row: Option<&Vec<Transition>>)
        ensures
            state < self@.states() ==> row is Some && edge_models(row->0@) == self@.edges[state as int],
            state >= self@.states() ==> row is None,
    {
        if state < self.transitions.len() {
            Some(&self.transitions[state])
        } else {
            None
        }
    }

    /// The capture groups, in the order of their opening parentheses.
    pub fn capture_groups(&self) -> (groups: &Vec<CaptureGroup>)
        ensures
            span_models(groups@) == self@.groups,
    {
        &self.capture_groups
    }

    fn end(&self) -> (end: usize)
        requires
            self@.states() >= 1,
        ensures
            end == self@.accept(),
            end < usize::MAX,
    {
        self.transitions.len() - 1
    }

    fn atom(kind: TransitionKind) -> (nfa: Nfa)
        ensures
            nfa@ == Automaton::atom(kind@),
    {
        NfaBuilder::default().transition(START, kind, 1).build()
    }

    /// The automaton of the empty pattern.
    pub fn epsilon() -> (nfa: Nfa)
        ensures
            nfa@ == Automaton::atom(Label::Epsilon),
    {
        Nfa::atom(TransitionKind::Epsilon)
    }

    /// The automaton that reads `ch`.
    pub fn character(ch: char) -> (nfa: Nfa)
        ensures
            nfa@ == Automaton::atom(Label::Character(ch)),
    {
        Nfa::atom(TransitionKind::Character(ch))
    }

    /// The automaton that reads any one character.
    pub fn wildcard() -> (nfa: Nfa)
        ensures
            nfa@ == Automaton::atom(Label::Wildcard),
    {
        Nfa::atom(TransitionKind::Wildcard)
    }

    /// The automaton that reads one character of `class`.
    pub fn class(class: CharacterClass) -> (nfa: Nfa)
        ensures
            nfa@ == Automaton::atom(Label::Class(class@)),
    {
        Nfa::atom(TransitionKind::CharacterClass(class))
    }

    /// `self` followed by `other`.
    pub fn concatenate(self, other: Nfa) -> (nfa: Nfa)
        requires
            self@.states() >= 1,
            other@.states() >= 1,
            self@.states() + other@.states() <= usize::MAX,
        ensures
            nfa@ == self@.concatenate(other@),
    {
        let offset = self.state_count();
        NfaBuilder::from(self).extend(other, offset).transition(
            offset - 1,
            TransitionKind::Epsilon,
            offset,
        ).build()
    }

    /// Either `self` or `other`.
    pub fn alternate(self, other: Nfa) -> (nfa: Nfa)
        requires
            self@.states() >= 1,
            other@.states() >= 1,
            self@.states() + other@.states() + 2 <= usize::MAX,
        ensures
            nfa@ == self@.alternate(other@),
    {
        let offset = self.state_count() + 1;
        let new_end = offset + other.state_count();
        NfaBuilder::default().transition(START, TransitionKind::Epsilon, 1).transition(
            START,
            TransitionKind::Epsilon,
            offset,
        ).extend(self, 1).extend(other, offset).transition(
            offset - 1,
            TransitionKind::Epsilon,
            new_end,
        ).transition(new_end - 1, TransitionKind::Epsilon, new_end).build()
    }

    /// `self` once or more.
    pub fn one_or_more(self) -> (nfa: Nfa)
        requires
            self@.states() >= 1,
            self@.states() + 2 <= usize::MAX,
        ensures
            nfa@ == self@.one_or_more(),
    {
        let offset = self.state_count();
        NfaBuilder::default().transition(START, TransitionKind::Epsilon, 1).extend(
            self,
            1,
        ).transition(offset, TransitionKind::Epsilon, 1).transition(
            offset,
            TransitionKind::Epsilon,
            offset + 1,
        ).build()
    }

    /// `self` or nothing.
    pub fn zero_or_one(self) -> (nfa: Nfa)
        requires
            self@.states() >= 1,
        ensures
            nfa@ == self@.zero_or_one(),
    {
        let end = self.end();
        NfaBuilder::from(self).transition(START, TransitionKind::Epsilon, end).build()
    }

    /// `self` any number of times.
    pub fn zero_or_more(self) -> (nfa: Nfa)
        requires
            self@.states() >= 1,
            self@.states() + 2 <= usize::MAX,
        ensures
            nfa@ == self@.zero_or_more(),
    {
        proof {
            use_type_invariant(&self);
            lemma_zero_or_one(self@);
        }
        Nfa::zero_or_one(self).one_or_more()
    }

    /// `self` repeated as `range` says.
    pub fn range(self, range: Range) -> (nfa: Nfa)
        requires
            self@.states() >= 1,
            repeat_count(self@.states() as nat, range.min as nat, bound_model(range.max))
                <= usize::MAX,
        ensures
            nfa@ == self@.repeat(range.min as nat, bound_model(range.max)),
    {
        let unit_states = self.state_count();
        let ghost unit = self@;
        let ghost min = range.min as nat;
        proof {
            use_type_invariant(&self);
        }
        if range.min == 0 && range.max.is_none() {
            return self.zero_or_more();
        }
        let mut nfa = if range.min == 0 {
            Nfa::epsilon()
        } else {
            self.clone()
        };
        let mut i: usize = 1;
        while i < range.min
            invariant
                1 <= i,
                i <= range.min || range.min == 0,
                unit == self@,
                unit.wf(),
                unit.states() >= 1,
                range.min * unit.states() <= usize::MAX,
                nfa@ == unit.power(
                    if range.min == 0 {
                        0
                    } else {
                        i as nat
                    },
                ),
            decreases range.min - i,
        {
            proof {
                lemma_power(unit, i as nat);
                assert(i * unit.states() + unit.states() <= range.min * unit.states())
                    by (nonlinear_arith)
                    requires
                        i < range.min,
                        unit.states() >= 1,
                ;
                assert(i * unit.states() >= 1) by (nonlinear_arith)
                    requires
                        i >= 1,
                        unit.states() >= 1,
                ;
            }
            nfa = nfa.concatenate(self.clone());
            i += 1;
        }
        assert(nfa@ == unit.power(min));
        proof {
            lemma_power(unit, min);
            assert(min > 0 ==> min * unit.states() >= 1) by (nonlinear_arith)
                requires
                    unit.states() >= 1,
            ;
        }
        match range.max {
            Some(max) => {
                let mut j: usize = range.min;
                while j < max
                    invariant
                        range.min <= j,
                        j <= max || j == range.min,
                        unit == self@,
                        unit.wf(),
                        unit.states() >= 1,
                        unit.power(min).wf(),
                        unit.power(min).states() >= 1,
                        min == range.min,
                        max > range.min ==> unit.power(min).states() + (max - range.min)
                            * unit.states() <= usize::MAX,
                        nfa@ == unit.power(min).then_optional(unit, (j - range.min) as nat),
                    decreases max - j,
                {
                    proof {
                        let done = (j - range.min) as nat;
                        lemma_then_optional(unit.power(min), unit, done);
                        lemma_zero_or_one(unit);
                        assert(done * unit.states() + unit.states() <= (max - range.min)
                            * unit.states()) by (nonlinear_arith)
                            requires
                                done < max - range.min,
                                unit.states() >= 1,
                        ;
                        assert(done * unit.states() >= 0) by (nonlinear_arith)
                            requires
                                unit.states() >= 1,
                        ;
                    }
                    nfa = nfa.concatenate(self.clone().zero_or_one());
                    j += 1;
                }
                proof {
                    let extra: nat = if max > range.min {
                        (max - range.min) as nat
                    } else {
                        0
                    };
                    assert((j - range.min) as nat == extra);
                    assert(bound_model(range.max) == Some(max as nat));
                    assert(unit.repeat(min, Some(max as nat)) == unit.power(min).then_optional(
                        unit,
                        extra,
                    ));
                }
                nfa
            },
            None => {
                let end = nfa.end();
                let back = if end >= unit_states {
                    end - unit_states
                } else {
                    0
                };
                NfaBuilder::from(nfa).transition(end, TransitionKind::Epsilon, back).transition(
                    end,
                    TransitionKind::Epsilon,
                    end + 1,
                ).build()
            },
        }
    }

    /// The automaton of a group: that of its content, listed as a capture
    /// group, before the groups inside it, when the group is capturing.
    pub fn group(group: Group) -> (nfa: Nfa)
        requires
            fits((*group.inner)@),
        ensures
            nfa@ == Automaton::compile((*group.inner)@).group(
                group.is_capturing,
                name_model(group.name),
            ),
        decreases group,
    {
        proof {
            lemma_compile((*group.inner)@);
        }
        let nfa = Nfa::from(*group.inner);
        if group.is_capturing {
            let end = nfa.end();
            match group.name {
                Some(name) => NfaBuilder::from(nfa).named_group(START, end, name).build(),
                None => NfaBuilder::from(nfa).group(START, end).build(),
            }
        } else {
            nfa
        }
    }

    /// The automaton of a syntax tree: well formed, of two states or more,
    /// each of them reached from the initial state.
    pub fn from(value: Node) -> (nfa: Nfa)
        requires
            fits(value@),
        ensures
            nfa@ == Automaton::compile(value@),
            nfa@.wf(),
            nfa@.states() == state_count(value@),
            nfa@.states() >= 2,
            nfa@.connected(),
        decreases value,
    {
        proof {
            lemma_compile(value@);
            lemma_compile_connected(value@);
        }
        match value {
            Node::Empty => Nfa::epsilon(),
            Node::Character(ch) => Nfa::character(ch),
            Node::Wildcard => Nfa::wildcard(),
            Node::Group(group) => Nfa::group(group),
            Node::Plus(node) => {
                proof {
                    lemma_compile((*node)@);
                }
                Nfa::from(*node).one_or_more()
            },
            Node::Star(node) => {
                proof {
                    lemma_compile((*node)@);
                }
                Nfa::from(*node).zero_or_more()
            },
            Node::Optional(node) => {
                proof {
                    lemma_compile((*node)@);
                }
                Nfa::from(*node).zero_or_one()
            },
            Node::Concatenation(a, b) => {
                proof {
                    lemma_compile((*a)@);
                    lemma_compile((*b)@);
                }
                Nfa::from(*a).concatenate(Nfa::from(*b))
            },
            Node::Alternation(a, b) => {
                proof {
                    lemma_compile((*a)@);
                    lemma_compile((*b)@);
                }
                Nfa::from(*a).alternate(Nfa::from(*b))
            },
            Node::Range { inner, range } => {
                proof {
                    lemma_compile((*inner)@);
                }
                Nfa::from(*inner).range(range)
            },
            Node::CharacterClass(class) => Nfa::class(class),
        }
    }

    /// True when `state` is the accepting state.
    pub fn is_accepting(&self, state: StateId) -> (b: bool)
        ensures
            b == (state == self@.accept()),
    {
        let n = self.transitions.len();
        n > 0 && n - 1 == state
    }

    /// Number of states that the automaton of `node` has, where that number
    /// and the one of every part of `node` fit a `usize`.
    pub fn compiled_size(node: &Node) -> (size: Option<usize>)
        ensures
            fits(node@) ==> size == Some(state_count(node@) as usize),
            !fits(node@) ==> size is None,
        decreases node,
    {
        match node {
            Node::Empty | Node::Character(_) | Node::Wildcard | Node::CharacterClass(_) => Some(2),
            Node::Group(group) => Nfa::compiled_size(&*group.inner),
            Node::Optional(inner) => Nfa::compiled_size(&**inner),
            Node::Plus(inner) | Node::Star(inner) => match Nfa::compiled_size(&**inner) {
                Some(n) => n.checked_add(2),
                None => None,
            },
            Node::Concatenation(a, b) => match Nfa::compiled_size(&**a) {
                Some(m) => match Nfa::compiled_size(&**b) {
                    Some(n) => m.checked_add(n),
                    None => None,
                },
                None => None,
            },
            Node::Alternation(a, b) => match Nfa::compiled_size(&**a) {
                Some(m) => match Nfa::compiled_size(&**b) {
                    Some(n) => match m.checked_add(n) {
                        Some(sum) => sum.checked_add(2),
                        None => None,
                    },
                    None => None,
                },
                None => None,
            },
            Node::Range { inner, range } => match Nfa::compiled_size(&**inner) {
                Some(unit) => repeated_size(unit, *range),
                None => None,
            },
        }
    }

    /// The states reached from `start` by epsilon transitions alone: the
    /// smallest set that holds `start` and that no epsilon transition leaves.
    pub fn epsilon_closure(&self, start: StateId) -> (closure: HashSet<StateId>)
        ensures
            forall|q: StateId| closure@.contains(q) <==> self@.eps_reach(start as int, q as int),
            ints(closure@) == self@.closure(set![start as int]),
            closure@.finite(),
    {
        let closure = self.reached_from(start);
        proof {
            use_type_invariant(self);
            let a = self@;
            assert forall|q: int| ints(closure@).contains(q) <==> a.closure(
                set![start as int],
            ).contains(q) by {
                if a.closure(set![start as int]).contains(q) {
                    let p = choose|p: int|
                        set![start as int].contains(p) && #[trigger] a.eps_reach(p, q);
                    assert(p == start);
                    assert(a.states() == self.transitions.len());
                    lemma_eps_reach_in_range(a, start as int, q);
                    assert(a.eps_reach(start as int, q as usize as int));
                }
                if ints(closure@).contains(q) {
                    assert(set![start as int].contains(start as int));
                }
            }
        }
        closure
    }

    fn reached_from(&self, start: StateId) -> (closure: HashSet<StateId>)
        ensures
            forall|q: StateId| closure@.contains(q) <==> self@.eps_reach(start as int, q as int),
            closure@.finite(),
    {
        broadcast use vstd::std_specs::hash::group_hash_axioms;

        proof {
            use_type_invariant(self);
        }
        let ghost a = self@;
        let n = self.transitions.len();
        let mut eclosure: HashSet<StateId> = HashSet::new();
        if start >= n {
            eclosure.insert(start);
            proof {
                assert(a.eps_reach_within(start as int, start as int, 0));
                assert forall|q: StateId| a.eps_reach(start as int, q as int) implies q
                    == start by {
                    lemma_eps_reach_in_range(a, start as int, q as int);
                }
            }
            return eclosure;
        }
        let mut stack: Vec<StateId> = Vec::new();
        stack.push(start);
        let ghost mut unvisited: Set<int> = set_int_range(0, n as int);
        proof {
            lemma_int_range(0, n as int);
            assert(a.eps_reach_within(start as int, start as int, 0));
            assert(stack@[0] == start);
        }
        while stack.len() > 0
            invariant
                n == self.transitions.len(),
                a == self@,
                a.wf(),
                start < n,
                unvisited.finite(),
                eclosure@.finite(),
                forall|x: int|
                    unvisited.contains(x) <==> (0 <= x < n && !eclosure@.contains(x as usize)),
                forall|i: int|
                    0 <= i < stack.len() ==> (#[trigger] stack[i]) < n && a.eps_reach(
                        start as int,
                        stack[i] as int,
                    ),
                forall|q: usize|
                    eclosure@.contains(q) ==> q < n && a.eps_reach(start as int, q as int),
                eclosure@.contains(start) || stack@.contains(start),
                forall|p: usize, q: usize|
                    eclosure@.contains(p) && #[trigger] a.eps_edge(p as int, q as int)
                        ==> eclosure@.contains(q) || stack@.contains(q),
            decreases unvisited.len(), stack.len(),
        {
            let ghost full = stack@;
            let state = stack.pop().unwrap();
            let ghost popped = stack@;
            let ghost seen = eclosure@;
            proof {
                assert(full == popped.push(state));
                assert forall|x: usize| full.contains(x) implies popped.contains(x) || x
                    == state by {
                    let i = choose|i: int| 0 <= i < full.len() && full[i] == x;
                    if i < popped.len() {
                        assert(popped[i] == x);
                    }
                }
                assert(full[full.len() - 1] == state);
            }
            if eclosure.insert(state) {
                proof {
                    unvisited = unvisited.remove(state as int);
                }
                let row = &self.transitions[state];
                let mut k: usize = 0;
                while k < row.len()
                    invariant
                        k <= row.len(),
                        n == self.transitions.len(),
                        a == self@,
                        a.wf(),
                        state < n,
                        row == &self.transitions[state as int],
                        a.eps_reach(start as int, state as int),
                        popped.len() <= stack.len(),
                        forall|i: int| 0 <= i < popped.len() ==> stack[i] == popped[i],
                        forall|i: int|
                            0 <= i < stack.len() ==> (#[trigger] stack[i]) < n && a.eps_reach(
                                start as int,
                                stack[i] as int,
                            ),
                        forall|j: int|
                            0 <= j < k && (#[trigger] row[j])@.label is Epsilon
                                ==> stack@.contains(row[j].end),
                    decreases row.len() - k,
                {
                    let t = &row[k];
                    if t.is_epsilon() {
                        let ghost prev = stack@;
                        stack.push(t.end);
                        proof {
                            assert(a.edges[state as int][k as int] == t@);
                            assert(a.eps_edge(state as int, t.end as int));
                            let m = choose|m: nat|
                                a.eps_reach_within(start as int, state as int, m);
                            lemma_eps_reach_extend(a, start as int, state as int, t.end as int, m);
                            assert(stack@[prev.len() as int] == t.end);
                            assert forall|j: int|
                                0 <= j < k + 1 && (#[trigger] row[j])@.label is Epsilon implies stack@.contains(
                            row[j].end) by {
                                if j < k {
                                    let i = choose|i: int|
                                        0 <= i < prev.len() && prev[i] == row[j].end;
                                    assert(stack@[i] == row[j].end);
                                }
                            }
                        }
                    }
                    k += 1;
                }
                proof {
                    assert forall|x: usize| popped.contains(x) implies stack@.contains(x) by {
                        let i = choose|i: int| 0 <= i < popped.len() && popped[i] == x;
                        assert(stack@[i] == x);
                    }
                    assert forall|p: usize, q: usize|
                        eclosure@.contains(p) && #[trigger] a.eps_edge(
                            p as int,
                            q as int,
                        ) implies eclosure@.contains(q) || stack@.contains(q) by {
                        if p == state {
                            let j = choose|j: int|
                                0 <= j < a.edges[p as int].len() && (
                                #[trigger] a.edges[p as int][j]).label is Epsilon
                                    && a.edges[p as int][j].end == q;
                            assert(a.edges[p as int][j] == row[j]@);
                        } else {
                            assert(seen.contains(p));
                            assert(seen.contains(q) || full.contains(q));
                        }
                    }
                }
            } else {
                proof {
                    assert forall|p: usize, q: usize|
                        eclosure@.contains(p) && #[trigger] a.eps_edge(
                            p as int,
                            q as int,
                        ) implies eclosure@.contains(q) || stack@.contains(q) by {
                        assert(seen.contains(q) || full.contains(q));
                    }
                }
            }
        }
        proof {
            let set = Set::new(|x: int| 0 <= x < n && eclosure@.contains(x as usize));
            assert forall|p: int, q: int| set.contains(p) && #[trigger] a.eps_edge(
                p,
                q,
            ) implies set.contains(q) by {
                let j = choose|j: int|
                    0 <= j < a.edges[p].len() && (#[trigger] a.edges[p][j]).label is Epsilon
                        && a.edges[p][j].end == q;
                assert(0 <= q < n);
                assert(a.eps_edge(p as usize as int, q as usize as int));
                assert(!stack@.contains(q as usize));
            }
            assert(a.closed(set));
            assert forall|q: StateId| a.eps_reach(start as int, q as int) implies eclosure@.contains(
                q,
            ) by {
                let m = choose|m: nat| a.eps_reach_within(start as int, q as int, m);
                assert(!stack@.contains(start));
                assert(set.contains(start as int));
                lemma_closed_holds_reached(a, set, start as int, q as int, m);
            }
        }
        eclosure
    }

    /// The states reached from `state` by one transition that reads `input`.
    pub fn next(&self, state: StateId, input: char) -> (targets: HashSet<StateId>)
        ensures
            forall|q: StateId|
                targets@.contains(q) <==> self@.char_edge(state as int, input, q as int),
            ints(targets@) == self@.step(set![state as int], input),
            targets@.finite(),
    {
        let targets = self.targets_of(state, input);
        proof {
            use_type_invariant(self);
            let a = self@;
            assert forall|q: int| ints(targets@).contains(q) <==> a.step(
                set![state as int],
                input,
            ).contains(q) by {
                if a.step(set![state as int], input).contains(q) {
                    let p = choose|p: int|
                        set![state as int].contains(p) && #[trigger] a.char_edge(p, input, q);
                    let k = choose|k: int|
                        0 <= k < a.edges[p].len() && (#[trigger] a.edges[p][k]).label.accepts(input)
                            && a.edges[p][k].end == q;
                    assert(p == state);
                    assert(a.states() == self.transitions.len());
                    assert(a.char_edge(state as int, input, q as usize as int));
                }
                if ints(targets@).contains(q) {
                    assert(set![state as int].contains(state as int));
                }
            }
        }
        targets
    }

    fn targets_of(&self, state: StateId, input: char) -> (targets: HashSet<StateId>)
        ensures
            forall|q: StateId|
                targets@.contains(q) <==> self@.char_edge(state as int, input, q as int),
            targets@.finite(),
    {
        broadcast use vstd::std_specs::hash::group_hash_axioms;

        proof {
            use_type_invariant(self);
        }
        let ghost a = self@;
        let mut targets: HashSet<StateId> = HashSet::new();
        if state < self.transitions.len() {
            let row = &self.transitions[state];
            let mut k: usize = 0;
            while k < row.len()
                invariant
                    k <= row.len(),
                    a == self@,
                    state < self.transitions.len(),
                    row == &self.transitions[state as int],
                    targets@.finite(),
                    forall|q: StateId|
                        targets@.contains(q) <==> exists|j: int|
                            0 <= j < k && (#[trigger] row[j])@.label.accepts(input) && row[j].end
                                == q,
                decreases row.len() - k,
            {
                let t = &row[k];
                if t.accept(&input) {
                    targets.insert(t.end);
                }
                k += 1;
            }
            proof {
                assert forall|q: StateId| targets@.contains(q) implies a.char_edge(
                    state as int,
                    input,
                    q as int,
                ) by {
                    let j = choose|j: int|
                        0 <= j < row.len() && (#[trigger] row[j])@.label.accepts(input)
                            && row[j].end == q;
                    assert(a.edges[state as int][j] == row[j]@);
                }
                assert forall|q: StateId|
                    a.char_edge(state as int, input, q as int) implies targets@.contains(q) by {
                    let j = choose|j: int|
                        0 <= j < a.edges[state as int].len() && (
                        #[trigger] a.edges[state as int][j]).label.accepts(input)
                            && a.edges[state as int][j].end == q;
                    assert(a.edges[state as int][j] == row[j]@);
                }
            }
        }
        targets
    }
}

} // verus!
