use crate::ast::Ast;
use crate::automaton::{lemma_compile, Automaton};
use crate::thompson::{
    describes_a_slice, leftmost_longest, lemma_find_all_by_pattern, lemma_find_by_pattern,
    longest_at_its_start, plain,
};
use crate::error::{Error, ParsingError};
use crate::grammar;
use crate::nfa::{fits, span_models, Nfa, StateId, START};
use crate::parser::parse_regex;
use crate::search::{
    lemma_find_all_ordered, lemma_find_iff_matches, lemma_find_ordered,
    lemma_last_visit_after_dead,
    lemma_last_visit_range, lemma_longest_end_after_dead,
};
use crate::simulation::{ints, lemma_eps_reach_in_range};
use crate::text::{byte_offset, lemma_byte_offset_monotone, lemma_encode_subrange, Text};
use std::collections::{BTreeMap, HashSet};
use vstd::prelude::*;
use vstd::utf8::encode_utf8;

verus! {

/// What compiling a pattern gives: the automaton of its syntax tree, or the
/// reason why the pattern is refused. A pattern whose automaton, or the
/// automaton of a part of it, would have more states than a `usize` can
/// count is refused as an invalid range quantifier.
pub open spec fn compiled(pattern: Seq<char>) -> Result<Automaton, Error> {
    match grammar::regex(pattern) {
        Err(e) => Err(Error::ParsingError(e)),
        Ok(ast) => if fits(ast) {
            Ok(Automaton::compile(ast))
        } else {
            Err(Error::ParsingError(ParsingError::InvalidRangeQuantifier))
        },
    }
}

/// Compiling is a function of the pattern: two automata compiled from the
/// same pattern are equal.
pub proof fn lemma_compilation_is_deterministic(pattern: Seq<char>, a: Automaton, b: Automaton)
    requires
        compiled(pattern) == Ok::<Automaton, Error>(a),
        compiled(pattern) == Ok::<Automaton, Error>(b),
    ensures
        a == b,
{
}

/// A slice of the input that the pattern matched.
#[derive(Debug, Clone, Copy, PartialEq)]
pub struct Match<'a> {
    /// Byte offset at which the slice starts.
    pub start: usize,
    /// Byte offset at which the slice ends.
    pub end: usize,
    /// The slice itself.
    pub string: &'a str,
}

impl<'a> Match<'a> {
    pub fn new(start: usize, end: usize, string: &'a str) -> (m: Match<'a>)
        ensures
            m.start == start,
            m.end == end,
            m.string == string,
    {
        Match { start, end, string }
    }

    /// This match is the slice of `s` between the character positions
    /// `bounds.0` and `bounds.1`, reported by its byte offsets.
    pub open spec fn covers(self, s: Seq<char>, bounds: (int, int)) -> bool {
        &&& self.start == byte_offset(s, bounds.0)
        &&& self.end == byte_offset(s, bounds.1)
        &&& self.string@ == s.subrange(bounds.0, bounds.1)
    }

    /// The text that was matched.
    pub fn text(&self) -> (text: &'a str)
        ensures
            text == self.string,
    {
        self.string
    }
}

/// True when `found` is the slice of `s` that `bounds` delimits, or when
/// there is neither.
pub open spec fn agrees(found: Option<Match>, s: Seq<char>, bounds: Option<(int, int)>) -> bool {
    match (found, bounds) {
        (Some(m), Some(b)) => m.covers(s, b),
        (None, None) => true,
        _ => false,
    }
}

/// The match listed last under `name`, if one is.
pub open spec fn listed_last<'a>(entries: Seq<(Seq<char>, Match<'a>)>, name: Seq<char>) -> Option<
    Match<'a>,
>
    decreases entries.len(),
{
    if entries.len() == 0 {
        None
    } else if entries.last().0 == name {
        Some(entries.last().1)
    } else {
        listed_last(entries.drop_last(), name)
    }
}

/// The entries of a list of named matches, each name as its characters.
pub open spec fn entry_models<'a>(entries: Seq<(String, Match<'a>)>) -> Seq<
    (Seq<char>, Match<'a>),
> {
    Seq::new(entries.len(), |i: int| (entries[i].0@, entries[i].1))
}

/// What the groups of a pattern bound to in one match.
#[derive(Debug, PartialEq)]
pub struct Capture<'a> {
    captures: BTreeMap<usize, Match<'a>>,
    named_captures: Vec<(String, Match<'a>)>,
}

fn record<'a>(captures: &mut BTreeMap<usize, Match<'a>>, index: usize, m: Match<'a>)
    ensures
        final(captures)@ == old(captures)@.insert(index, m),
{
    broadcast use vstd::laws_cmp::group_laws_cmp;

    captures.insert(index, m);
}

fn recorded<'b, 'a>(captures: &'b BTreeMap<usize, Match<'a>>, index: usize) -> (found: Option<
    &'b Match<'a>,
>)
    ensures
        match found {
            Some(m) => captures@.contains_key(index) && captures@[index] == *m,
            None => !captures@.contains_key(index),
        },
{
    broadcast use {vstd::laws_cmp::group_laws_cmp, vstd::std_specs::btree::group_btree_axioms};

    captures.get(&index)
}

impl<'a> Capture<'a> {
    /// The matches by index: `0` for the whole match, `k` for the `k`-th group.
    pub closed spec fn indexed(&self) -> Map<usize, Match<'a>> {
        self.captures@
    }

    /// The matches of the named groups, in the order of the groups.
    pub closed spec fn named(&self) -> Seq<(Seq<char>, Match<'a>)> {
        entry_models(self.named_captures@)
    }

    /// What `get` returns for `index`.
    pub open spec fn spec_get(&self, index: usize) -> Option<Match<'a>> {
        if self.indexed().contains_key(index) {
            Some(self.indexed()[index])
        } else {
            None
        }
    }

    /// What `get_name` returns for `name`.
    pub open spec fn spec_get_name(&self, name: Seq<char>) -> Option<Match<'a>> {
        listed_last(self.named(), name)
    }

    /// The matches by index.
    pub fn captures(&self) -> (captures: &BTreeMap<usize, Match<'a>>)
        ensures
            captures@ == self.indexed(),
    {
        &self.captures
    }

    /// The matches of the named groups, each with the name of its group, in
    /// the order of the groups.
    pub fn named_captures(&self) -> (named: &Vec<(String, Match<'a>)>)
        ensures
            entry_models(named@) == self.named(),
    {
        &self.named_captures
    }

    /// The match that index `index` is bound to: the whole match for `0`, the
    /// `index`-th group in the order of the opening parentheses otherwise.
    pub fn get(&self, index: usize) -> (found: Option<&Match<'a>>)
        ensures
            match found {
                Some(m) => self.spec_get(index) == Some(*m),
                None => self.spec_get(index) is None,
            },
    {
        recorded(&self.captures, index)
    }

    /// The match that the group named `name` is bound to.
    pub fn get_name(&self, name: &str) -> (found: Option<&Match<'a>>)
        ensures
            match found {
                Some(m) => self.spec_get_name(name@) == Some(*m),
                None => self.spec_get_name(name@) is None,
            },
    {
        let wanted = name.to_owned();
        let mut i = self.named_captures.len();
        proof {
            assert(self.named().take(i as int) == self.named());
        }
        while i > 0
            invariant
                i <= self.named_captures.len(),
                wanted@ == name@,
                listed_last(self.named(), name@) == listed_last(self.named().take(i as int), name@),
            decreases i,
        {
            proof {
                let upto = self.named().take(i as int);
                assert(upto.last() == self.named()[i - 1]);
                assert(upto.drop_last() == self.named().take(i - 1));
            }
            if self.named_captures[i - 1].0 == wanted {
                return Some(&self.named_captures[i - 1].1);
            }
            i -= 1;
        }
        None
    }

    /// An iterator over the matches by index, from the whole match on.
    pub fn iter(&'a self) -> (iterator: CaptureIterator<'a>)
        ensures
            iterator.source() == self,
            iterator.position() == 0,
    {
        CaptureIterator::new(self)
    }
}

/// Walks the matches of a [`Capture`] by index, from `0` up to the first
/// index that is not bound.
pub struct CaptureIterator<'a> {
    capture: &'a Capture<'a>,
    current_index: usize,
}

impl<'a> CaptureIterator<'a> {
    /// The captures that are walked.
    pub closed spec fn source(&self) -> &'a Capture<'a> {
        self.capture
    }

    /// The index that comes next.
    pub closed spec fn position(&self) -> usize {
        self.current_index
    }

    pub fn new(capture: &'a Capture<'a>) -> (iterator: CaptureIterator<'a>)
        ensures
            iterator.source() == capture,
            iterator.position() == 0,
    {
        CaptureIterator { capture, current_index: 0 }
    }

    /// The match of the index that comes next, if that index is bound; the
    /// iterator then moves on by one. The last index of all is never bound
    /// for the iterator.
    pub fn next(&mut self) -> (item: Option<&'a Match<'a>>)
        ensures
            final(self).source() == old(self).source(),
            match item {
                Some(m) => old(self).source().spec_get(old(self).position()) == Some(*m)
                    && final(self).position() == old(self).position() + 1,
                None => (old(self).source().spec_get(old(self).position()) is None || old(
                    self,
                ).position() == usize::MAX) && final(self).position() == old(self).position(),
            },
    {
        if self.current_index == usize::MAX {
            return None;
        }
        match self.capture.get(self.current_index) {
            Some(m) => {
                self.current_index += 1;
                Some(m)
            },
            None => None,
        }
    }
}

/// A compiled pattern.
#[derive(Debug)]
pub struct Regex {
    nfa: Nfa,
    start_capture: Vec<Vec<usize>>,
    end_capture: Vec<Vec<usize>>,
}

impl View for Regex {
    type V = Automaton;

    closed spec fn view(&self) -> Automaton {
        self.nfa@
    }
}

/// `table` lists, for each state, the groups whose endpoint it is, where
/// `endpoints` gives the endpoint of each group.
pub open spec fn indexes(table: Seq<Vec<usize>>, endpoints: Seq<int>) -> bool {
    &&& forall|s: int, k: int|
        0 <= s < table.len() && 0 <= k < table[s].len() ==> (#[trigger] table[s][k])
            < endpoints.len() && endpoints[table[s][k] as int] == s
    &&& forall|g: int|
        0 <= g < endpoints.len() ==> 0 <= (#[trigger] endpoints[g]) < table.len()
            && table[endpoints[g]]@.contains(g as usize)
}

/// The first state of each group.
pub open spec fn group_starts(a: Automaton) -> Seq<int> {
    Seq::new(a.groups.len(), |g: int| a.groups[g].start)
}

/// The last state of each group.
pub open spec fn group_ends(a: Automaton) -> Seq<int> {
    Seq::new(a.groups.len(), |g: int| a.groups[g].end)
}

impl Regex {
    #[verifier::type_invariant]
    spec fn well_formed(self) -> bool {
        &&& self.nfa@.wf()
        &&& self.nfa@.states() >= 1
        &&& self.start_capture.len() == self.nfa@.states()
        &&& self.end_capture.len() == self.nfa@.states()
        &&& indexes(self.start_capture@, group_starts(self.nfa@))
        &&& indexes(self.end_capture@, group_ends(self.nfa@))
    }

    /// The automaton that the pattern was compiled to.
    pub fn nfa(&self) -> (nfa: &Nfa)
        ensures
            nfa@ == self@,
    {
        &self.nfa
    }

    /// Compiles a pattern: parses it and builds the automaton of its syntax
    /// tree, which is well formed and has each state reached from the
    /// initial state.
    pub fn new(pattern: &str) -> (r: Result<Regex, Error>)
        ensures
            match r {
                Ok(regex) => compiled(pattern@) == Ok::<Automaton, Error>(regex@) && regex@.wf()
                    && regex@.states() >= 2 && regex@.connected(),
                Err(e) => compiled(pattern@) == Err::<Automaton, Error>(e),
            },
    {
        let ast = match parse_regex(pattern) {
            Ok(ast) => ast,
            Err(e) => {
                return Err(Error::from(e));
            },
        };
        if Nfa::compiled_size(&ast).is_none() {
            return Err(Error::from(ParsingError::InvalidRangeQuantifier));
        }
        proof {
            lemma_compile(ast@);
        }
        let nfa = Nfa::from(ast);
        proof {
            use_type_invariant(&nfa);
        }
        let n = nfa.state_count();
        let mut start_capture = empty_table(n);
        let mut end_capture = empty_table(n);
        let ghost a = nfa@;
        let groups = nfa.capture_groups();
        let mut index: usize = 0;
        while index < groups.len()
            invariant
                index <= groups.len(),
                a == nfa@,
                a.wf(),
                n == a.states(),
                span_models(groups@) == a.groups,
                start_capture.len() == n,
                end_capture.len() == n,
                indexes(start_capture@, group_starts(a).take(index as int)),
                indexes(end_capture@, group_ends(a).take(index as int)),
            decreases groups.len() - index,
        {
            let group = &groups[index];
            proof {
                assert(a.groups[index as int] == group@);
                assert(group_starts(a)[index as int] == group.start);
                assert(group_ends(a)[index as int] == group.end);
            }
            let ghost starts = start_capture@;
            let ghost ends = end_capture@;
            start_capture[group.start].push(index);
            end_capture[group.end].push(index);
            proof {
                lemma_indexes_push(
                    starts,
                    start_capture@,
                    group_starts(a),
                    index as int,
                );
                lemma_indexes_push(ends, end_capture@, group_ends(a), index as int);
            }
            index += 1;
        }
        proof {
            assert(group_starts(a).take(index as int) == group_starts(a));
            assert(group_ends(a).take(index as int) == group_ends(a));
        }
        Ok(Regex { nfa, start_capture, end_capture })
    }

    /// The matches in `input` that do not overlap, from left to right, each
    /// the longest at its start; only the first of them unless `all` is set.
    pub fn matches<'a>(&self, input: &'a str, all: bool) -> (result: Vec<Match<'a>>)
        ensures
            all ==> result.len() == self@.find_all(input@).len() && forall|k: int|
                0 <= k < result.len() ==> (#[trigger] result[k]).covers(
                    input@,
                    self@.find_all(input@)[k],
                ),
            !all ==> match self@.find(input@) {
                Some(bounds) => result.len() == 1 && result[0].covers(input@, bounds),
                None => result.len() == 0,
            },
    {
        let text = Text::new(input);
        let ghost a = self@;
        let ghost s = input@;
        let n = text.len();
        let mut result: Vec<Match<'a>> = Vec::new();
        let ghost mut found: Seq<(int, int)> = Seq::empty();
        let mut i: usize = 0;
        proof {
            assert(found + a.find_all_from(s, 0) == a.find_all_from(s, 0));
        }
        while i <= n
            invariant
                i <= n + 1,
                n < usize::MAX,
                n == s.len(),
                s == text@,
                s == input@,
                a == self@,
                result.len() == found.len(),
                forall|k: int| 0 <= k < result.len() ==> (#[trigger] result[k]).covers(s, found[k]),
                all ==> a.find_all(s) == found + a.find_all_from(s, i as int),
                !all ==> result.len() == 0 && a.find(s) == a.find_from(s, i as int),
            decreases n + 1 - i,
        {
            match self.longest_from(&text, i) {
                Some(j) => {
                    let m = Match::new(text.offset_of(i), text.offset_of(j), text.slice(i, j));
                    let next = if j > i {
                        j
                    } else {
                        i + 1
                    };
                    proof {
                        let rest = a.find_all_from(s, next as int);
                        assert(a.find_all_from(s, i as int) == seq![(i as int, j as int)] + rest);
                        assert(found + (seq![(i as int, j as int)] + rest) == found.push(
                            (i as int, j as int),
                        ) + rest);
                        found = found.push((i as int, j as int));
                    }
                    result.push(m);
                    if !all {
                        return result;
                    }
                    i = next;
                },
                None => {
                    i += 1;
                },
            }
        }
        proof {
            assert(a.find_all_from(s, i as int) == Seq::<(int, int)>::empty());
            assert(found + Seq::<(int, int)>::empty() == found);
        }
        result
    }

    /// The leftmost match in `input`, the longest at its start.
    ///
    /// The match is the one that the simulation of the automaton finds. For
    /// every syntax tree without a repetition `{1,}` that the automaton is
    /// compiled from, it is the leftmost slice that the tree describes and
    /// the longest at its start.
    pub fn find<'a>(&self, input: &'a str) -> (found: Option<Match<'a>>)
        ensures
            match found {
                Some(m) => self@.find(input@) matches Some(bounds) && m.covers(input@, bounds)
                    && m.start <= m.end && encode_utf8(m.string@) == encode_utf8(input@).subrange(
                    m.start as int,
                    m.end as int,
                ),
                None => self@.find(input@) is None,
            },
            forall|ast: Ast|
                plain(ast) && #[trigger] Automaton::compile(ast) == self@ ==> leftmost_longest(
                    ast,
                    input@,
                    self@.find(input@),
                ),
    {
        let mut result = self.matches(input, false);
        let found = result.pop();
        proof {
            assert forall|ast: Ast|
                plain(ast) && #[trigger] Automaton::compile(ast) == self@ implies leftmost_longest(
                ast,
                input@,
                self@.find(input@),
            ) by {
                lemma_find_by_pattern(ast, input@);
            }
            if found is Some {
                lemma_find_ordered(self@, input@);
                let bounds = self@.find(input@)->0;
                lemma_encode_subrange(input@, bounds.0, bounds.1);
            }
        }
        found
    }

    /// All the matches in `input` that do not overlap, from left to right.
    pub fn find_all<'a>(&self, input: &'a str) -> (found: Vec<Match<'a>>)
        ensures
            found.len() == self@.find_all(input@).len(),
            forall|k: int|
                0 <= k < found.len() ==> (#[trigger] found[k]).covers(
                    input@,
                    self@.find_all(input@)[k],
                ) && found[k].start <= found[k].end && encode_utf8(found[k].string@)
                    == encode_utf8(input@).subrange(found[k].start as int, found[k].end as int),
            forall|k: int|
                0 <= k < found.len() - 1 ==> (#[trigger] found[k]).start < found[k + 1].start
                    && found[k].end <= found[k + 1].start,
            forall|ast: Ast, k: int|
                plain(ast) && #[trigger] Automaton::compile(ast) == self@ && 0 <= k < found.len()
                    ==> longest_at_its_start(ast, input@, #[trigger] self@.find_all(input@)[k]),
    {
        let found = self.matches(input, true);
        proof {
            let a = self@;
            let s = input@;
            let all = a.find_all(s);
            assert forall|ast: Ast, k: int|
                plain(ast) && #[trigger] Automaton::compile(ast) == self@ && 0 <= k
                    < found.len() implies longest_at_its_start(
                ast,
                input@,
                #[trigger] self@.find_all(input@)[k],
            ) by {
                lemma_find_all_by_pattern(ast, s, k);
            }
            lemma_find_all_ordered(a, s, 0);
            assert forall|k: int| 0 <= k < found.len() implies (#[trigger] found[k]).start
                <= found[k].end && encode_utf8(found[k].string@) == encode_utf8(s).subrange(
                found[k].start as int,
                found[k].end as int,
            ) by {
                assert(0 <= all[k].0 <= all[k].1 <= s.len());
                lemma_encode_subrange(s, all[k].0, all[k].1);
            }
            assert forall|k: int| 0 <= k < found.len() - 1 implies (#[trigger] found[k]).start
                < found[k + 1].start && found[k].end <= found[k + 1].start by {
                assert(0 <= all[k].0 <= all[k].1 <= s.len());
                assert(0 <= all[k + 1].0 <= all[k + 1].1 <= s.len());
                assert(all[k].0 < all[k + 1].0 && all[k].1 <= all[k + 1].0);
                assert(found[k + 1].covers(s, all[k + 1]));
                lemma_byte_offset_monotone(s, all[k].0, all[k + 1].0);
                lemma_byte_offset_monotone(s, all[k].1, all[k + 1].0);
            }
        }
        found
    }

    /// True when the pattern matches some slice of `input`: when the
    /// simulation of the automaton accepts some slice and, for every syntax
    /// tree without a repetition `{1,}` that the automaton is compiled from,
    /// when the tree describes some slice.
    pub fn test(&self, input: &str) -> (b: bool)
        ensures
            b == self@.matches_somewhere(input@),
            b == (self@.find(input@) is Some),
            forall|ast: Ast|
                plain(ast) && #[trigger] Automaton::compile(ast) == self@ ==> b
                    == describes_a_slice(ast, input@),
    {
        proof {
            lemma_find_iff_matches(self@, input@);
            assert forall|ast: Ast|
                plain(ast) && #[trigger] Automaton::compile(ast) == self@ implies self@.matches_somewhere(
            input@) == describes_a_slice(ast, input@) by {
                lemma_find_by_pattern(ast, input@);
            }
        }
        self.find(input).is_some()
    }

    /// The leftmost match in `text`, the longest at its start, as a pair of
    /// character positions.
    fn leftmost(&self, text: &Text) -> (found: Option<(usize, usize)>)
        ensures
            match found {
                Some((i, j)) => self@.find(text@) == Some((i as int, j as int)) && i <= j
                    <= text@.len(),
                None => self@.find(text@) is None,
            },
    {
        let n = text.len();
        let mut i: usize = 0;
        while i <= n
            invariant
                i <= n + 1,
                n < usize::MAX,
                n == text@.len(),
                self@.find(text@) == self@.find_from(text@, i as int),
            decreases n + 1 - i,
        {
            match self.longest_from(text, i) {
                Some(j) => {
                    return Some((i, j));
                },
                None => {
                    i += 1;
                },
            }
        }
        None
    }

    /// Records `position` as the start of each group of `groups`.
    fn update_capture_starts(
        &self,
        captures: &mut Vec<(Option<usize>, Option<usize>)>,
        groups: &Vec<usize>,
        position: usize,
    )
        requires
            forall|k: int| 0 <= k < groups.len() ==> (#[trigger] groups[k]) < old(captures).len(),
        ensures
            final(captures).len() == old(captures).len(),
            forall|g: int|
                0 <= g < final(captures).len() ==> (#[trigger] final(captures)[g]).1 == old(
                    captures,
                )[g].1 && final(captures)[g].0 == if groups@.contains(g as usize) {
                    Some(position)
                } else {
                    old(captures)[g].0
                },
    {
        let ghost before = captures@;
        let mut k: usize = 0;
        while k < groups.len()
            invariant
                k <= groups.len(),
                captures.len() == before.len(),
                forall|j: int| 0 <= j < groups.len() ==> (#[trigger] groups[j]) < before.len(),
                forall|g: int|
                    0 <= g < captures.len() ==> (#[trigger] captures[g]).1 == before[g].1
                        && captures[g].0 == if groups@.take(k as int).contains(g as usize) {
                        Some(position)
                    } else {
                        before[g].0
                    },
            decreases groups.len() - k,
        {
            let group = groups[k];
            let ghost prev = captures@;
            let end = captures[group].1;
            captures[group] = (Some(position), end);
            proof {
                let done = groups@.take(k as int);
                let next = groups@.take(k as int + 1);
                assert(next == done.push(group));
                assert forall|g: int| 0 <= g < captures.len() implies (#[trigger] captures[g]).1
                    == before[g].1 && captures[g].0 == if next.contains(g as usize) {
                    Some(position)
                } else {
                    before[g].0
                } by {
                    assert(next[k as int] == group);
                    if g != group {
                        assert(captures[g] == prev[g]);
                        if done.contains(g as usize) {
                            let j = choose|j: int| 0 <= j < done.len() && done[j] == g as usize;
                            assert(next[j] == g as usize);
                        }
                        if next.contains(g as usize) {
                            let j = choose|j: int| 0 <= j < next.len() && next[j] == g as usize;
                            assert(done[j] == g as usize);
                        }
                    }
                }
            }
            k += 1;
        }
        proof {
            assert(groups@.take(groups.len() as int) == groups@);
        }
    }

    /// Records `position` as the end of each group of `groups`.
    fn update_capture_ends(
        &self,
        captures: &mut Vec<(Option<usize>, Option<usize>)>,
        groups: &Vec<usize>,
        position: usize,
    )
        requires
            forall|k: int| 0 <= k < groups.len() ==> (#[trigger] groups[k]) < old(captures).len(),
        ensures
            final(captures).len() == old(captures).len(),
            forall|g: int|
                0 <= g < final(captures).len() ==> (#[trigger] final(captures)[g]).0 == old(
                    captures,
                )[g].0 && final(captures)[g].1 == if groups@.contains(g as usize) {
                    Some(position)
                } else {
                    old(captures)[g].1
                },
    {
        let ghost before = captures@;
        let mut k: usize = 0;
        while k < groups.len()
            invariant
                k <= groups.len(),
                captures.len() == before.len(),
                forall|j: int| 0 <= j < groups.len() ==> (#[trigger] groups[j]) < before.len(),
                forall|g: int|
                    0 <= g < captures.len() ==> (#[trigger] captures[g]).0 == before[g].0
                        && captures[g].1 == if groups@.take(k as int).contains(g as usize) {
                        Some(position)
                    } else {
                        before[g].1
                    },
            decreases groups.len() - k,
        {
            let group = groups[k];
            let ghost prev = captures@;
            let start = captures[group].0;
            captures[group] = (start, Some(position));
            proof {
                let done = groups@.take(k as int);
                let next = groups@.take(k as int + 1);
                assert(next == done.push(group));
                assert forall|g: int| 0 <= g < captures.len() implies (#[trigger] captures[g]).0
                    == before[g].0 && captures[g].1 == if next.contains(g as usize) {
                    Some(position)
                } else {
                    before[g].1
                } by {
                    assert(next[k as int] == group);
                    if g != group {
                        assert(captures[g] == prev[g]);
                        if done.contains(g as usize) {
                            let j = choose|j: int| 0 <= j < done.len() && done[j] == g as usize;
                            assert(next[j] == g as usize);
                        }
                        if next.contains(g as usize) {
                            let j = choose|j: int| 0 <= j < next.len() && next[j] == g as usize;
                            assert(done[j] == g as usize);
                        }
                    }
                }
            }
            k += 1;
        }
        proof {
            assert(groups@.take(groups.len() as int) == groups@);
        }
    }

    /// Records `position` as the start of each group whose first state is
    /// live and as the end of each group whose last state is live.
    fn update_captures(
        &self,
        captures: &mut Vec<(Option<usize>, Option<usize>)>,
        states: &HashSet<StateId>,
        position: usize,
    )
        requires
            old(captures).len() == self@.groups.len(),
            forall|p: StateId| states@.contains(p) ==> p < self@.states(),
        ensures
            final(captures).len() == old(captures).len(),
            forall|g: int|
                0 <= g < final(captures).len() ==> (#[trigger] final(captures)[g]).0 == if ints(
                    states@,
                ).contains(self@.groups[g].start) {
                    Some(position)
                } else {
                    old(captures)[g].0
                } && final(captures)[g].1 == if ints(states@).contains(self@.groups[g].end) {
                    Some(position)
                } else {
                    old(captures)[g].1
                },
    {
        broadcast use vstd::std_specs::hash::group_hash_axioms;

        proof {
            use_type_invariant(self);
        }
        let ghost a = self@;
        let ghost before = captures@;
        let n = self.nfa.state_count();
        let mut state: usize = 0;
        while state < n
            invariant
                state <= n,
                n == a.states(),
                a == self@,
                a.wf(),
                captures.len() == before.len(),
                before.len() == a.groups.len(),
                self.start_capture.len() == n,
                self.end_capture.len() == n,
                indexes(self.start_capture@, group_starts(a)),
                indexes(self.end_capture@, group_ends(a)),
                forall|g: int|
                    0 <= g < captures.len() ==> (#[trigger] captures[g]).0 == if a.groups[g].start
                        < state && ints(states@).contains(a.groups[g].start) {
                        Some(position)
                    } else {
                        before[g].0
                    } && captures[g].1 == if a.groups[g].end < state && ints(states@).contains(
                        a.groups[g].end,
                    ) {
                        Some(position)
                    } else {
                        before[g].1
                    },
            decreases n - state,
        {
            if states.contains(&state) {
                let ghost prev = captures@;
                let starts = &self.start_capture[state];
                let ends = &self.end_capture[state];
                self.update_capture_starts(captures, starts, position);
                self.update_capture_ends(captures, ends, position);
                proof {
                    assert forall|g: int| 0 <= g < captures.len() implies (
                    #[trigger] captures[g]).0 == if a.groups[g].start < state + 1 && ints(
                        states@,
                    ).contains(a.groups[g].start) {
                        Some(position)
                    } else {
                        before[g].0
                    } && captures[g].1 == if a.groups[g].end < state + 1 && ints(states@).contains(
                        a.groups[g].end,
                    ) {
                        Some(position)
                    } else {
                        before[g].1
                    } by {
                        lemma_indexes_row(self.start_capture@, group_starts(a), state as int, g);
                        lemma_indexes_row(self.end_capture@, group_ends(a), state as int, g);
                        assert(group_starts(a)[g] == a.groups[g].start);
                        assert(group_ends(a)[g] == a.groups[g].end);
                        assert(captures[g].0 == if starts@.contains(g as usize) {
                            Some(position)
                        } else {
                            prev[g].0
                        });
                    }
                }
            }
            state += 1;
        }
        proof {
            assert forall|g: int| 0 <= g < captures.len() implies (#[trigger] captures[g]).0
                == if ints(states@).contains(a.groups[g].start) {
                Some(position)
            } else {
                before[g].0
            } && captures[g].1 == if ints(states@).contains(a.groups[g].end) {
                Some(position)
            } else {
                before[g].1
            } by {
                assert(0 <= a.groups[g].start < n && 0 <= a.groups[g].end < n);
            }
        }
    }

    /// Runs the automaton on `text` from `start` on and records, for each
    /// group, the last position at which its first state was live and the
    /// last position at which its last state was live.
    fn trace(&self, text: &Text, start: usize) -> (captures: Vec<(Option<usize>, Option<usize>)>)
        requires
            start <= text@.len(),
        ensures
            captures.len() == self@.groups.len(),
            forall|g: int|
                0 <= g < captures.len() ==> visited_at(
                    (#[trigger] captures[g]).0,
                    start as int,
                    self@.last_visit(
                        text@.skip(start as int),
                        self@.groups[g].start,
                        text@.len() - start,
                    ),
                ) && visited_at(
                    captures[g].1,
                    start as int,
                    self@.last_visit(
                        text@.skip(start as int),
                        self@.groups[g].end,
                        text@.len() - start,
                    ),
                ),
    {
        let ghost a = self@;
        let ghost w = text@.skip(start as int);
        let n = text.len();
        let count = self.nfa.capture_groups().len();
        let mut captures: Vec<(Option<usize>, Option<usize>)> = Vec::new();
        while captures.len() < count
            invariant
                captures.len() <= count,
                forall|g: int| 0 <= g < captures.len() ==> #[trigger] captures[g] == (
                    None::<usize>,
                    None::<usize>,
                ),
            decreases count - captures.len(),
        {
            captures.push((None, None));
        }
        let mut states = self.initial();
        let mut p = start;
        let mut live = true;
        proof {
            assert(w.take(0) == Seq::<char>::empty());
        }
        while live
            invariant
                start <= p <= n,
                n == text@.len(),
                a == self@,
                w == text@.skip(start as int),
                captures.len() == a.groups.len(),
                forall|q: StateId| states@.contains(q) ==> q < a.states(),
                live ==> ints(states@) == a.frontier(w.take(p - start)),
                forall|g: int|
                    0 <= g < captures.len() ==> visited_at(
                        (#[trigger] captures[g]).0,
                        start as int,
                        a.last_visit(
                            w,
                            a.groups[g].start,
                            if live {
                                p - start - 1
                            } else {
                                n - start
                            },
                        ),
                    ) && visited_at(
                        captures[g].1,
                        start as int,
                        a.last_visit(
                            w,
                            a.groups[g].end,
                            if live {
                                p - start - 1
                            } else {
                                n - start
                            },
                        ),
                    ),
            decreases
                    n - p + if live {
                        1int
                    } else {
                        0int
                    },
        {
            let ghost before = captures@;
            self.update_captures(&mut captures, &states, p);
            proof {
                assert forall|g: int| 0 <= g < captures.len() implies visited_at(
                    (#[trigger] captures[g]).0,
                    start as int,
                    a.last_visit(w, a.groups[g].start, p - start),
                ) && visited_at(
                    captures[g].1,
                    start as int,
                    a.last_visit(w, a.groups[g].end, p - start),
                ) by {
                    assert(visited_at(
                        before[g].0,
                        start as int,
                        a.last_visit(w, a.groups[g].start, p - start - 1),
                    ));
                    assert(visited_at(
                        before[g].1,
                        start as int,
                        a.last_visit(w, a.groups[g].end, p - start - 1),
                    ));
                }
            }
            if p >= n {
                live = false;
            } else {
                let ghost read = w.take(p - start);
                states = self.follow(&states, text.char_at(p), Ghost(read));
                p += 1;
                proof {
                    assert(read.push(text@[p - 1]) == w.take(p - start));
                }
                if states.is_empty() {
                    live = false;
                    proof {
                        assert(ints(states@) =~= Set::<int>::empty());
                        assert forall|g: int| 0 <= g < captures.len() implies visited_at(
                            (#[trigger] captures[g]).0,
                            start as int,
                            a.last_visit(w, a.groups[g].start, n - start),
                        ) && visited_at(
                            captures[g].1,
                            start as int,
                            a.last_visit(w, a.groups[g].end, n - start),
                        ) by {
                            lemma_last_visit_after_dead(
                                a,
                                w,
                                a.groups[g].start,
                                p - start,
                                n - start,
                            );
                            lemma_last_visit_after_dead(
                                a,
                                w,
                                a.groups[g].end,
                                p - start,
                                n - start,
                            );
                        }
                    }
                }
            }
        }
        captures
    }

    /// The leftmost match in `input` and what each group bound to in it.
    ///
    /// A group is bound from the last position at which its first state was
    /// live to the last position at which its last state was live, in the
    /// run of the automaton from the start of the match to where no state is
    /// live any more; it is not bound where one of the two is missing or
    /// where they are out of order.
    pub fn captures<'a>(&self, input: &'a str) -> (captured: Option<Capture<'a>>)
        ensures
            match captured {
                Some(c) => self@.captures(input@) matches Some(table) && {
                    &&& agrees(c.spec_get(0), input@, self@.find(input@))
                    &&& forall|k: usize|
                        agrees(
                            #[trigger] c.spec_get(k),
                            input@,
                            if k < table.len() {
                                table[k as int]
                            } else {
                                None
                            },
                        )
                    &&& forall|name: Seq<char>|
                        agrees(
                            #[trigger] c.spec_get_name(name),
                            input@,
                            self@.named_capture(input@, name),
                        )
                },
                None => self@.captures(input@) is None,
            },
            forall|ast: Ast|
                plain(ast) && #[trigger] Automaton::compile(ast) == self@ ==> leftmost_longest(
                    ast,
                    input@,
                    self@.find(input@),
                ),
    {
        proof {
            assert forall|ast: Ast|
                plain(ast) && #[trigger] Automaton::compile(ast) == self@ implies leftmost_longest(
                ast,
                input@,
                self@.find(input@),
            ) by {
                lemma_find_by_pattern(ast, input@);
            }
        }
        let text = Text::new(input);
        match self.leftmost(&text) {
            Some((start, end)) => {
                let capture = self.captures_at(&text, start, end);
                assert(agrees(capture.spec_get(0), input@, self@.find(input@)));
                Some(capture)
            },
            None => None,
        }
    }

    /// What each group bound to in each of the matches of `find_all`.
    pub fn captures_all<'a>(&self, input: &'a str) -> (captured: Vec<Capture<'a>>)
        ensures
            captured.len() == self@.find_all(input@).len(),
            forall|i: int, k: usize|
                0 <= i < captured.len() ==> agrees(
                    #[trigger] captured[i].spec_get(k),
                    input@,
                    self@.capture_bounds(input@, self@.find_all(input@)[i], k as int),
                ),
            forall|i: int, name: Seq<char>|
                0 <= i < captured.len() ==> agrees(
                    #[trigger] captured[i].spec_get_name(name),
                    input@,
                    self@.named_bounds(
                        input@,
                        self@.find_all(input@)[i].0,
                        name,
                        self@.groups.len() as int,
                    ),
                ),
    {
        let text = Text::new(input);
        let ghost a = self@;
        let ghost s = input@;
        let n = text.len();
        let mut captured: Vec<Capture<'a>> = Vec::new();
        let ghost mut found: Seq<(int, int)> = Seq::empty();
        let mut i: usize = 0;
        proof {
            assert(found + a.find_all_from(s, 0) == a.find_all_from(s, 0));
        }
        while i <= n
            invariant
                i <= n + 1,
                n < usize::MAX,
                n == s.len(),
                s == text@,
                a == self@,
                captured.len() == found.len(),
                a.find_all(s) == found + a.find_all_from(s, i as int),
                forall|h: int, k: usize|
                    0 <= h < captured.len() ==> agrees(
                        #[trigger] captured[h].spec_get(k),
                        s,
                        a.capture_bounds(s, found[h], k as int),
                    ),
                forall|h: int, name: Seq<char>|
                    0 <= h < captured.len() ==> agrees(
                        #[trigger] captured[h].spec_get_name(name),
                        s,
                        a.named_bounds(s, found[h].0, name, a.groups.len() as int),
                    ),
            decreases n + 1 - i,
        {
            match self.longest_from(&text, i) {
                Some(j) => {
                    let capture = self.captures_at(&text, i, j);
                    let next = if j > i {
                        j
                    } else {
                        i + 1
                    };
                    proof {
                        let rest = a.find_all_from(s, next as int);
                        assert(a.find_all_from(s, i as int) == seq![(i as int, j as int)] + rest);
                        assert(found + (seq![(i as int, j as int)] + rest) == found.push(
                            (i as int, j as int),
                        ) + rest);
                        found = found.push((i as int, j as int));
                    }
                    captured.push(capture);
                    i = next;
                },
                None => {
                    i += 1;
                },
            }
        }
        proof {
            assert(a.find_all_from(s, i as int) == Seq::<(int, int)>::empty());
            assert(found + Seq::<(int, int)>::empty() == found);
        }
        captured
    }

    /// What each group bound to in the match of `text` from `start` to `end`.
    fn captures_at<'a>(&self, text: &Text<'a>, start: usize, end: usize) -> (capture: Capture<'a>)
        requires
            start <= end <= text@.len(),
        ensures
            forall|k: usize|
                agrees(
                    #[trigger] capture.spec_get(k),
                    text@,
                    self@.capture_bounds(text@, (start as int, end as int), k as int),
                ),
            forall|name: Seq<char>|
                agrees(
                    #[trigger] capture.spec_get_name(name),
                    text@,
                    self@.named_bounds(text@, start as int, name, self@.groups.len() as int),
                ),
    {
        let ghost a = self@;
        let ghost s = text@;
        let ghost w = s.skip(start as int);
        let slots = self.trace(text, start);
        let groups = self.nfa.capture_groups();
        let whole = Match::new(text.offset_of(start), text.offset_of(end), text.slice(start, end));
        let mut captures: BTreeMap<usize, Match<'a>> = BTreeMap::new();
        let mut named_captures: Vec<(String, Match<'a>)> = Vec::new();
        record(&mut captures, 0, whole);
        let mut g: usize = 0;
        while g < groups.len()
            invariant
                g <= groups.len(),
                a == self@,
                s == text@,
                w == s.skip(start as int),
                start <= s.len(),
                span_models(groups@) == a.groups,
                slots.len() == a.groups.len(),
                forall|h: int|
                    0 <= h < slots.len() ==> visited_at(
                        (#[trigger] slots[h]).0,
                        start as int,
                        a.last_visit(w, a.groups[h].start, s.len() - start),
                    ) && visited_at(
                        slots[h].1,
                        start as int,
                        a.last_visit(w, a.groups[h].end, s.len() - start),
                    ),
                captures@.contains_key(0) && captures@[0] == whole,
                forall|k: usize|
                    1 <= k <= g ==> agrees(
                        if #[trigger] captures@.contains_key(k) {
                            Some(captures@[k])
                        } else {
                            None
                        },
                        s,
                        a.group_bounds(s, start as int, k - 1),
                    ),
                forall|k: usize| k > g ==> !#[trigger] captures@.contains_key(k),
                forall|name: Seq<char>|
                    agrees(
                        #[trigger] listed_last(entry_models(named_captures@), name),
                        s,
                        a.named_bounds(s, start as int, name, g as int),
                    ),
            decreases groups.len() - g,
        {
            let (first, last) = slots[g];
            let ghost entries = entry_models(named_captures@);
            let ghost indexed = captures@;
            proof {
                assert(a.groups[g as int] == groups[g as int]@);
                lemma_last_visit_range(a, w, a.groups[g as int].start, s.len() - start);
                lemma_last_visit_range(a, w, a.groups[g as int].end, s.len() - start);
                assert(w.len() == s.len() - start);
            }
            let bound = match (first, last) {
                (Some(x), Some(y)) => {
                    if x <= y {
                        Some(Match::new(text.offset_of(x), text.offset_of(y), text.slice(x, y)))
                    } else {
                        None
                    }
                },
                _ => None,
            };
            assert(agrees(bound, s, a.group_bounds(s, start as int, g as int)));
            match bound {
                Some(m) => {
                    record(&mut captures, g + 1, m);
                    match &groups[g].name {
                        Some(name) => {
                            named_captures.push((name.clone(), m));
                            proof {
                                assert(entry_models(named_captures@) == entries.push((name@, m)));
                            }
                        },
                        None => {},
                    }
                },
                None => {},
            }
            proof {
                let after = entry_models(named_captures@);
                assert forall|name: Seq<char>|
                    agrees(
                        #[trigger] listed_last(after, name),
                        s,
                        a.named_bounds(s, start as int, name, g + 1),
                    ) by {
                    assert(agrees(
                        listed_last(entries, name),
                        s,
                        a.named_bounds(s, start as int, name, g as int),
                    ));
                    if after != entries {
                        assert(after.drop_last() == entries);
                    }
                }
                assert forall|k: usize| 1 <= k <= g + 1 implies agrees(
                    if #[trigger] captures@.contains_key(k) {
                        Some(captures@[k])
                    } else {
                        None
                    },
                    s,
                    a.group_bounds(s, start as int, k - 1),
                ) by {
                    if k <= g {
                        assert(indexed.contains_key(k) == captures@.contains_key(k));
                    }
                }
            }
            g += 1;
        }
        let capture = Capture { captures, named_captures };
        proof {
            assert forall|k: usize|
                agrees(#[trigger] capture.spec_get(k), s, a.capture_bounds(s, (
                    start as int,
                    end as int,
                ), k as int)) by {
                if k >= 1 {
                    assert(captures@.contains_key(k) || !captures@.contains_key(k));
                }
            }
        }
        capture
    }

    /// The union of the epsilon closures of the states of `states`.
    fn close(&self, states: &HashSet<StateId>) -> (closed: HashSet<StateId>)
        requires
            forall|p: StateId| states@.contains(p) ==> p < self@.states(),
        ensures
            ints(closed@) == self@.closure(ints(states@)),
            forall|q: StateId| closed@.contains(q) ==> q < self@.states(),
    {
        broadcast use vstd::std_specs::hash::group_hash_axioms;

        proof {
            use_type_invariant(self);
        }
        let ghost a = self@;
        let n = self.nfa.state_count();
        let mut closed: HashSet<StateId> = HashSet::new();
        let mut p: usize = 0;
        while p < n
            invariant
                p <= n,
                n == a.states(),
                a == self@,
                a.wf(),
                forall|q: StateId|
                    closed@.contains(q) <==> exists|o: StateId|
                        o < p && states@.contains(o) && #[trigger] a.eps_reach(o as int, q as int),
                forall|q: StateId| #[trigger] closed@.contains(q) ==> q < n,
            decreases n - p,
        {
            if states.contains(&p) {
                let reached = self.nfa.epsilon_closure(p);
                let ghost before = closed@;
                let mut q: usize = 0;
                while q < n
                    invariant
                        q <= n,
                        forall|x: StateId|
                            #![trigger closed@.contains(x)]
                            closed@.contains(x) <==> before.contains(x) || (x < q
                                && reached@.contains(x)),
                    decreases n - q,
                {
                    if reached.contains(&q) {
                        closed.insert(q);
                    }
                    q += 1;
                }
                proof {
                    assert forall|x: StateId| closed@.contains(x) <==> exists|o: StateId|
                        o < p + 1 && states@.contains(o) && #[trigger] a.eps_reach(
                            o as int,
                            x as int,
                        ) by {
                        if a.eps_reach(p as int, x as int) {
                            lemma_eps_reach_in_range(a, p as int, x as int);
                        }
                        if before.contains(x) {
                            let o = choose|o: StateId|
                                o < p && states@.contains(o) && #[trigger] a.eps_reach(
                                    o as int,
                                    x as int,
                                );
                            assert(o < p + 1);
                        }
                    }
                    assert forall|x: StateId| #[trigger] closed@.contains(x) implies x < n by {
                        assert(before.contains(x) || (x < n && reached@.contains(x)));
                    }
                }
            }
            p += 1;
        }
        proof {
            assert forall|q: int| ints(closed@).contains(q) <==> a.closure(ints(states@)).contains(
                q,
            ) by {
                if ints(closed@).contains(q) {
                    let o = choose|o: StateId|
                        o < n && states@.contains(o) && #[trigger] a.eps_reach(o as int, q);
                    assert(ints(states@).contains(o as int));
                }
                if a.closure(ints(states@)).contains(q) {
                    let o = choose|o: int| ints(states@).contains(o) && #[trigger] a.eps_reach(o, q);
                    lemma_eps_reach_in_range(a, o, q);
                    assert(states@.contains(o as usize));
                    assert(a.eps_reach(o as usize as int, q as usize as int));
                }
            }
            assert(ints(closed@) =~= a.closure(ints(states@)));
        }
        closed
    }

    /// The states reached from a state of `states` by reading `c`.
    fn advance(&self, states: &HashSet<StateId>, c: char) -> (next: HashSet<StateId>)
        requires
            forall|p: StateId| states@.contains(p) ==> p < self@.states(),
        ensures
            ints(next@) == self@.step(ints(states@), c),
            forall|q: StateId| next@.contains(q) ==> q < self@.states(),
    {
        broadcast use vstd::std_specs::hash::group_hash_axioms;

        proof {
            use_type_invariant(self);
        }
        let ghost a = self@;
        let n = self.nfa.state_count();
        let mut next: HashSet<StateId> = HashSet::new();
        let mut p: usize = 0;
        while p < n
            invariant
                p <= n,
                n == a.states(),
                a == self@,
                a.wf(),
                forall|q: StateId|
                    next@.contains(q) <==> exists|o: StateId|
                        o < p && states@.contains(o) && #[trigger] a.char_edge(o as int, c, q as int),
                forall|q: StateId| #[trigger] next@.contains(q) ==> q < n,
            decreases n - p,
        {
            if states.contains(&p) {
                let targets = self.nfa.next(p, c);
                let ghost before = next@;
                let mut q: usize = 0;
                while q < n
                    invariant
                        q <= n,
                        forall|x: StateId|
                            #![trigger next@.contains(x)]
                            next@.contains(x) <==> before.contains(x) || (x < q
                                && targets@.contains(x)),
                    decreases n - q,
                {
                    if targets.contains(&q) {
                        next.insert(q);
                    }
                    q += 1;
                }
                proof {
                    assert forall|x: StateId| next@.contains(x) <==> exists|o: StateId|
                        o < p + 1 && states@.contains(o) && #[trigger] a.char_edge(
                            o as int,
                            c,
                            x as int,
                        ) by {
                        if a.char_edge(p as int, c, x as int) {
                            lemma_char_edge_in_range(a, p as int, c, x as int);
                        }
                        if before.contains(x) {
                            let o = choose|o: StateId|
                                o < p && states@.contains(o) && #[trigger] a.char_edge(
                                    o as int,
                                    c,
                                    x as int,
                                );
                            assert(o < p + 1);
                        }
                    }
                    assert forall|x: StateId| #[trigger] next@.contains(x) implies x < n by {
                        assert(before.contains(x) || (x < n && targets@.contains(x)));
                    }
                }
            }
            p += 1;
        }
        proof {
            assert forall|q: int| ints(next@).contains(q) <==> a.step(ints(states@), c).contains(
                q,
            ) by {
                if ints(next@).contains(q) {
                    let o = choose|o: StateId|
                        o < n && states@.contains(o) && #[trigger] a.char_edge(o as int, c, q);
                    assert(ints(states@).contains(o as int));
                }
                if a.step(ints(states@), c).contains(q) {
                    let o = choose|o: int|
                        ints(states@).contains(o) && #[trigger] a.char_edge(o, c, q);
                    lemma_char_edge_in_range(a, o, c, q);
                    assert(states@.contains(o as usize));
                    assert(a.char_edge(o as usize as int, c, q as usize as int));
                }
            }
            assert(ints(next@) =~= a.step(ints(states@), c));
        }
        next
    }

    /// The states that are live before anything is read.
    fn initial(&self) -> (states: HashSet<StateId>)
        ensures
            ints(states@) == self@.frontier(Seq::empty()),
            forall|q: StateId| states@.contains(q) ==> q < self@.states(),
    {
        broadcast use vstd::std_specs::hash::group_hash_axioms;

        proof {
            use_type_invariant(self);
        }
        let mut states: HashSet<StateId> = HashSet::new();
        states.insert(START);
        proof {
            assert(ints(states@) =~= set![0int]);
        }
        self.close(&states)
    }

    /// The states that are live after one more character, `c`, was read.
    fn follow(&self, states: &HashSet<StateId>, c: char, Ghost(w): Ghost<Seq<char>>) -> (next:
        HashSet<StateId>)
        requires
            ints(states@) == self@.frontier(w),
            forall|p: StateId| states@.contains(p) ==> p < self@.states(),
        ensures
            ints(next@) == self@.frontier(w.push(c)),
            forall|q: StateId| next@.contains(q) ==> q < self@.states(),
    {
        let moved = self.advance(states, c);
        let next = self.close(&moved);
        proof {
            assert(w.push(c).drop_last() == w);
            assert(w.push(c).last() == c);
        }
        next
    }

    /// True when the accepting state is among `states`.
    fn has_accepting_state(&self, states: &HashSet<StateId>) -> (b: bool)
        ensures
            b == ints(states@).contains(self@.accept()),
    {
        broadcast use vstd::std_specs::hash::group_hash_axioms;

        proof {
            use_type_invariant(self);
        }
        let end = self.nfa.state_count() - 1;
        states.contains(&end)
    }

    /// The end of the longest match that starts at `start`, if one does.
    fn longest_from(&self, text: &Text, start: usize) -> (end: Option<usize>)
        requires
            start <= text@.len(),
        ensures
            match end {
                Some(j) => self@.longest_end(text@, start as int, text@.len() as int) == Some(
                    j as int,
                ) && start <= j <= text@.len(),
                None => self@.longest_end(text@, start as int, text@.len() as int) is None,
            },
    {
        broadcast use vstd::std_specs::hash::group_hash_axioms;

        let ghost a = self@;
        let ghost s = text@;
        let n = text.len();
        let mut states = self.initial();
        proof {
            assert(s.subrange(start as int, start as int) == Seq::<char>::empty());
            assert(a.longest_end(s, start as int, start as int - 1) is None);
        }
        let mut best: Option<usize> = if self.has_accepting_state(&states) {
            Some(start)
        } else {
            None
        };
        let mut j = start;
        while j < n
            invariant
                start <= j <= n,
                n == s.len(),
                s == text@,
                a == self@,
                ints(states@) == a.frontier(s.subrange(start as int, j as int)),
                forall|q: StateId| states@.contains(q) ==> q < a.states(),
                match best {
                    Some(b) => a.longest_end(s, start as int, j as int) == Some(b as int) && start
                        <= b <= j,
                    None => a.longest_end(s, start as int, j as int) is None,
                },
            decreases n - j,
        {
            let ghost w = s.subrange(start as int, j as int);
            states = self.follow(&states, text.char_at(j), Ghost(w));
            j += 1;
            proof {
                assert(w.push(s[j - 1]) == s.subrange(start as int, j as int));
            }
            if states.is_empty() {
                proof {
                    assert(ints(states@) =~= Set::<int>::empty());
                    lemma_longest_end_after_dead(a, s, start as int, j as int, n as int);
                }
                return best;
            }
            if self.has_accepting_state(&states) {
                best = Some(j);
            }
        }
        best
    }
}

/// A recorded position is the position of a visit, counted from `base`.
pub open spec fn visited_at(recorded: Option<usize>, base: int, visit: Option<int>) -> bool {
    match (recorded, visit) {
        (Some(p), Some(k)) => p == base + k,
        (None, None) => true,
        _ => false,
    }
}

/// The row of a state lists exactly the groups whose endpoint the state is.
proof fn lemma_indexes_row(table: Seq<Vec<usize>>, endpoints: Seq<int>, s: int, g: int)
    requires
        indexes(table, endpoints),
        0 <= s < table.len(),
        0 <= g < endpoints.len(),
        g <= usize::MAX,
    ensures
        table[s]@.contains(g as usize) <==> endpoints[g] == s,
{
    if table[s]@.contains(g as usize) {
        let k = choose|k: int| 0 <= k < table[s]@.len() && table[s]@[k] == g as usize;
        assert(table[s][k] == g as usize);
    }
}

/// A table of `n` empty lists.
fn empty_table(n: usize) -> (table: Vec<Vec<usize>>)
    ensures
        table.len() == n,
        forall|s: int| 0 <= s < n ==> (#[trigger] table[s]).len() == 0,
        indexes(table@, Seq::empty()),
{
    let mut table: Vec<Vec<usize>> = Vec::new();
    while table.len() < n
        invariant
            table.len() <= n,
            forall|s: int| 0 <= s < table.len() ==> (#[trigger] table[s]).len() == 0,
        decreases n - table.len(),
    {
        table.push(Vec::new());
    }
    table
}

/// Listing group `g` under its endpoint extends a table of the groups before it.
proof fn lemma_indexes_push(
    before: Seq<Vec<usize>>,
    after: Seq<Vec<usize>>,
    endpoints: Seq<int>,
    g: int,
)
    requires
        0 <= g < endpoints.len(),
        g <= usize::MAX,
        indexes(before, endpoints.take(g)),
        0 <= endpoints[g] < before.len(),
        after.len() == before.len(),
        after[endpoints[g]]@ == before[endpoints[g]]@.push(g as usize),
        forall|s: int| 0 <= s < before.len() && s != endpoints[g] ==> after[s] == before[s],
    ensures
        indexes(after, endpoints.take(g + 1)),
{
    let old_points = endpoints.take(g);
    let points = endpoints.take(g + 1);
    let row = endpoints[g];
    assert forall|s: int, k: int| 0 <= s < after.len() && 0 <= k < after[s].len() implies (
    #[trigger] after[s][k]) < points.len() && points[after[s][k] as int] == s by {
        if s == row && k == before[row].len() {
        } else {
            assert(after[s][k] == before[s][k]);
            assert(old_points[before[s][k] as int] == s);
        }
    }
    assert forall|h: int| 0 <= h < points.len() implies 0 <= (#[trigger] points[h]) < after.len()
        && after[points[h]]@.contains(h as usize) by {
        if h < g {
            assert(old_points[h] == points[h]);
            let k = choose|k: int|
                0 <= k < before[old_points[h]]@.len() && before[old_points[h]]@[k] == h as usize;
            assert(after[points[h]]@[k] == h as usize);
        } else {
            assert(after[row]@[before[row]@.len() as int] == g as usize);
        }
    }
}

/// An edge of a well-formed automaton leads to a state.
proof fn lemma_char_edge_in_range(a: Automaton, p: int, c: char, q: int)
    requires
        a.wf(),
        a.char_edge(p, c, q),
    ensures
        0 <= q < a.states(),
{
}

} // verus!
