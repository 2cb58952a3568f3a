use regex_engine::ast::{CharacterClass, ClassMember, Node, Range};
use regex_engine::nfa::{CaptureGroup, Nfa, NfaBuilder, Transition, TransitionKind};
use regex_engine::parser::parse_regex;
use std::collections::HashSet;

fn to_nfa(regex: &str) -> Nfa {
    let ast = parse_regex(regex).unwrap();
    Nfa::from(ast)
}

#[test]
fn test_concatenation() {
    let expected = NfaBuilder::default()
        .transition(0, TransitionKind::Character('h'), 1)
        .transition(1, TransitionKind::Epsilon, 2)
        .transition(2, TransitionKind::Character('i'), 3)
        .build();
    let nfa = to_nfa("hi");

    assert_eq!(expected, nfa);
}

#[test]
fn nfa_test_alternation() {
    let expected = NfaBuilder::default()
        .transition(0, TransitionKind::Epsilon, 1)
        .transition(0, TransitionKind::Epsilon, 3)
        .transition(1, TransitionKind::Character('a'), 2)
        .transition(2, TransitionKind::Epsilon, 5)
        .transition(3, TransitionKind::Character('b'), 4)
        .transition(4, TransitionKind::Epsilon, 5)
        .build();
    let nfa = to_nfa("a|b");

    assert_eq!(expected, nfa);
}

#[test]
fn test_range_excat() {
    let expected = NfaBuilder::default()
        .transition(0, TransitionKind::Character('e'), 1)
        .transition(1, TransitionKind::Epsilon, 2)
        .transition(2, TransitionKind::Character('e'), 3)
        .transition(3, TransitionKind::Epsilon, 4)
        .transition(4, TransitionKind::Character('e'), 5)
        .build();
    let nfa = to_nfa("e{3}");

    assert_eq!(expected, nfa);
}

#[test]
fn test_range_between() {
    let expected = NfaBuilder::default()
        .transition(0, TransitionKind::Character('e'), 1)
        .transition(1, TransitionKind::Epsilon, 2)
        .transition(2, TransitionKind::Character('e'), 3)
        .transition(2, TransitionKind::Epsilon, 3)
        .build();
    let nfa = to_nfa("e{1,2}");

    assert_eq!(expected, nfa);
}

#[test]
fn test_range_minimum() {
    let expected = NfaBuilder::default()
        .transition(0, TransitionKind::Character('e'), 1)
        .transition(1, TransitionKind::Epsilon, 2)
        .transition(2, TransitionKind::Character('e'), 3)
        .transition(3, TransitionKind::Epsilon, 1)
        .transition(3, TransitionKind::Epsilon, 4)
        .build();
    let nfa = to_nfa("e{2,}");

    assert_eq!(expected, nfa);
}

#[test]
fn test_epsilon_closure() {
    let nfa = NfaBuilder::default()
        .transition(0, TransitionKind::Epsilon, 1)
        .transition(0, TransitionKind::Epsilon, 2)
        .transition(1, TransitionKind::Epsilon, 3)
        .build();
    let expected = [0, 1, 2, 3].into_iter().collect();
    let eclosure = nfa.epsilon_closure(0);

    assert_eq!(eclosure, expected);

    let nfa = NfaBuilder::default()
        .transition(0, TransitionKind::Character('a'), 1)
        .build();
    let eclosure = nfa.epsilon_closure(0);
    let expected = [0].into_iter().collect();

    assert_eq!(eclosure, expected);

    let nfa = NfaBuilder::default()
        .transition(0, TransitionKind::Epsilon, 1)
        .transition(1, TransitionKind::Epsilon, 2)
        .transition(2, TransitionKind::Epsilon, 1)
        .build();
    let expected = [0, 1, 2].into_iter().collect();
    let eclosure = nfa.epsilon_closure(0);

    assert_eq!(eclosure, expected);
}

#[test]
fn test_capture_group_order() {
    let nfa = to_nfa("a(b(c)(d))(e)");
    let expected = vec![
        CaptureGroup { start: 2, end: 7, name: None },
        CaptureGroup { start: 4, end: 5, name: None },
        CaptureGroup { start: 6, end: 7, name: None },
        CaptureGroup { start: 8, end: 9, name: None },
    ];

    assert_eq!(*nfa.capture_groups(), expected);
}

#[test]
fn atoms_have_two_states_and_one_edge() {
    let cases = vec![
        (Node::Empty, TransitionKind::Epsilon),
        (Node::Character('x'), TransitionKind::Character('x')),
        (Node::Wildcard, TransitionKind::Wildcard),
        (
            Node::class(true, vec![ClassMember::Atom('q')]),
            TransitionKind::CharacterClass(CharacterClass {
                negate: true,
                members: vec![ClassMember::Atom('q')],
            }),
        ),
    ];
    for (node, kind) in cases {
        let nfa = Nfa::from(node);
        assert_eq!(nfa.state_count(), 2);
        assert_eq!(nfa.transitions(0).unwrap(), &vec![Transition::new(kind, 1)]);
        assert!(nfa.transitions(1).unwrap().is_empty());
        assert!(nfa.transitions(2).is_none());
        assert!(nfa.is_accepting(1));
        assert!(!nfa.is_accepting(0));
    }
}

#[test]
fn optional_adds_a_skip_edge() {
    let expected = NfaBuilder::default()
        .transition(0, TransitionKind::Character('a'), 1)
        .transition(0, TransitionKind::Epsilon, 1)
        .build();
    assert_eq!(expected, to_nfa("a?"));
}

#[test]
fn plus_wraps_and_loops_back() {
    let expected = NfaBuilder::default()
        .transition(0, TransitionKind::Epsilon, 1)
        .transition(1, TransitionKind::Character('a'), 2)
        .transition(2, TransitionKind::Epsilon, 1)
        .transition(2, TransitionKind::Epsilon, 3)
        .build();
    assert_eq!(expected, to_nfa("a+"));
}

#[test]
fn star_is_plus_of_optional() {
    let expected = NfaBuilder::default()
        .transition(0, TransitionKind::Epsilon, 1)
        .transition(1, TransitionKind::Character('a'), 2)
        .transition(1, TransitionKind::Epsilon, 2)
        .transition(2, TransitionKind::Epsilon, 1)
        .transition(2, TransitionKind::Epsilon, 3)
        .build();
    assert_eq!(expected, to_nfa("a*"));
}

#[test]
fn range_from_zero_starts_from_empty() {
    let expected = NfaBuilder::default()
        .transition(0, TransitionKind::Epsilon, 1)
        .transition(1, TransitionKind::Epsilon, 2)
        .transition(2, TransitionKind::Character('e'), 3)
        .transition(2, TransitionKind::Epsilon, 3)
        .build();
    assert_eq!(expected, to_nfa("e{0,1}"));
    assert_eq!(to_nfa("e{0,}"), to_nfa("e*"));
    assert_eq!(to_nfa("e{0}"), to_nfa(""));
}

#[test]
fn range_from_one_without_upper_bound() {
    let expected = NfaBuilder::default()
        .transition(0, TransitionKind::Character('e'), 1)
        .transition(1, TransitionKind::Epsilon, 0)
        .transition(1, TransitionKind::Epsilon, 2)
        .build();
    assert_eq!(expected, to_nfa("e{1,}"));
}

#[test]
fn range_with_upper_below_lower_is_exact() {
    let node = Node::range(Node::Character('e'), Range::new(3, Some(1)));
    assert_eq!(Nfa::from(node), to_nfa("e{3}"));
}

#[test]
fn named_group_is_listed_with_its_name() {
    let nfa = to_nfa("(?<hour>a)(b)");
    let expected = vec![
        CaptureGroup { start: 0, end: 1, name: Some("hour".to_string()) },
        CaptureGroup { start: 2, end: 3, name: None },
    ];
    assert_eq!(*nfa.capture_groups(), expected);
}

#[test]
fn non_capturing_group_is_not_listed() {
    let nfa = to_nfa("(:?a)");
    assert!(nfa.capture_groups().is_empty());
    assert_eq!(nfa, to_nfa("a"));
}

#[test]
fn next_follows_edges_that_accept() {
    let nfa = NfaBuilder::default()
        .transition(0, TransitionKind::Character('a'), 1)
        .transition(0, TransitionKind::Wildcard, 2)
        .transition(0, TransitionKind::Epsilon, 3)
        .transition(
            0,
            TransitionKind::CharacterClass(CharacterClass {
                negate: false,
                members: vec![ClassMember::Range('0', '9')],
            }),
            4,
        )
        .build();
    let expected: HashSet<usize> = [1, 2].into_iter().collect();
    assert_eq!(nfa.next(0, 'a'), expected);
    let expected: HashSet<usize> = [2, 4].into_iter().collect();
    assert_eq!(nfa.next(0, '7'), expected);
    let expected: HashSet<usize> = [2].into_iter().collect();
    assert_eq!(nfa.next(0, 'z'), expected);
    assert!(nfa.next(1, 'a').is_empty());
    assert!(nfa.next(99, 'a').is_empty());
}

#[test]
fn epsilon_closure_of_a_state_that_does_not_exist() {
    let nfa = NfaBuilder::default()
        .transition(0, TransitionKind::Epsilon, 1)
        .build();
    let expected: HashSet<usize> = [7].into_iter().collect();
    assert_eq!(nfa.epsilon_closure(7), expected);
}

#[test]
fn class_matches_by_membership_xor_negation() {
    let members = vec![ClassMember::Atom('x'), ClassMember::Range('a', 'c')];
    let plain = CharacterClass { negate: false, members: members.clone() };
    let negated = CharacterClass { negate: true, members };
    for c in ['a', 'b', 'c', 'x'] {
        assert!(plain.contains(c));
        assert!(plain.matches(c));
        assert!(!negated.matches(c));
    }
    for c in ['d', 'y', 'A', 'こ'] {
        assert!(!plain.contains(c));
        assert!(!plain.matches(c));
        assert!(negated.matches(c));
    }
    let edge = Transition::new(TransitionKind::CharacterClass(negated), 1);
    assert!(edge.accept(&'d'));
    assert!(!edge.accept(&'b'));
    assert!(!Transition::new(TransitionKind::Epsilon, 1).accept(&'a'));
    assert!(Transition::new(TransitionKind::Epsilon, 1).is_epsilon());
}

#[test]
fn compilation_is_deterministic() {
    let pattern = r"(a|b)*c{2,}(?<n>[x-z]+)?";
    assert_eq!(to_nfa(pattern), to_nfa(pattern));
}

#[test]
fn compiled_size_counts_states() {
    let ast = parse_regex("a(b|c)*d{2,4}").unwrap();
    let size = Nfa::compiled_size(&ast).unwrap();
    assert_eq!(size, Nfa::from(ast).state_count());
    assert_eq!(size, 2 + (2 + 2 + 2 + 2) + 4 * 2);

    let huge = Node::range(Node::Character('a'), Range::new(usize::MAX, None));
    assert_eq!(Nfa::compiled_size(&huge), None);
}

#[test]
fn cloning_keeps_the_automaton() {
    let nfa = to_nfa("(a|b)c");
    assert_eq!(nfa.clone(), nfa);
}
