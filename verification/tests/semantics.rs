use regex_engine::ast::Node;
use regex_engine::parser::parse_regex;
use regex_engine::regex::Regex;

fn power(node: &Node, w: &[char], count: usize) -> bool {
    if count == 0 {
        return w.is_empty();
    }
    (0..=w.len()).any(|k| describes(node, &w[..k]) && power(node, &w[k..], count - 1))
}

fn star(node: &Node, w: &[char]) -> bool {
    w.is_empty() || (1..=w.len()).any(|k| describes(node, &w[..k]) && star(node, &w[k..]))
}

fn describes(node: &Node, w: &[char]) -> bool {
    match node {
        Node::Empty => w.is_empty(),
        Node::Character(c) => w.len() == 1 && w[0] == *c,
        Node::Wildcard => w.len() == 1,
        Node::CharacterClass(class) => w.len() == 1 && class.matches(w[0]),
        Node::Concatenation(a, b) => {
            (0..=w.len()).any(|k| describes(a, &w[..k]) && describes(b, &w[k..]))
        }
        Node::Alternation(a, b) => describes(a, w) || describes(b, w),
        Node::Optional(a) => w.is_empty() || describes(a, w),
        Node::Star(a) => star(a, w),
        Node::Plus(a) => (0..=w.len()).any(|k| describes(a, &w[..k]) && star(a, &w[k..])),
        Node::Range { inner, range } => match range.max {
            Some(max) => (range.min..=max.max(range.min)).any(|n| power(inner, w, n)),
            None => (0..=w.len()).any(|k| power(inner, &w[..k], range.min) && star(inner, &w[k..])),
        },
        Node::Group(group) => describes(&group.inner, w),
    }
}

fn leftmost_longest(node: &Node, input: &[char]) -> Option<(usize, usize)> {
    for i in 0..=input.len() {
        for j in (i..=input.len()).rev() {
            if describes(node, &input[i..j]) {
                return Some((i, j));
            }
        }
    }
    None
}

fn inputs(alphabet: &[char], longest: usize) -> Vec<String> {
    let mut all = vec![String::new()];
    let mut last = vec![String::new()];
    for _ in 0..longest {
        let mut next = Vec::new();
        for word in &last {
            for c in alphabet {
                let mut longer = word.clone();
                longer.push(*c);
                next.push(longer);
            }
        }
        all.extend(next.iter().cloned());
        last = next;
    }
    all
}

const PATTERNS: [&str; 40] = [
    "",
    "a",
    ".",
    "ab",
    "a|b",
    "a|",
    "a?",
    "a*",
    "a+",
    "(a|b)*",
    "(a|b)+c",
    "(ab)*",
    "(ab)+a",
    "a*b*",
    "(a*)*",
    "(a+)+",
    "(a?)+",
    "(a*b)*",
    "(a|ab)(c|bc)",
    "a{0}",
    "a{2}",
    "a{0,2}",
    "a{1,2}b",
    "a{2,}",
    "a{0,}b",
    "(ab){2,}",
    "(a|b){2,3}",
    "(a{2,}b)?",
    "(a{2,})*",
    "(a?){2}",
    "(a*){2,}",
    "[ab]c",
    "[^a]",
    "[a-b]+",
    "a(b|c)?a",
    "(:?ab|a)b",
    "(?<x>a)+b",
    "((a))",
    "(a|b|c)",
    "c*(a|b)c*",
];

#[test]
fn find_agrees_with_the_meaning_of_the_pattern() {
    let words = inputs(&['a', 'b', 'c'], 5);
    for pattern in PATTERNS {
        let node = parse_regex(pattern).unwrap();
        let regex = Regex::new(pattern).unwrap();
        for word in &words {
            let chars: Vec<char> = word.chars().collect();
            let expected = leftmost_longest(&node, &chars);
            let found = regex.find(word).map(|m| (m.start, m.end));
            assert_eq!(found, expected, "{:?} on {:?}", pattern, word);
            assert_eq!(regex.test(word), expected.is_some(), "{:?} on {:?}", pattern, word);
        }
    }
}

#[test]
fn find_all_agrees_with_repeated_search() {
    let words = inputs(&['a', 'b'], 6);
    for pattern in ["a", "a*", "ab|b", "(a|b){2}", "b+a?", "a{2,}"] {
        let node = parse_regex(pattern).unwrap();
        let regex = Regex::new(pattern).unwrap();
        for word in &words {
            let chars: Vec<char> = word.chars().collect();
            let mut expected = Vec::new();
            let mut from = 0;
            while from <= chars.len() {
                match leftmost_longest(&node, &chars[from..]) {
                    Some((i, j)) => {
                        expected.push((from + i, from + j));
                        from = if j > i { from + j } else { from + i + 1 };
                    }
                    None => break,
                }
            }
            let found: Vec<(usize, usize)> =
                regex.find_all(word).iter().map(|m| (m.start, m.end)).collect();
            assert_eq!(found, expected, "{:?} on {:?}", pattern, word);
        }
    }
}
