use regex_engine::error::{Error, ParsingError};
use regex_engine::regex::{Match, Regex};

#[test]
fn test_simple_match() {
    let re = Regex::new("(mega|kilo)?bytes?").unwrap();

    assert!(re.test("byte"));
    assert!(re.test("bytes"));
    assert!(re.test("kilobyte"));
    assert!(re.test("kilobytes"));
    assert!(re.test("megabyte"));
    assert!(re.test("megabytes"));
}

#[test]
fn test_plus_quantifier() {
    let re = Regex::new("eh+").unwrap();

    assert!(re.test("eh"));
    assert!(re.test("ehh"));
    assert!(re.test("ehhh"));
}

#[test]
fn test_star_quantifier() {
    let re = Regex::new("n.*").unwrap();

    assert!(re.test("no"));
    assert!(re.test("nooo"));
    assert!(re.test("nooope"));
}

#[test]
fn test_range_quantifier_simple() {
    let re = Regex::new("e{3}").unwrap();

    assert!(re.test("eee"));
    assert!(!re.test("e"));
    assert!(!re.test("ee"));

    let re = Regex::new("e{1,3}").unwrap();

    assert!(re.test("e"));
    assert!(re.test("ee"));
    assert!(re.test("eee"));
    assert!(!re.test(""));

    let re = Regex::new("e{3,}").unwrap();

    assert!(re.test("eee"));
    assert!(re.test("eeee"));
    assert!(re.test("eeeee"));
    assert!(!re.test(""));
    assert!(!re.test("e"));
    assert!(!re.test("ee"));
}

#[test]
fn test_range_quantifier_extended() {
    let re = Regex::new("(h(ey|i)!?){2,}").unwrap();

    assert!(re.test("hihi"));
    assert!(re.test("hihi!hi"));
    assert!(re.test("heyhey!"));
    assert!(re.test("hey!hi"));
    assert!(!re.test(""));
    assert!(!re.test("hey!"));
}

#[test]
fn regex_test_character_class() {
    let re = Regex::new(r#"[0-9]+(\.[0-9]+)?"#).unwrap();

    assert!(re.test("10"));
    assert!(re.test("12.50"));
    assert!(!re.test(""));
}

#[test]
fn regex_test_capture_groups() {
    let regex = Regex::new(r#"(ah+)(:?eh+)(oh+)"#).unwrap();
    let matches = regex.captures("ahhhhehhhohhh").unwrap();

    assert_eq!(matches.get(0), Some(&Match::new(0, 13, "ahhhhehhhohhh")));
    assert_eq!(matches.get(1), Some(&Match::new(0, 5, "ahhhh")));
    assert_eq!(matches.get(2), Some(&Match::new(9, 13, "ohhh")));
}

#[test]
fn test_named_capture_groups() {
    let regex = Regex::new(r#"(?<hour>\d+):(?<minute>\d+)"#).unwrap();
    let matches = regex.captures("19:30").unwrap();

    assert_eq!(matches.get(0), Some(&Match::new(0, 5, "19:30")));
    assert_eq!(matches.get_name("hour"), Some(&Match::new(0, 2, "19")));
    assert_eq!(matches.get_name("minute"), Some(&Match::new(3, 5, "30")));
}

fn span(m: &Match) -> (usize, usize) {
    (m.start, m.end)
}

#[test]
fn find_is_leftmost_and_longest() {
    let re = Regex::new("eh+").unwrap();
    assert_eq!(re.find("ehss"), Some(Match::new(0, 2, "eh")));
    assert_eq!(re.find("ehhss"), Some(Match::new(0, 3, "ehh")));
    assert_eq!(re.find("xxehhh"), Some(Match::new(2, 6, "ehhh")));
    assert_eq!(re.find("e"), None);

    let re = Regex::new("n.*").unwrap();
    assert_eq!(re.find("nooope"), Some(Match::new(0, 6, "nooope")));

    let re = Regex::new("a|ab").unwrap();
    assert_eq!(re.find("xab"), Some(Match::new(1, 3, "ab")));
}

#[test]
fn counted_repetition_scenarios() {
    let re = Regex::new("e{3}").unwrap();
    assert_eq!(re.find("eeee").map(|m| span(&m)), Some((0, 3)));
    assert_eq!(re.find("ee"), None);

    let re = Regex::new("e{1,3}").unwrap();
    assert_eq!(re.find(""), None);
    assert_eq!(re.find("eeee").map(|m| span(&m)), Some((0, 3)));

    let re = Regex::new("e{3,}").unwrap();
    assert_eq!(re.find("ee"), None);
    assert_eq!(re.find("eeeee").map(|m| span(&m)), Some((0, 5)));

    let re = Regex::new("e{1,}").unwrap();
    assert_eq!(re.find("xeeey").map(|m| span(&m)), Some((1, 4)));

    let re = Regex::new("ae{0,2}").unwrap();
    assert_eq!(re.find("aeee").map(|m| span(&m)), Some((0, 3)));
    assert_eq!(re.find("a").map(|m| span(&m)), Some((0, 1)));

    let re = Regex::new("ae{0,}b").unwrap();
    assert!(re.test("ab"));
    assert!(re.test("aeeeb"));
    assert!(!re.test("aeee"));
}

#[test]
fn decimal_number_scenario() {
    let re = Regex::new(r"[0-9]+(\.[0-9]+)?").unwrap();
    assert_eq!(re.find("12.50"), Some(Match::new(0, 5, "12.50")));
    let captures = re.captures("12.50").unwrap();
    assert_eq!(captures.get(1), Some(&Match::new(2, 5, ".50")));
    let captures = re.captures("12").unwrap();
    assert_eq!(captures.get(0), Some(&Match::new(0, 2, "12")));
    assert_eq!(captures.get(1), Some(&Match::new(2, 2, "")));
}

#[test]
fn find_all_scenario() {
    let re = Regex::new("wh(at|o|y)").unwrap();
    let found = re.find_all("what? who? why?");
    assert_eq!(
        found,
        vec![
            Match::new(0, 4, "what"),
            Match::new(6, 9, "who"),
            Match::new(11, 14, "why"),
        ]
    );
}

#[test]
fn find_all_does_not_overlap_and_agrees_with_find_on_suffixes() {
    let re = Regex::new("a+b?").unwrap();
    let input = "aab ab aaa b a";
    let found = re.find_all(input);
    assert_eq!(
        found.iter().map(span).collect::<Vec<_>>(),
        vec![(0, 3), (4, 6), (7, 10), (13, 14)]
    );
    for pair in found.windows(2) {
        assert!(pair[0].start < pair[1].start);
        assert!(pair[0].end <= pair[1].start);
    }
    for m in &found {
        let again = re.find(&input[m.start..]).unwrap();
        assert_eq!(again.start, 0);
        assert_eq!(again.end, m.end - m.start);
        assert_eq!(again.string, m.string);
    }
}

#[test]
fn find_all_reports_empty_matches_once_per_position() {
    let re = Regex::new("a*").unwrap();
    let found = re.find_all("baab");
    assert_eq!(
        found,
        vec![
            Match::new(0, 0, ""),
            Match::new(1, 3, "aa"),
            Match::new(3, 3, ""),
            Match::new(4, 4, ""),
        ]
    );
    assert_eq!(re.find_all(""), vec![Match::new(0, 0, "")]);
}

#[test]
fn empty_pattern_matches_the_empty_slice() {
    let re = Regex::new("").unwrap();
    assert!(re.test(""));
    assert_eq!(re.find("abc"), Some(Match::new(0, 0, "")));
    let captures = re.captures("").unwrap();
    assert_eq!(captures.get(0), Some(&Match::new(0, 0, "")));
}

#[test]
fn test_find_and_captures_agree() {
    let patterns = ["a+", "(x|y)z", "[0-9]{2}", "q?", "(?<n>k)+"];
    let inputs = ["", "a", "xz yz", "12", "kkk", "none of these", "q"];
    for pattern in patterns {
        let re = Regex::new(pattern).unwrap();
        for input in inputs {
            let found = re.find(input);
            let captures = re.captures(input);
            assert_eq!(re.test(input), found.is_some());
            assert_eq!(found.is_some(), captures.is_some());
            if let Some(captures) = captures {
                assert_eq!(captures.get(0), found.as_ref());
            }
        }
    }
}

#[test]
fn match_offsets_are_bytes_and_slice_the_input() {
    let re = Regex::new("日本語").unwrap();
    let input = "これは日本語のテストです。日本語";
    let found = re.find_all(input);
    assert_eq!(
        found,
        vec![Match::new(9, 18, "日本語"), Match::new(39, 48, "日本語")]
    );
    for m in &found {
        assert!(m.start <= m.end);
        assert_eq!(&input[m.start..m.end], m.string);
        assert_eq!(m.text(), m.string);
    }

    let re = Regex::new("é+").unwrap();
    assert_eq!(re.find("caféé!"), Some(Match::new(3, 7, "éé")));
}

#[test]
fn captures_search_like_find() {
    let re = Regex::new("(b+)(c)?").unwrap();
    let captures = re.captures("aabbbc").unwrap();
    assert_eq!(captures.get(0), Some(&Match::new(2, 6, "bbbc")));
    assert_eq!(captures.get(1), Some(&Match::new(2, 5, "bbb")));
    assert_eq!(captures.get(2), Some(&Match::new(5, 6, "c")));
    assert_eq!(captures.get(3), None);
    assert!(re.captures("xyz").is_none());
}

#[test]
fn named_groups_are_indexed_too() {
    let re = Regex::new(r"(?<hour>\d+):(?<minute>\d+)").unwrap();
    let captures = re.captures("at 19:30").unwrap();
    assert_eq!(captures.get(0), Some(&Match::new(3, 8, "19:30")));
    assert_eq!(captures.get(1), Some(&Match::new(3, 5, "19")));
    assert_eq!(captures.get(2), Some(&Match::new(6, 8, "30")));
    assert_eq!(captures.get_name("hour"), captures.get(1));
    assert_eq!(captures.get_name("minute"), captures.get(2));
    assert_eq!(captures.get_name("second"), None);
}

#[test]
fn group_that_did_not_take_part_is_not_bound() {
    let re = Regex::new("(a)|(b)").unwrap();
    let captures = re.captures("b").unwrap();
    assert_eq!(captures.get(0), Some(&Match::new(0, 1, "b")));
    assert_eq!(captures.get(1), None);
    assert_eq!(captures.get(2), Some(&Match::new(0, 1, "b")));
}

#[test]
fn capture_iterator_walks_indices_until_one_is_unbound() {
    let re = Regex::new("(a)(b)").unwrap();
    let captures = re.captures("ab").unwrap();
    let mut iterator = captures.iter();
    assert_eq!(iterator.next(), Some(&Match::new(0, 2, "ab")));
    assert_eq!(iterator.next(), Some(&Match::new(0, 1, "a")));
    assert_eq!(iterator.next(), Some(&Match::new(1, 2, "b")));
    assert_eq!(iterator.next(), None);
    assert_eq!(iterator.next(), None);

    let re = Regex::new("(a)|(b)").unwrap();
    let captures = re.captures("b").unwrap();
    let mut iterator = captures.iter();
    assert_eq!(iterator.next(), Some(&Match::new(0, 1, "b")));
    assert_eq!(iterator.next(), None);
}

#[test]
fn wildcard_and_classes_match_by_codepoint() {
    let re = Regex::new("a.c").unwrap();
    assert_eq!(re.find("aこc"), Some(Match::new(0, 5, "aこc")));
    let re = Regex::new("[^a-c]+").unwrap();
    assert_eq!(re.find("abcxyzabc"), Some(Match::new(3, 6, "xyz")));
    let re = Regex::new(r"\s\S\w\W\d\D").unwrap();
    assert!(re.test(" xa!1x"));
    assert!(!re.test("xxa!1x"));
}

#[test]
fn new_reports_parsing_errors() {
    assert_eq!(
        Regex::new("(a").err(),
        Some(Error::ParsingError(ParsingError::MissingCharacter(')')))
    );
    assert_eq!(
        Regex::new("[b-a]").err(),
        Some(Error::ParsingError(ParsingError::RangeOutOfOrder))
    );
    assert_eq!(
        Regex::new("a{2,1}").err(),
        Some(Error::ParsingError(ParsingError::InvalidRangeQuantifier))
    );
    assert_eq!(
        Error::from(ParsingError::InvalidCaptureName),
        Error::ParsingError(ParsingError::InvalidCaptureName)
    );
}

#[test]
fn new_refuses_an_automaton_that_cannot_be_counted() {
    let pattern = format!("(a{{{}}}){{{}}}", usize::MAX / 2, 4);
    assert_eq!(
        Regex::new(&pattern).err(),
        Some(Error::ParsingError(ParsingError::InvalidRangeQuantifier))
    );
}

#[test]
fn compiling_twice_gives_the_same_automaton() {
    let pattern = "(mega|kilo)?bytes?";
    let first = Regex::new(pattern).unwrap();
    let second = Regex::new(pattern).unwrap();
    assert_eq!(first.nfa(), second.nfa());
}

#[test]
fn trailing_input_after_an_unmatched_parenthesis_is_not_read() {
    let re = Regex::new("a)b").unwrap();
    assert_eq!(re.find("ab"), Some(Match::new(0, 1, "a")));
}

#[test]
fn captures_all_follows_find_all() {
    let re = Regex::new(r"(?<k>\w+)=(\d+)").unwrap();
    let input = "a=1, bc=22";
    let all = re.captures_all(input);
    assert_eq!(all.len(), 2);
    assert_eq!(all[0].get(0), Some(&Match::new(0, 3, "a=1")));
    assert_eq!(all[0].get_name("k"), Some(&Match::new(0, 1, "a")));
    assert_eq!(all[0].get(2), Some(&Match::new(2, 3, "1")));
    assert_eq!(all[1].get(0), Some(&Match::new(5, 10, "bc=22")));
    assert_eq!(all[1].get_name("k"), Some(&Match::new(5, 7, "bc")));
    assert_eq!(all[1].get(2), Some(&Match::new(8, 10, "22")));
    let found = re.find_all(input);
    for (capture, m) in all.iter().zip(found.iter()) {
        assert_eq!(capture.get(0), Some(m));
    }
    assert_eq!(all[1].captures().len(), 3);
    assert_eq!(all[1].named_captures().len(), 1);
}

#[test]
fn pattern_semantics_on_samples() {
    let cases: Vec<(&str, &str, Option<(usize, usize)>)> = vec![
        ("(a|b)*c", "xxababc", Some((2, 7))),
        ("(a|b)*c", "ab", None),
        ("a{2,3}", "caaaa", Some((1, 4))),
        ("a{2,}b", "aab aaaab", Some((0, 3))),
        ("(ab){2,}", "abababx", Some((0, 6))),
        ("(ab){2,}", "ab", None),
        ("x(a{2,}b)?", "xaa", Some((0, 1))),
        ("x(a+b)?", "xa", Some((0, 1))),
        ("(a?){3}b", "aab", Some((0, 3))),
    ];
    for (pattern, input, expected) in cases {
        let re = Regex::new(pattern).unwrap();
        assert_eq!(re.find(input).map(|m| span(&m)), expected, "{} on {}", pattern, input);
    }
}

#[test]
fn one_or_more_as_a_range_loops_back_to_its_first_state() {
    let re = Regex::new("a{1,}").unwrap();
    assert_eq!(re.find("baaa").map(|m| span(&m)), Some((1, 4)));
    assert_eq!(re.find("b"), None);
    let re = Regex::new("(a{1,}b)?").unwrap();
    assert_eq!(re.find("a").map(|m| span(&m)), Some((0, 1)));
    let re = Regex::new("(a+b)?").unwrap();
    assert_eq!(re.find("a").map(|m| span(&m)), Some((0, 0)));
}
