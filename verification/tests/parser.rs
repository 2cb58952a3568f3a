use regex_engine::ast::{ClassMember, Node, Range};
use regex_engine::error::ParsingError;
use regex_engine::parser::parse_regex;

#[test]
fn parser_test_chars() {
    let ast = parse_regex("ok!").unwrap();
    let expected = Node::concatenation(
        Node::Character('o'),
        Node::concatenation(Node::Character('k'), Node::Character('!')),
    );

    assert_eq!(ast, expected);
}

#[test]
fn parser_test_unary() {
    let ast = parse_regex("les?").unwrap();
    let expected = Node::concatenation(
        Node::Character('l'),
        Node::concatenation(Node::Character('e'), Node::optional(Node::Character('s'))),
    );

    assert_eq!(ast, expected);
}

#[test]
fn parser_test_alternation() {
    let ast = parse_regex("la|le").unwrap();
    let expected = Node::alternation(
        Node::concatenation(Node::Character('l'), Node::Character('a')),
        Node::concatenation(Node::Character('l'), Node::Character('e')),
    );

    assert_eq!(ast, expected);
}

#[test]
fn parser_test_group_alternation() {
    let ast = parse_regex("l(a|e)").unwrap();
    let expected = Node::concatenation(
        Node::Character('l'),
        Node::group(
            Node::alternation(Node::Character('a'), Node::Character('e')),
            true,
            None,
        ),
    );

    assert_eq!(ast, expected);
}

#[test]
fn parser_test_range_quantifier() {
    let ast = parse_regex("1{2,5}").unwrap();
    let expected = Node::range(Node::Character('1'), Range::new(2, Some(5)));

    assert_eq!(ast, expected);

    let ast = parse_regex("1{5}").unwrap();
    let expected = Node::range(Node::Character('1'), Range::new(5, Some(5)));

    assert_eq!(ast, expected);

    let ast = parse_regex("1{5,}").unwrap();
    let expected = Node::range(Node::Character('1'), Range::new(5, None));

    assert_eq!(ast, expected);
}

#[test]
fn parser_test_character_class() {
    let ast = parse_regex(r#"[bar\\]"#).unwrap();
    let expected = Node::class(
        false,
        vec![
            ClassMember::Atom('b'),
            ClassMember::Atom('a'),
            ClassMember::Atom('r'),
            ClassMember::Atom('\\'),
        ],
    );

    assert_eq!(ast, expected);

    let ast = parse_regex(r#"[^a-zA-Z.]"#).unwrap();
    let expected = Node::class(
        true,
        vec![
            ClassMember::Range('a', 'z'),
            ClassMember::Range('A', 'Z'),
            ClassMember::Atom('.'),
        ],
    );

    assert_eq!(ast, expected);
}

#[test]
fn parser_test_capture_groups() {
    let ast = parse_regex("(foo)bar").unwrap();
    let expected = Node::concatenation(
        Node::group(
            Node::concatenation(
                Node::Character('f'),
                Node::concatenation(Node::Character('o'), Node::Character('o')),
            ),
            true,
            None,
        ),
        Node::concatenation(
            Node::Character('b'),
            Node::concatenation(Node::Character('a'), Node::Character('r')),
        ),
    );

    assert_eq!(ast, expected);

    let ast = parse_regex("(:?foo)bar").unwrap();
    let expected = Node::concatenation(
        Node::group(
            Node::concatenation(
                Node::Character('f'),
                Node::concatenation(Node::Character('o'), Node::Character('o')),
            ),
            false,
            None,
        ),
        Node::concatenation(
            Node::Character('b'),
            Node::concatenation(Node::Character('a'), Node::Character('r')),
        ),
    );

    assert_eq!(ast, expected);

    let ast = parse_regex("(?<capt>foo)bar").unwrap();
    let expected = Node::concatenation(
        Node::group(
            Node::concatenation(
                Node::Character('f'),
                Node::concatenation(Node::Character('o'), Node::Character('o')),
            ),
            true,
            Some("capt"),
        ),
        Node::concatenation(
            Node::Character('b'),
            Node::concatenation(Node::Character('a'), Node::Character('r')),
        ),
    );

    assert_eq!(ast, expected);
}

#[test]
fn parser_alt_test_chars() {
    let ast = parse_regex("ok!").unwrap();
    let expected = Node::Concatenation(
        Box::new(Node::Character('o')),
        Box::new(Node::Concatenation(
            Box::new(Node::Character('k')),
            Box::new(Node::Character('!')),
        )),
    );

    assert_eq!(ast, expected);
}

#[test]
fn parser_alt_test_unary() {
    let ast = parse_regex("les?").unwrap();
    let expected = Node::Concatenation(
        Box::new(Node::Character('l')),
        Box::new(Node::Concatenation(
            Box::new(Node::Character('e')),
            Box::new(Node::Optional(Box::new(Node::Character('s')))),
        )),
    );

    assert_eq!(ast, expected);
}

#[test]
fn parser_alt_test_alternation() {
    let ast = parse_regex("la|le").unwrap();
    let expected = Node::Alternation(
        Box::new(Node::Concatenation(
            Box::new(Node::Character('l')),
            Box::new(Node::Character('a')),
        )),
        Box::new(Node::Concatenation(
            Box::new(Node::Character('l')),
            Box::new(Node::Character('e')),
        )),
    );

    assert_eq!(ast, expected);
}

#[test]
fn parser_alt_test_group_alternation() {
    let ast = parse_regex("l(a|e)").unwrap();
    let expected = Node::Concatenation(
        Box::new(Node::Character('l')),
        Box::new(Node::group(
            Node::Alternation(
                Box::new(Node::Character('a')),
                Box::new(Node::Character('e')),
            ),
            true,
            None,
        )),
    );

    assert_eq!(ast, expected);
}

#[test]
fn parser_alt_test_range_quantifier() {
    let ast = parse_regex("1{2,5}").unwrap();
    let expected = Node::Range {
        inner: Box::new(Node::Character('1')),
        range: Range::new(2, Some(5)),
    };

    assert_eq!(ast, expected);

    let ast = parse_regex("1{5}").unwrap();
    let expected = Node::Range {
        inner: Box::new(Node::Character('1')),
        range: Range::new(5, Some(5)),
    };

    assert_eq!(ast, expected);

    let ast = parse_regex("1{5,}").unwrap();
    let expected = Node::Range {
        inner: Box::new(Node::Character('1')),
        range: Range::new(5, None),
    };

    assert_eq!(ast, expected);
}

#[test]
fn empty_pattern_is_the_empty_node() {
    assert_eq!(parse_regex("").unwrap(), Node::Empty);
}

#[test]
fn empty_alternative_and_empty_group() {
    let ast = parse_regex("(a|)").unwrap();
    let expected = Node::group(
        Node::alternation(Node::Character('a'), Node::Empty),
        true,
        None,
    );
    assert_eq!(ast, expected);

    assert_eq!(
        parse_regex("()").unwrap(),
        Node::group(Node::Empty, true, None)
    );
}

#[test]
fn wildcard_plus_and_star() {
    let ast = parse_regex("n.*").unwrap();
    let expected = Node::concatenation(Node::Character('n'), Node::star(Node::Wildcard));
    assert_eq!(ast, expected);

    let ast = parse_regex("eh+").unwrap();
    let expected = Node::concatenation(Node::Character('e'), Node::plus(Node::Character('h')));
    assert_eq!(ast, expected);
}

#[test]
fn escaped_metacharacters_are_literal() {
    for c in ['\\', '[', ']', '(', ')', '{', '}', '.', '?', '+', '*', '-'] {
        let pattern = format!("\\{}", c);
        assert_eq!(parse_regex(&pattern).unwrap(), Node::Character(c));
    }
}

#[test]
fn class_aliases() {
    let digits = vec![ClassMember::Range('0', '9')];
    let word = vec![
        ClassMember::Range('0', '9'),
        ClassMember::Range('a', 'z'),
        ClassMember::Range('A', 'Z'),
    ];
    let space = vec![
        ClassMember::Atom(' '),
        ClassMember::Atom('\t'),
        ClassMember::Atom('\n'),
        ClassMember::Atom('\r'),
        ClassMember::Atom('\x0C'),
        ClassMember::Atom('\x0B'),
    ];
    assert_eq!(parse_regex(r"\d").unwrap(), Node::class(false, digits.clone()));
    assert_eq!(parse_regex(r"\D").unwrap(), Node::class(true, digits));
    assert_eq!(parse_regex(r"\w").unwrap(), Node::class(false, word.clone()));
    assert_eq!(parse_regex(r"\W").unwrap(), Node::class(true, word));
    assert_eq!(parse_regex(r"\s").unwrap(), Node::class(false, space.clone()));
    assert_eq!(parse_regex(r"\S").unwrap(), Node::class(true, space));
}

#[test]
fn codepoints_are_read_one_by_one() {
    let ast = parse_regex("ここ").unwrap();
    let expected = Node::concatenation(Node::Character('こ'), Node::Character('こ'));
    assert_eq!(ast, expected);
}

#[test]
fn class_with_escaped_bracket_and_range_to_escape() {
    let ast = parse_regex(r"[\]a]").unwrap();
    let expected = Node::class(false, vec![ClassMember::Atom(']'), ClassMember::Atom('a')]);
    assert_eq!(ast, expected);

    let ast = parse_regex(r"[+-\.]").unwrap();
    let expected = Node::class(false, vec![ClassMember::Range('+', '.')]);
    assert_eq!(ast, expected);
}

#[test]
fn error_unexpected_end_of_input() {
    assert_eq!(parse_regex("\\"), Err(ParsingError::UnexpectedEndOfInput));
    assert_eq!(parse_regex("[abc"), Err(ParsingError::UnexpectedEndOfInput));
    assert_eq!(parse_regex("[a-"), Err(ParsingError::UnexpectedEndOfInput));
    assert_eq!(parse_regex("[a\\"), Err(ParsingError::UnexpectedEndOfInput));
}

#[test]
fn error_missing_character() {
    assert_eq!(parse_regex("(ab"), Err(ParsingError::MissingCharacter(')')));
    assert_eq!(parse_regex("(a|b"), Err(ParsingError::MissingCharacter(')')));
}

#[test]
fn error_invalid_escape_sequence() {
    assert_eq!(parse_regex("\\q"), Err(ParsingError::InvalidEscapeSequence));
    assert_eq!(parse_regex("[\\d]"), Err(ParsingError::InvalidEscapeSequence));
}

#[test]
fn error_invalid_range_quantifier() {
    assert_eq!(parse_regex("a{"), Err(ParsingError::InvalidRangeQuantifier));
    assert_eq!(parse_regex("a{x}"), Err(ParsingError::InvalidRangeQuantifier));
    assert_eq!(parse_regex("a{2"), Err(ParsingError::InvalidRangeQuantifier));
    assert_eq!(parse_regex("a{2,"), Err(ParsingError::InvalidRangeQuantifier));
    assert_eq!(parse_regex("a{2,x}"), Err(ParsingError::InvalidRangeQuantifier));
    assert_eq!(parse_regex("a{,3}"), Err(ParsingError::InvalidRangeQuantifier));
    assert_eq!(parse_regex("a{3,2}"), Err(ParsingError::InvalidRangeQuantifier));
    assert_eq!(
        parse_regex("a{99999999999999999999999999}"),
        Err(ParsingError::InvalidRangeQuantifier)
    );
}

#[test]
fn error_invalid_capture_name() {
    assert_eq!(parse_regex("(?<>a)"), Err(ParsingError::InvalidCaptureName));
    assert_eq!(parse_regex("(?<ab"), Err(ParsingError::InvalidCaptureName));
    assert_eq!(parse_regex("(?<a1>b)"), Err(ParsingError::InvalidCaptureName));
}

#[test]
fn error_range_out_of_order() {
    assert_eq!(parse_regex("[z-a]"), Err(ParsingError::RangeOutOfOrder));
}

#[test]
fn leading_zeros_and_equal_bounds() {
    let ast = parse_regex("a{007,7}").unwrap();
    assert_eq!(ast, Node::range(Node::Character('a'), Range::new(7, Some(7))));
}

#[test]
fn parsing_is_deterministic() {
    let pattern = r"(?<x>a|b)*c{2,3}[^d-f]\w";
    assert_eq!(parse_regex(pattern), parse_regex(pattern));
}
