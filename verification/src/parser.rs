use crate::ast::{Ast, ClassMember, Node, Range};
use crate::error::ParsingError;
use crate::grammar;
use crate::text::Text;
use vstd::prelude::*;

verus! {

/// What a parsing function returns, in terms of the models of its parts.
pub open spec fn node_result(r: Result<(Node, usize), ParsingError>) -> grammar::Parsed<Ast> {
    match r {
        Ok((node, rest)) => Ok((node@, rest as int)),
        Err(e) => Err(e),
    }
}

/// Parses a pattern into its syntax tree.
pub fn parse_regex(input: &str) -> (r: Result<Node, ParsingError>)
    ensures
        match r {
            Ok(node) => grammar::regex(input@) == Ok::<Ast, ParsingError>(node@),
            Err(e) => grammar::regex(input@) == Err::<Ast, ParsingError>(e),
        },
{
    let text = Text::new(input);
    match parse_alternation(&text, 0) {
        Ok((node, _)) => Ok(node),
        Err(e) => Err(e),
    }
}

/// Parses an alternation at `pos`.
pub fn parse_alternation(text: &Text, pos: usize) -> (r: Result<(Node, usize), ParsingError>)
    requires
        pos <= text@.len(),
    ensures
        node_result(r) == grammar::alternation(text@, pos as int),
        r matches Ok((_, rest)) ==> pos <= rest <= text@.len(),
    decreases text@.len() - pos, 4int,
{
    let (lhs, rest) = match parse_concat(text, pos) {
        Ok(parsed) => parsed,
        Err(e) => {
            return Err(e);
        },
    };
    if rest < text.len() && text.char_at(rest) == '|' {
        match parse_alternation(text, rest + 1) {
            Ok((rhs, after)) => Ok((Node::alternation(lhs, rhs), after)),
            Err(e) => Err(e),
        }
    } else {
        Ok((lhs, rest))
    }
}

/// Parses a concatenation at `pos`.
pub fn parse_concat(text: &Text, pos: usize) -> (r: Result<(Node, usize), ParsingError>)
    requires
        pos <= text@.len(),
    ensures
        node_result(r) == grammar::concat(text@, pos as int),
        r matches Ok((_, rest)) ==> pos <= rest <= text@.len(),
    decreases text@.len() - pos, 3int,
{
    let (lhs, rest) = match parse_quantifier(text, pos) {
        Ok(parsed) => parsed,
        Err(e) => {
            return Err(e);
        },
    };
    if rest < text.len() && text.char_at(rest) != '|' && text.char_at(rest) != ')' {
        match parse_concat(text, rest) {
            Ok((rhs, after)) => Ok((Node::concatenation(lhs, rhs), after)),
            Err(e) => Err(e),
        }
    } else {
        Ok((lhs, rest))
    }
}

/// Parses an atom at `pos` and the quantifier that follows it, if one does.
pub fn parse_quantifier(text: &Text, pos: usize) -> (r: Result<(Node, usize), ParsingError>)
    requires
        pos <= text@.len(),
    ensures
        node_result(r) == grammar::quantifier(text@, pos as int),
        r matches Ok((_, rest)) ==> pos <= rest <= text@.len() && (rest == pos ==> pos
            == text@.len() || text@[pos as int] == ')'),
    decreases text@.len() - pos, 2int,
{
    let (inner, rest) = match parser_atom(text, pos) {
        Ok(parsed) => parsed,
        Err(e) => {
            return Err(e);
        },
    };
    if rest >= text.len() {
        return Ok((inner, rest));
    }
    let c = text.char_at(rest);
    if c == '+' {
        Ok((Node::plus(inner), rest + 1))
    } else if c == '*' {
        Ok((Node::star(inner), rest + 1))
    } else if c == '?' {
        Ok((Node::optional(inner), rest + 1))
    } else if c == '{' {
        match parse_range(text, rest + 1) {
            Ok((range, after)) => Ok((Node::range(inner, range), after)),
            Err(e) => Err(e),
        }
    } else {
        Ok((inner, rest))
    }
}

/// Parses the bounds of a counted repetition, from the position after its
/// opening brace.
pub fn parse_range(text: &Text, pos: usize) -> (r: Result<(Range, usize), ParsingError>)
    requires
        pos <= text@.len(),
    ensures
        match r {
            Ok((range, rest)) => grammar::counted(text@, pos as int) == Ok::<
                ((usize, Option<usize>), int),
                ParsingError,
            >(((range.min, range.max), rest as int)) && pos < rest <= text@.len(),
            Err(e) => grammar::counted(text@, pos as int) == Err::<
                ((usize, Option<usize>), int),
                ParsingError,
            >(e),
        },
{
    let (lower, rest) = take_number(text, pos);
    let lower = match lower {
        Some(lower) => lower,
        None => {
            return Err(ParsingError::InvalidRangeQuantifier);
        },
    };
    if rest >= text.len() {
        return Err(ParsingError::InvalidRangeQuantifier);
    }
    let c = text.char_at(rest);
    if c == ',' {
        match parse_range_upper(text, rest + 1) {
            Ok((upper, after)) => {
                match upper {
                    Some(upper) => {
                        if upper < lower {
                            return Err(ParsingError::InvalidRangeQuantifier);
                        }
                    },
                    None => {},
                }
                Ok((Range::new(lower, upper), after))
            },
            Err(e) => Err(e),
        }
    } else if c == '}' {
        Ok((Range::new(lower, Some(lower)), rest + 1))
    } else {
        Err(ParsingError::InvalidRangeQuantifier)
    }
}

/// Parses the upper bound of a counted repetition, from the position after
/// its comma.
pub fn parse_range_upper(text: &Text, pos: usize) -> (r: Result<(Option<usize>, usize), ParsingError>)
    requires
        pos <= text@.len(),
    ensures
        match r {
            Ok((upper, rest)) => grammar::counted_upper(text@, pos as int) == Ok::<
                (Option<usize>, int),
                ParsingError,
            >((upper, rest as int)) && pos < rest <= text@.len(),
            Err(e) => grammar::counted_upper(text@, pos as int) == Err::<
                (Option<usize>, int),
                ParsingError,
            >(e),
        },
{
    if pos >= text.len() {
        return Err(ParsingError::InvalidRangeQuantifier);
    }
    if text.char_at(pos) == '}' {
        return Ok((None, pos + 1));
    }
    let (number, rest) = take_number(text, pos);
    match number {
        Some(number) => {
            if rest < text.len() && text.char_at(rest) == '}' {
                Ok((Some(number), rest + 1))
            } else {
                Err(ParsingError::InvalidRangeQuantifier)
            }
        },
        None => Err(ParsingError::InvalidRangeQuantifier),
    }
}

/// Parses an atom at `pos`.
pub fn parser_atom(text: &Text, pos: usize) -> (r: Result<(Node, usize), ParsingError>)
    requires
        pos <= text@.len(),
    ensures
        node_result(r) == grammar::atom(text@, pos as int),
        r matches Ok((_, rest)) ==> pos <= rest <= text@.len() && (rest == pos ==> pos
            == text@.len() || text@[pos as int] == ')'),
    decreases text@.len() - pos, 1int,
{
    if pos >= text.len() {
        return Ok((Node::Empty, pos));
    }
    let c = text.char_at(pos);
    if c == '(' {
        parse_group(text, pos + 1)
    } else if c == '[' {
        parse_class(text, pos + 1)
    } else if c == '\\' {
        parse_metachar(text, pos + 1)
    } else if c == '.' {
        Ok((Node::Wildcard, pos + 1))
    } else if c == ')' {
        Ok((Node::Empty, pos))
    } else {
        Ok((Node::Character(c), pos + 1))
    }
}

/// Parses an escape, from the position after its backslash.
pub fn parse_metachar(text: &Text, pos: usize) -> (r: Result<(Node, usize), ParsingError>)
    requires
        pos <= text@.len(),
    ensures
        node_result(r) == grammar::escape(text@, pos as int),
        r matches Ok((_, rest)) ==> pos < rest <= text@.len(),
{
    if pos >= text.len() {
        return Err(ParsingError::UnexpectedEndOfInput);
    }
    let ch = text.char_at(pos);
    if needs_escape(ch) {
        Ok((Node::Character(ch), pos + 1))
    } else {
        match get_range_alias(ch) {
            Some(class) => Ok((class, pos + 1)),
            None => Err(ParsingError::InvalidEscapeSequence),
        }
    }
}

/// Parses a class, from the position after its opening bracket.
pub fn parse_class(text: &Text, pos: usize) -> (r: Result<(Node, usize), ParsingError>)
    requires
        pos <= text@.len(),
    ensures
        node_result(r) == grammar::class(text@, pos as int),
        r matches Ok((_, rest)) ==> pos < rest <= text@.len(),
{
    let negate = pos < text.len() && text.char_at(pos) == '^';
    let start = if negate {
        pos + 1
    } else {
        pos
    };
    match parse_class_members(text, start) {
        Ok((members, rest)) => Ok((Node::class(negate, members), rest)),
        Err(e) => Err(e),
    }
}

/// Parses the members of a class up to its closing bracket.
pub fn parse_class_members(text: &Text, pos: usize) -> (r: Result<
    (Vec<ClassMember>, usize),
    ParsingError,
>)
    requires
        pos <= text@.len(),
    ensures
        match r {
            Ok((members, rest)) => grammar::class_members(text@, pos as int, Seq::empty()) == Ok::<
                (Seq<ClassMember>, int),
                ParsingError,
            >((members@, rest as int)) && pos < rest <= text@.len(),
            Err(e) => grammar::class_members(text@, pos as int, Seq::empty()) == Err::<
                (Seq<ClassMember>, int),
                ParsingError,
            >(e),
        },
{
    parse_class_members_inner(text, pos, Vec::new())
}

/// Parses the members of a class up to its closing bracket, after the
/// members `acc`.
pub fn parse_class_members_inner(text: &Text, pos: usize, acc: Vec<ClassMember>) -> (r: Result<
    (Vec<ClassMember>, usize),
    ParsingError,
>)
    requires
        pos <= text@.len(),
    ensures
        match r {
            Ok((members, rest)) => grammar::class_members(text@, pos as int, acc@) == Ok::<
                (Seq<ClassMember>, int),
                ParsingError,
            >((members@, rest as int)) && pos < rest <= text@.len(),
            Err(e) => grammar::class_members(text@, pos as int, acc@) == Err::<
                (Seq<ClassMember>, int),
                ParsingError,
            >(e),
        },
    decreases text@.len() - pos,
{
    let (ch, is_escaped, rest) = match parse_char(text, pos) {
        Ok(parsed) => parsed,
        Err(e) => {
            return Err(e);
        },
    };
    if ch == ']' && !is_escaped {
        return Ok((acc, rest));
    }
    let mut acc = acc;
    if rest < text.len() && text.char_at(rest) == '-' {
        let (upper, _, after) = match parse_char(text, rest + 1) {
            Ok(parsed) => parsed,
            Err(e) => {
                return Err(e);
            },
        };
        if ch > upper {
            return Err(ParsingError::RangeOutOfOrder);
        }
        acc.push(ClassMember::Range(ch, upper));
        parse_class_members_inner(text, after, acc)
    } else {
        acc.push(ClassMember::Atom(ch));
        parse_class_members_inner(text, rest, acc)
    }
}

/// Reads one character of a class at `pos`: the character, whether it was
/// escaped, and the position after it.
pub fn parse_char(text: &Text, pos: usize) -> (r: Result<(char, bool, usize), ParsingError>)
    requires
        pos <= text@.len(),
    ensures
        match r {
            Ok((ch, escaped, rest)) => grammar::class_char(text@, pos as int) == Ok::<
                (char, bool, int),
                ParsingError,
            >((ch, escaped, rest as int)) && pos < rest <= text@.len(),
            Err(e) => grammar::class_char(text@, pos as int) == Err::<
                (char, bool, int),
                ParsingError,
            >(e),
        },
{
    match take_char(text, pos) {
        (Some(ch), rest) => {
            if ch == '\\' {
                match take_char(text, rest) {
                    (Some(next), after) => {
                        if needs_escape(next) {
                            Ok((next, true, after))
                        } else {
                            Err(ParsingError::InvalidEscapeSequence)
                        }
                    },
                    (None, _) => Err(ParsingError::UnexpectedEndOfInput),
                }
            } else {
                Ok((ch, false, rest))
            }
        },
        (None, _) => Err(ParsingError::UnexpectedEndOfInput),
    }
}

/// Parses a group, from the position after its opening parenthesis.
pub fn parse_group(text: &Text, pos: usize) -> (r: Result<(Node, usize), ParsingError>)
    requires
        pos <= text@.len(),
    ensures
        node_result(r) == grammar::group(text@, pos as int),
        r matches Ok((_, rest)) ==> pos < rest <= text@.len(),
    decreases text@.len() - pos + 1, 0int,
{
    let n = text.len();
    if n - pos >= 2 && text.char_at(pos) == ':' && text.char_at(pos + 1) == '?' {
        parse_group_body(text, pos + 2, false, None)
    } else if n - pos >= 2 && text.char_at(pos) == '?' && text.char_at(pos + 1) == '<' {
        let end = take_alphabetic(text, pos + 2);
        if pos + 2 < end && end < n && text.char_at(end) == '>' {
            let name = text.slice(pos + 2, end);
            parse_group_body(text, end + 1, true, Some(name))
        } else {
            Err(ParsingError::InvalidCaptureName)
        }
    } else {
        parse_group_body(text, pos, true, None)
    }
}

/// Parses the content of a group from `pos` on, and its closing parenthesis.
pub fn parse_group_body(text: &Text, pos: usize, is_capturing: bool, name: Option<&str>) -> (r:
    Result<(Node, usize), ParsingError>)
    requires
        pos <= text@.len(),
    ensures
        node_result(r) == grammar::group_body(
            text@,
            pos as int,
            is_capturing,
            match name {
                Some(n) => Some(n@),
                None => None,
            },
        ),
        r matches Ok((_, rest)) ==> pos < rest <= text@.len(),
    decreases text@.len() - pos, 5int,
{
    match parse_alternation(text, pos) {
        Ok((inner, rest)) => {
            if rest < text.len() && text.char_at(rest) == ')' {
                Ok((Node::group(inner, is_capturing, name), rest + 1))
            } else {
                Err(ParsingError::MissingCharacter(')'))
            }
        },
        Err(e) => Err(e),
    }
}

/// The first position from `pos` on whose character `predicate` refuses, or
/// the length of the text when there is none.
pub fn take_while<P: Fn(char) -> bool>(
    text: &Text,
    pos: usize,
    predicate: P,
    Ghost(accepted): Ghost<spec_fn(char) -> bool>,
) -> (end: usize)
    requires
        pos <= text@.len(),
        forall|c: char| #[trigger] predicate.requires((c,)),
        forall|c: char, b: bool| #[trigger] predicate.ensures((c,), b) ==> b == accepted(c),
    ensures
        end == grammar::run_end(text@, pos as int, accepted),
        pos <= end <= text@.len(),
{
    let mut end = pos;
    while end < text.len() && predicate(text.char_at(end))
        invariant
            pos <= end <= text@.len(),
            forall|c: char| #[trigger] predicate.requires((c,)),
            forall|c: char, b: bool| #[trigger] predicate.ensures((c,), b) ==> b == accepted(c),
            grammar::run_end(text@, pos as int, accepted) == grammar::run_end(
                text@,
                end as int,
                accepted,
            ),
        decreases text@.len() - end,
    {
        end += 1;
    }
    end
}

/// The number written at `pos`, if one is and it fits a `usize`, and the
/// position after its digits.
pub fn take_number(text: &Text, pos: usize) -> (r: (Option<usize>, usize))
    requires
        pos <= text@.len(),
    ensures
        grammar::number(text@, pos as int) == (r.0, r.1 as int),
        pos <= r.1 <= text@.len(),
        r.0 is Some ==> pos < r.1,
{
    let is_digit = |c: char| -> (b: bool)
        ensures
            b == grammar::is_digit(c),
        { '0' <= c && c <= '9' };
    let end = take_while(text, pos, is_digit, Ghost(grammar::digits()));
    let mut value: Option<usize> = if pos < end {
        Some(0)
    } else {
        None
    };
    let mut i = pos;
    proof {
        assert(text@.subrange(pos as int, pos as int) == Seq::<char>::empty());
    }
    while i < end
        invariant
            pos <= i <= end <= text@.len(),
            end == grammar::run_end(text@, pos as int, grammar::digits()),
            pos == end ==> value is None,
            pos < end ==> value == if grammar::decimal(text@.subrange(pos as int, i as int))
                <= usize::MAX {
                Some(grammar::decimal(text@.subrange(pos as int, i as int)) as usize)
            } else {
                None::<usize>
            },
        decreases end - i,
    {
        let c = text.char_at(i);
        proof {
            lemma_run_holds(text@, pos as int, grammar::digits(), i as int);
            let next = text@.subrange(pos as int, i as int + 1);
            assert(next.drop_last() == text@.subrange(pos as int, i as int));
            assert(next.last() == c);
        }
        let digit = (c as u32 - '0' as u32) as usize;
        value = match value {
            Some(v) => match v.checked_mul(10) {
                Some(tens) => tens.checked_add(digit),
                None => None,
            },
            None => None,
        };
        i += 1;
    }
    (value, end)
}

/// The position after the ASCII letters that stand at `pos`.
pub fn take_alphabetic(text: &Text, pos: usize) -> (end: usize)
    requires
        pos <= text@.len(),
    ensures
        end == grammar::run_end(text@, pos as int, grammar::letters()),
        pos <= end <= text@.len(),
{
    let is_letter = |c: char| -> (b: bool)
        ensures
            b == grammar::is_letter(c),
        { ('a' <= c && c <= 'z') || ('A' <= c && c <= 'Z') };
    take_while(text, pos, is_letter, Ghost(grammar::letters()))
}

/// The character at `pos`, if there is one, and the position after it.
pub fn take_char(text: &Text, pos: usize) -> (r: (Option<char>, usize))
    requires
        pos <= text@.len(),
    ensures
        r.0 == if pos < text@.len() {
            Some(text@[pos as int])
        } else {
            None::<char>
        },
        r.1 == if pos < text@.len() {
            pos + 1
        } else {
            pos as int
        },
{
    if pos < text.len() {
        (Some(text.char_at(pos)), pos + 1)
    } else {
        (None, pos)
    }
}

/// True for the characters that a backslash turns into themselves.
pub fn needs_escape(ch: char) -> (b: bool)
    ensures
        b == grammar::is_metachar(ch),
{
    ch == '\\' || ch == '[' || ch == ']' || ch == '(' || ch == ')' || ch == '{' || ch == '}' || ch
        == '.' || ch == '?' || ch == '+' || ch == '*' || ch == '-'
}

/// The members of `\d`.
pub fn digit_range() -> (members: Vec<ClassMember>)
    ensures
        members@ == grammar::digit_members(),
{
    let mut members = Vec::new();
    members.push(ClassMember::Range('0', '9'));
    members
}

/// The members of `\w`.
pub fn word_range() -> (members: Vec<ClassMember>)
    ensures
        members@ == grammar::word_members(),
{
    let mut members = Vec::new();
    members.push(ClassMember::Range('0', '9'));
    members.push(ClassMember::Range('a', 'z'));
    members.push(ClassMember::Range('A', 'Z'));
    members
}

/// The members of `\s`.
pub fn whitespace() -> (members: Vec<ClassMember>)
    ensures
        members@ == grammar::whitespace_members(),
{
    let mut members = Vec::new();
    members.push(ClassMember::Atom(' '));
    members.push(ClassMember::Atom('\t'));
    members.push(ClassMember::Atom('\n'));
    members.push(ClassMember::Atom('\r'));
    members.push(ClassMember::Atom('\x0C'));
    members.push(ClassMember::Atom('\x0B'));
    members
}

/// The class that the letter `ch` names after a backslash, if it names one.
pub fn get_range_alias(ch: char) -> (class: Option<Node>)
    ensures
        match class {
            Some(node) => grammar::alias(ch) == Some(node@),
            None => grammar::alias(ch) is None,
        },
{
    if ch == 'd' {
        Some(Node::class(false, digit_range()))
    } else if ch == 'D' {
        Some(Node::class(true, digit_range()))
    } else if ch == 'w' {
        Some(Node::class(false, word_range()))
    } else if ch == 'W' {
        Some(Node::class(true, word_range()))
    } else if ch == 's' {
        Some(Node::class(false, whitespace()))
    } else if ch == 'S' {
        Some(Node::class(true, whitespace()))
    } else {
        None
    }
}

/// Within a run, every character satisfies the predicate, and the run seen
/// from inside it ends where it ends.
proof fn lemma_run_holds(s: Seq<char>, pos: int, accepted: spec_fn(char) -> bool, i: int)
    requires
        0 <= pos <= i < grammar::run_end(s, pos, accepted),
    ensures
        i < s.len(),
        accepted(s[i]),
    decreases i - pos,
{
    if pos < i {
        lemma_run_holds(s, pos + 1, accepted, i);
    }
}

} // verus!
