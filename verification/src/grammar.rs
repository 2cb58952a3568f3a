//! The surface syntax of patterns, as functions from the characters of a
//! pattern and a position in it to what is read there.
//!
//! ```text
//! regex       := alternation
//! alternation := concat ('|' alternation)?
//! concat      := quantifier concat?
//! quantifier  := atom ('*' | '+' | '?' | '{' n '}' | '{' n ',' '}' | '{' n ',' m '}')?
//! atom        := '(' group | '[' class | '\' escape | '.' | ch
//! group       := ':?' alternation ')' | '?<' name '>' alternation ')' | alternation ')'
//! class       := '^'? member* ']'
//! member      := ch ('-' ch)?
//! ```

use crate::ast::{Ast, ClassMember, ClassModel};
use crate::error::ParsingError;
use vstd::prelude::*;

verus! {

/// What reading a piece of a pattern gives: the piece and the position
/// after it, or the reason why it cannot be read.
pub type Parsed<T> = Result<(T, int), ParsingError>;

/// True for the characters that a backslash turns into themselves.
pub open spec fn is_metachar(c: char) -> bool {
    c == '\\' || c == '[' || c == ']' || c == '(' || c == ')' || c == '{' || c == '}' || c == '.'
        || c == '?' || c == '+' || c == '*' || c == '-'
}

/// True for the ASCII digits.
pub open spec fn is_digit(c: char) -> bool {
    '0' <= c && c <= '9'
}

/// True for the ASCII letters.
pub open spec fn is_letter(c: char) -> bool {
    ('a' <= c && c <= 'z') || ('A' <= c && c <= 'Z')
}

/// The ASCII digits, as a predicate.
pub open spec fn digits() -> spec_fn(char) -> bool {
    |c: char| is_digit(c)
}

/// The ASCII letters, as a predicate.
pub open spec fn letters() -> spec_fn(char) -> bool {
    |c: char| is_letter(c)
}

/// The members of `\d`.
pub open spec fn digit_members() -> Seq<ClassMember> {
    seq![ClassMember::Range('0', '9')]
}

/// The members of `\w`.
pub open spec fn word_members() -> Seq<ClassMember> {
    seq![ClassMember::Range('0', '9'), ClassMember::Range('a', 'z'), ClassMember::Range('A', 'Z')]
}

/// The members of `\s`.
pub open spec fn whitespace_members() -> Seq<ClassMember> {
    seq![
        ClassMember::Atom(' '),
        ClassMember::Atom('\t'),
        ClassMember::Atom('\n'),
        ClassMember::Atom('\r'),
        ClassMember::Atom('\x0C'),
        ClassMember::Atom('\x0B'),
    ]
}

/// The class that the letter `c` names after a backslash, if it names one.
pub open spec fn alias(c: char) -> Option<Ast> {
    if c == 'd' {
        Some(Ast::Class(ClassModel { negate: false, members: digit_members() }))
    } else if c == 'D' {
        Some(Ast::Class(ClassModel { negate: true, members: digit_members() }))
    } else if c == 'w' {
        Some(Ast::Class(ClassModel { negate: false, members: word_members() }))
    } else if c == 'W' {
        Some(Ast::Class(ClassModel { negate: true, members: word_members() }))
    } else if c == 's' {
        Some(Ast::Class(ClassModel { negate: false, members: whitespace_members() }))
    } else if c == 'S' {
        Some(Ast::Class(ClassModel { negate: true, members: whitespace_members() }))
    } else {
        None
    }
}

/// The first position from `pos` on whose character does not satisfy
/// `accepted`, or the length of `s` when there is none.
pub open spec fn run_end(s: Seq<char>, pos: int, accepted: spec_fn(char) -> bool) -> int
    decreases s.len() - pos,
{
    if 0 <= pos < s.len() && accepted(s[pos]) {
        run_end(s, pos + 1, accepted)
    } else {
        pos
    }
}

/// The number that a sequence of digits writes in base ten.
pub open spec fn decimal(digits: Seq<char>) -> nat
    decreases digits.len(),
{
    if digits.len() == 0 {
        0
    } else {
        (decimal(digits.drop_last()) * 10 + (digits.last() as u32 - '0' as u32)) as nat
    }
}

/// The number written at `pos` and the position after its digits. There is
/// no number where no digit stands or where the number exceeds `usize::MAX`.
pub open spec fn number(s: Seq<char>, pos: int) -> (Option<usize>, int) {
    let end = run_end(s, pos, digits());
    let value = decimal(s.subrange(pos, end));
    if pos < end && value <= usize::MAX {
        (Some(value as usize), end)
    } else {
        (None, end)
    }
}

/// One character of a class, at `pos`: the character, whether it was
/// escaped, and the position after it.
pub open spec fn class_char(s: Seq<char>, pos: int) -> Result<(char, bool, int), ParsingError> {
    if !(0 <= pos < s.len()) {
        Err(ParsingError::UnexpectedEndOfInput)
    } else if s[pos] == '\\' {
        if pos + 1 >= s.len() {
            Err(ParsingError::UnexpectedEndOfInput)
        } else if is_metachar(s[pos + 1]) {
            Ok((s[pos + 1], true, pos + 2))
        } else {
            Err(ParsingError::InvalidEscapeSequence)
        }
    } else {
        Ok((s[pos], false, pos + 1))
    }
}

/// The members of a class from `pos` up to the closing bracket, after the
/// members `acc` that were read before.
pub open spec fn class_members(s: Seq<char>, pos: int, acc: Seq<ClassMember>) -> Parsed<
    Seq<ClassMember>,
>
    decreases s.len() - pos,
{
    match class_char(s, pos) {
        Err(e) => Err(e),
        Ok((ch, escaped, rest)) => if ch == ']' && !escaped {
            Ok((acc, rest))
        } else if rest < s.len() && s[rest] == '-' {
            match class_char(s, rest + 1) {
                Err(e) => Err(e),
                Ok((upper, _, after)) => if ch > upper {
                    Err(ParsingError::RangeOutOfOrder)
                } else {
                    class_members(s, after, acc.push(ClassMember::Range(ch, upper)))
                },
            }
        } else {
            class_members(s, rest, acc.push(ClassMember::Atom(ch)))
        },
    }
}

/// A class, from the position after its opening bracket.
pub open spec fn class(s: Seq<char>, pos: int) -> Parsed<Ast> {
    let negate = 0 <= pos < s.len() && s[pos] == '^';
    let start = if negate {
        pos + 1
    } else {
        pos
    };
    match class_members(s, start, Seq::empty()) {
        Err(e) => Err(e),
        Ok((members, rest)) => Ok((Ast::Class(ClassModel { negate, members }), rest)),
    }
}

/// An escape, from the position after its backslash.
pub open spec fn escape(s: Seq<char>, pos: int) -> Parsed<Ast> {
    if !(0 <= pos < s.len()) {
        Err(ParsingError::UnexpectedEndOfInput)
    } else if is_metachar(s[pos]) {
        Ok((Ast::Character(s[pos]), pos + 1))
    } else {
        match alias(s[pos]) {
            Some(class) => Ok((class, pos + 1)),
            None => Err(ParsingError::InvalidEscapeSequence),
        }
    }
}

/// The upper bound of a counted repetition, from the position after its
/// comma: nothing before the closing brace, or a number.
pub open spec fn counted_upper(s: Seq<char>, pos: int) -> Parsed<Option<usize>> {
    if !(0 <= pos < s.len()) {
        Err(ParsingError::InvalidRangeQuantifier)
    } else if s[pos] == '}' {
        Ok((None, pos + 1))
    } else {
        let (upper, rest) = number(s, pos);
        if upper is Some && rest < s.len() && s[rest] == '}' {
            Ok((upper, rest + 1))
        } else {
            Err(ParsingError::InvalidRangeQuantifier)
        }
    }
}

/// The bounds of a counted repetition, from the position after its opening
/// brace: `n}`, `n,}` or `n,m}` with `n <= m`.
pub open spec fn counted(s: Seq<char>, pos: int) -> Parsed<(usize, Option<usize>)> {
    let (lower, rest) = number(s, pos);
    if lower is Some && rest < s.len() && s[rest] == ',' {
        match counted_upper(s, rest + 1) {
            Err(e) => Err(e),
            Ok((upper, after)) => if upper is Some && upper->0 < lower->0 {
                Err(ParsingError::InvalidRangeQuantifier)
            } else {
                Ok(((lower->0, upper), after))
            },
        }
    } else if lower is Some && rest < s.len() && s[rest] == '}' {
        Ok(((lower->0, lower), rest + 1))
    } else {
        Err(ParsingError::InvalidRangeQuantifier)
    }
}

/// An alternation at `pos`: a concatenation and, after a bar, another alternation.
pub open spec fn alternation(s: Seq<char>, pos: int) -> Parsed<Ast>
    decreases s.len() - pos, 4int,
    when 0 <= pos <= s.len()
{
    match concat(s, pos) {
        Err(e) => Err(e),
        Ok((lhs, rest)) => if pos <= rest < s.len() && s[rest] == '|' {
            match alternation(s, rest + 1) {
                Err(e) => Err(e),
                Ok((rhs, after)) => Ok((Ast::Alternation(Box::new(lhs), Box::new(rhs)), after)),
            }
        } else {
            Ok((lhs, rest))
        },
    }
}

/// A concatenation at `pos`: a quantified atom and whatever follows it up
/// to a bar, a closing parenthesis or the end.
pub open spec fn concat(s: Seq<char>, pos: int) -> Parsed<Ast>
    decreases s.len() - pos, 3int,
    when 0 <= pos <= s.len()
{
    match quantifier(s, pos) {
        Err(e) => Err(e),
        Ok((lhs, rest)) => if pos < rest < s.len() && s[rest] != '|' && s[rest] != ')' {
            match concat(s, rest) {
                Err(e) => Err(e),
                Ok((rhs, after)) => Ok((Ast::Concatenation(Box::new(lhs), Box::new(rhs)), after)),
            }
        } else {
            Ok((lhs, rest))
        },
    }
}

/// An atom at `pos` with the quantifier that follows it, if one does.
pub open spec fn quantifier(s: Seq<char>, pos: int) -> Parsed<Ast>
    decreases s.len() - pos, 2int,
    when 0 <= pos <= s.len()
{
    match atom(s, pos) {
        Err(e) => Err(e),
        Ok((inner, rest)) => if !(0 <= rest < s.len()) {
            Ok((inner, rest))
        } else if s[rest] == '+' {
            Ok((Ast::Plus(Box::new(inner)), rest + 1))
        } else if s[rest] == '*' {
            Ok((Ast::Star(Box::new(inner)), rest + 1))
        } else if s[rest] == '?' {
            Ok((Ast::Optional(Box::new(inner)), rest + 1))
        } else if s[rest] == '{' {
            match counted(s, rest + 1) {
                Err(e) => Err(e),
                Ok(((min, max), after)) => Ok(
                    (
                        Ast::Repeat {
                            inner: Box::new(inner),
                            min: min as nat,
                            max: match max {
                                Some(m) => Some(m as nat),
                                None => None,
                            },
                        },
                        after,
                    ),
                ),
            }
        } else {
            Ok((inner, rest))
        },
    }
}

/// An atom at `pos`. At the end of the pattern and before a closing
/// parenthesis stands the empty atom, which takes no character.
pub open spec fn atom(s: Seq<char>, pos: int) -> Parsed<Ast>
    decreases s.len() - pos, 1int,
    when 0 <= pos <= s.len()
{
    if pos >= s.len() {
        Ok((Ast::Empty, pos))
    } else if s[pos] == '(' {
        group(s, pos + 1)
    } else if s[pos] == '[' {
        class(s, pos + 1)
    } else if s[pos] == '\\' {
        escape(s, pos + 1)
    } else if s[pos] == '.' {
        Ok((Ast::Wildcard, pos + 1))
    } else if s[pos] == ')' {
        Ok((Ast::Empty, pos))
    } else {
        Ok((Ast::Character(s[pos]), pos + 1))
    }
}

/// A group, from the position after its opening parenthesis: `:?` makes it
/// non-capturing, `?<name>` names it, and its content ends at the closing
/// parenthesis.
pub open spec fn group(s: Seq<char>, pos: int) -> Parsed<Ast>
    decreases s.len() - pos + 1, 0int,
    when 0 <= pos <= s.len()
{
    if pos + 2 <= s.len() && s[pos] == ':' && s[pos + 1] == '?' {
        group_body(s, pos + 2, false, None)
    } else if pos + 2 <= s.len() && s[pos] == '?' && s[pos + 1] == '<' {
        let end = run_end(s, pos + 2, letters());
        if pos + 2 < end < s.len() && s[end] == '>' {
            group_body(s, end + 1, true, Some(s.subrange(pos + 2, end)))
        } else {
            Err(ParsingError::InvalidCaptureName)
        }
    } else {
        group_body(s, pos, true, None)
    }
}

/// The content of a group from `pos` on, and its closing parenthesis.
pub open spec fn group_body(s: Seq<char>, pos: int, is_capturing: bool, name: Option<Seq<char>>)
    -> Parsed<Ast>
    decreases s.len() - pos, 5int,
    when 0 <= pos <= s.len()
{
    match alternation(s, pos) {
        Err(e) => Err(e),
        Ok((inner, rest)) => if 0 <= rest < s.len() && s[rest] == ')' {
            Ok((Ast::Group { inner: Box::new(inner), is_capturing, name }, rest + 1))
        } else {
            Err(ParsingError::MissingCharacter(')'))
        },
    }
}

/// The syntax tree of a pattern: the alternation that starts it. What
/// follows that alternation, an unmatched closing parenthesis and the rest,
/// is not read.
pub open spec fn regex(s: Seq<char>) -> Result<Ast, ParsingError> {
    match alternation(s, 0) {
        Err(e) => Err(e),
        Ok((ast, _)) => Ok(ast),
    }
}

} // verus!
