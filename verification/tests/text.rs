use regex_engine::ast::{CharacterClass, ClassMember};
use regex_engine::error::{Error, ParsingError};
use regex_engine::nfa::TransitionKind;
use regex_engine::text::{char_width, get_char_index, Text};

#[test]
fn widths_of_characters() {
    assert_eq!(char_width('a'), 1);
    assert_eq!(char_width('\u{7f}'), 1);
    assert_eq!(char_width('\u{80}'), 2);
    assert_eq!(char_width('é'), 2);
    assert_eq!(char_width('\u{7ff}'), 2);
    assert_eq!(char_width('\u{800}'), 3);
    assert_eq!(char_width('こ'), 3);
    assert_eq!(char_width('\u{ffff}'), 3);
    assert_eq!(char_width('\u{10000}'), 4);
    assert_eq!(char_width('🦀'), 4);
    for c in ['a', 'é', 'こ', '🦀'] {
        assert_eq!(char_width(c), c.len_utf8());
    }
}

#[test]
fn text_knows_characters_and_offsets() {
    let text = Text::new("aé🦀こ");
    assert_eq!(text.len(), 4);
    assert_eq!(text.char_at(0), 'a');
    assert_eq!(text.char_at(2), '🦀');
    assert_eq!(text.offset_of(0), 0);
    assert_eq!(text.offset_of(1), 1);
    assert_eq!(text.offset_of(2), 3);
    assert_eq!(text.offset_of(3), 7);
    assert_eq!(text.offset_of(4), 10);
    assert_eq!(text.slice(1, 3), "é🦀");
    assert_eq!(text.slice(2, 2), "");
    assert_eq!(Text::new("").len(), 0);
    assert_eq!(Text::new("").offset_of(0), 0);
}

#[test]
fn char_index_maps_byte_offsets_to_characters() {
    let index = get_char_index("ここで");
    assert_eq!(index.len(), 4);
    assert_eq!(index[&0], 0);
    assert_eq!(index[&3], 1);
    assert_eq!(index[&6], 2);
    assert_eq!(index[&9], 3);
    assert!(!index.contains_key(&1));
    let index = get_char_index("");
    assert_eq!(index.len(), 1);
    assert_eq!(index[&0], 0);
}

#[test]
fn members_and_classes_are_written_as_in_a_pattern() {
    assert_eq!(ClassMember::Atom('x').to_string(), "x");
    assert_eq!(ClassMember::Range('a', 'z').to_string(), "a-z");
    let class = CharacterClass {
        negate: true,
        members: vec![ClassMember::Range('a', 'z'), ClassMember::Atom('.')],
    };
    assert_eq!(class.to_string(), "[^a-z.]");
    let class = CharacterClass { negate: false, members: vec![] };
    assert_eq!(class.to_string(), "[]");
}

#[test]
fn transition_kinds_in_words() {
    assert_eq!(TransitionKind::Epsilon.to_string(), "ε");
    assert_eq!(TransitionKind::Wildcard.to_string(), "wildcard");
    assert_eq!(TransitionKind::Character('a').to_string(), "a");
    assert_eq!(TransitionKind::Character(' ').to_string(), "whitespace");
    assert_eq!(TransitionKind::Character('\u{3000}').to_string(), "whitespace");
    let class = CharacterClass { negate: false, members: vec![ClassMember::Atom('q')] };
    assert_eq!(TransitionKind::CharacterClass(class).to_string(), "[q]");
}

#[test]
fn errors_in_words() {
    assert_eq!(ParsingError::UnexpectedEndOfInput.to_string(), "Unexpected end of input");
    assert_eq!(ParsingError::MissingCharacter(')').to_string(), "Missing )");
    assert_eq!(ParsingError::InvalidEscapeSequence.to_string(), "Invalid escape sequence");
    assert_eq!(ParsingError::InvalidRangeQuantifier.to_string(), "Invalid range quantifier");
    assert_eq!(ParsingError::InvalidCharacterClass.to_string(), "Invalid character class");
    assert_eq!(ParsingError::InvalidCaptureName.to_string(), "Invalid capture name");
    assert_eq!(ParsingError::RangeOutOfOrder.to_string(), "Range out of order");
    assert_eq!(
        Error::ParsingError(ParsingError::MissingCharacter(']')).to_string(),
        "Missing ]"
    );
}
