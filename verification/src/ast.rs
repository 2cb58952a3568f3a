use vstd::prelude::*;
use vstd::string::StringExecFns;

verus! {

/// One entry of a bracketed character class.
#[derive(Debug, Clone, Copy, PartialEq, Eq, Structural)]
pub enum ClassMember {
    /// A single character.
    Atom(char),
    /// Every character from the first to the second, both included.
    Range(char, char),
}

/// A bracketed character class, such as `[a-z_]` or `[^0-9]`.
#[derive(Debug, PartialEq)]
pub struct CharacterClass {
    pub negate: bool,
    pub members: Vec<ClassMember>,
}

/// Bounds of a counted repetition `{min,max}`; `max` is `None` for `{min,}`.
#[derive(Debug, Clone, Copy, PartialEq, Eq, Structural)]
pub struct Range {
    pub min: usize,
    pub max: Option<usize>,
}

/// A parenthesised sub-expression.
#[derive(Debug, PartialEq)]
pub struct Group {
    pub inner: Box<Node>,
    pub name: Option<String>,
    pub is_capturing: bool,
}

/// Syntax tree of a pattern.
#[derive(Debug, PartialEq)]
pub enum Node {
    Empty,
    Alternation(Box<Node>, Box<Node>),
    Concatenation(Box<Node>, Box<Node>),
    Star(Box<Node>),
    Plus(Box<Node>),
    Optional(Box<Node>),
    Range { inner: Box<Node>, range: Range },
    Group(Group),
    Wildcard,
    Character(char),
    CharacterClass(CharacterClass),
}

/// Mathematical model of a character class.
pub struct ClassModel {
    pub negate: bool,
    pub members: Seq<ClassMember>,
}

/// Mathematical model of a syntax tree: what a [`Node`] stands for.
pub enum Ast {
    Empty,
    Alternation(Box<Ast>, Box<Ast>),
    Concatenation(Box<Ast>, Box<Ast>),
    Star(Box<Ast>),
    Plus(Box<Ast>),
    Optional(Box<Ast>),
    Repeat { inner: Box<Ast>, min: nat, max: Option<nat> },
    Group { inner: Box<Ast>, is_capturing: bool, name: Option<Seq<char>> },
    Wildcard,
    Character(char),
    Class(ClassModel),
}

/// True when `c` is the atom `m` or lies within the range `m`.
pub open spec fn member_matches(m: ClassMember, c: char) -> bool {
    match m {
        ClassMember::Atom(a) => a == c,
        ClassMember::Range(lo, hi) => lo <= c && c <= hi,
    }
}

/// True when some member of the list matches `c`.
pub open spec fn members_contain(members: Seq<ClassMember>, c: char) -> bool {
    exists|i: int| 0 <= i < members.len() && member_matches(#[trigger] members[i], c)
}

/// How a member is written: the character, or the two ends of the range
/// with a hyphen between them.
pub open spec fn member_text(m: ClassMember) -> Seq<char> {
    match m {
        ClassMember::Atom(c) => seq![c],
        ClassMember::Range(lo, hi) => seq![lo, '-', hi],
    }
}

/// How the members of a class are written, one after the other.
pub open spec fn members_text(members: Seq<ClassMember>) -> Seq<char>
    decreases members.len(),
{
    if members.len() == 0 {
        Seq::empty()
    } else {
        members_text(members.drop_last()) + member_text(members.last())
    }
}

impl ClassModel {
    /// How the class is written: its members between brackets, after a
    /// caret when the class is negated.
    pub open spec fn text(self) -> Seq<char> {
        seq!['['] + if self.negate {
            seq!['^']
        } else {
            Seq::<char>::empty()
        } + members_text(self.members) + seq![']']
    }

    /// A class matches `c` when `c` is among its members, or, for a negated
    /// class, when it is not.
    pub open spec fn matches(self, c: char) -> bool {
        self.negate != members_contain(self.members, c)
    }
}

/// The characters of an optional name.
pub open spec fn name_model(name: Option<String>) -> Option<Seq<char>> {
    match name {
        Some(s) => Some(s@),
        None => None,
    }
}

/// The upper bound of a repetition as a natural number.
pub open spec fn bound_model(max: Option<usize>) -> Option<nat> {
    match max {
        Some(m) => Some(m as nat),
        None => None,
    }
}

impl ClassMember {
    /// The member as it is written in a pattern.
    pub fn to_string(&self) -> (text: String)
        ensures
            text@ == member_text(*self),
    {
        let mut text = String::new();
        match self {
            ClassMember::Atom(ch) => {
                text.push(*ch);
            },
            ClassMember::Range(lower, upper) => {
                text.push(*lower);
                text.push('-');
                text.push(*upper);
            },
        }
        text
    }

    /// Tests one character against this member.
    pub fn matches(&self, c: char) -> (b: bool)
        ensures
            b == member_matches(*self, c),
    {
        match self {
            ClassMember::Atom(a) => *a == c,
            ClassMember::Range(lo, hi) => *lo <= c && c <= *hi,
        }
    }
}

impl View for CharacterClass {
    type V = ClassModel;

    open spec fn view(&self) -> ClassModel {
        ClassModel { negate: self.negate, members: self.members@ }
    }
}

impl CharacterClass {
    /// The class as it is written in a pattern.
    pub fn to_string(&self) -> (text: String)
        ensures
            text@ == self@.text(),
    {
        let mut text = String::new();
        text.push('[');
        if self.negate {
            text.push('^');
        }
        let ghost head = text@;
        let mut i: usize = 0;
        while i < self.members.len()
            invariant
                i <= self.members.len(),
                text@ == head + members_text(self.members@.take(i as int)),
            decreases self.members.len() - i,
        {
            let member = self.members[i].to_string();
            proof {
                let next = self.members@.take(i as int + 1);
                assert(next.drop_last() == self.members@.take(i as int));
                assert(next.last() == self.members@[i as int]);
            }
            text.append(member.as_str());
            i += 1;
        }
        proof {
            assert(self.members@.take(self.members.len() as int) == self.members@);
        }
        text.push(']');
        text
    }

    /// Tests whether `c` is one of the members, whatever `negate` says.
    pub fn contains(&self, c: char) -> (b: bool)
        ensures
            b == members_contain(self.members@, c),
    {
        let mut i: usize = 0;
        while i < self.members.len()
            invariant
                i <= self.members.len(),
                forall|k: int| 0 <= k < i ==> !member_matches(#[trigger] self.members@[k], c),
            decreases self.members.len() - i,
        {
            if self.members[i].matches(c) {
                return true;
            }
            i += 1;
        }
        false
    }

    /// Tests `c` against the class: membership, inverted when the class is negated.
    pub fn matches(&self, c: char) -> (b: bool)
        ensures
            b == self@.matches(c),
            b == (self.negate != members_contain(self.members@, c)),
    {
        self.negate != self.contains(c)
    }

}

impl Clone for CharacterClass {
    fn clone(&self) -> (copy: CharacterClass)
        ensures
            copy@ == self@,
    {
        let mut members: Vec<ClassMember> = Vec::new();
        let mut i: usize = 0;
        while i < self.members.len()
            invariant
                i <= self.members.len(),
                members@ == self.members@.take(i as int),
            decreases self.members.len() - i,
        {
            members.push(self.members[i]);
            i += 1;
        }
        assert(members@ == self.members@);
        CharacterClass { negate: self.negate, members }
    }
}

impl Range {
    pub fn new(min: usize, max: Option<usize>) -> (range: Range)
        ensures
            range.min == min,
            range.max == max,
    {
        Range { min, max }
    }
}

impl Group {
    pub fn new(inner: Node, is_capturing: bool, name: Option<String>) -> (group: Group)
        ensures
            *group.inner == inner,
            group.is_capturing == is_capturing,
            group.name == name,
    {
        Group { inner: Box::new(inner), name, is_capturing }
    }
}

impl Node {
    /// The tree that this node stands for.
    pub open spec fn model(self) -> Ast
        decreases self,
    {
        match self {
            Node::Empty => Ast::Empty,
            Node::Alternation(a, b) => Ast::Alternation(
                Box::new((*a).model()),
                Box::new((*b).model()),
            ),
            Node::Concatenation(a, b) => Ast::Concatenation(
                Box::new((*a).model()),
                Box::new((*b).model()),
            ),
            Node::Star(a) => Ast::Star(Box::new((*a).model())),
            Node::Plus(a) => Ast::Plus(Box::new((*a).model())),
            Node::Optional(a) => Ast::Optional(Box::new((*a).model())),
            Node::Range { inner, range } => Ast::Repeat {
                inner: Box::new((*inner).model()),
                min: range.min as nat,
                max: bound_model(range.max),
            },
            Node::Group(g) => Ast::Group {
                inner: Box::new((*g.inner).model()),
                is_capturing: g.is_capturing,
                name: name_model(g.name),
            },
            Node::Wildcard => Ast::Wildcard,
            Node::Character(c) => Ast::Character(c),
            Node::CharacterClass(class) => Ast::Class(class@),
        }
    }

    pub fn alternation(lhs: Node, rhs: Node) -> (node: Node)
        ensures
            node == Node::Alternation(Box::new(lhs), Box::new(rhs)),
            node@ == Ast::Alternation(Box::new(lhs@), Box::new(rhs@)),
    {
        Node::Alternation(Box::new(lhs), Box::new(rhs))
    }

    pub fn concatenation(lhs: Node, rhs: Node) -> (node: Node)
        ensures
            node == Node::Concatenation(Box::new(lhs), Box::new(rhs)),
            node@ == Ast::Concatenation(Box::new(lhs@), Box::new(rhs@)),
    {
        Node::Concatenation(Box::new(lhs), Box::new(rhs))
    }

    pub fn star(operand: Node) -> (node: Node)
        ensures
            node == Node::Star(Box::new(operand)),
            node@ == Ast::Star(Box::new(operand@)),
    {
        Node::Star(Box::new(operand))
    }

    pub fn plus(operand: Node) -> (node: Node)
        ensures
            node == Node::Plus(Box::new(operand)),
            node@ == Ast::Plus(Box::new(operand@)),
    {
        Node::Plus(Box::new(operand))
    }

    pub fn optional(operand: Node) -> (node: Node)
        ensures
            node == Node::Optional(Box::new(operand)),
            node@ == Ast::Optional(Box::new(operand@)),
    {
        Node::Optional(Box::new(operand))
    }

    pub fn range(inner: Node, range: Range) -> (node: Node)
        ensures
            node == (Node::Range { inner: Box::new(inner), range }),
            node@ == (Ast::Repeat {
                inner: Box::new(inner@),
                min: range.min as nat,
                max: bound_model(range.max),
            }),
    {
        Node::Range { inner: Box::new(inner), range }
    }

    pub fn group(inner: Node, is_capturing: bool, name: Option<&str>) -> (node: Node)
        ensures
            node@ == (Ast::Group {
                inner: Box::new(inner@),
                is_capturing,
                name: match name {
                    Some(s) => Some(s@),
                    None => None,
                },
            }),
    {
        let owned = match name {
            Some(s) => Some(s.to_owned()),
            None => None,
        };
        Node::Group(Group::new(inner, is_capturing, owned))
    }

    pub fn class(negate: bool, members: Vec<ClassMember>) -> (node: Node)
        ensures
            node == Node::CharacterClass(CharacterClass { negate, members }),
            node@ == Ast::Class(ClassModel { negate, members: members@ }),
    {
        Node::CharacterClass(CharacterClass { negate, members })
    }
}

impl View for Node {
    type V = Ast;

    open spec fn view(&self) -> Ast {
        self.model()
    }
}

} // verus!
