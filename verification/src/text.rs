use std::collections::HashMap;
use vstd::prelude::*;
use vstd::utf8::{encode_scalar, encode_utf8};

verus! {

/// Assumed of `String::push`, not proved: it appends the character to the
/// end of the string and changes nothing else of it, as its documentation says.
pub assume_specification[ String::push ](s: &mut String, ch: char)
    ensures
        final(s)@ == old(s)@.push(ch),
;

/// Whether `c` has the Unicode property White_Space: what
/// `char::is_whitespace` returns for `c`.
pub uninterp spec fn whitespace(c: char) -> bool;

/// Assumed of `char::is_whitespace`, not proved: its result depends on the
/// character alone. Which characters have the property is not stated here.
pub assume_specification[ char::is_whitespace ](c: char) -> (b: bool)
    ensures
        b == whitespace(c),
;

/// Number of bytes that `c` occupies in UTF-8.
pub open spec fn utf8_width(c: char) -> nat {
    encode_scalar(c as u32).len()
}

/// Byte offset at which the character of index `k` starts in the UTF-8
/// encoding of `s`; for `k == s.len()`, the length of the encoding.
pub open spec fn byte_offset(s: Seq<char>, k: int) -> nat {
    encode_utf8(s.take(k)).len()
}

/// The encoding of a concatenation is the concatenation of the encodings.
pub proof fn lemma_encode_concat(a: Seq<char>, b: Seq<char>)
    ensures
        encode_utf8(a + b) == encode_utf8(a) + encode_utf8(b),
    decreases a.len(),
{
    if a.len() == 0 {
        assert(a + b == b);
        assert(encode_utf8(a) + encode_utf8(b) == encode_utf8(b));
    } else {
        lemma_encode_concat(a.drop_first(), b);
        assert((a + b).drop_first() == a.drop_first() + b);
        assert((a + b)[0] == a[0]);
        assert(encode_utf8(a + b) == encode_scalar(a[0] as u32) + (encode_utf8(a.drop_first())
            + encode_utf8(b)));
        assert(encode_utf8(a + b) == encode_utf8(a) + encode_utf8(b));
    }
}

/// The encoding of a single character.
pub proof fn lemma_encode_single(c: char)
    ensures
        encode_utf8(seq![c]) == encode_scalar(c as u32),
        1 <= utf8_width(c) <= 4,
{
    let s = seq![c];
    assert(s.drop_first() == Seq::<char>::empty());
    assert(encode_utf8(s.drop_first()) == Seq::<u8>::empty());
    assert(encode_utf8(s) == encode_scalar(c as u32) + Seq::<u8>::empty());
    assert(encode_scalar(c as u32) + Seq::<u8>::empty() == encode_scalar(c as u32));
}

/// Offsets start at zero and advance by the width of each character.
pub proof fn lemma_byte_offset_step(s: Seq<char>, k: int)
    requires
        0 <= k < s.len(),
    ensures
        byte_offset(s, 0) == 0,
        byte_offset(s, k + 1) == byte_offset(s, k) + utf8_width(s[k]),
        byte_offset(s, k) < byte_offset(s, k + 1),
{
    assert(s.take(0) == Seq::<char>::empty());
    assert(s.take(k + 1) == s.take(k) + seq![s[k]]);
    lemma_encode_concat(s.take(k), seq![s[k]]);
    lemma_encode_single(s[k]);
}

/// Offsets grow with the index and end at the length of the encoding.
pub proof fn lemma_byte_offset_monotone(s: Seq<char>, i: int, j: int)
    requires
        0 <= i <= j <= s.len(),
    ensures
        byte_offset(s, i) <= byte_offset(s, j),
        i < j ==> byte_offset(s, i) < byte_offset(s, j),
        byte_offset(s, j) <= encode_utf8(s).len(),
        byte_offset(s, s.len() as int) == encode_utf8(s).len(),
    decreases j - i,
{
    assert(s.take(s.len() as int) == s);
    assert(s == s.take(j) + s.skip(j));
    lemma_encode_concat(s.take(j), s.skip(j));
    if i < j {
        lemma_byte_offset_monotone(s, i, j - 1);
        lemma_byte_offset_step(s, j - 1);
    }
}

/// The encoding of a slice is the matching slice of the encoding.
pub proof fn lemma_encode_subrange(s: Seq<char>, i: int, j: int)
    requires
        0 <= i <= j <= s.len(),
    ensures
        byte_offset(s, i) <= byte_offset(s, j) <= encode_utf8(s).len(),
        encode_utf8(s.subrange(i, j)) == encode_utf8(s).subrange(
            byte_offset(s, i) as int,
            byte_offset(s, j) as int,
        ),
{
    lemma_byte_offset_monotone(s, i, j);
    let a = s.take(i);
    let b = s.subrange(i, j);
    let c = s.skip(j);
    assert(s.take(j) == a + b);
    assert(s == s.take(j) + c);
    lemma_encode_concat(a, b);
    lemma_encode_concat(s.take(j), c);
    assert(encode_utf8(s).subrange(byte_offset(s, i) as int, byte_offset(s, j) as int)
        == encode_utf8(b));
}

/// Number of bytes that `c` occupies in UTF-8.
pub fn char_width(c: char) -> (n: usize)
    ensures
        n == utf8_width(c),
        1 <= n <= 4,
{
    let v: u32 = c as u32;
    if v < 0x80 {
        1
    } else if v < 0x800 {
        2
    } else if v < 0x10000 {
        3
    } else {
        4
    }
}

/// A string together with its characters and the byte offset of each of
/// them, so that positions can be handled by character and reported by byte.
pub struct Text<'a> {
    source: &'a str,
    chars: Vec<char>,
    offsets: Vec<usize>,
}

impl<'a> View for Text<'a> {
    type V = Seq<char>;

    closed spec fn view(&self) -> Seq<char> {
        self.source@
    }
}

impl<'a> Text<'a> {
    #[verifier::type_invariant]
    spec fn well_formed(self) -> bool {
        &&& self.chars@ == self.source@
        &&& self.offsets.len() == self.chars.len() + 1
        &&& forall|k: int|
            0 <= k <= self.chars.len() ==> #[trigger] self.offsets[k] == byte_offset(
                self.source@,
                k,
            )
    }

    /// The string that the text was made from.
    pub closed spec fn source(self) -> &'a str {
        self.source
    }

    /// Reads the characters of `source` and records where each one starts.
    pub fn new(source: &'a str) -> (text: Text<'a>)
        ensures
            text@ == source@,
            text.source() == source,
    {
        broadcast use vstd::string::group_string_axioms;

        let total = source.as_bytes().len();
        let mut chars: Vec<char> = Vec::new();
        let mut offsets: Vec<usize> = Vec::new();
        let mut offset: usize = 0;
        proof {
            assert(source@.take(0) == Seq::<char>::empty());
        }
        for c in it: source.chars()
            invariant
                it.seq() == source@,
                total == encode_utf8(source@).len(),
                chars@ == source@.take(it.index()),
                offsets.len() == it.index(),
                offset == byte_offset(source@, it.index()),
                forall|k: int|
                    0 <= k < it.index() ==> #[trigger] offsets[k] == byte_offset(source@, k),
        {
            proof {
                lemma_byte_offset_step(source@, it.index());
                lemma_byte_offset_monotone(source@, it.index() + 1, it.index() + 1);
            }
            chars.push(c);
            offsets.push(offset);
            offset = offset + char_width(c);
        }
        offsets.push(offset);
        assert(chars@ == source@);
        Text { source, chars, offsets }
    }

    /// Number of characters.
    pub fn len(&self) -> (n: usize)
        ensures
            n == self@.len(),
            n < usize::MAX,
    {
        proof {
            use_type_invariant(self);
        }
        self.chars.len()
    }

    /// The character of index `i`.
    pub fn char_at(&self, i: usize) -> (c: char)
        requires
            i < self@.len(),
        ensures
            c == self@[i as int],
    {
        proof {
            use_type_invariant(self);
        }
        self.chars[i]
    }

    /// The byte offset at which the character of index `i` starts.
    pub fn offset_of(&self, i: usize) -> (offset: usize)
        requires
            i <= self@.len(),
        ensures
            offset == byte_offset(self@, i as int),
    {
        proof {
            use_type_invariant(self);
        }
        self.offsets[i]
    }

    /// The characters from index `from` up to, not including, index `to`.
    pub fn slice(&self, from: usize, to: usize) -> (part: &'a str)
        requires
            from <= to <= self@.len(),
        ensures
            part@ == self@.subrange(from as int, to as int),
    {
        proof {
            use_type_invariant(self);
        }
        self.source.substring_char(from, to)
    }
}

/// The character index of each byte offset at which a character of `input`
/// starts, and of the offset at which `input` ends.
pub fn get_char_index(input: &str) -> (index: HashMap<usize, usize>)
    ensures
        forall|k: int|
            0 <= k <= input@.len() ==> index@.contains_key(
                #[trigger] byte_offset(input@, k) as usize,
            ) && index@[byte_offset(input@, k) as usize] == k,
        forall|b: usize|
            #[trigger] index@.contains_key(b) ==> exists|k: int|
                0 <= k <= input@.len() && #[trigger] byte_offset(input@, k) == b,
{
    broadcast use vstd::std_specs::hash::group_hash_axioms;

    let text = Text::new(input);
    let ghost s = input@;
    let n = text.len();
    let mut index: HashMap<usize, usize> = HashMap::new();
    let mut k: usize = 0;
    while k <= n
        invariant
            k <= n + 1,
            n < usize::MAX,
            n == s.len(),
            s == text@,
            forall|j: int|
                0 <= j < k ==> index@.contains_key(#[trigger] byte_offset(s, j) as usize)
                    && index@[byte_offset(s, j) as usize] == j,
            forall|b: usize|
                #[trigger] index@.contains_key(b) ==> exists|j: int|
                    0 <= j < k && #[trigger] byte_offset(s, j) == b,
        decreases n + 1 - k,
    {
        let offset = text.offset_of(k);
        let ghost before = index@;
        index.insert(offset, k);
        proof {
            assert forall|j: int| 0 <= j < k + 1 implies index@.contains_key(
                #[trigger] byte_offset(s, j) as usize,
            ) && index@[byte_offset(s, j) as usize] == j by {
                if j < k {
                    lemma_byte_offset_monotone(s, j, k as int);
                    assert(before.contains_key(byte_offset(s, j) as usize));
                }
            }
            assert forall|b: usize| #[trigger] index@.contains_key(b) implies exists|j: int|
                0 <= j < k + 1 && #[trigger] byte_offset(s, j) == b by {
                if b == offset {
                    assert(byte_offset(s, k as int) == b);
                } else {
                    assert(before.contains_key(b));
                    let j = choose|j: int| 0 <= j < k && #[trigger] byte_offset(s, j) == b;
                    assert(0 <= j < k + 1 && byte_offset(s, j) == b);
                }
            }
        }
        k += 1;
    }
    index
}

} // verus!
