//! The words that a pattern describes.

use crate::ast::Ast;
use vstd::prelude::*;

verus! {

/// `w` is `n` words of `lang` in a row.
pub open spec fn in_power(lang: spec_fn(Seq<char>) -> bool, w: Seq<char>, n: nat) -> bool
    decreases n,
{
    if n == 0 {
        w.len() == 0
    } else {
        exists|k: int|
            0 <= k <= w.len() && lang(#[trigger] w.take(k)) && in_power(
                lang,
                w.skip(k),
                (n - 1) as nat,
            )
    }
}

/// `w` is a word of `first` followed by a word of `second`.
pub open spec fn in_sequence(
    first: spec_fn(Seq<char>) -> bool,
    second: spec_fn(Seq<char>) -> bool,
    w: Seq<char>,
) -> bool {
    exists|k: int| 0 <= k <= w.len() && first(#[trigger] w.take(k)) && second(w.skip(k))
}

/// `w` is some number of words of `lang` in a row, at least `least` and,
/// where `most` is given, at most `most`.
pub open spec fn in_powers(
    lang: spec_fn(Seq<char>) -> bool,
    w: Seq<char>,
    least: nat,
    most: Option<nat>,
) -> bool {
    exists|n: nat|
        least <= n && (match most {
            Some(m) => n <= m,
            None => true,
        }) && #[trigger] in_power(lang, w, n)
}

/// The upper bound of a counted repetition: the one given, or the lower
/// bound where the one given lies below it.
pub open spec fn effective_bound(min: nat, max: Option<nat>) -> Option<nat> {
    match max {
        Some(m) => Some(
            if m < min {
                min
            } else {
                m
            },
        ),
        None => None,
    }
}

impl Ast {
    /// The words that the tree describes, as a predicate.
    pub open spec fn language(self) -> spec_fn(Seq<char>) -> bool
        decreases self, 1nat,
    {
        |w: Seq<char>| self.matches(w)
    }

    /// The tree describes the word `w`.
    ///
    /// A counted repetition whose upper bound lies below its lower bound
    /// describes exactly the lower bound's number of repetitions.
    pub open spec fn matches(self, w: Seq<char>) -> bool
        decreases self, 0nat,
    {
        match self {
            Ast::Empty => w.len() == 0,
            Ast::Character(c) => w == seq![c],
            Ast::Wildcard => w.len() == 1,
            Ast::Class(class) => w.len() == 1 && class.matches(w[0]),
            Ast::Concatenation(a, b) => in_sequence((*a).language(), (*b).language(), w),
            Ast::Alternation(a, b) => (*a).matches(w) || (*b).matches(w),
            Ast::Optional(a) => w.len() == 0 || (*a).matches(w),
            Ast::Star(a) => in_powers((*a).language(), w, 0, None),
            Ast::Plus(a) => in_powers((*a).language(), w, 1, None),
            Ast::Repeat { inner, min, max } => in_powers(
                (*inner).language(),
                w,
                min,
                effective_bound(min, max),
            ),
            Ast::Group { inner, .. } => (*inner).matches(w),
        }
    }
}

/// The words of `lang` and the empty word.
pub open spec fn or_empty(lang: spec_fn(Seq<char>) -> bool) -> spec_fn(Seq<char>) -> bool {
    |w: Seq<char>| w.len() == 0 || lang(w)
}

/// Languages with the same words have the same powers.
pub proof fn lemma_in_power_congruence(
    first: spec_fn(Seq<char>) -> bool,
    second: spec_fn(Seq<char>) -> bool,
    w: Seq<char>,
    n: nat,
)
    requires
        forall|v: Seq<char>| #[trigger] first(v) <==> second(v),
    ensures
        in_power(first, w, n) <==> in_power(second, w, n),
    decreases n,
{
    if n > 0 {
        if in_power(first, w, n) {
            let k = choose|k: int|
                0 <= k <= w.len() && first(#[trigger] w.take(k)) && in_power(
                    first,
                    w.skip(k),
                    (n - 1) as nat,
                );
            lemma_in_power_congruence(first, second, w.skip(k), (n - 1) as nat);
            assert(second(w.take(k)));
        }
        if in_power(second, w, n) {
            let k = choose|k: int|
                0 <= k <= w.len() && second(#[trigger] w.take(k)) && in_power(
                    second,
                    w.skip(k),
                    (n - 1) as nat,
                );
            lemma_in_power_congruence(first, second, w.skip(k), (n - 1) as nat);
            assert(first(w.take(k)));
        }
    }
}

/// Languages with the same words have the same ranges of powers.
pub proof fn lemma_in_powers_congruence(
    first: spec_fn(Seq<char>) -> bool,
    second: spec_fn(Seq<char>) -> bool,
    w: Seq<char>,
    least: nat,
    most: Option<nat>,
)
    requires
        forall|v: Seq<char>| #[trigger] first(v) <==> second(v),
    ensures
        in_powers(first, w, least, most) <==> in_powers(second, w, least, most),
{
    if in_powers(first, w, least, most) {
        let n = choose|n: nat|
            least <= n && (match most {
                Some(m) => n <= m,
                None => true,
            }) && #[trigger] in_power(first, w, n);
        lemma_in_power_congruence(first, second, w, n);
        assert(in_power(second, w, n));
    }
    if in_powers(second, w, least, most) {
        let n = choose|n: nat|
            least <= n && (match most {
                Some(m) => n <= m,
                None => true,
            }) && #[trigger] in_power(second, w, n);
        lemma_in_power_congruence(first, second, w, n);
        assert(in_power(first, w, n));
    }
}

/// Languages with the same words have the same sequences.
pub proof fn lemma_in_sequence_congruence(
    first: spec_fn(Seq<char>) -> bool,
    second: spec_fn(Seq<char>) -> bool,
    other_first: spec_fn(Seq<char>) -> bool,
    other_second: spec_fn(Seq<char>) -> bool,
    w: Seq<char>,
)
    requires
        forall|v: Seq<char>| #[trigger] first(v) <==> other_first(v),
        forall|v: Seq<char>| #[trigger] second(v) <==> other_second(v),
    ensures
        in_sequence(first, second, w) <==> in_sequence(other_first, other_second, w),
{
    if in_sequence(first, second, w) {
        let k = choose|k: int|
            0 <= k <= w.len() && first(#[trigger] w.take(k)) && second(w.skip(k));
        assert(other_first(w.take(k)) && other_second(w.skip(k)));
    }
    if in_sequence(other_first, other_second, w) {
        let k = choose|k: int|
            0 <= k <= w.len() && other_first(#[trigger] w.take(k)) && other_second(w.skip(k));
        assert(first(w.take(k)) && second(w.skip(k)));
    }
}

/// One word of a language in a row is a word of the language.
pub proof fn lemma_in_power_one(lang: spec_fn(Seq<char>) -> bool, w: Seq<char>)
    ensures
        in_power(lang, w, 1) <==> lang(w),
{
    if in_power(lang, w, 1) {
        let k = choose|k: int|
            0 <= k <= w.len() && lang(#[trigger] w.take(k)) && in_power(lang, w.skip(k), 0);
        assert(w.take(k) == w);
    }
    if lang(w) {
        assert(w.take(w.len() as int) == w);
        assert(in_power(lang, w.skip(w.len() as int), 0));
    }
}

/// `a` words in a row followed by `b` words in a row are `a + b` words in a row.
pub proof fn lemma_in_power_append(
    lang: spec_fn(Seq<char>) -> bool,
    u: Seq<char>,
    v: Seq<char>,
    a: nat,
    b: nat,
)
    requires
        in_power(lang, u, a),
        in_power(lang, v, b),
    ensures
        in_power(lang, u + v, a + b),
    decreases a,
{
    if a == 0 {
        assert(u + v == v);
    } else {
        let k = choose|k: int|
            0 <= k <= u.len() && lang(#[trigger] u.take(k)) && in_power(
                lang,
                u.skip(k),
                (a - 1) as nat,
            );
        lemma_in_power_append(lang, u.skip(k), v, (a - 1) as nat, b);
        assert((u + v).take(k) == u.take(k));
        assert((u + v).skip(k) == u.skip(k) + v);
    }
}

/// `a + b` words in a row are `a` words in a row followed by `b` words in a row.
pub proof fn lemma_in_power_split(lang: spec_fn(Seq<char>) -> bool, w: Seq<char>, a: nat, b: nat)
    requires
        in_power(lang, w, a + b),
    ensures
        exists|k: int|
            0 <= k <= w.len() && in_power(lang, #[trigger] w.take(k), a) && in_power(
                lang,
                w.skip(k),
                b,
            ),
    decreases a,
{
    if a == 0 {
        assert(w.take(0).len() == 0);
        assert(w.skip(0) == w);
        assert(in_power(lang, w.take(0), 0));
    } else {
        let k = choose|k: int|
            0 <= k <= w.len() && lang(#[trigger] w.take(k)) && in_power(
                lang,
                w.skip(k),
                (a + b - 1) as nat,
            );
        let rest = w.skip(k);
        lemma_in_power_split(lang, rest, (a - 1) as nat, b);
        let j = choose|j: int|
            0 <= j <= rest.len() && in_power(lang, #[trigger] rest.take(j), (a - 1) as nat)
                && in_power(lang, rest.skip(j), b);
        let head = w.take(k + j);
        assert(head.take(k) == w.take(k));
        assert(head.skip(k) == rest.take(j));
        assert(in_power(lang, head, a));
        assert(w.skip(k + j) == rest.skip(j));
    }
}

/// Words of a language and the empty word, some in a row, are words of the
/// language, some in a row, and the other way round.
pub proof fn lemma_in_power_or_empty(lang: spec_fn(Seq<char>) -> bool, w: Seq<char>, n: nat)
    ensures
        in_power(or_empty(lang), w, n) ==> exists|m: nat| m <= n && #[trigger] in_power(lang, w, m),
        in_power(lang, w, n) ==> in_power(or_empty(lang), w, n),
    decreases n,
{
    let wide = or_empty(lang);
    if n > 0 {
        if in_power(wide, w, n) {
            let k = choose|k: int|
                0 <= k <= w.len() && wide(#[trigger] w.take(k)) && in_power(
                    wide,
                    w.skip(k),
                    (n - 1) as nat,
                );
            lemma_in_power_or_empty(lang, w.skip(k), (n - 1) as nat);
            let m = choose|m: nat| m <= n - 1 && #[trigger] in_power(lang, w.skip(k), m);
            if w.take(k).len() == 0 {
                assert(w.skip(k) == w);
                assert(in_power(lang, w, m));
            } else {
                assert(in_power(lang, w, m + 1));
            }
        }
        if in_power(lang, w, n) {
            let k = choose|k: int|
                0 <= k <= w.len() && lang(#[trigger] w.take(k)) && in_power(
                    lang,
                    w.skip(k),
                    (n - 1) as nat,
                );
            lemma_in_power_or_empty(lang, w.skip(k), (n - 1) as nat);
            assert(wide(w.take(k)));
        }
    } else {
        if in_power(wide, w, n) {
            assert(in_power(lang, w, 0));
        }
    }
}

/// More words of a language and the empty word in a row can stand for fewer.
pub proof fn lemma_in_power_or_empty_grows(
    lang: spec_fn(Seq<char>) -> bool,
    w: Seq<char>,
    n: nat,
    m: nat,
)
    requires
        in_power(or_empty(lang), w, n),
        n <= m,
    ensures
        in_power(or_empty(lang), w, m),
    decreases m - n,
{
    if n < m {
        let wide = or_empty(lang);
        assert(w.take(0).len() == 0);
        assert(wide(w.take(0)));
        assert(w.skip(0) == w);
        assert(in_power(wide, w, n + 1));
        lemma_in_power_or_empty_grows(lang, w, n + 1, m);
    }
}

} // verus!
