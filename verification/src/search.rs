use crate::automaton::Automaton;
use crate::simulation::lemma_frontier_stays_empty;
use vstd::prelude::*;

verus! {

impl Automaton {
    /// The greatest end `j` with `start <= j <= limit` such that the
    /// automaton accepts the characters of `s` from `start` up to `j`.
    pub open spec fn longest_end(self, s: Seq<char>, start: int, limit: int) -> Option<int>
        decreases limit - start + 1,
    {
        if limit < start {
            None
        } else if self.accepts(s.subrange(start, limit)) {
            Some(limit)
        } else {
            self.longest_end(s, start, limit - 1)
        }
    }

    /// The first match that starts at `from` or later: the earliest start at
    /// which a match exists and, at that start, the longest match.
    pub open spec fn find_from(self, s: Seq<char>, from: int) -> Option<(int, int)>
        decreases s.len() - from + 1,
    {
        if !(0 <= from <= s.len()) {
            None
        } else {
            match self.longest_end(s, from, s.len() as int) {
                Some(end) => Some((from, end)),
                None => self.find_from(s, from + 1),
            }
        }
    }

    /// The leftmost match in `s`, the longest at its start, as a pair of
    /// character positions.
    pub open spec fn find(self, s: Seq<char>) -> Option<(int, int)> {
        self.find_from(s, 0)
    }

    /// The matches found from `from` on, each the longest at the first start
    /// at which one exists after the one before it. The search goes on where
    /// a match ended, or one character after an empty match.
    pub open spec fn find_all_from(self, s: Seq<char>, from: int) -> Seq<(int, int)>
        decreases s.len() - from + 1,
    {
        if !(0 <= from <= s.len()) {
            Seq::empty()
        } else {
            match self.longest_end(s, from, s.len() as int) {
                Some(end) => seq![(from, end)] + self.find_all_from(
                    s,
                    if from < end <= s.len() {
                        end
                    } else {
                        from + 1
                    },
                ),
                None => self.find_all_from(s, from + 1),
            }
        }
    }

    /// All the matches in `s` that do not overlap, from left to right.
    pub open spec fn find_all(self, s: Seq<char>) -> Seq<(int, int)> {
        self.find_all_from(s, 0)
    }

    /// Some slice of `s` is accepted.
    pub open spec fn matches_somewhere(self, s: Seq<char>) -> bool {
        exists|i: int, j: int| 0 <= i <= j <= s.len() && #[trigger] self.accepts(s.subrange(i, j))
    }

    /// The last position `k <= upto` such that `q` is live after reading the
    /// first `k` characters of `w`.
    pub open spec fn last_visit(self, w: Seq<char>, q: int, upto: int) -> Option<int>
        decreases upto + 1,
    {
        if upto < 0 {
            None
        } else if self.frontier(w.take(upto)).contains(q) {
            Some(upto)
        } else {
            self.last_visit(w, q, upto - 1)
        }
    }

    /// What group `g` binds to when the match starts at `start`: from the
    /// last position at which the group's first state was live to the last
    /// position at which its last state was live, where both exist and are
    /// in that order.
    pub open spec fn group_bounds(self, s: Seq<char>, start: int, g: int) -> Option<(int, int)> {
        let w = s.skip(start);
        match (
            self.last_visit(w, self.groups[g].start, w.len() as int),
            self.last_visit(w, self.groups[g].end, w.len() as int),
        ) {
            (Some(a), Some(b)) => if a <= b {
                Some((start + a, start + b))
            } else {
                None
            },
            _ => None,
        }
    }

    /// What index `k` of the captures binds to when the match is `found`:
    /// the whole match for `0`, group `k - 1` otherwise.
    pub open spec fn capture_bounds(self, s: Seq<char>, found: (int, int), k: int) -> Option<
        (int, int),
    > {
        if k == 0 {
            Some(found)
        } else if 1 <= k <= self.groups.len() {
            self.group_bounds(s, found.0, k - 1)
        } else {
            None
        }
    }

    /// What each index binds to in the leftmost match of `s`: the whole match
    /// at index `0`, then one entry for each group.
    pub open spec fn captures(self, s: Seq<char>) -> Option<Seq<Option<(int, int)>>> {
        match self.find(s) {
            Some(found) => Some(
                Seq::new(self.groups.len() + 1, |k: int| self.capture_bounds(s, found, k)),
            ),
            None => None,
        }
    }

    /// What the name `name` binds to in the leftmost match of `s`.
    pub open spec fn named_capture(self, s: Seq<char>, name: Seq<char>) -> Option<(int, int)> {
        match self.find(s) {
            Some(found) => self.named_bounds(s, found.0, name, self.groups.len() as int),
            None => None,
        }
    }

    /// What the name `name` binds to when the match starts at `start`: the
    /// binding of the last group below `upto` that has this name and is bound.
    pub open spec fn named_bounds(self, s: Seq<char>, start: int, name: Seq<char>, upto: int)
        -> Option<(int, int)>
        decreases upto,
    {
        if upto <= 0 {
            None
        } else if self.groups[upto - 1].name == Some(name) && self.group_bounds(s, start, upto - 1)
            is Some {
            self.group_bounds(s, start, upto - 1)
        } else {
            self.named_bounds(s, start, name, upto - 1)
        }
    }
}

/// What `longest_end` returns is an accepted slice that no longer accepted
/// slice from the same start, up to the limit, exceeds.
pub proof fn lemma_longest_end(a: Automaton, s: Seq<char>, start: int, limit: int)
    ensures
        match a.longest_end(s, start, limit) {
            Some(end) => start <= end <= limit && a.accepts(s.subrange(start, end)) && forall|
                j: int,
            |
                end < j <= limit ==> !#[trigger] a.accepts(s.subrange(start, j)),
            None => forall|j: int| start <= j <= limit ==> !#[trigger] a.accepts(s.subrange(start, j)),
        },
    decreases limit - start + 1,
{
    if limit >= start && !a.accepts(s.subrange(start, limit)) {
        lemma_longest_end(a, s, start, limit - 1);
    }
}

/// Past a position at which no state is live, no longer slice is accepted.
pub proof fn lemma_longest_end_after_dead(
    a: Automaton,
    s: Seq<char>,
    start: int,
    dead: int,
    limit: int,
)
    requires
        0 <= start <= dead <= limit <= s.len(),
        a.frontier(s.subrange(start, dead)) == Set::<int>::empty(),
    ensures
        a.longest_end(s, start, limit) == a.longest_end(s, start, dead),
    decreases limit - dead,
{
    if dead < limit {
        let w = s.subrange(start, limit);
        assert(w.take(dead - start) == s.subrange(start, dead));
        lemma_frontier_stays_empty(a, w, dead - start);
        lemma_longest_end_after_dead(a, s, start, dead, limit - 1);
    }
}

/// What `find_from` returns is the leftmost match from `from` on, and the
/// longest one at its start.
pub proof fn lemma_find_from(a: Automaton, s: Seq<char>, from: int)
    requires
        0 <= from,
    ensures
        match a.find_from(s, from) {
            Some((i, j)) => {
                &&& from <= i <= j <= s.len()
                &&& a.accepts(s.subrange(i, j))
                &&& forall|k: int| j < k <= s.len() ==> !#[trigger] a.accepts(s.subrange(i, k))
                &&& forall|h: int, k: int|
                    from <= h < i && h <= k <= s.len() ==> !#[trigger] a.accepts(s.subrange(h, k))
                &&& a.longest_end(s, i, s.len() as int) == Some(j)
            },
            None => forall|h: int, k: int|
                from <= h <= k <= s.len() ==> !#[trigger] a.accepts(s.subrange(h, k)),
        },
    decreases s.len() - from + 1,
{
    if from <= s.len() {
        lemma_longest_end(a, s, from, s.len() as int);
        if a.longest_end(s, from, s.len() as int) is None {
            lemma_find_from(a, s, from + 1);
        }
    }
}

/// The three questions agree: some slice of `s` is accepted exactly when a
/// leftmost match exists.
pub proof fn lemma_find_iff_matches(a: Automaton, s: Seq<char>)
    ensures
        a.matches_somewhere(s) <==> a.find(s) is Some,
{
    lemma_find_from(a, s, 0);
}

/// Testing, finding and capturing agree on whether there is a match: some
/// slice of `s` is accepted exactly when a leftmost match exists, and
/// exactly then the captures exist.
pub proof fn lemma_test_find_captures_agree(a: Automaton, s: Seq<char>)
    ensures
        a.matches_somewhere(s) <==> a.find(s) is Some,
        a.find(s) is Some <==> a.captures(s) is Some,
{
    lemma_find_from(a, s, 0);
}

/// Index `0` of the captures is the leftmost match, whenever either exists.
pub proof fn lemma_captures_start_with_find(a: Automaton, s: Seq<char>)
    ensures
        match (a.captures(s), a.find(s)) {
            (Some(table), Some(found)) => table.len() == a.groups.len() + 1 && table[0] == Some(
                found,
            ),
            (None, None) => true,
            _ => false,
        },
{
}

/// The leftmost match ends no earlier than it starts, within `s`.
pub proof fn lemma_find_ordered(a: Automaton, s: Seq<char>)
    ensures
        a.find(s) matches Some((i, j)) ==> 0 <= i <= j <= s.len(),
{
    lemma_find_from(a, s, 0);
}

/// The matches of `find_all_from` lie in `s` at or after `from`, each starts
/// after the one before it, and none overlaps the one before it.
pub proof fn lemma_find_all_ordered(a: Automaton, s: Seq<char>, from: int)
    requires
        0 <= from,
    ensures
        forall|k: int|
            0 <= k < a.find_all_from(s, from).len() ==> from <= (#[trigger] a.find_all_from(
                s,
                from,
            )[k]).0 <= a.find_all_from(s, from)[k].1 <= s.len(),
        forall|k: int|
            0 <= k < a.find_all_from(s, from).len() - 1 ==> (#[trigger] a.find_all_from(
                s,
                from,
            )[k]).0 < a.find_all_from(s, from)[k + 1].0 && a.find_all_from(s, from)[k].1
                <= a.find_all_from(s, from)[k + 1].0,
    decreases s.len() - from + 1,
{
    let all = a.find_all_from(s, from);
    if from <= s.len() {
        lemma_longest_end(a, s, from, s.len() as int);
        match a.longest_end(s, from, s.len() as int) {
            Some(end) => {
                let next = if from < end <= s.len() {
                    end
                } else {
                    from + 1
                };
                lemma_find_all_ordered(a, s, next);
                let rest = a.find_all_from(s, next);
                assert(all == seq![(from, end)] + rest);
                assert(all[0] == (from, end));
                assert forall|k: int| 0 <= k < all.len() implies from <= (#[trigger] all[k]).0
                    <= all[k].1 <= s.len() by {
                    if k > 0 {
                        assert(all[k] == rest[k - 1]);
                    }
                }
                assert forall|k: int| 0 <= k < all.len() - 1 implies (#[trigger] all[k]).0 < all[k
                    + 1].0 && all[k].1 <= all[k + 1].0 by {
                    assert(all[k + 1] == rest[k]);
                    if k > 0 {
                        assert(all[k] == rest[k - 1]);
                    }
                }
            },
            None => {
                lemma_find_all_ordered(a, s, from + 1);
                let rest = a.find_all_from(s, from + 1);
                assert(all == rest);
                assert forall|k: int| 0 <= k < all.len() implies from <= (#[trigger] all[k]).0
                    <= all[k].1 <= s.len() by {
                    assert(all[k] == rest[k]);
                }
                assert forall|k: int| 0 <= k < all.len() - 1 implies (#[trigger] all[k]).0 < all[k
                    + 1].0 && all[k].1 <= all[k + 1].0 by {
                    assert(all[k] == rest[k]);
                }
            },
        }
    } else {
        assert(all.len() == 0);
    }
}

/// Where the search goes on after the match `found`: where the match
/// ended, or one character after an empty match.
pub open spec fn resume_after(found: (int, int)) -> int {
    if found.0 < found.1 {
        found.1
    } else {
        found.0 + 1
    }
}

/// No match starts between where the search for all matches goes on and
/// the start of the next match that it reports, nor after the last one.
pub proof fn lemma_find_all_skips_nothing(a: Automaton, s: Seq<char>, from: int, k: int, h: int)
    requires
        0 <= from,
        0 <= k <= a.find_all_from(s, from).len(),
        (if k == 0 {
            from
        } else {
            resume_after(a.find_all_from(s, from)[k - 1])
        }) <= h,
        if k < a.find_all_from(s, from).len() {
            h < a.find_all_from(s, from)[k].0
        } else {
            h <= s.len()
        },
    ensures
        a.longest_end(s, h, s.len() as int) is None,
    decreases s.len() - from + 1,
{
    let all = a.find_all_from(s, from);
    if from <= s.len() {
        lemma_longest_end(a, s, from, s.len() as int);
        match a.longest_end(s, from, s.len() as int) {
            Some(end) => {
                let next = resume_after((from, end));
                let rest = a.find_all_from(s, next);
                assert(all == seq![(from, end)] + rest);
                assert(all[0] == (from, end));
                if k > 0 {
                    if k - 1 > 0 {
                        assert(all[k - 1] == rest[k - 2]);
                    }
                    if k < all.len() {
                        assert(all[k] == rest[k - 1]);
                    }
                    lemma_find_all_skips_nothing(a, s, next, k - 1, h);
                }
            },
            None => {
                assert(all == a.find_all_from(s, from + 1));
                if h > from {
                    lemma_find_all_skips_nothing(a, s, from + 1, k, h);
                } else if k > 0 {
                    lemma_find_all_ordered(a, s, from + 1);
                    assert(from + 1 <= all[k - 1].0);
                }
            },
        }
    }
}

/// Each match of `find_all_from` is the longest one at its start.
pub proof fn lemma_find_all_longest(a: Automaton, s: Seq<char>, from: int, k: int)
    requires
        0 <= from,
        0 <= k < a.find_all_from(s, from).len(),
    ensures
        a.longest_end(s, a.find_all_from(s, from)[k].0, s.len() as int) == Some(
            a.find_all_from(s, from)[k].1,
        ),
        0 <= a.find_all_from(s, from)[k].0 <= s.len(),
    decreases s.len() - from + 1,
{
    if from <= s.len() {
        match a.longest_end(s, from, s.len() as int) {
            Some(end) => {
                let next = if from < end <= s.len() {
                    end
                } else {
                    from + 1
                };
                let rest = a.find_all_from(s, next);
                assert(a.find_all_from(s, from) == seq![(from, end)] + rest);
                if k > 0 {
                    assert(a.find_all_from(s, from)[k] == rest[k - 1]);
                    lemma_find_all_longest(a, s, next, k - 1);
                }
            },
            None => {
                lemma_find_all_longest(a, s, from + 1, k);
            },
        }
    }
}

/// A visit is recorded at a position from zero up to the limit.
pub proof fn lemma_last_visit_range(a: Automaton, w: Seq<char>, q: int, upto: int)
    ensures
        a.last_visit(w, q, upto) matches Some(k) ==> 0 <= k <= upto && a.frontier(
            w.take(k),
        ).contains(q),
    decreases upto + 1,
{
    if upto >= 0 && !a.frontier(w.take(upto)).contains(q) {
        lemma_last_visit_range(a, w, q, upto - 1);
    }
}

/// Past a position at which no state is live, no state is visited again.
pub proof fn lemma_last_visit_after_dead(a: Automaton, w: Seq<char>, q: int, dead: int, upto: int)
    requires
        0 <= dead <= upto <= w.len(),
        a.frontier(w.take(dead)) == Set::<int>::empty(),
    ensures
        a.last_visit(w, q, upto) == a.last_visit(w, q, dead - 1),
    decreases upto - dead,
{
    assert(w.take(upto).take(dead) == w.take(dead));
    lemma_frontier_stays_empty(a, w.take(upto), dead);
    if dead < upto {
        lemma_last_visit_after_dead(a, w, q, dead, upto - 1);
    }
}

/// The longest match at `start` is the longest match at the beginning of
/// the rest of `s` from `start` on.
pub proof fn lemma_longest_end_of_suffix(a: Automaton, s: Seq<char>, start: int, limit: int)
    requires
        0 <= start <= s.len(),
        limit <= s.len(),
    ensures
        a.longest_end(s.skip(start), 0, limit - start) == match a.longest_end(s, start, limit) {
            Some(end) => Some(end - start),
            None => None,
        },
    decreases limit - start + 1,
{
    if limit >= start {
        assert(s.skip(start).subrange(0, limit - start) == s.subrange(start, limit));
        lemma_longest_end_of_suffix(a, s, start, limit - 1);
    }
}

/// Each match of `find_all` is what `find` returns on the rest of `s` from
/// the start of that match on.
pub proof fn lemma_find_all_is_find_of_suffix(a: Automaton, s: Seq<char>, k: int)
    requires
        0 <= k < a.find_all(s).len(),
    ensures
        a.find(s.skip(a.find_all(s)[k].0)) == Some((0int, a.find_all(s)[k].1 - a.find_all(s)[k].0)),
{
    let (i, j) = a.find_all(s)[k];
    lemma_find_all_longest(a, s, 0, k);
    lemma_longest_end_of_suffix(a, s, i, s.len() as int);
    assert(s.skip(i).len() == s.len() - i);
}

/// The first match of `find_all` is the match of `find`, and there is one
/// exactly when `find` has one.
pub proof fn lemma_find_all_starts_with_find(a: Automaton, s: Seq<char>, from: int)
    requires
        0 <= from,
    ensures
        match a.find_from(s, from) {
            Some(m) => a.find_all_from(s, from).len() > 0 && a.find_all_from(s, from)[0] == m,
            None => a.find_all_from(s, from).len() == 0,
        },
    decreases s.len() - from + 1,
{
    if from <= s.len() {
        match a.longest_end(s, from, s.len() as int) {
            Some(end) => {},
            None => {
                lemma_find_all_starts_with_find(a, s, from + 1);
            },
        }
    }
}

} // verus!
