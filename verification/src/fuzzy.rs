//! Subsequence matching for the tab switcher.
//!
//! A candidate matches when the query's characters appear in it in order,
//! ignoring case. The score rewards consecutive characters, matches at the
//! start of a word, and early positions.

use vstd::prelude::*;
use crate::strings::{
    chars_of, char_is_lowercase, char_is_uppercase, char_to_lowercase, contains, contains_seq,
    str_to_lowercase, unicode_char_lower, unicode_lowercase, unicode_str_lower,
    unicode_uppercase,
};

verus! {

/// The characters `char::to_lowercase` gives for each character in turn.
pub open spec fn lower_all(s: Seq<char>) -> Seq<char>
    decreases s.len(),
{
    if s.len() == 0 {
        seq![]
    } else {
        lower_all(s.drop_last()) + unicode_char_lower(s.last())
    }
}

pub open spec fn is_separator(c: char) -> bool {
    c == '/' || c == '_' || c == '-' || c == '.' || c == ' '
}

/// The start of the candidate, or the start of a word inside it.
pub open spec fn at_boundary(c: Seq<char>, i: int) -> bool {
    i == 0 || is_separator(c[i - 1]) || (unicode_uppercase(c[i]) && unicode_lowercase(c[i - 1]))
}

/// Later characters are worth slightly less, capped at 8.
pub open spec fn position_penalty(i: int) -> int {
    if i / 4 < 8 {
        i / 4
    } else {
        8
    }
}

/// Points for a query character matched at position `i`, given where the
/// previous one matched.
pub open spec fn points_at(c: Seq<char>, i: int, prev: Option<int>) -> int {
    10 + (if i > 0 && prev == Some(i - 1) { 15int } else { 0int }) + (if at_boundary(c, i) {
        12int
    } else {
        0int
    }) - position_penalty(i)
}

/// Greedy left-to-right matching after `i` characters of the lowercased
/// candidate: how many query characters are matched, where the last match
/// was, and the points so far.
pub open spec fn match_state(q: Seq<char>, c: Seq<char>, lower: Seq<char>, i: nat) -> (
    nat,
    Option<int>,
    int,
)
    decreases i,
{
    if i == 0 {
        (0, None, 0)
    } else {
        let (qi, prev, total) = match_state(q, c, lower, (i - 1) as nat);
        let j = i - 1;
        if qi < q.len() && lower[j] == q[qi as int] {
            ((qi + 1) as nat, Some(j), total + points_at(c, j, prev))
        } else {
            (qi, prev, total)
        }
    }
}

/// The score of a candidate against a query; `None` when it does not match.
///
/// When lowercasing changes the candidate's length, a plain containment test
/// of the lowercased strings decides, scoring 1.
pub open spec fn score_spec(query: Seq<char>, candidate: Seq<char>) -> Option<int> {
    if query.len() == 0 {
        Some(0)
    } else {
        let q = lower_all(query);
        let lower = lower_all(candidate);
        if lower.len() != candidate.len() {
            if contains_seq(unicode_str_lower(candidate), unicode_str_lower(query)) {
                Some(1)
            } else {
                None
            }
        } else {
            let (qi, _, total) = match_state(q, candidate, lower, lower.len());
            if qi == q.len() {
                Some(total)
            } else {
                None
            }
        }
    }
}

/// Candidates short enough that scoring stays within `i32`: a character is
/// worth at most 37 points (10, 15 more when it follows the previous match,
/// 12 more at a word start), and a match in an item's name adds 40.
pub open spec fn scorable(candidate: Seq<char>) -> bool {
    37 * candidate.len() + 40 <= 0x7fff_ffff
}

fn lowercase_chars(s: &[char]) -> (r: Vec<char>)
    ensures
        r@ == lower_all(s@),
{
    let n = s.len();
    let mut out: Vec<char> = Vec::new();
    let mut i: usize = 0;
    while i < n
        invariant
            n == s@.len(),
            i <= n,
            out@ == lower_all(s@.take(i as int)),
        decreases n - i,
    {
        let l = char_to_lowercase(s[i]);
        let m = l.len();
        let mut k: usize = 0;
        let ghost base = out@;
        while k < m
            invariant
                m == l@.len(),
                k <= m,
                out@ == base + l@.take(k as int),
            decreases m - k,
        {
            out.push(l[k]);
            assert(l@.take(k + 1) == l@.take(k as int).push(l@[k as int]));
            k += 1;
        }
        assert(l@.take(m as int) == l@);
        assert(s@.take(i + 1).drop_last() == s@.take(i as int));
        i += 1;
    }
    assert(s@.take(n as int) == s@);
    out
}

proof fn lemma_match_state_bounds(q: Seq<char>, c: Seq<char>, lower: Seq<char>, i: nat)
    requires
        i <= lower.len(),
    ensures
        ({
            let (qi, prev, total) = match_state(q, c, lower, i);
            &&& qi <= q.len()
            &&& qi <= i
            &&& 0 <= total <= 37 * qi
            &&& (prev matches Some(p) ==> 0 <= p < i)
        }),
    decreases i,
{
    if i > 0 {
        lemma_match_state_bounds(q, c, lower, (i - 1) as nat);
        let (qi, prev, total) = match_state(q, c, lower, (i - 1) as nat);
        let j = i - 1;
        assert(0 <= position_penalty(j) <= 8);
    }
}

/// Score a candidate against a query. Higher is better; `None` means no match.
pub fn score(query: &str, candidate: &str) -> (r: Option<i32>)
    requires
        scorable(candidate@),
    ensures
        match r {
            Some(v) => score_spec(query@, candidate@) == Some(v as int),
            None => score_spec(query@, candidate@) is None,
        },
        r matches Some(v) ==> 0 <= v <= 37 * candidate@.len(),
{
    let qs = chars_of(query);
    if qs.len() == 0 {
        return Some(0);
    }
    let q = lowercase_chars(qs.as_slice());
    let c = chars_of(candidate);
    let lower = lowercase_chars(c.as_slice());
    // Lowercasing can change length for some scripts; fall back to a plain
    // containment test rather than indexing past the end.
    if lower.len() != c.len() {
        let lc = str_to_lowercase(candidate);
        let lq = str_to_lowercase(query);
        let lcv = chars_of(lc.as_str());
        let lqv = chars_of(lq.as_str());
        if contains(lcv.as_slice(), lqv.as_slice()) {
            return Some(1);
        } else {
            return None;
        }
    }
    let mut total: i32 = 0;
    let mut qi: usize = 0;
    let mut previous_index: Option<usize> = None;
    let n = lower.len();
    let mut i: usize = 0;
    while i < n
        invariant
            n == lower@.len(),
            n == c@.len(),
            37 * n + 40 <= 0x7fff_ffff,
            q@ == lower_all(query@),
            lower@ == lower_all(candidate@),
            c@ == candidate@,
            i <= n,
            ({
                let (sqi, sprev, stotal) = match_state(q@, c@, lower@, i as nat);
                &&& sqi == qi
                &&& stotal == total
                &&& sprev == match previous_index {
                    Some(p) => Some(p as int),
                    None => None,
                }
            }),
        decreases n - i,
    {
        proof {
            lemma_match_state_bounds(q@, c@, lower@, i as nat);
            lemma_match_state_bounds(q@, c@, lower@, (i + 1) as nat);
        }
        if qi < q.len() && lower[i] == q[qi] {
            let mut points: i32 = 10;
            if i > 0 && previous_index == Some(i - 1) {
                points += 15;
            }
            let at_boundary = i == 0 || {
                let p = c[i - 1];
                p == '/' || p == '_' || p == '-' || p == '.' || p == ' ' || (char_is_uppercase(c[i])
                    && char_is_lowercase(p))
            };
            if at_boundary {
                points += 12;
            }
            let quarter = (i as i32) / 4;
            points -= if quarter < 8 { quarter } else { 8 };
            total += points;
            previous_index = Some(i);
            qi += 1;
        }
        i += 1;
    }
    proof {
        lemma_match_state_bounds(q@, c@, lower@, n as nat);
    }
    if qi == q.len() {
        Some(total)
    } else {
        None
    }
}

/// An item's best score: a match in its name is worth 40 more than the same
/// match in its full description, and the better of the two counts.
pub open spec fn item_score(query: Seq<char>, name: Seq<char>, full: Seq<char>) -> Option<int> {
    let by_name = match score_spec(query, name) {
        Some(s) => Some(s + 40),
        None => None,
    };
    let by_full = score_spec(query, full);
    match (by_name, by_full) {
        (Some(a), Some(b)) => Some(if a >= b { a } else { b }),
        (Some(a), None) => Some(a),
        (None, Some(b)) => Some(b),
        (None, None) => None,
    }
}

/// The matching items, as (index, score) pairs, in their incoming order.
pub open spec fn matching(query: Seq<char>, names: Seq<(Seq<char>, Seq<char>)>) -> Seq<(int, int)>
    decreases names.len(),
{
    if names.len() == 0 {
        seq![]
    } else {
        let before = matching(query, names.drop_last());
        let i = names.len() - 1;
        match item_score(query, names[i].0, names[i].1) {
            Some(s) => before.push((i, s)),
            None => before,
        }
    }
}

/// Inserts an entry after every entry scoring at least as much.
pub open spec fn insert_desc(s: Seq<(int, int)>, x: (int, int)) -> Seq<(int, int)>
    decreases s.len(),
{
    if s.len() == 0 || s.last().1 >= x.1 {
        s.push(x)
    } else {
        insert_desc(s.drop_last(), x).push(s.last())
    }
}

/// A stable sort by descending score.
pub open spec fn sort_desc(s: Seq<(int, int)>) -> Seq<(int, int)>
    decreases s.len(),
{
    if s.len() == 0 {
        seq![]
    } else {
        insert_desc(sort_desc(s.drop_last()), s.last())
    }
}

/// The ranking: matching items, best first, equal scores in incoming order.
pub open spec fn rank_spec(query: Seq<char>, names: Seq<(Seq<char>, Seq<char>)>) -> Seq<(int, int)> {
    sort_desc(matching(query, names))
}

proof fn lemma_matching_bounds(query: Seq<char>, names: Seq<(Seq<char>, Seq<char>)>)
    ensures
        forall|k: int|
            0 <= k < matching(query, names).len() ==> 0 <= #[trigger] matching(query, names)[k].0
                < names.len(),
        matching(query, names).len() <= names.len(),
    decreases names.len(),
{
    if names.len() > 0 {
        lemma_matching_bounds(query, names.drop_last());
    }
}

/// Where `insert_desc` puts the new entry.
proof fn lemma_insert_desc_at(s: Seq<(int, int)>, x: (int, int), p: int)
    requires
        0 <= p <= s.len(),
        p == 0 || s[p - 1].1 >= x.1,
        forall|k: int| p <= k < s.len() ==> #[trigger] s[k].1 < x.1,
    ensures
        insert_desc(s, x) == s.take(p).push(x) + s.skip(p),
    decreases s.len(),
{
    if s.len() == 0 {
        assert(s.take(0).push(x) + s.skip(0) == seq![x]);
    } else if p == s.len() {
        assert(s.take(p) == s);
        assert(s.skip(p).len() == 0);
        assert(s.take(p).push(x) + s.skip(p) == s.push(x));
    } else {
        assert(s.last().1 < x.1);
        let t = s.drop_last();
        lemma_insert_desc_at(t, x, p);
        assert(t.take(p) == s.take(p));
        assert(s.skip(p) == t.skip(p).push(s.last()));
        assert((t.take(p).push(x) + t.skip(p)).push(s.last()) == t.take(p).push(x) + t.skip(p).push(
            s.last(),
        ));
    }
}

proof fn lemma_insert_desc_len(s: Seq<(int, int)>, x: (int, int))
    ensures
        insert_desc(s, x).len() == s.len() + 1,
    decreases s.len(),
{
    if s.len() > 0 && s.last().1 < x.1 {
        lemma_insert_desc_len(s.drop_last(), x);
    }
}

proof fn lemma_sort_desc_len(s: Seq<(int, int)>)
    ensures
        sort_desc(s).len() == s.len(),
    decreases s.len(),
{
    if s.len() > 0 {
        lemma_sort_desc_len(s.drop_last());
        lemma_insert_desc_len(sort_desc(s.drop_last()), s.last());
    }
}

/// Entries are drawn from the input: every index in the sorted list is one
/// that was in the input.
proof fn lemma_insert_desc_elems(s: Seq<(int, int)>, x: (int, int))
    ensures
        forall|k: int|
            0 <= k < insert_desc(s, x).len() ==> #[trigger] insert_desc(s, x)[k] == x || s.contains(
                insert_desc(s, x)[k],
            ),
    decreases s.len(),
{
    lemma_insert_desc_len(s, x);
    if s.len() > 0 && s.last().1 < x.1 {
        let t = s.drop_last();
        lemma_insert_desc_elems(t, x);
        lemma_insert_desc_len(t, x);
        assert forall|k: int| 0 <= k < insert_desc(s, x).len() implies #[trigger] insert_desc(
            s,
            x,
        )[k] == x || s.contains(insert_desc(s, x)[k]) by {
            if k < insert_desc(t, x).len() {
                if insert_desc(t, x)[k] != x {
                    let j = choose|j: int| 0 <= j < t.len() && t[j] == insert_desc(t, x)[k];
                    assert(s[j] == t[j]);
                }
            } else {
                assert(s[s.len() - 1] == s.last());
            }
        }
    } else {
        assert forall|k: int| 0 <= k < insert_desc(s, x).len() implies #[trigger] insert_desc(
            s,
            x,
        )[k] == x || s.contains(insert_desc(s, x)[k]) by {
            if k < s.len() {
                assert(insert_desc(s, x)[k] == s[k]);
            }
        }
    }
}

proof fn lemma_sort_desc_elems(s: Seq<(int, int)>)
    ensures
        forall|k: int| 0 <= k < sort_desc(s).len() ==> s.contains(#[trigger] sort_desc(s)[k]),
    decreases s.len(),
{
    lemma_sort_desc_len(s);
    if s.len() > 0 {
        let t = s.drop_last();
        lemma_sort_desc_elems(t);
        lemma_insert_desc_elems(sort_desc(t), s.last());
        assert forall|k: int| 0 <= k < sort_desc(s).len() implies s.contains(
            #[trigger] sort_desc(s)[k],
        ) by {
            let e = sort_desc(s)[k];
            if e == s.last() {
                assert(s[s.len() - 1] == e);
            } else {
                let j = choose|j: int| 0 <= j < sort_desc(t).len() && sort_desc(t)[j] == e;
                let m = choose|m: int| 0 <= m < t.len() && t[m] == sort_desc(t)[j];
                assert(s[m] == t[m]);
            }
        }
    }
}

/// Rank items against a query, best first, dropping those that do not match.
///
/// `name_of` gives the part of an item that should dominate the ranking (for
/// a tab, its file name) and the item's full description. Equally scored
/// items keep the order they came in.
pub fn rank<'a, T, F>(query: &str, items: &'a [T], name_of: F) -> (r: Vec<(&'a T, i32)>) where
    F: Fn(&T) -> (String, String),

    requires
        forall|i: int| 0 <= i < items@.len() ==> call_requires(name_of, (&items@[i],)),
        forall|i: int, out: (String, String)|
            0 <= i < items@.len() && call_ensures(name_of, (&items@[i],), out) ==> scorable(out.0@)
                && scorable(out.1@),
    ensures
        exists|outs: Seq<(String, String)>|
            {
                &&& outs.len() == items@.len()
                &&& forall|i: int|
                    0 <= i < items@.len() ==> call_ensures(name_of, (&items@[i],), #[trigger] outs[i])
                &&& ranked_as(
                    r@,
                    items@,
                    rank_spec(query@, outs.map_values(|o: (String, String)| (o.0@, o.1@))),
                )
            },
{
    let ghost mut outs: Seq<(String, String)> = seq![];
    let mut found: Vec<(usize, i32)> = Vec::new();
    let n = items.len();
    let mut i: usize = 0;
    while i < n
        invariant
            n == items@.len(),
            i <= n,
            outs.len() == i,
            forall|j: int| 0 <= j < items@.len() ==> call_requires(name_of, (&items@[j],)),
            forall|j: int, out: (String, String)|
                0 <= j < items@.len() && call_ensures(name_of, (&items@[j],), out) ==> scorable(
                    out.0@,
                ) && scorable(out.1@),
            forall|j: int| 0 <= j < i ==> call_ensures(name_of, (&items@[j],), #[trigger] outs[j]),
            pairs_of(found@) == matching(query@, outs.map_values(|o: (String, String)| (o.0@, o.1@))),
        decreases n - i,
    {
        let (name, full) = name_of(&items[i]);
        let ghost out = (name, full);
        let by_name = match score(query, name.as_str()) {
            Some(s) => Some(s + 40),
            None => None,
        };
        let by_full = score(query, full.as_str());
        let best = match (by_name, by_full) {
            (Some(a), Some(b)) => Some(if a >= b { a } else { b }),
            (Some(a), None) => Some(a),
            (None, Some(b)) => Some(b),
            (None, None) => None,
        };
        proof {
            let old_names = outs.map_values(|o: (String, String)| (o.0@, o.1@));
            outs = outs.push(out);
            let names = outs.map_values(|o: (String, String)| (o.0@, o.1@));
            assert(names.drop_last() == old_names);
            assert(names[i as int] == (name@, full@));
        }
        let ghost found_before = found@;
        match best {
            Some(s) => {
                found.push((i, s));
                assert(pairs_of(found@) =~= pairs_of(found_before).push((i as int, s as int)));
            },
            None => {},
        }
        i += 1;
    }
    let ghost names = outs.map_values(|o: (String, String)| (o.0@, o.1@));
    proof {
        lemma_matching_bounds(query@, names);
    }
    // Insertion sort: each entry goes after everything scoring at least as
    // much, so equal scores keep their incoming order.
    let mut sorted: Vec<(usize, i32)> = Vec::new();
    let m = found.len();
    let mut k: usize = 0;
    while k < m
        invariant
            m == found@.len(),
            k <= m,
            pairs_of(found@) == matching(query@, names),
            pairs_of(sorted@) == sort_desc(pairs_of(found@).take(k as int)),
        decreases m - k,
    {
        let x = found[k];
        let mut p = sorted.len();
        while p > 0 && sorted[p - 1].1 < x.1
            invariant
                p <= sorted@.len(),
                forall|j: int| p <= j < sorted@.len() ==> #[trigger] sorted@[j].1 < x.1,
            decreases p,
        {
            p -= 1;
        }
        proof {
            let s = pairs_of(sorted@);
            let xp = (x.0 as int, x.1 as int);
            assert forall|j: int| p <= j < s.len() implies #[trigger] s[j].1 < xp.1 by {
                assert(s[j] == (sorted@[j].0 as int, sorted@[j].1 as int));
            }
            lemma_insert_desc_at(s, xp, p as int);
            assert(pairs_of(found@).take(k + 1).drop_last() == pairs_of(found@).take(k as int));
            assert(pairs_of(found@).take(k + 1).last() == xp);
        }
        let ghost before = sorted@;
        sorted.insert(p, x);
        proof {
            let xp = (x.0 as int, x.1 as int);
            assert(pairs_of(sorted@) =~= pairs_of(before).take(p as int).push(xp) + pairs_of(
                before,
            ).skip(p as int));
        }
        k += 1;
    }
    assert(pairs_of(found@).take(m as int) == pairs_of(found@));
    let ghost ranking = rank_spec(query@, names);
    proof {
        lemma_sort_desc_elems(matching(query@, names));
        lemma_sort_desc_len(matching(query@, names));
        assert forall|j: int| 0 <= j < ranking.len() implies 0 <= #[trigger] ranking[j].0 < n by {
            let e = ranking[j];
            let t = choose|t: int| 0 <= t < matching(query@, names).len() && matching(query@, names)[t] == e;
        }
    }
    let mut out: Vec<(&'a T, i32)> = Vec::new();
    let len = sorted.len();
    let mut j: usize = 0;
    while j < len
        invariant
            len == sorted@.len(),
            n == items@.len(),
            j <= len,
            pairs_of(sorted@) == ranking,
            forall|t: int| 0 <= t < ranking.len() ==> 0 <= #[trigger] ranking[t].0 < n,
            out@.len() == j,
            forall|t: int|
                0 <= t < j ==> {
                    &&& *(#[trigger] out@[t]).0 == items@[ranking[t].0]
                    &&& out@[t].1 as int == ranking[t].1
                },
        decreases len - j,
    {
        let (idx, sc) = sorted[j];
        assert(ranking[j as int] == (idx as int, sc as int));
        out.push((&items[idx], sc));
        j += 1;
    }
    assert(ranked_as(out@, items@, ranking));
    out
}

/// A ranking's entries as (index, score) pairs of integers.
pub open spec fn pairs_of(v: Seq<(usize, i32)>) -> Seq<(int, int)> {
    v.map_values(|e: (usize, i32)| (e.0 as int, e.1 as int))
}

/// The returned entries are the ranked items with their scores.
pub open spec fn ranked_as<T>(r: Seq<(&T, i32)>, items: Seq<T>, ranking: Seq<(int, int)>) -> bool {
    &&& r.len() == ranking.len()
    &&& forall|k: int|
        0 <= k < r.len() ==> {
            &&& 0 <= ranking[k].0 < items.len()
            &&& *(#[trigger] r[k]).0 == items[ranking[k].0]
            &&& r[k].1 as int == ranking[k].1
        }
}

/// Higher scores first; among equal scores, the earlier item first.
pub open spec fn best_first(s: Seq<(int, int)>) -> bool {
    forall|i: int, j: int|
        0 <= i < j < s.len() ==> #[trigger] s[i].1 > #[trigger] s[j].1 || (s[i].1 == s[j].1
            && s[i].0 < s[j].0)
}

pub open spec fn increasing_indices(s: Seq<(int, int)>) -> bool {
    forall|i: int, j: int| 0 <= i < j < s.len() ==> #[trigger] s[i].0 < #[trigger] s[j].0
}

proof fn lemma_matching_increasing(query: Seq<char>, names: Seq<(Seq<char>, Seq<char>)>)
    ensures
        increasing_indices(matching(query, names)),
    decreases names.len(),
{
    if names.len() > 0 {
        lemma_matching_increasing(query, names.drop_last());
        lemma_matching_bounds(query, names.drop_last());
    }
}

proof fn lemma_insert_desc_best_first(s: Seq<(int, int)>, x: (int, int))
    requires
        best_first(s),
        forall|k: int| 0 <= k < s.len() ==> #[trigger] s[k].0 < x.0,
    ensures
        best_first(insert_desc(s, x)),
    decreases s.len(),
{
    lemma_insert_desc_len(s, x);
    if s.len() == 0 {
    } else if s.last().1 >= x.1 {
        let r = s.push(x);
        assert forall|i: int, j: int| 0 <= i < j < r.len() implies #[trigger] r[i].1 > #[trigger] r[
            j
        ].1 || (r[i].1 == r[j].1 && r[i].0 < r[j].0) by {
            if j == s.len() {
                assert(r[i] == s[i]);
                if i < s.len() - 1 {
                    assert(s[i].1 > s[s.len() - 1].1 || s[i].1 == s[s.len() - 1].1);
                }
            } else {
                assert(r[i] == s[i]);
                assert(r[j] == s[j]);
            }
        }
    } else {
        let t = s.drop_last();
        assert(best_first(t)) by {
            assert forall|i: int, j: int| 0 <= i < j < t.len() implies #[trigger] t[i].1
                > #[trigger] t[j].1 || (t[i].1 == t[j].1 && t[i].0 < t[j].0) by {
                assert(t[i] == s[i]);
                assert(t[j] == s[j]);
            }
        }
        assert forall|k: int| 0 <= k < t.len() implies #[trigger] t[k].0 < x.0 by {
            assert(t[k] == s[k]);
        }
        lemma_insert_desc_best_first(t, x);
        lemma_insert_desc_elems(t, x);
        lemma_insert_desc_len(t, x);
        let u = insert_desc(t, x);
        let r = u.push(s.last());
        assert forall|i: int, j: int| 0 <= i < j < r.len() implies #[trigger] r[i].1 > #[trigger] r[
            j
        ].1 || (r[i].1 == r[j].1 && r[i].0 < r[j].0) by {
            if j == u.len() {
                assert(r[i] == u[i]);
                assert(r[j] == s.last());
                if u[i] != x {
                    let m = choose|m: int| 0 <= m < t.len() && t[m] == u[i];
                    assert(s[m] == t[m]);
                    assert(s[m].1 > s[s.len() - 1].1 || (s[m].1 == s[s.len() - 1].1 && s[m].0
                        < s[s.len() - 1].0));
                }
            } else {
                assert(r[i] == u[i]);
                assert(r[j] == u[j]);
            }
        }
    }
}

proof fn lemma_sort_desc_best_first(s: Seq<(int, int)>)
    requires
        increasing_indices(s),
    ensures
        best_first(sort_desc(s)),
    decreases s.len(),
{
    if s.len() > 0 {
        let t = s.drop_last();
        assert(increasing_indices(t)) by {
            assert forall|i: int, j: int| 0 <= i < j < t.len() implies #[trigger] t[i].0
                < #[trigger] t[j].0 by {
                assert(t[i] == s[i]);
                assert(t[j] == s[j]);
            }
        }
        lemma_sort_desc_best_first(t);
        lemma_sort_desc_elems(t);
        lemma_sort_desc_len(t);
        let u = sort_desc(t);
        assert forall|k: int| 0 <= k < u.len() implies #[trigger] u[k].0 < s.last().0 by {
            let m = choose|m: int| 0 <= m < t.len() && t[m] == u[k];
            assert(s[m] == t[m]);
        }
        lemma_insert_desc_best_first(u, s.last());
    }
}

/// The ranking puts higher scores first, and keeps equally scored items in
/// the order they came in (for the switcher, most recently used first).
pub proof fn ranking_is_best_first(query: Seq<char>, names: Seq<(Seq<char>, Seq<char>)>)
    ensures
        best_first(rank_spec(query, names)),
{
    lemma_matching_increasing(query, names);
    lemma_sort_desc_best_first(matching(query, names));
}

/// The ranking holds the matching items and nothing else: its entries are
/// matches, one per matching item.
pub proof fn ranking_holds_exactly_the_matches(
    query: Seq<char>,
    names: Seq<(Seq<char>, Seq<char>)>,
)
    ensures
        rank_spec(query, names).len() == matching(query, names).len(),
        forall|k: int|
            0 <= k < rank_spec(query, names).len() ==> matching(query, names).contains(
                #[trigger] rank_spec(query, names)[k],
            ),
        forall|k: int|
            0 <= k < matching(query, names).len() ==> item_score(
                query,
                names[(#[trigger] matching(query, names)[k]).0].0,
                names[matching(query, names)[k].0].1,
            ) == Some(matching(query, names)[k].1),
{
    lemma_sort_desc_len(matching(query, names));
    lemma_sort_desc_elems(matching(query, names));
    lemma_matching_scores(query, names);
}

proof fn lemma_matching_scores(query: Seq<char>, names: Seq<(Seq<char>, Seq<char>)>)
    ensures
        forall|k: int|
            0 <= k < matching(query, names).len() ==> 0 <= (#[trigger] matching(query, names)[k]).0
                < names.len() && item_score(
                query,
                names[matching(query, names)[k].0].0,
                names[matching(query, names)[k].0].1,
            ) == Some(matching(query, names)[k].1),
    decreases names.len(),
{
    if names.len() > 0 {
        let t = names.drop_last();
        lemma_matching_scores(query, t);
        assert forall|k: int| 0 <= k < matching(query, names).len() implies 0 <= (
        #[trigger] matching(query, names)[k]).0 < names.len() && item_score(
            query,
            names[matching(query, names)[k].0].0,
            names[matching(query, names)[k].0].1,
        ) == Some(matching(query, names)[k].1) by {
            if k < matching(query, t).len() {
                assert(matching(query, names)[k] == matching(query, t)[k]);
                assert(names[matching(query, t)[k].0] == t[matching(query, t)[k].0]);
            }
        }
    }
}

/// `q` appears in `s` in order, not necessarily side by side.
pub open spec fn is_subsequence(q: Seq<char>, s: Seq<char>) -> bool
    decreases s.len(),
{
    if q.len() == 0 {
        true
    } else if s.len() == 0 {
        false
    } else {
        (q.last() == s.last() && is_subsequence(q.drop_last(), s.drop_last())) || is_subsequence(
            q,
            s.drop_last(),
        )
    }
}

/// Greedy matching never loses ground: whatever prefix of the query fits in
/// the first `i` characters, it has matched at least that much.
proof fn lemma_greedy_complete(q: Seq<char>, c: Seq<char>, lower: Seq<char>, i: nat, m: nat)
    requires
        i <= lower.len(),
        m <= q.len(),
        is_subsequence(q.take(m as int), lower.take(i as int)),
    ensures
        match_state(q, c, lower, i).0 >= m,
    decreases i,
{
    if m > 0 && i > 0 {
        let s = lower.take(i as int);
        let t = q.take(m as int);
        assert(s.drop_last() == lower.take(i - 1));
        assert(t.drop_last() == q.take(m - 1));
        lemma_match_state_bounds(q, c, lower, (i - 1) as nat);
        if is_subsequence(t, s.drop_last()) {
            lemma_greedy_complete(q, c, lower, (i - 1) as nat, m);
        } else {
            lemma_greedy_complete(q, c, lower, (i - 1) as nat, (m - 1) as nat);
        }
    } else if m > 0 {
        assert(lower.take(i as int).len() == 0);
    }
}

/// What greedy matching has matched after `i` characters does fit there.
proof fn lemma_greedy_sound(q: Seq<char>, c: Seq<char>, lower: Seq<char>, i: nat)
    requires
        i <= lower.len(),
    ensures
        is_subsequence(q.take(match_state(q, c, lower, i).0 as int), lower.take(i as int)),
    decreases i,
{
    lemma_match_state_bounds(q, c, lower, i);
    if i > 0 {
        lemma_greedy_sound(q, c, lower, (i - 1) as nat);
        lemma_match_state_bounds(q, c, lower, (i - 1) as nat);
        let qi0 = match_state(q, c, lower, (i - 1) as nat).0;
        let qi = match_state(q, c, lower, i).0;
        let s = lower.take(i as int);
        assert(s.drop_last() == lower.take(i - 1));
        if qi > qi0 {
            assert(q.take(qi as int).drop_last() == q.take(qi0 as int));
        }
    }
}

/// Matching is by subsequence: where lowercasing keeps the candidate's
/// length, a non-empty query matches exactly when its lowercased characters
/// appear in order in the lowercased candidate, so `mn` finds `main.rs`.
pub proof fn matching_is_by_subsequence(query: Seq<char>, candidate: Seq<char>)
    requires
        query.len() > 0,
        lower_all(candidate).len() == candidate.len(),
    ensures
        score_spec(query, candidate) is Some <==> is_subsequence(lower_all(query), lower_all(candidate)),
{
    let q = lower_all(query);
    let lower = lower_all(candidate);
    let n = lower.len();
    lemma_match_state_bounds(q, candidate, lower, n);
    assert(lower.take(n as int) == lower);
    assert(q.take(q.len() as int) == q);
    lemma_greedy_sound(q, candidate, lower, n);
    if is_subsequence(q, lower) {
        lemma_greedy_complete(q, candidate, lower, n, q.len());
    }
    if match_state(q, candidate, lower, n).0 == q.len() {
    }
}

/// A match right after a separator starts a word and earns the 12-point
/// word-start bonus on top of its 10 (and 15 more when it follows the
/// previous match), less the position penalty.
pub proof fn a_match_after_a_separator_starts_a_word(c: Seq<char>, i: int, prev: Option<int>)
    requires
        0 < i < c.len(),
        is_separator(c[i - 1]),
    ensures
        points_at(c, i, prev) == 22 + (if prev == Some(i - 1) { 15int } else { 0int })
            - position_penalty(i),
{
}

/// An uppercase letter right after a lowercase one starts a camelCase word:
/// a match there scores as a match after a separator does.
pub proof fn a_camel_case_hump_starts_a_word(c: Seq<char>, i: int, prev: Option<int>)
    requires
        0 < i < c.len(),
        unicode_uppercase(c[i]),
        unicode_lowercase(c[i - 1]),
    ensures
        points_at(c, i, prev) == points_at(c.update(i - 1, '/'), i, prev),
        points_at(c, i, prev) == 22 + (if prev == Some(i - 1) { 15int } else { 0int })
            - position_penalty(i),
{
    a_match_after_a_separator_starts_a_word(c.update(i - 1, '/'), i, prev);
}

} // verus!
