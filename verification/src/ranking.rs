//! Ranking utilities: "largest value by key" and "stable descending sort by
//! count", shared by the day and month aggregators.
//!
//! Both take their entries as an ordered list of pairs, so ties are broken
//! deterministically by the order in which the caller supplies the entries.

use crate::numtext::{dec_digits, parse_count_chars, parse_count_spec, u64_digits};
use crate::strutil::{chars_string, str_chars};
use vstd::prelude::*;

verus! {

/// One left-to-right scan step of the "largest value" search: strict `>`
/// comparison, so the first entry reaching the maximum wins ties, and an
/// entry never beats the starting best of zero unless it is positive.
pub open spec fn largest_scan(s: Seq<(i64, i64)>, key: i64, best: i64) -> (i64, i64)
    decreases s.len(),
{
    if s.len() == 0 {
        (key, best)
    } else if s[0].1 > best {
        largest_scan(s.drop_first(), s[0].0, s[0].1)
    } else {
        largest_scan(s.drop_first(), key, best)
    }
}

/// The scan never lowers the running best, and its result bounds every value
/// in the list.
pub proof fn lemma_largest_scan_bounds(s: Seq<(i64, i64)>, key: i64, best: i64)
    ensures
        best <= largest_scan(s, key, best).1,
        forall|j: int| 0 <= j < s.len() ==> s[j].1 <= largest_scan(s, key, best).1,
    decreases s.len(),
{
    if s.len() > 0 {
        if s[0].1 > best {
            lemma_largest_scan_bounds(s.drop_first(), s[0].0, s[0].1);
        } else {
            lemma_largest_scan_bounds(s.drop_first(), key, best);
        }
        assert forall|j: int| 0 <= j < s.len() implies s[j].1 <= largest_scan(s, key, best).1 by {
            if j > 0 {
                assert(s[j] == s.drop_first()[j - 1]);
            }
        }
    }
}

/// Returns `[key, value]` of the entry with the largest value, scanning left
/// to right with strict `>` so the first maximal entry wins ties; an empty
/// list, or one with no positive value, yields `[0, 0]`.
pub fn largest_value_hashmap(hm: &Vec<(i64, i64)>) -> (r: Vec<i64>)
    ensures
        r@.len() == 2,
        (r@[0], r@[1]) == largest_scan(hm@, 0, 0),
        forall|j: int| 0 <= j < hm@.len() ==> hm@[j].1 <= r@[1],
{
    let mut largest: i64 = 0;
    let mut largest_key: i64 = 0;
    let n = hm.len();
    assert(hm@.skip(0) =~= hm@);
    for i in 0..n
        invariant
            n == hm@.len(),
            largest_scan(hm@, 0, 0) == largest_scan(hm@.skip(i as int), largest_key, largest),
    {
        assert(hm@.skip(i as int).drop_first() =~= hm@.skip(i + 1));
        assert(hm@.skip(i as int)[0] == hm@[i as int]);
        if hm[i].1 > largest {
            largest = hm[i].1;
            largest_key = hm[i].0;
        }
    }
    assert(hm@.skip(n as int) =~= Seq::<(i64, i64)>::empty());
    proof {
        lemma_largest_scan_bounds(hm@, 0, 0);
    }
    let mut r: Vec<i64> = Vec::new();
    r.push(largest_key);
    r.push(largest);
    r
}

/// The "largest value" scan over string-keyed entries, with the same strict
/// `>` rule: the first entry reaching the maximum wins ties, and the empty
/// key with value zero stands when no value is positive.
pub open spec fn largest_scan_str(s: Seq<(String, i64)>, key: Seq<char>, best: i64) -> (
    Seq<char>,
    i64,
)
    decreases s.len(),
{
    if s.len() == 0 {
        (key, best)
    } else if s[0].1 > best {
        largest_scan_str(s.drop_first(), s[0].0@, s[0].1)
    } else {
        largest_scan_str(s.drop_first(), key, best)
    }
}

pub proof fn lemma_largest_scan_str_bounds(s: Seq<(String, i64)>, key: Seq<char>, best: i64)
    ensures
        best <= largest_scan_str(s, key, best).1,
        forall|j: int| 0 <= j < s.len() ==> s[j].1 <= largest_scan_str(s, key, best).1,
    decreases s.len(),
{
    if s.len() > 0 {
        if s[0].1 > best {
            lemma_largest_scan_str_bounds(s.drop_first(), s[0].0@, s[0].1);
        } else {
            lemma_largest_scan_str_bounds(s.drop_first(), key, best);
        }
        assert forall|j: int| 0 <= j < s.len() implies s[j].1
            <= largest_scan_str(s, key, best).1 by {
            if j > 0 {
                assert(s[j] == s.drop_first()[j - 1]);
            }
        }
    }
}

/// Returns `[key, value-text]` of the entry with the largest value, first
/// maximal entry winning ties; with no positive value the key is empty and
/// the value text is `"0"`.
pub fn largest_value(entries: &Vec<(String, i64)>) -> (r: Vec<String>)
    ensures
        r@.len() == 2,
        r@[0]@ == largest_scan_str(entries@, Seq::<char>::empty(), 0).0,
        r@[1]@ == dec_digits(largest_scan_str(entries@, Seq::<char>::empty(), 0).1 as nat),
        largest_scan_str(entries@, Seq::<char>::empty(), 0).1 >= 0,
{
    let mut largest: i64 = 0;
    let mut largest_key = String::new();
    let n = entries.len();
    proof {
        assert(entries@.skip(0) =~= entries@);
    }
    for i in 0..n
        invariant
            n == entries@.len(),
            largest >= 0,
            largest_scan_str(entries@, Seq::<char>::empty(), 0) == largest_scan_str(
                entries@.skip(i as int),
                largest_key@,
                largest,
            ),
    {
        assert(entries@.skip(i as int).drop_first() =~= entries@.skip(i + 1));
        assert(entries@.skip(i as int)[0] == entries@[i as int]);
        if entries[i].1 > largest {
            largest = entries[i].1;
            largest_key = entries[i].0.clone();
        }
    }
    assert(entries@.skip(n as int) =~= Seq::<(String, i64)>::empty());
    let digits = u64_digits(largest as u64);
    let text = chars_string(&digits);
    let mut r: Vec<String> = Vec::new();
    r.push(largest_key);
    r.push(text);
    r
}

/// The count a ranked entry denotes: its value text parsed as a decimal
/// integer, with malformed text counting as zero.
pub open spec fn count_of(e: (String, String)) -> int {
    parse_count_spec(e.1@)
}

/// Inserting one entry into a descending-sorted list, after every entry
/// whose count is at least its own: the step of a stable insertion sort.
pub open spec fn insert_desc(e: (String, String), s: Seq<(String, String)>) -> Seq<
    (String, String),
>
    decreases s.len(),
{
    if s.len() == 0 {
        seq![e]
    } else if count_of(s[0]) >= count_of(e) {
        seq![s[0]] + insert_desc(e, s.drop_first())
    } else {
        seq![e] + s
    }
}

/// The stable descending sort by count: entries are inserted in their
/// original order, each after all earlier entries of equal count.
pub open spec fn sort_desc(s: Seq<(String, String)>) -> Seq<(String, String)>
    decreases s.len(),
{
    if s.len() == 0 {
        Seq::empty()
    } else {
        insert_desc(s.last(), sort_desc(s.drop_last()))
    }
}

pub open spec fn sorted_desc(s: Seq<(String, String)>) -> bool {
    forall|i: int, j: int| 0 <= i < j < s.len() ==> count_of(s[i]) >= count_of(s[j])
}

proof fn lemma_insert_desc_len(e: (String, String), s: Seq<(String, String)>)
    ensures
        insert_desc(e, s).len() == s.len() + 1,
    decreases s.len(),
{
    if s.len() > 0 && count_of(s[0]) >= count_of(e) {
        lemma_insert_desc_len(e, s.drop_first());
    }
}

/// Insertion keeps a descending-sorted list sorted.
proof fn lemma_insert_desc_sorted(e: (String, String), s: Seq<(String, String)>)
    requires
        sorted_desc(s),
    ensures
        sorted_desc(insert_desc(e, s)),
    decreases s.len(),
{
    if s.len() == 0 {
    } else if count_of(s[0]) >= count_of(e) {
        assert(sorted_desc(s.drop_first())) by {
            assert(forall|i: int, j: int|
                0 <= i < j < s.drop_first().len() ==> s.drop_first()[i] == s[i + 1]
                    && s.drop_first()[j] == s[j + 1]);
        }
        lemma_insert_desc_sorted(e, s.drop_first());
        lemma_insert_desc_len(e, s.drop_first());
        let t = seq![s[0]] + insert_desc(e, s.drop_first());
        assert forall|i: int, j: int| 0 <= i < j < t.len() implies count_of(t[i]) >= count_of(
            t[j],
        ) by {
            if i == 0 {
                lemma_insert_desc_members(e, s.drop_first(), j - 1);
            } else {
                assert(t[i] == insert_desc(e, s.drop_first())[i - 1]);
                assert(t[j] == insert_desc(e, s.drop_first())[j - 1]);
            }
        }
    } else {
        let t = seq![e] + s;
        assert forall|i: int, j: int| 0 <= i < j < t.len() implies count_of(t[i]) >= count_of(
            t[j],
        ) by {
            if i == 0 {
                assert(t[j] == s[j - 1]);
                if j > 1 {
                    assert(count_of(s[0]) >= count_of(s[j - 1]));
                }
            } else {
                assert(t[i] == s[i - 1] && t[j] == s[j - 1]);
            }
        }
    }
}

/// Every element of an inserted list is the new entry or one of the old
/// elements, with a count bounded by the head rule.
proof fn lemma_insert_desc_members(e: (String, String), s: Seq<(String, String)>, j: int)
    requires
        0 <= j < insert_desc(e, s).len(),
    ensures
        insert_desc(e, s)[j] == e || (exists|i: int| 0 <= i < s.len() && insert_desc(e, s)[j]
            == s[i]),
    decreases s.len(),
{
    if s.len() == 0 {
    } else if count_of(s[0]) >= count_of(e) {
        if j == 0 {
            assert(insert_desc(e, s)[0] == s[0]);
        } else {
            lemma_insert_desc_members(e, s.drop_first(), j - 1);
            let t = insert_desc(e, s.drop_first());
            assert(insert_desc(e, s)[j] == t[j - 1]);
            if t[j - 1] != e {
                let i = choose|i: int| 0 <= i < s.drop_first().len() && t[j - 1]
                    == s.drop_first()[i];
                assert(s.drop_first()[i] == s[i + 1]);
            }
        }
    } else {
        if j == 0 {
        } else {
            assert(insert_desc(e, s)[j] == s[j - 1]);
        }
    }
}

/// Insertion preserves the multiset of entries.
proof fn lemma_insert_desc_multiset(e: (String, String), s: Seq<(String, String)>)
    ensures
        insert_desc(e, s).to_multiset() == s.to_multiset().insert(e),
    decreases s.len(),
{
    broadcast use vstd::seq_lib::group_to_multiset_ensures;
    broadcast use vstd::seq_lib::to_multiset_insert;
    broadcast use vstd::multiset::group_multiset_axioms;

    if s.len() == 0 {
        assert(seq![e] =~= Seq::<(String, String)>::empty().insert(0, e));
        assert(seq![e].to_multiset() == Seq::<(String, String)>::empty().to_multiset().insert(e));
    } else if count_of(s[0]) >= count_of(e) {
        lemma_insert_desc_multiset(e, s.drop_first());
        let d = s.drop_first();
        let t = insert_desc(e, d);
        assert(insert_desc(e, s) =~= t.insert(0, s[0]));
        assert(insert_desc(e, s).to_multiset() == t.to_multiset().insert(s[0]));
        assert(s =~= d.insert(0, s[0]));
        assert(s.to_multiset() == d.to_multiset().insert(s[0]));
        assert(d.to_multiset().insert(e).insert(s[0]) =~= d.to_multiset().insert(s[0]).insert(e));
    } else {
        assert(insert_desc(e, s) =~= s.insert(0, e));
        assert(insert_desc(e, s).to_multiset() == s.to_multiset().insert(e));
    }
}

/// The sort is a permutation: no entry appears or vanishes.
pub proof fn lemma_sort_desc_multiset(s: Seq<(String, String)>)
    ensures
        sort_desc(s).to_multiset() == s.to_multiset(),
    decreases s.len(),
{
    broadcast use vstd::seq_lib::group_to_multiset_ensures;

    if s.len() > 0 {
        lemma_sort_desc_multiset(s.drop_last());
        lemma_insert_desc_multiset(s.last(), sort_desc(s.drop_last()));
        assert(s =~= s.drop_last().push(s.last()));
        assert(s.to_multiset() =~= s.drop_last().to_multiset().insert(s.last()));
    }
}

/// The sort's result is descending by count.
pub proof fn lemma_sort_desc_sorted(s: Seq<(String, String)>)
    ensures
        sorted_desc(sort_desc(s)),
    decreases s.len(),
{
    if s.len() > 0 {
        lemma_sort_desc_sorted(s.drop_last());
        lemma_insert_desc_sorted(s.last(), sort_desc(s.drop_last()));
    }
}

pub proof fn lemma_sort_desc_len(s: Seq<(String, String)>)
    ensures
        sort_desc(s).len() == s.len(),
    decreases s.len(),
{
    if s.len() > 0 {
        lemma_sort_desc_len(s.drop_last());
        lemma_insert_desc_len(s.last(), sort_desc(s.drop_last()));
    }
}

/// Where an entry belongs in a sorted prefix: after every entry with a
/// count at least its own.
proof fn lemma_insert_desc_split(e: (String, String), s: Seq<(String, String)>, p: int)
    requires
        0 <= p <= s.len(),
        forall|j: int| 0 <= j < p ==> count_of(s[j]) >= count_of(e),
        p == s.len() || count_of(s[p]) < count_of(e),
    ensures
        insert_desc(e, s) == s.take(p) + seq![e] + s.skip(p),
    decreases p,
{
    if p == 0 {
        if s.len() == 0 {
            assert(insert_desc(e, s) =~= s.take(0) + seq![e] + s.skip(0));
        } else {
            assert(insert_desc(e, s) =~= s.take(0) + seq![e] + s.skip(0));
        }
    } else {
        assert(count_of(s[0]) >= count_of(e));
        assert(forall|j: int|
            0 <= j < p - 1 ==> s.drop_first()[j] == s[j + 1]);
        assert(p - 1 == s.drop_first().len() || count_of(s.drop_first()[p - 1]) < count_of(e));
        lemma_insert_desc_split(e, s.drop_first(), p - 1);
        assert(seq![s[0]] + (s.drop_first().take(p - 1) + seq![e] + s.drop_first().skip(p - 1))
            =~= s.take(p) + seq![e] + s.skip(p));
    }
}

/// Inserting one tallied entry into a descending-sorted list, after every
/// entry whose play count is at least its own.
pub open spec fn insert_count_desc(e: (String, u64), s: Seq<(String, u64)>) -> Seq<(String, u64)>
    decreases s.len(),
{
    if s.len() == 0 {
        seq![e]
    } else if s[0].1 >= e.1 {
        seq![s[0]] + insert_count_desc(e, s.drop_first())
    } else {
        seq![e] + s
    }
}

/// The stable descending sort of tallied play counts.
pub open spec fn sort_count_desc(s: Seq<(String, u64)>) -> Seq<(String, u64)>
    decreases s.len(),
{
    if s.len() == 0 {
        Seq::empty()
    } else {
        insert_count_desc(s.last(), sort_count_desc(s.drop_last()))
    }
}

pub open spec fn sorted_count_desc(s: Seq<(String, u64)>) -> bool {
    forall|i: int, j: int| 0 <= i < j < s.len() ==> s[i].1 >= s[j].1
}

proof fn lemma_insert_count_desc_len(e: (String, u64), s: Seq<(String, u64)>)
    ensures
        insert_count_desc(e, s).len() == s.len() + 1,
    decreases s.len(),
{
    if s.len() > 0 && s[0].1 >= e.1 {
        lemma_insert_count_desc_len(e, s.drop_first());
    }
}

proof fn lemma_insert_count_desc_members(e: (String, u64), s: Seq<(String, u64)>, j: int)
    requires
        0 <= j < insert_count_desc(e, s).len(),
    ensures
        insert_count_desc(e, s)[j] == e || (exists|i: int|
            0 <= i < s.len() && insert_count_desc(e, s)[j] == s[i]),
    decreases s.len(),
{
    if s.len() == 0 {
    } else if s[0].1 >= e.1 {
        if j == 0 {
            assert(insert_count_desc(e, s)[0] == s[0]);
        } else {
            lemma_insert_count_desc_members(e, s.drop_first(), j - 1);
            let t = insert_count_desc(e, s.drop_first());
            assert(insert_count_desc(e, s)[j] == t[j - 1]);
            if t[j - 1] != e {
                let i = choose|i: int| 0 <= i < s.drop_first().len() && t[j - 1]
                    == s.drop_first()[i];
                assert(s.drop_first()[i] == s[i + 1]);
            }
        }
    } else {
        if j > 0 {
            assert(insert_count_desc(e, s)[j] == s[j - 1]);
        }
    }
}

proof fn lemma_insert_count_desc_sorted(e: (String, u64), s: Seq<(String, u64)>)
    requires
        sorted_count_desc(s),
    ensures
        sorted_count_desc(insert_count_desc(e, s)),
    decreases s.len(),
{
    if s.len() == 0 {
    } else if s[0].1 >= e.1 {
        assert(sorted_count_desc(s.drop_first())) by {
            assert(forall|i: int, j: int|
                0 <= i < j < s.drop_first().len() ==> s.drop_first()[i] == s[i + 1]
                    && s.drop_first()[j] == s[j + 1]);
        }
        lemma_insert_count_desc_sorted(e, s.drop_first());
        lemma_insert_count_desc_len(e, s.drop_first());
        let t = seq![s[0]] + insert_count_desc(e, s.drop_first());
        assert forall|i: int, j: int| 0 <= i < j < t.len() implies t[i].1 >= t[j].1 by {
            if i == 0 {
                lemma_insert_count_desc_members(e, s.drop_first(), j - 1);
            } else {
                assert(t[i] == insert_count_desc(e, s.drop_first())[i - 1]);
                assert(t[j] == insert_count_desc(e, s.drop_first())[j - 1]);
            }
        }
    } else {
        let t = seq![e] + s;
        assert forall|i: int, j: int| 0 <= i < j < t.len() implies t[i].1 >= t[j].1 by {
            if i == 0 {
                assert(t[j] == s[j - 1]);
                if j > 1 {
                    assert(s[0].1 >= s[j - 1].1);
                }
            } else {
                assert(t[i] == s[i - 1] && t[j] == s[j - 1]);
            }
        }
    }
}

proof fn lemma_insert_count_desc_multiset(e: (String, u64), s: Seq<(String, u64)>)
    ensures
        insert_count_desc(e, s).to_multiset() == s.to_multiset().insert(e),
    decreases s.len(),
{
    broadcast use vstd::seq_lib::group_to_multiset_ensures;
    broadcast use vstd::seq_lib::to_multiset_insert;
    broadcast use vstd::multiset::group_multiset_axioms;

    if s.len() == 0 {
        assert(seq![e] =~= Seq::<(String, u64)>::empty().insert(0, e));
        assert(seq![e].to_multiset() == Seq::<(String, u64)>::empty().to_multiset().insert(e));
    } else if s[0].1 >= e.1 {
        lemma_insert_count_desc_multiset(e, s.drop_first());
        let d = s.drop_first();
        let t = insert_count_desc(e, d);
        assert(insert_count_desc(e, s) =~= t.insert(0, s[0]));
        assert(insert_count_desc(e, s).to_multiset() == t.to_multiset().insert(s[0]));
        assert(s =~= d.insert(0, s[0]));
        assert(s.to_multiset() == d.to_multiset().insert(s[0]));
        assert(d.to_multiset().insert(e).insert(s[0]) =~= d.to_multiset().insert(s[0]).insert(e));
    } else {
        assert(insert_count_desc(e, s) =~= s.insert(0, e));
        assert(insert_count_desc(e, s).to_multiset() == s.to_multiset().insert(e));
    }
}

pub proof fn lemma_sort_count_desc_multiset(s: Seq<(String, u64)>)
    ensures
        sort_count_desc(s).to_multiset() == s.to_multiset(),
    decreases s.len(),
{
    broadcast use vstd::seq_lib::group_to_multiset_ensures;

    if s.len() > 0 {
        lemma_sort_count_desc_multiset(s.drop_last());
        lemma_insert_count_desc_multiset(s.last(), sort_count_desc(s.drop_last()));
        assert(s =~= s.drop_last().push(s.last()));
        assert(s.to_multiset() =~= s.drop_last().to_multiset().insert(s.last()));
    }
}

pub proof fn lemma_sort_count_desc_sorted(s: Seq<(String, u64)>)
    ensures
        sorted_count_desc(sort_count_desc(s)),
    decreases s.len(),
{
    if s.len() > 0 {
        lemma_sort_count_desc_sorted(s.drop_last());
        lemma_insert_count_desc_sorted(s.last(), sort_count_desc(s.drop_last()));
    }
}

pub proof fn lemma_sort_count_desc_len(s: Seq<(String, u64)>)
    ensures
        sort_count_desc(s).len() == s.len(),
    decreases s.len(),
{
    if s.len() > 0 {
        lemma_sort_count_desc_len(s.drop_last());
        lemma_insert_count_desc_len(s.last(), sort_count_desc(s.drop_last()));
    }
}

proof fn lemma_insert_count_desc_split(e: (String, u64), s: Seq<(String, u64)>, p: int)
    requires
        0 <= p <= s.len(),
        forall|j: int| 0 <= j < p ==> s[j].1 >= e.1,
        p == s.len() || s[p].1 < e.1,
    ensures
        insert_count_desc(e, s) == s.take(p) + seq![e] + s.skip(p),
    decreases p,
{
    if p == 0 {
        assert(insert_count_desc(e, s) =~= s.take(0) + seq![e] + s.skip(0));
    } else {
        assert(s[0].1 >= e.1);
        assert(forall|j: int| 0 <= j < p - 1 ==> s.drop_first()[j] == s[j + 1]);
        assert(p - 1 == s.drop_first().len() || s.drop_first()[p - 1].1 < e.1);
        lemma_insert_count_desc_split(e, s.drop_first(), p - 1);
        assert(seq![s[0]] + (s.drop_first().take(p - 1) + seq![e] + s.drop_first().skip(p - 1))
            =~= s.take(p) + seq![e] + s.skip(p));
    }
}

/// Sorts tallied play counts descending, keeping the original order among
/// artists of equal count.
pub fn sort_counts(entries: &Vec<(String, u64)>) -> (r: Vec<(String, u64)>)
    ensures
        r@ == sort_count_desc(entries@),
        sorted_count_desc(r@),
        r@.to_multiset() == entries@.to_multiset(),
        r@.len() == entries@.len(),
{
    let mut out: Vec<(String, u64)> = Vec::new();
    let n = entries.len();
    for i in 0..n
        invariant
            n == entries@.len(),
            out@ == sort_count_desc(entries@.take(i as int)),
            sorted_count_desc(out@),
    {
        let e = (entries[i].0.clone(), entries[i].1);
        assert(e == entries@[i as int]);
        let mut p: usize = 0;
        let m = out.len();
        while p < m
            invariant_except_break
                m == out@.len(),
                0 <= p <= m,
                forall|j: int| 0 <= j < p ==> out@[j].1 >= e.1,
            ensures
                m == out@.len(),
                0 <= p <= m,
                forall|j: int| 0 <= j < p ==> out@[j].1 >= e.1,
                p == m || out@[p as int].1 < e.1,
            decreases m - p,
        {
            if out[p].1 < e.1 {
                break ;
            }
            p = p + 1;
        }
        let ghost prev = out@;
        proof {
            lemma_insert_count_desc_split(e, prev, p as int);
            lemma_insert_count_desc_sorted(e, prev);
        }
        out.insert(p, e);
        proof {
            assert(out@ =~= prev.take(p as int) + seq![e] + prev.skip(p as int));
        }
        assert(entries@.take(i + 1).drop_last() =~= entries@.take(i as int));
        assert(entries@.take(i + 1).last() == entries@[i as int]);
    }
    assert(entries@.take(n as int) =~= entries@);
    proof {
        lemma_sort_count_desc_multiset(entries@);
        lemma_sort_count_desc_len(entries@);
    }
    out
}

/// The count an entry's value text denotes.
fn count_of_exec(e: &(String, String)) -> (r: i64)
    ensures
        r == count_of(*e),
{
    let chars = str_chars(e.1.as_str());
    parse_count_chars(&chars)
}

/// Sorts entries by their parsed counts, descending, keeping the original
/// order among entries of equal count.
pub fn sort_value(entries: &Vec<(String, String)>) -> (r: Vec<(String, String)>)
    ensures
        r@ == sort_desc(entries@),
        sorted_desc(r@),
        r@.to_multiset() == entries@.to_multiset(),
        r@.len() == entries@.len(),
{
    let mut out: Vec<(String, String)> = Vec::new();
    let n = entries.len();
    for i in 0..n
        invariant
            n == entries@.len(),
            out@ == sort_desc(entries@.take(i as int)),
            sorted_desc(out@),
    {
        let e = (entries[i].0.clone(), entries[i].1.clone());
        assert(e == entries@[i as int]);
        let c = count_of_exec(&e);
        let mut p: usize = 0;
        let m = out.len();
        while p < m
            invariant_except_break
                m == out@.len(),
                0 <= p <= m,
                forall|j: int| 0 <= j < p ==> count_of(out@[j]) >= count_of(e),
                c == count_of(e),
            ensures
                m == out@.len(),
                0 <= p <= m,
                forall|j: int| 0 <= j < p ==> count_of(out@[j]) >= count_of(e),
                p == m || count_of(out@[p as int]) < count_of(e),
            decreases m - p,
        {
            let cp = count_of_exec(&out[p]);
            if cp < c {
                break ;
            }
            p = p + 1;
        }
        let ghost prev = out@;
        proof {
            lemma_insert_desc_split(e, prev, p as int);
            lemma_insert_desc_sorted(e, prev);
        }
        out.insert(p, e);
        proof {
            assert(out@ =~= prev.take(p as int) + seq![e] + prev.skip(p as int));
        }
        assert(entries@.take(i + 1).drop_last() =~= entries@.take(i as int));
        assert(entries@.take(i + 1).last() == entries@[i as int]);
    }
    assert(entries@.take(n as int) =~= entries@);
    proof {
        lemma_sort_desc_multiset(entries@);
        lemma_sort_desc_len(entries@);
    }
    out
}

} // verus!
