//! The Month-Genre Aggregator: three fixed one-month windows, each tallying
//! play counts per artist, ranking artists by count and keeping the top
//! three with their cached genre tags.

use crate::cache::GenreCache;
use crate::ranking::{insert_count_desc, sort_count_desc, sort_counts};
use crate::timeapi::{add_months_to_timestamp, month_shift, month_shift_ok};
use vstd::prelude::*;

verus! {

/// One tally step: the artist's count rises by one, or a new artist enters
/// with count one at the end.
pub open spec fn bump_spec(t: Seq<(Seq<char>, int)>, k: Seq<char>) -> Seq<(Seq<char>, int)>
    decreases t.len(),
{
    if t.len() == 0 {
        seq![(k, 1int)]
    } else if t[0].0 == k {
        seq![(t[0].0, t[0].1 + 1)] + t.drop_first()
    } else {
        seq![t[0]] + bump_spec(t.drop_first(), k)
    }
}

/// The play-count tally of a window's artist names, in first-seen order.
pub open spec fn tally_spec(names: Seq<Seq<char>>) -> Seq<(Seq<char>, int)>
    decreases names.len(),
{
    if names.len() == 0 {
        Seq::empty()
    } else {
        bump_spec(tally_spec(names.drop_last()), names.last())
    }
}

/// How often a name occurs in a window's events.
pub open spec fn occ(names: Seq<Seq<char>>, k: Seq<char>) -> int
    decreases names.len(),
{
    if names.len() == 0 {
        0
    } else {
        occ(names.drop_last(), k) + if names.last() == k {
            1int
        } else {
            0int
        }
    }
}

pub open spec fn tkeys_unique(t: Seq<(Seq<char>, int)>) -> bool {
    forall|i: int, j: int| 0 <= i < j < t.len() ==> t[i].0 != t[j].0
}

proof fn lemma_bump_existing(t: Seq<(Seq<char>, int)>, k: Seq<char>, p: int)
    requires
        tkeys_unique(t),
        0 <= p < t.len(),
        t[p].0 == k,
    ensures
        bump_spec(t, k) == t.update(p, (k, t[p].1 + 1)),
        tkeys_unique(bump_spec(t, k)),
    decreases t.len(),
{
    if p == 0 {
        assert(bump_spec(t, k) =~= t.update(0, (k, t[0].1 + 1)));
    } else {
        assert(t[0].0 != k);
        let d = t.drop_first();
        assert(tkeys_unique(d)) by {
            assert(forall|i: int| 0 <= i < d.len() ==> d[i] == t[i + 1]);
        }
        assert(d[p - 1] == t[p]);
        lemma_bump_existing(d, k, p - 1);
        assert(bump_spec(t, k) =~= seq![t[0]] + d.update(p - 1, (k, t[p].1 + 1)));
        assert(seq![t[0]] + d.update(p - 1, (k, t[p].1 + 1)) =~= t.update(p, (k, t[p].1 + 1)));
    }
    assert(tkeys_unique(t.update(p, (k, t[p].1 + 1)))) by {
        assert(forall|i: int|
            0 <= i < t.len() ==> t.update(p, (k, t[p].1 + 1))[i].0 == t[i].0);
    }
}

proof fn lemma_bump_new(t: Seq<(Seq<char>, int)>, k: Seq<char>)
    requires
        tkeys_unique(t),
        forall|i: int| 0 <= i < t.len() ==> t[i].0 != k,
    ensures
        bump_spec(t, k) == t.push((k, 1int)),
        tkeys_unique(bump_spec(t, k)),
    decreases t.len(),
{
    if t.len() == 0 {
        assert(bump_spec(t, k) =~= t.push((k, 1int)));
    } else {
        let d = t.drop_first();
        assert(tkeys_unique(d)) by {
            assert(forall|i: int| 0 <= i < d.len() ==> d[i] == t[i + 1]);
        }
        assert(forall|i: int| 0 <= i < d.len() ==> d[i] == t[i + 1]);
        lemma_bump_new(d, k);
        assert(bump_spec(t, k) =~= seq![t[0]] + d.push((k, 1int)));
        assert(seq![t[0]] + d.push((k, 1int)) =~= t.push((k, 1int)));
    }
    let b = t.push((k, 1int));
    assert(tkeys_unique(b)) by {
        assert(forall|i: int| 0 <= i < t.len() ==> b[i] == t[i]);
        assert(b[t.len() as int].0 == k);
    }
}

/// The tally is sound: keys are unique, and each artist's tallied count is
/// exactly how often the window's events name it.
pub proof fn lemma_tally_spec_correct(names: Seq<Seq<char>>)
    ensures
        tkeys_unique(tally_spec(names)),
        forall|j: int|
            0 <= j < tally_spec(names).len() ==> #[trigger] tally_spec(names)[j].1 == occ(
                names,
                tally_spec(names)[j].0,
            ),
        forall|k: Seq<char>|
            occ(names, k) > 0 <==> exists|j: int|
                0 <= j < tally_spec(names).len() && #[trigger] tally_spec(names)[j].0 == k,
        tally_spec(names).len() <= names.len(),
    decreases names.len(),
{
    if names.len() > 0 {
        let d = names.drop_last();
        let k = names.last();
        let t = tally_spec(d);
        lemma_tally_spec_correct(d);
        assert(forall|x: Seq<char>|
            occ(names, x) == occ(d, x) + if k == x {
                1int
            } else {
                0int
            });
        if exists|p: int| 0 <= p < t.len() && t[p].0 == k {
            let p = choose|p: int| 0 <= p < t.len() && t[p].0 == k;
            lemma_bump_existing(t, k, p);
            let b = t.update(p, (k, t[p].1 + 1));
            assert forall|j: int| 0 <= j < b.len() implies #[trigger] b[j].1 == occ(
                names,
                b[j].0,
            ) by {
                if j == p {
                    assert(b[j] == (k, t[p].1 + 1));
                } else {
                    assert(b[j] == t[j]);
                    assert(t[j].0 != k);
                }
            }
            assert forall|x: Seq<char>| occ(names, x) > 0 implies exists|j: int|
                0 <= j < b.len() && #[trigger] b[j].0 == x by {
                if x == k {
                    assert(b[p].0 == k);
                } else {
                    assert(occ(d, x) > 0);
                    let j = choose|j: int| 0 <= j < t.len() && t[j].0 == x;
                    assert(b[j].0 == x);
                }
            }
            assert forall|j: int| 0 <= j < b.len() && b[j].0 == k implies occ(names, b[j].0)
                > 0 by {
                assert(occ(names, k) == occ(d, k) + 1);
                assert(occ(d, k) == t[p].1);
                assert(t[p].1 >= 0) by {
                    lemma_occ_nonneg(d, k);
                }
            }
            assert forall|x: Seq<char>|
                (exists|j: int| 0 <= j < b.len() && #[trigger] b[j].0 == x) implies occ(names, x)
                > 0 by {
                let j = choose|j: int| 0 <= j < b.len() && b[j].0 == x;
                assert(b[j].1 == occ(names, x));
                if j == p {
                    lemma_occ_nonneg(d, k);
                } else {
                    assert(t[j].1 == occ(d, t[j].0));
                    assert(occ(d, x) > 0 || occ(d, x) == 0);
                    assert(occ(d, x) == t[j].1);
                    assert(occ(d, x) > 0) by {
                        if occ(d, x) <= 0 {
                            assert(!(exists|m: int|
                                0 <= m < t.len() && #[trigger] t[m].0 == x));
                        }
                    }
                }
            }
        } else {
            lemma_bump_new(t, k);
            let b = t.push((k, 1int));
            assert(occ(d, k) == 0) by {
                lemma_occ_nonneg(d, k);
                if occ(d, k) > 0 {
                    assert(exists|j: int| 0 <= j < t.len() && #[trigger] t[j].0 == k);
                }
            }
            assert forall|j: int| 0 <= j < b.len() implies #[trigger] b[j].1 == occ(
                names,
                b[j].0,
            ) by {
                if j < t.len() {
                    assert(b[j] == t[j]);
                    assert(t[j].0 != k);
                } else {
                    assert(b[j] == (k, 1int));
                }
            }
            assert forall|x: Seq<char>| occ(names, x) > 0 implies exists|j: int|
                0 <= j < b.len() && #[trigger] b[j].0 == x by {
                if x == k {
                    assert(b[t.len() as int].0 == k);
                } else {
                    assert(occ(d, x) > 0);
                    let j = choose|j: int| 0 <= j < t.len() && t[j].0 == x;
                    assert(b[j].0 == x);
                }
            }
            assert forall|x: Seq<char>|
                (exists|j: int| 0 <= j < b.len() && #[trigger] b[j].0 == x) implies occ(names, x)
                > 0 by {
                let j = choose|j: int| 0 <= j < b.len() && b[j].0 == x;
                assert(b[j].1 == occ(names, x));
                lemma_occ_nonneg(d, x);
            }
        }
    }
}

pub proof fn lemma_occ_nonneg(names: Seq<Seq<char>>, k: Seq<char>)
    ensures
        0 <= occ(names, k) <= names.len(),
    decreases names.len(),
{
    if names.len() > 0 {
        lemma_occ_nonneg(names.drop_last(), k);
    }
}

/// The integer view of tallied entries.
pub open spec fn count_views(s: Seq<(String, u64)>) -> Seq<(Seq<char>, int)> {
    s.map_values(|e: (String, u64)| (e.0@, e.1 as int))
}

/// Tallies how often each artist is named, in first-seen order.
pub fn tally_counts(names: &Vec<String>) -> (r: Vec<(String, u64)>)
    ensures
        count_views(r@) == tally_spec(names.deep_view()),
        r@.len() <= names@.len(),
{
    let mut out: Vec<(String, u64)> = Vec::new();
    let n = names.len();
    proof {
        assert(names.deep_view().take(0) =~= Seq::<Seq<char>>::empty());
        assert(count_views(out@) =~= Seq::<(Seq<char>, int)>::empty());
    }
    for i in 0..n
        invariant
            n == names@.len(),
            count_views(out@) == tally_spec(names.deep_view().take(i as int)),
            out@.len() <= i,
            forall|j: int| 0 <= j < out@.len() ==> out@[j].1 <= i,
    {
        let ghost t = count_views(out@);
        proof {
            lemma_tally_spec_correct(names.deep_view().take(i as int));
        }
        let key = &names[i];
        assert(names.deep_view()[i as int] == names@[i as int]@);
        let m = out.len();
        let mut p: usize = 0;
        while p < m
            invariant_except_break
                m == out@.len(),
                0 <= p <= m,
                forall|j: int| 0 <= j < p ==> out@[j].0@ != key@,
            ensures
                m == out@.len(),
                0 <= p <= m,
                forall|j: int| 0 <= j < p ==> out@[j].0@ != key@,
                p == m || out@[p as int].0@ == key@,
            decreases m - p,
        {
            if out[p].0.eq(key) {
                break ;
            }
            p = p + 1;
        }
        let ghost prev = out@;
        if p < m {
            let c = out[p].1;
            assert(c <= i < n <= usize::MAX);
            let name = out[p].0.clone();
            out.set(p, (name, c + 1));
            proof {
                lemma_bump_existing(t, key@, p as int);
                assert(count_views(out@) =~= t.update(p as int, (key@, t[p as int].1 + 1)));
            }
        } else {
            out.push((key.clone(), 1));
            proof {
                assert forall|j: int| 0 <= j < t.len() implies t[j].0 != key@ by {
                    assert(t[j].0 == prev[j].0@);
                }
                lemma_bump_new(t, key@);
                assert(count_views(out@) =~= t.push((key@, 1int)));
            }
        }
        proof {
            assert(names.deep_view().take(i + 1).drop_last() =~= names.deep_view().take(i as int));
            assert(names.deep_view().take(i + 1).last() == names.deep_view()[i as int]);
        }
    }
    proof {
        assert(names.deep_view().take(n as int) =~= names.deep_view());
    }
    out
}

/// Stable descending insertion at the view level, mirroring the tallied
/// sort entry by entry.
pub open spec fn vinsert_desc(e: (Seq<char>, int), s: Seq<(Seq<char>, int)>) -> Seq<
    (Seq<char>, int),
>
    decreases s.len(),
{
    if s.len() == 0 {
        seq![e]
    } else if s[0].1 >= e.1 {
        seq![s[0]] + vinsert_desc(e, s.drop_first())
    } else {
        seq![e] + s
    }
}

/// The stable descending sort of a tally, at the view level.
pub open spec fn vsort_desc(s: Seq<(Seq<char>, int)>) -> Seq<(Seq<char>, int)>
    decreases s.len(),
{
    if s.len() == 0 {
        Seq::empty()
    } else {
        vinsert_desc(s.last(), vsort_desc(s.drop_last()))
    }
}

proof fn lemma_vinsert_len(e: (Seq<char>, int), s: Seq<(Seq<char>, int)>)
    ensures
        vinsert_desc(e, s).len() == s.len() + 1,
    decreases s.len(),
{
    if s.len() > 0 && s[0].1 >= e.1 {
        lemma_vinsert_len(e, s.drop_first());
    }
}

pub proof fn lemma_vsort_len(s: Seq<(Seq<char>, int)>)
    ensures
        vsort_desc(s).len() == s.len(),
    decreases s.len(),
{
    if s.len() > 0 {
        lemma_vsort_len(s.drop_last());
        lemma_vinsert_len(s.last(), vsort_desc(s.drop_last()));
    }
}

/// The executable sort and the view-level sort agree.
proof fn lemma_count_views_insert(e: (String, u64), s: Seq<(String, u64)>)
    ensures
        count_views(insert_count_desc(e, s)) == vinsert_desc(
            (e.0@, e.1 as int),
            count_views(s),
        ),
    decreases s.len(),
{
    if s.len() == 0 {
        assert(count_views(insert_count_desc(e, s)) =~= vinsert_desc(
            (e.0@, e.1 as int),
            count_views(s),
        ));
    } else if s[0].1 >= e.1 {
        lemma_count_views_insert(e, s.drop_first());
        assert(count_views(s.drop_first()) =~= count_views(s).drop_first());
        assert(count_views(seq![s[0]] + insert_count_desc(e, s.drop_first())) =~= seq![
            count_views(s)[0],
        ] + count_views(insert_count_desc(e, s.drop_first())));
        assert(vinsert_desc((e.0@, e.1 as int), count_views(s)) == seq![count_views(s)[0]]
            + vinsert_desc((e.0@, e.1 as int), count_views(s).drop_first()));
    } else {
        assert(count_views(seq![e] + s) =~= seq![(e.0@, e.1 as int)] + count_views(s));
    }
}

pub proof fn lemma_count_views_sort(s: Seq<(String, u64)>)
    ensures
        count_views(sort_count_desc(s)) == vsort_desc(count_views(s)),
    decreases s.len(),
{
    if s.len() > 0 {
        lemma_count_views_sort(s.drop_last());
        lemma_count_views_insert(s.last(), sort_count_desc(s.drop_last()));
        assert(count_views(s.drop_last()) =~= count_views(s).drop_last());
        assert(count_views(s).last() == (s.last().0@, s.last().1 as int));
    }
}

/// The snapshot view of a month's resolved artists.
pub open spec fn snap_view(s: Seq<(String, Vec<String>)>) -> Seq<(Seq<char>, Seq<Seq<char>>)> {
    s.map_values(|e: (String, Vec<String>)| (e.0@, e.1.deep_view()))
}

/// The genre tags the cache knows for an artist, or none.
pub open spec fn genres_of(g: Map<Seq<char>, Seq<Seq<char>>>, k: Seq<char>) -> Seq<Seq<char>> {
    if g.contains_key(k) {
        g[k]
    } else {
        Seq::empty()
    }
}

/// The top of a tallied window: its artists ranked by play count
/// descending (stable), cut to the top three, each paired with its cached
/// genre tags.
pub open spec fn top_snapshot(t: Seq<(Seq<char>, int)>, g: Map<Seq<char>, Seq<Seq<char>>>) -> Seq<
    (Seq<char>, Seq<Seq<char>>),
> {
    let ranked = vsort_desc(t);
    let top = if ranked.len() <= 3 {
        ranked
    } else {
        ranked.take(3)
    };
    top.map_values(|e: (Seq<char>, int)| (e.0, genres_of(g, e.0)))
}

/// What one month window resolves to, from its event names and the genre
/// cache.
pub open spec fn month_snapshot(names: Seq<Seq<char>>, g: Map<Seq<char>, Seq<Seq<char>>>) -> Seq<
    (Seq<char>, Seq<Seq<char>>),
> {
    top_snapshot(tally_spec(names), g)
}

/// Ranks a window's tallied artists and keeps the top three with their
/// cached genre tags.
pub fn top_genres(counts: &Vec<(String, u64)>, cache: &GenreCache) -> (r: Vec<
    (String, Vec<String>),
>)
    requires
        cache.wf(),
    ensures
        snap_view(r@) == top_snapshot(count_views(counts@), cache@),
        r@.len() == if counts@.len() <= 3 {
            counts@.len() as int
        } else {
            3int
        },
{
    let sorted = sort_counts(counts);
    proof {
        lemma_count_views_sort(counts@);
        lemma_vsort_len(count_views(counts@));
    }
    let k = if sorted.len() <= 3 {
        sorted.len()
    } else {
        3
    };
    let mut r: Vec<(String, Vec<String>)> = Vec::new();
    for i in 0..k
        invariant
            k <= sorted@.len(),
            sorted@ == sort_count_desc(counts@),
            cache.wf(),
            r@.len() == i,
            forall|j: int|
                0 <= j < i ==> r@[j].0@ == sorted@[j].0@ && r@[j].1.deep_view() == genres_of(
                    cache@,
                    sorted@[j].0@,
                ),
    {
        let name = sorted[i].0.clone();
        let genres = match cache.get(&name) {
            Some(g) => g,
            None => Vec::new(),
        };
        proof {
            if cache@.contains_key(name@) {
            } else {
                assert(genres_of(cache@, name@) =~= Seq::<Seq<char>>::empty());
            }
        }
        r.push((name, genres));
    }
    proof {
        let ranked = vsort_desc(count_views(counts@));
        let top = if ranked.len() <= 3 {
            ranked
        } else {
            ranked.take(3)
        };
        assert forall|j: int| 0 <= j < k implies ranked[j].0 == sorted@[j].0@ by {
            assert(count_views(sorted@)[j] == (sorted@[j].0@, sorted@[j].1 as int));
        }
        assert(snap_view(r@) =~= top.map_values(
            |e: (Seq<char>, int)| (e.0, genres_of(cache@, e.0)),
        ));
    }
    r
}

/// The three month windows the aggregator walks: zero, three and six
/// months past the year-ago anchor, each spanning one calendar month.
/// `None` comes exactly when one of the six month shifts leaves chrono's
/// representable date range.
pub fn month_windows(anchor_ts: i64) -> (r: Option<Vec<(i64, i64)>>)
    ensures
        r matches Some(w) ==> w@.len() == 3 && forall|i: int|
            0 <= i < 3 ==> w@[i].0 == month_shift(anchor_ts as int, 3 * i) && w@[i].1
                == month_shift(anchor_ts as int, 3 * i + 1),
        r is Some <==> month_shift_ok(anchor_ts as int, 0) && month_shift_ok(anchor_ts as int, 1)
            && month_shift_ok(anchor_ts as int, 3) && month_shift_ok(anchor_ts as int, 4)
            && month_shift_ok(anchor_ts as int, 6) && month_shift_ok(anchor_ts as int, 7),
{
    let mut w: Vec<(i64, i64)> = Vec::new();
    let mut i: u32 = 0;
    while i < 3
        invariant
            0 <= i <= 3,
            w@.len() == i,
            forall|j: int|
                0 <= j < i ==> w@[j].0 == month_shift(anchor_ts as int, 3 * j) && w@[j].1
                    == month_shift(anchor_ts as int, 3 * j + 1),
            i >= 1 ==> month_shift_ok(anchor_ts as int, 0) && month_shift_ok(anchor_ts as int, 1),
            i >= 2 ==> month_shift_ok(anchor_ts as int, 3) && month_shift_ok(anchor_ts as int, 4),
            i >= 3 ==> month_shift_ok(anchor_ts as int, 6) && month_shift_ok(anchor_ts as int, 7),
        decreases 3 - i,
    {
        let from_ts = match add_months_to_timestamp(anchor_ts, 3 * i) {
            Some(t) => t,
            None => { return None; },
        };
        let to_ts = match add_months_to_timestamp(anchor_ts, 3 * i + 1) {
            Some(t) => t,
            None => { return None; },
        };
        w.push((from_ts, to_ts));
        i = i + 1;
    }
    Some(w)
}

/// The three month snapshots, labeled by their anchor months.
#[derive(Clone)]
pub struct GenreMonths {
    pub january: Vec<(String, Vec<String>)>,
    pub april: Vec<(String, Vec<String>)>,
    pub august: Vec<(String, Vec<String>)>,
}

impl GenreMonths {
    pub fn new() -> (r: GenreMonths)
        ensures
            r.january@.len() == 0,
            r.april@.len() == 0,
            r.august@.len() == 0,
    {
        GenreMonths { january: Vec::new(), april: Vec::new(), august: Vec::new() }
    }

    /// Replaces the snapshot of the given window; the index set is fixed,
    /// so an index past two is a caller bug and is ruled out.
    pub fn set(&mut self, i: i8, v: Vec<(String, Vec<String>)>)
        requires
            0 <= i < 3,
        ensures
            i == 0 ==> final(self).january == v && final(self).april == old(self).april,
            i == 0 ==> final(self).august == old(self).august,
            i == 1 ==> final(self).april == v && final(self).january == old(self).january,
            i == 1 ==> final(self).august == old(self).august,
            i == 2 ==> final(self).august == v && final(self).january == old(self).january,
            i == 2 ==> final(self).april == old(self).april,
    {
        if i == 0 {
            self.january = v;
        } else if i == 1 {
            self.april = v;
        } else {
            self.august = v;
        }
    }

    /// The snapshot of the given window; the index set is fixed, so an
    /// index past two is a caller bug and is ruled out.
    pub fn get(self, i: usize) -> (r: Vec<(String, Vec<String>)>)
        requires
            i < 3,
        ensures
            i == 0 ==> r == self.january,
            i == 1 ==> r == self.april,
            i == 2 ==> r == self.august,
    {
        if i == 0 {
            self.january
        } else if i == 1 {
            self.april
        } else {
            self.august
        }
    }

    /// The label of the given window's anchor month.
    pub fn get_month_string(self, i: usize) -> (r: String)
        requires
            i < 3,
        ensures
            i == 0 ==> r@ == "January"@,
            i == 1 ==> r@ == "April"@,
            i == 2 ==> r@ == "August"@,
    {
        if i == 0 {
            "January".to_owned()
        } else if i == 1 {
            "April".to_owned()
        } else {
            "August".to_owned()
        }
    }
}

impl Default for GenreMonths {
    fn default() -> (r: GenreMonths)
        ensures
            r.january@.len() == 0,
            r.april@.len() == 0,
            r.august@.len() == 0,
    {
        GenreMonths::new()
    }
}

/// The month-genre aggregator's pure core: given the artist names of each
/// of the three windows' events, in window order, and the genre cache as
/// it stands after resolution, produce the three ranked snapshots.
pub fn calculate_genre_months(window_names: &Vec<Vec<String>>, cache: &GenreCache) -> (r:
    GenreMonths)
    requires
        cache.wf(),
        window_names@.len() == 3,
    ensures
        snap_view(r.january@) == month_snapshot(window_names@[0].deep_view(), cache@),
        snap_view(r.april@) == month_snapshot(window_names@[1].deep_view(), cache@),
        snap_view(r.august@) == month_snapshot(window_names@[2].deep_view(), cache@),
{
    let c0 = tally_counts(&window_names[0]);
    let january = top_genres(&c0, cache);
    let c1 = tally_counts(&window_names[1]);
    let april = top_genres(&c1, cache);
    let c2 = tally_counts(&window_names[2]);
    let august = top_genres(&c2, cache);
    GenreMonths { january, april, august }
}

} // verus!
