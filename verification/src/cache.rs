//! The Resolution Cache: one durable mapping per cache kind.
//!
//! The duration cache maps a composite `"{artist} - {track}"` key to a play
//! length in milliseconds; the genre cache maps an artist name to its genre
//! tags.  Both are held as ordered entry lists with unique keys and viewed
//! as maps from character sequences to their values.  Persistence to and
//! from the cache-document text lives in [`crate::codec`]; reading and
//! writing the document itself is the caller's concern.

use crate::codec::{
    dur_entry_views, enc_dur_doc, enc_genre_doc, encode_duration_entries, encode_genre_entries,
    genre_entry_views, lemma_dur_round_trip, lemma_genre_round_trip, p_dur_doc, p_genre_doc,
    parse_duration_doc, parse_genre_doc,
};
use vstd::prelude::*;

verus! {

/// The mapping denoted by a duration entry list: later entries win, though
/// a well-formed list never repeats a key.
pub open spec fn dur_map(s: Seq<(String, u64)>) -> Map<Seq<char>, u64>
    decreases s.len(),
{
    if s.len() == 0 {
        Map::empty()
    } else {
        dur_map(s.drop_last()).insert(s.last().0@, s.last().1)
    }
}

/// The mapping denoted by a genre entry list.
pub open spec fn genre_map(s: Seq<(String, Vec<String>)>) -> Map<Seq<char>, Seq<Seq<char>>>
    decreases s.len(),
{
    if s.len() == 0 {
        Map::empty()
    } else {
        genre_map(s.drop_last()).insert(s.last().0@, s.last().1.deep_view())
    }
}

/// Entry keys are pairwise distinct.
pub open spec fn dur_keys_unique(s: Seq<(String, u64)>) -> bool {
    forall|i: int, j: int| 0 <= i < j < s.len() ==> s[i].0@ != s[j].0@
}

pub open spec fn genre_keys_unique(s: Seq<(String, Vec<String>)>) -> bool {
    forall|i: int, j: int| 0 <= i < j < s.len() ==> s[i].0@ != s[j].0@
}

pub proof fn lemma_dur_map_contains(s: Seq<(String, u64)>, k: Seq<char>)
    ensures
        dur_map(s).contains_key(k) <==> exists|i: int| 0 <= i < s.len() && s[i].0@ == k,
    decreases s.len(),
{
    if s.len() > 0 {
        lemma_dur_map_contains(s.drop_last(), k);
        if s.last().0@ == k {
            assert(s[s.len() - 1].0@ == k);
        } else if dur_map(s).contains_key(k) {
            let i = choose|i: int| 0 <= i < s.drop_last().len() && s.drop_last()[i].0@ == k;
            assert(s[i].0@ == k);
        } else {
            assert forall|i: int| 0 <= i < s.len() implies s[i].0@ != k by {
                if i < s.len() - 1 {
                    assert(s.drop_last()[i] == s[i]);
                }
            }
        }
    }
}

pub proof fn lemma_dur_map_index(s: Seq<(String, u64)>, k: Seq<char>, i: int)
    requires
        dur_keys_unique(s),
        0 <= i < s.len(),
        s[i].0@ == k,
    ensures
        dur_map(s).contains_key(k),
        dur_map(s)[k] == s[i].1,
    decreases s.len(),
{
    if i == s.len() - 1 {
    } else {
        assert(s.drop_last()[i] == s[i]);
        lemma_dur_map_index(s.drop_last(), k, i);
        assert(s.last().0@ != k);
    }
}

pub proof fn lemma_genre_map_contains(s: Seq<(String, Vec<String>)>, k: Seq<char>)
    ensures
        genre_map(s).contains_key(k) <==> exists|i: int| 0 <= i < s.len() && s[i].0@ == k,
    decreases s.len(),
{
    if s.len() > 0 {
        lemma_genre_map_contains(s.drop_last(), k);
        if s.last().0@ == k {
            assert(s[s.len() - 1].0@ == k);
        } else if genre_map(s).contains_key(k) {
            let i = choose|i: int| 0 <= i < s.drop_last().len() && s.drop_last()[i].0@ == k;
            assert(s[i].0@ == k);
        } else {
            assert forall|i: int| 0 <= i < s.len() implies s[i].0@ != k by {
                if i < s.len() - 1 {
                    assert(s.drop_last()[i] == s[i]);
                }
            }
        }
    }
}

pub proof fn lemma_genre_map_index(s: Seq<(String, Vec<String>)>, k: Seq<char>, i: int)
    requires
        genre_keys_unique(s),
        0 <= i < s.len(),
        s[i].0@ == k,
    ensures
        genre_map(s).contains_key(k),
        genre_map(s)[k] == s[i].1.deep_view(),
    decreases s.len(),
{
    if i == s.len() - 1 {
    } else {
        assert(s.drop_last()[i] == s[i]);
        lemma_genre_map_index(s.drop_last(), k, i);
        assert(s.last().0@ != k);
    }
}

/// Updating the entry that already holds a key denotes the same mapping as
/// inserting over it.
proof fn lemma_dur_map_update(s: Seq<(String, u64)>, i: int, e: (String, u64))
    requires
        dur_keys_unique(s),
        0 <= i < s.len(),
        s[i].0@ == e.0@,
    ensures
        dur_map(s.update(i, e)) =~= dur_map(s).insert(e.0@, e.1),
    decreases s.len(),
{
    let t = s.update(i, e);
    if i == s.len() - 1 {
        assert(t.drop_last() =~= s.drop_last());
        assert(t.last() == e);
    } else {
        assert(t.drop_last() =~= s.drop_last().update(i, e));
        assert(s.drop_last()[i] == s[i]);
        lemma_dur_map_update(s.drop_last(), i, e);
        assert(t.last() == s.last());
        assert(s.last().0@ != e.0@);
    }
}

proof fn lemma_genre_map_update(s: Seq<(String, Vec<String>)>, i: int, e: (String, Vec<String>))
    requires
        genre_keys_unique(s),
        0 <= i < s.len(),
        s[i].0@ == e.0@,
    ensures
        genre_map(s.update(i, e)) =~= genre_map(s).insert(e.0@, e.1.deep_view()),
    decreases s.len(),
{
    let t = s.update(i, e);
    if i == s.len() - 1 {
        assert(t.drop_last() =~= s.drop_last());
        assert(t.last() == e);
    } else {
        assert(t.drop_last() =~= s.drop_last().update(i, e));
        assert(s.drop_last()[i] == s[i]);
        lemma_genre_map_update(s.drop_last(), i, e);
        assert(t.last() == s.last());
        assert(s.last().0@ != e.0@);
    }
}

/// The duration cache: a mapping from composite track keys to resolved play
/// lengths in milliseconds.
pub struct DurationCache {
    pub entries: Vec<(String, u64)>,
}

impl View for DurationCache {
    type V = Map<Seq<char>, u64>;

    open spec fn view(&self) -> Map<Seq<char>, u64> {
        dur_map(self.entries@)
    }
}

impl DurationCache {
    /// Keys are unique, so each key denotes exactly one cached value.
    pub open spec fn wf(&self) -> bool {
        dur_keys_unique(self.entries@)
    }

    /// An empty cache: what a missing or unreadable cache document loads as.
    pub fn new() -> (r: DurationCache)
        ensures
            r.wf(),
            r@ == Map::<Seq<char>, u64>::empty(),
    {
        DurationCache { entries: Vec::new() }
    }

    /// Looks a key up; `None` means the key is not cached.
    pub fn get(&self, key: &String) -> (r: Option<u64>)
        requires
            self.wf(),
        ensures
            match r {
                Some(v) => self@.contains_key(key@) && self@[key@] == v,
                None => !self@.contains_key(key@),
            },
    {
        let n = self.entries.len();
        for i in 0..n
            invariant
                n == self.entries@.len(),
                self.wf(),
                forall|j: int| 0 <= j < i ==> self.entries@[j].0@ != key@,
        {
            if self.entries[i].0.eq(key) {
                proof {
                    lemma_dur_map_index(self.entries@, key@, i as int);
                }
                return Some(self.entries[i].1);
            }
        }
        proof {
            lemma_dur_map_contains(self.entries@, key@);
        }
        None
    }

    /// Records a resolved value, overwriting any earlier entry for the key.
    pub fn insert(&mut self, key: String, value: u64)
        requires
            old(self).wf(),
        ensures
            final(self).wf(),
            final(self)@ == old(self)@.insert(key@, value),
    {
        let n = self.entries.len();
        for i in 0..n
            invariant
                n == self.entries@.len(),
                self.wf(),
                self.entries@ == old(self).entries@,
                forall|j: int| 0 <= j < i ==> self.entries@[j].0@ != key@,
        {
            if self.entries[i].0.eq(&key) {
                proof {
                    lemma_dur_map_update(self.entries@, i as int, (key, value));
                }
                self.entries.set(i, (key, value));
                return ;
            }
        }
        proof {
            let s = self.entries@.push((key, value));
            assert(s.drop_last() =~= self.entries@);
            assert forall|i: int, j: int| 0 <= i < j < s.len() implies s[i].0@ != s[j].0@ by {
                if j < s.len() - 1 {
                    assert(s[i] == self.entries@[i] && s[j] == self.entries@[j]);
                } else {
                    assert(s[i] == self.entries@[i]);
                }
            }
        }
        self.entries.push((key, value));
    }

    /// How many keys are cached.
    pub fn len(&self) -> (r: usize)
        requires
            self.wf(),
        ensures
            r == self.entries@.len(),
            r == self@.dom().len(),
    {
        proof {
            lemma_dur_map_card(self.entries@);
        }
        self.entries.len()
    }
}

/// A well-formed entry list has as many keys as entries.
proof fn lemma_dur_map_card(s: Seq<(String, u64)>)
    requires
        dur_keys_unique(s),
    ensures
        dur_map(s).dom().finite(),
        dur_map(s).dom().len() == s.len(),
    decreases s.len(),
{
    if s.len() > 0 {
        lemma_dur_map_card(s.drop_last());
        lemma_dur_map_contains(s.drop_last(), s.last().0@);
        assert(forall|i: int|
            0 <= i < s.drop_last().len() ==> s.drop_last()[i].0@ != s.last().0@);
        assert(!dur_map(s.drop_last()).contains_key(s.last().0@));
    }
}

/// The genre cache: a mapping from artist names to genre-tag lists.
pub struct GenreCache {
    pub entries: Vec<(String, Vec<String>)>,
}

impl View for GenreCache {
    type V = Map<Seq<char>, Seq<Seq<char>>>;

    open spec fn view(&self) -> Map<Seq<char>, Seq<Seq<char>>> {
        genre_map(self.entries@)
    }
}

impl GenreCache {
    pub open spec fn wf(&self) -> bool {
        genre_keys_unique(self.entries@)
    }

    /// An empty cache: what a missing or unreadable cache document loads as.
    pub fn new() -> (r: GenreCache)
        ensures
            r.wf(),
            r@ == Map::<Seq<char>, Seq<Seq<char>>>::empty(),
    {
        GenreCache { entries: Vec::new() }
    }

    /// Looks an artist up; the returned list is a copy of the cached tags.
    pub fn get(&self, key: &String) -> (r: Option<Vec<String>>)
        requires
            self.wf(),
        ensures
            match r {
                Some(v) => self@.contains_key(key@) && self@[key@] == v.deep_view(),
                None => !self@.contains_key(key@),
            },
    {
        let n = self.entries.len();
        for i in 0..n
            invariant
                n == self.entries@.len(),
                self.wf(),
                forall|j: int| 0 <= j < i ==> self.entries@[j].0@ != key@,
        {
            if self.entries[i].0.eq(key) {
                proof {
                    lemma_genre_map_index(self.entries@, key@, i as int);
                }
                return Some(clone_strings(&self.entries[i].1));
            }
        }
        proof {
            lemma_genre_map_contains(self.entries@, key@);
        }
        None
    }

    /// Records an artist's resolved genre tags.
    pub fn insert(&mut self, key: String, value: Vec<String>)
        requires
            old(self).wf(),
        ensures
            final(self).wf(),
            final(self)@ == old(self)@.insert(key@, value.deep_view()),
    {
        let n = self.entries.len();
        for i in 0..n
            invariant
                n == self.entries@.len(),
                self.wf(),
                self.entries@ == old(self).entries@,
                forall|j: int| 0 <= j < i ==> self.entries@[j].0@ != key@,
        {
            if self.entries[i].0.eq(&key) {
                proof {
                    lemma_genre_map_update(self.entries@, i as int, (key, value));
                }
                self.entries.set(i, (key, value));
                return ;
            }
        }
        proof {
            let s = self.entries@.push((key, value));
            assert(s.drop_last() =~= self.entries@);
            assert forall|i: int, j: int| 0 <= i < j < s.len() implies s[i].0@ != s[j].0@ by {
                if j < s.len() - 1 {
                    assert(s[i] == self.entries@[i] && s[j] == self.entries@[j]);
                } else {
                    assert(s[i] == self.entries@[i]);
                }
            }
        }
        self.entries.push((key, value));
    }
}

/// The mapping denoted by duration entry views, later entries winning.
pub open spec fn vdur_map(s: Seq<(Seq<char>, u64)>) -> Map<Seq<char>, u64>
    decreases s.len(),
{
    if s.len() == 0 {
        Map::empty()
    } else {
        vdur_map(s.drop_last()).insert(s.last().0, s.last().1)
    }
}

/// The mapping denoted by genre entry views.
pub open spec fn vgenre_map(s: Seq<(Seq<char>, Seq<Seq<char>>)>) -> Map<
    Seq<char>,
    Seq<Seq<char>>,
>
    decreases s.len(),
{
    if s.len() == 0 {
        Map::empty()
    } else {
        vgenre_map(s.drop_last()).insert(s.last().0, s.last().1)
    }
}

pub proof fn lemma_dur_map_views(s: Seq<(String, u64)>)
    ensures
        dur_map(s) == vdur_map(dur_entry_views(s)),
    decreases s.len(),
{
    if s.len() > 0 {
        lemma_dur_map_views(s.drop_last());
        assert(dur_entry_views(s.drop_last()) =~= dur_entry_views(s).drop_last());
        assert(dur_entry_views(s).last() == (s.last().0@, s.last().1));
    }
}

pub proof fn lemma_genre_map_views(s: Seq<(String, Vec<String>)>)
    ensures
        genre_map(s) == vgenre_map(genre_entry_views(s)),
    decreases s.len(),
{
    if s.len() > 0 {
        lemma_genre_map_views(s.drop_last());
        assert(genre_entry_views(s.drop_last()) =~= genre_entry_views(s).drop_last());
        assert(genre_entry_views(s).last() == (s.last().0@, s.last().1.deep_view()));
    }
}

impl DurationCache {
    /// Writes the cache as its document text, for the caller to persist.
    pub fn to_text(&self) -> (r: String)
        ensures
            r@ == enc_dur_doc(dur_entry_views(self.entries@)),
    {
        encode_duration_entries(&self.entries)
    }

    /// Loads a cache from document text, failing open: text the grammar
    /// does not cover loads as the empty mapping.
    pub fn from_text(text: &str) -> (r: DurationCache)
        ensures
            r.wf(),
            match p_dur_doc(text@) {
                Some(es) => r@ == vdur_map(es),
                None => r@ == Map::<Seq<char>, u64>::empty(),
            },
    {
        match parse_duration_doc(text) {
            Some(v) => {
                let ghost es = dur_entry_views(v@);
                let mut c = DurationCache::new();
                let n = v.len();
                for i in 0..n
                    invariant
                        n == v@.len(),
                        es == dur_entry_views(v@),
                        c.wf(),
                        c@ == vdur_map(es.take(i as int)),
                {
                    c.insert(v[i].0.clone(), v[i].1);
                    proof {
                        assert(es.take(i + 1).drop_last() =~= es.take(i as int));
                        assert(es.take(i + 1).last() == (v@[i as int].0@, v@[i as int].1));
                    }
                }
                proof {
                    assert(es.take(n as int) =~= es);
                }
                c
            },
            None => DurationCache::new(),
        }
    }
}

impl GenreCache {
    /// Writes the cache as its document text, for the caller to persist.
    pub fn to_text(&self) -> (r: String)
        ensures
            r@ == enc_genre_doc(genre_entry_views(self.entries@)),
    {
        encode_genre_entries(&self.entries)
    }

    /// Loads a cache from document text, failing open: text the grammar
    /// does not cover loads as the empty mapping.
    pub fn from_text(text: &str) -> (r: GenreCache)
        ensures
            r.wf(),
            match p_genre_doc(text@) {
                Some(es) => r@ == vgenre_map(es),
                None => r@ == Map::<Seq<char>, Seq<Seq<char>>>::empty(),
            },
    {
        match parse_genre_doc(text) {
            Some(v) => {
                let ghost es = genre_entry_views(v@);
                let mut c = GenreCache::new();
                let n = v.len();
                for i in 0..n
                    invariant
                        n == v@.len(),
                        es == genre_entry_views(v@),
                        c.wf(),
                        c@ == vgenre_map(es.take(i as int)),
                {
                    c.insert(v[i].0.clone(), clone_strings(&v[i].1));
                    proof {
                        assert(es.take(i + 1).drop_last() =~= es.take(i as int));
                        assert(es.take(i + 1).last() == (
                            v@[i as int].0@,
                            v@[i as int].1.deep_view(),
                        ));
                    }
                }
                proof {
                    assert(es.take(n as int) =~= es);
                }
                c
            },
            None => GenreCache::new(),
        }
    }
}

/// Cache idempotence: once a key is recorded, a later query for it is
/// answered from the cache with the recorded value, so no further lookup
/// is needed.
pub proof fn lemma_cache_idempotence<V>(m: Map<Seq<char>, V>, key: Seq<char>, v: V)
    ensures
        m.insert(key, v).contains_key(key),
        m.insert(key, v)[key] == v,
{
}

/// Round-trip persistence: the document a duration cache writes parses
/// back to exactly its entries, so loading it rebuilds an equal mapping.
pub proof fn lemma_duration_persistence(c: DurationCache)
    requires
        c.wf(),
    ensures
        p_dur_doc(enc_dur_doc(dur_entry_views(c.entries@))) == Some(dur_entry_views(c.entries@)),
        vdur_map(dur_entry_views(c.entries@)) == c@,
{
    lemma_dur_round_trip(dur_entry_views(c.entries@));
    lemma_dur_map_views(c.entries@);
}

/// Round-trip persistence for the genre cache.
pub proof fn lemma_genre_persistence(c: GenreCache)
    requires
        c.wf(),
    ensures
        p_genre_doc(enc_genre_doc(genre_entry_views(c.entries@))) == Some(
            genre_entry_views(c.entries@),
        ),
        vgenre_map(genre_entry_views(c.entries@)) == c@,
{
    lemma_genre_round_trip(genre_entry_views(c.entries@));
    lemma_genre_map_views(c.entries@);
}

/// Copies a list of strings, preserving its view.
pub fn clone_strings(v: &Vec<String>) -> (r: Vec<String>)
    ensures
        r.deep_view() == v.deep_view(),
        r@.len() == v@.len(),
{
    let mut r: Vec<String> = Vec::new();
    let n = v.len();
    for i in 0..n
        invariant
            n == v@.len(),
            r@.len() == i,
            forall|j: int| 0 <= j < i ==> r@[j]@ == v@[j]@,
    {
        r.push(v[i].clone());
    }
    proof {
        assert(r.deep_view() =~= v.deep_view());
    }
    r
}

} // verus!
