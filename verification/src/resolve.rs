//! The two-tier resolution strategy: cache first, then the live lookups,
//! with the catalog-search fallback gated on a case-insensitive name match.
//!
//! The live lookups themselves are the caller's concern; this module owns
//! every decision taken on their results, so a resolver here never fails:
//! its worst case is a zero duration or an empty genre list.

use crate::cache::clone_strings;
use crate::strutil::case_eq;
use vstd::prelude::*;

verus! {

/// The at-most-one best match a catalog search returns: a name, and
/// whatever of duration, genre tags and image link the catalog knows.
pub struct SearchResult {
    pub name: String,
    pub duration_ms: Option<u64>,
    pub genres: Vec<String>,
    pub image_url: Option<String>,
}

/// The duration the catalog-search fallback yields: the top result's
/// duration when its name matches the track name case-insensitively, and
/// zero ("no data") otherwise.
pub open spec fn search_duration_spec(top: Option<SearchResult>, name: Seq<char>) -> u64 {
    match top {
        Some(h) => if case_eq(h.name@, name) {
            match h.duration_ms {
                Some(d) => d,
                None => 0,
            }
        } else {
            0
        },
        None => 0,
    }
}

/// Decides what duration a catalog search resolved for a track.
pub fn find_song_duration(top: &Option<SearchResult>, name: &str) -> (r: u64)
    ensures
        r == search_duration_spec(*top, name@),
{
    match top {
        Some(h) => {
            if crate::strutil::eq_ignore_case(h.name.as_str(), name) {
                match h.duration_ms {
                    Some(d) => d,
                    None => 0,
                }
            } else {
                0
            }
        },
        None => 0,
    }
}

/// The genre tags a catalog search resolved for an artist: the top result's
/// tags when its name matches the queried name case-insensitively, and an
/// empty list otherwise.
pub open spec fn search_genres_spec(top: Option<SearchResult>, queried: Seq<char>) -> Seq<
    Seq<char>,
> {
    match top {
        Some(h) => if case_eq(h.name@, queried) {
            h.genres.deep_view()
        } else {
            Seq::empty()
        },
        None => Seq::empty(),
    }
}

/// Decides what genre tags a catalog search resolved for an artist.
pub fn find_artist_genres(top: &Option<SearchResult>, queried: &str) -> (r: Vec<String>)
    ensures
        r.deep_view() == search_genres_spec(*top, queried@),
{
    match top {
        Some(h) => {
            if crate::strutil::eq_ignore_case(h.name.as_str(), queried) {
                clone_strings(&h.genres)
            } else {
                let r: Vec<String> = Vec::new();
                proof {
                    assert(r.deep_view() =~= Seq::<Seq<char>>::empty());
                }
                r
            }
        },
        None => {
            let r: Vec<String> = Vec::new();
            proof {
                assert(r.deep_view() =~= Seq::<Seq<char>>::empty());
            }
            r
        },
    }
}

/// The image link a catalog search resolved: the top result's link when its
/// name matches the queried name case-insensitively, and none otherwise.
pub open spec fn search_image_spec(top: Option<SearchResult>, queried: Seq<char>) -> Option<
    Seq<char>,
> {
    match top {
        Some(h) => if case_eq(h.name@, queried) {
            match h.image_url {
                Some(u) => Some(u@),
                None => None,
            }
        } else {
            None
        },
        None => None,
    }
}

/// Decides what cover image a catalog search resolved for a track; `None`
/// tells the caller to fall back to its default image.
pub fn find_song_cover(top: &Option<SearchResult>, name: &str) -> (r: Option<String>)
    ensures
        match r {
            Some(u) => search_image_spec(*top, name@) == Some(u@),
            None => search_image_spec(*top, name@) is None,
        },
{
    match top {
        Some(h) => {
            if crate::strutil::eq_ignore_case(h.name.as_str(), name) {
                match &h.image_url {
                    Some(u) => Some(u.clone()),
                    None => None,
                }
            } else {
                None
            }
        },
        None => None,
    }
}

/// Decides what icon a catalog search resolved for an artist; the match
/// rule is the same as for covers, against the queried artist name.
pub fn find_artist_icon(top: &Option<SearchResult>, queried: &str) -> (r: Option<String>)
    ensures
        match r {
            Some(u) => search_image_spec(*top, queried@) == Some(u@),
            None => search_image_spec(*top, queried@) is None,
        },
{
    find_song_cover(top, queried)
}

/// The full fallback chain below the cache: a nonzero track-info duration
/// wins; otherwise the catalog search decides, and a mismatch resolves to
/// zero.
pub open spec fn fallback_duration_spec(
    info_duration: u64,
    top: Option<SearchResult>,
    track: Seq<char>,
) -> u64 {
    if info_duration != 0 {
        info_duration
    } else {
        search_duration_spec(top, track)
    }
}

/// Resolves a track's duration from the live lookups, after a cache miss.
pub fn resolved_duration_from_lookup(
    info_duration: u64,
    top: &Option<SearchResult>,
    track: &str,
) -> (r: u64)
    ensures
        r == fallback_duration_spec(info_duration, *top, track@),
{
    if info_duration != 0 {
        info_duration
    } else {
        find_song_duration(top, track)
    }
}

/// Cache idempotence for the duration resolver: once a track's resolved
/// duration is recorded under its composite key, resolving the same
/// `(artist, track)` again is answered from the cache with that value, so
/// no further provider call is made.
pub proof fn lemma_resolution_idempotence(
    m: Map<Seq<char>, u64>,
    artist: Seq<char>,
    track: Seq<char>,
    v: u64,
)
    ensures
        m.insert(crate::strutil::track_key_spec(artist, track), v).contains_key(
            crate::strutil::track_key_spec(artist, track),
        ),
        m.insert(crate::strutil::track_key_spec(artist, track), v)[crate::strutil::track_key_spec(
            artist,
            track,
        )] == v,
{
}

/// Where the first delimiter of a collaboration-style artist name stands:
/// the index of the first `;` or `,`, or the length when there is none.
pub open spec fn first_delim(s: Seq<char>) -> int
    decreases s.len(),
{
    if s.len() == 0 {
        0
    } else if s[0] == ';' || s[0] == ',' {
        0
    } else {
        1 + first_delim(s.drop_first())
    }
}

pub proof fn lemma_first_delim_le(s: Seq<char>)
    ensures
        0 <= first_delim(s) <= s.len(),
    decreases s.len(),
{
    if s.len() > 0 && !(s[0] == ';' || s[0] == ',') {
        lemma_first_delim_le(s.drop_first());
    }
}

/// The primary artist of a possibly multi-valued artist name: everything
/// before the first `;` or `,`, so collaborations are attributed to their
/// first-listed artist.
pub fn primary_artist(s: &str) -> (r: String)
    ensures
        r@ == s@.take(first_delim(s@)),
{
    let chars = crate::strutil::str_chars(s);
    let n = chars.len();
    let mut i: usize = 0;
    assert(s@.skip(0) =~= s@);
    while i < n
        invariant_except_break
            n == chars@.len(),
            chars@ == s@,
            0 <= i <= n,
            first_delim(s@) == i + first_delim(s@.skip(i as int)),
        ensures
            0 <= i <= n,
            n == chars@.len(),
            chars@ == s@,
            first_delim(s@) == i,
        decreases n - i,
    {
        let c = chars[i];
        if c == ';' || c == ',' {
            assert(s@.skip(i as int)[0] == s@[i as int]);
            assert(first_delim(s@.skip(i as int)) == 0);
            break ;
        }
        assert(s@.skip(i as int)[0] == s@[i as int]);
        assert(s@.skip(i as int).drop_first() =~= s@.skip(i + 1));
        i = i + 1;
        if i == n {
            assert(s@.skip(n as int) =~= Seq::<char>::empty());
        }
    }
    proof {
        lemma_first_delim_le(s@);
    }
    let mut prefix: Vec<char> = Vec::new();
    let mut j: usize = 0;
    while j < i
        invariant
            0 <= j <= i <= n,
            n == chars@.len(),
            chars@ == s@,
            prefix@ == s@.take(j as int),
        decreases i - j,
    {
        prefix.push(chars[j]);
        assert(s@.take(j as int).push(s@[j as int]) =~= s@.take(j + 1));
        j = j + 1;
    }
    crate::strutil::chars_string(&prefix)
}

} // verus!
