//! Small string helpers shared across the engine: character-vector
//! conversions, the composite duration-cache key, and case-insensitive
//! comparison as the catalog-search match rule uses it.

use vstd::prelude::*;

verus! {

/// Relies on `String::push`: appends one character to the string.
#[verifier::external_body]
pub(crate) fn push_char(s: &mut String, c: char)
    ensures
        final(s)@ == old(s)@.push(c),
{
    s.push(c);
}

/// Builds a `String` from a vector of characters.
pub fn chars_string(v: &Vec<char>) -> (r: String)
    ensures
        r@ == v@,
{
    let mut r = String::new();
    let n = v.len();
    for i in 0..n
        invariant
            n == v@.len(),
            r@ == v@.take(i as int),
    {
        push_char(&mut r, v[i]);
        assert(v@.take(i as int).push(v@[i as int]) =~= v@.take(i + 1));
    }
    assert(v@.take(n as int) =~= v@);
    r
}

/// Collects the characters of a string slice into a vector.
pub fn str_chars(s: &str) -> (r: Vec<char>)
    ensures
        r@ == s@,
{
    let mut r: Vec<char> = Vec::new();
    let n = s.unicode_len();
    for i in 0..n
        invariant
            n == s@.len(),
            r@ == s@.take(i as int),
    {
        let c = s.get_char(i);
        r.push(c);
        assert(s@.take(i as int).push(s@[i as int]) =~= s@.take(i + 1));
    }
    assert(s@.take(n as int) =~= s@);
    r
}

/// The case-folded form of a character sequence, as `str::to_lowercase`
/// computes it; it depends on the characters alone.
pub uninterp spec fn lower_of(s: Seq<char>) -> Seq<char>;

/// Relies on `str::to_lowercase`: the result is the Unicode lowercase
/// mapping of the input and depends on the input characters alone.
#[verifier::external_body]
fn lowercase(s: &str) -> (r: String)
    ensures
        r@ == lower_of(s@),
{
    s.to_lowercase()
}

/// Whether two strings are equal after case folding: the match rule the
/// catalog-search fallback applies to result names.
pub open spec fn case_eq(a: Seq<char>, b: Seq<char>) -> bool {
    lower_of(a) == lower_of(b)
}

/// Compares two strings case-insensitively.
pub fn eq_ignore_case(a: &str, b: &str) -> (r: bool)
    ensures
        r == case_eq(a@, b@),
{
    let la = lowercase(a);
    let lb = lowercase(b);
    la == lb
}

/// The composite key under which a track's duration is cached.
pub open spec fn track_key_spec(artist: Seq<char>, track: Seq<char>) -> Seq<char> {
    artist + " - "@ + track
}

/// Builds the composite `"{artist} - {track}"` duration-cache key.
pub fn track_key(artist: &str, track: &str) -> (r: String)
    ensures
        r@ == track_key_spec(artist@, track@),
{
    let r = artist.to_owned().concat(" - ").concat(track);
    r
}

} // verus!
