//! Text predicates the renderer asks of the engine's strings: whether a
//! string needs the fallback font, and whether any of a set of names
//! contains a fragment.

use crate::strutil::str_chars;
use vstd::prelude::*;

verus! {

/// Characters the primary font covers: basic Latin and Latin extensions,
/// plus general punctuation.
pub open spec fn is_latin_char(c: char) -> bool {
    (0x20 <= c as u32 <= 0x24F) || (0x2000 <= c as u32 <= 0x206F)
}

/// Whether the text holds any character outside the primary font's
/// coverage, so that rendering must fall back to another font.
pub fn check_for_cyrillic(s: &str) -> (r: bool)
    ensures
        r == exists|i: int| 0 <= i < s@.len() && !is_latin_char(s@[i]),
{
    let chars = str_chars(s);
    let n = chars.len();
    for i in 0..n
        invariant
            n == chars@.len(),
            chars@ == s@,
            forall|j: int| 0 <= j < i ==> is_latin_char(s@[j]),
    {
        let c = chars[i];
        let u = c as u32;
        if !((0x20 <= u && u <= 0x24F) || (0x2000 <= u && u <= 0x206F)) {
            assert(!is_latin_char(s@[i as int]));
            return true;
        }
    }
    false
}

/// Whether `sub` occurs contiguously in `s`.
pub open spec fn contains_sub(s: Seq<char>, sub: Seq<char>) -> bool {
    exists|k: int| 0 <= k <= s.len() - sub.len() && #[trigger] s.subrange(k, k + sub.len()) == sub
}

/// Whether the needle occurs in the haystack.
fn chars_contain(hay: &Vec<char>, needle: &Vec<char>) -> (r: bool)
    ensures
        r == contains_sub(hay@, needle@),
{
    let n = hay.len();
    let m = needle.len();
    if m > n {
        assert(!contains_sub(hay@, needle@)) by {
            assert(hay@.len() - needle@.len() < 0);
        }
        return false;
    }
    let mut k: usize = 0;
    while k <= n - m
        invariant
            n == hay@.len(),
            m == needle@.len(),
            m <= n,
            0 <= k <= n - m + 1,
            forall|k2: int|
                0 <= k2 < k ==> #[trigger] hay@.subrange(k2, k2 + m) != needle@,
        decreases n - m + 1 - k,
    {
        let mut j: usize = 0;
        let mut all: bool = true;
        while j < m
            invariant_except_break
                n == hay@.len(),
                m == needle@.len(),
                0 <= k <= n - m,
                0 <= j <= m,
                all,
                forall|j2: int| 0 <= j2 < j ==> hay@[k + j2] == needle@[j2],
            ensures
                n == hay@.len(),
                m == needle@.len(),
                0 <= k <= n - m,
                all ==> forall|j2: int| 0 <= j2 < m ==> hay@[k + j2] == needle@[j2],
                !all ==> exists|j2: int| 0 <= j2 < m && hay@[k + j2] != needle@[j2],
            decreases m - j,
        {
            if hay[k + j] != needle[j] {
                all = false;
                assert(hay@[k + j] != needle@[j as int]);
                break ;
            }
            j = j + 1;
        }
        if all {
            assert(hay@.subrange(k as int, k + m) =~= needle@);
            return true;
        }
        assert(hay@.subrange(k as int, k + m) != needle@) by {
            let j2 = choose|j2: int| 0 <= j2 < m && hay@[k + j2] != needle@[j2];
            assert(hay@.subrange(k as int, k + m)[j2] == hay@[k + j2]);
        }
        k = k + 1;
    }
    assert(!contains_sub(hay@, needle@));
    false
}

/// Whether any of the names contains the fragment: how the renderer
/// decides that a word of a caption names one of the ranked artists.
pub fn vec_substring(vec: &Vec<String>, substr: &str) -> (r: bool)
    ensures
        r == exists|i: int| 0 <= i < vec@.len() && contains_sub(vec@[i]@, substr@),
{
    let needle = str_chars(substr);
    let n = vec.len();
    for i in 0..n
        invariant
            n == vec@.len(),
            needle@ == substr@,
            forall|j: int| 0 <= j < i ==> !contains_sub(vec@[j]@, substr@),
    {
        let hay = str_chars(vec[i].as_str());
        if chars_contain(&hay, &needle) {
            return true;
        }
    }
    false
}

} // verus!
