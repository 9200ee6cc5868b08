//! Decimal text handling: formatting non-negative integers and parsing
//! counts the way the ranking utilities and the duration resolver read
//! them, where any malformed or out-of-range text defaults to zero.

use vstd::prelude::*;

verus! {

pub open spec fn is_digit_char(c: char) -> bool {
    48 <= c as u32 <= 57
}

pub open spec fn digit_val(c: char) -> int {
    c as u32 - 48
}

/// The character for a single decimal digit.
pub open spec fn digit_char(d: int) -> char {
    if d == 0 {
        '0'
    } else if d == 1 {
        '1'
    } else if d == 2 {
        '2'
    } else if d == 3 {
        '3'
    } else if d == 4 {
        '4'
    } else if d == 5 {
        '5'
    } else if d == 6 {
        '6'
    } else if d == 7 {
        '7'
    } else if d == 8 {
        '8'
    } else {
        '9'
    }
}

/// The decimal digit string of a non-negative integer, most significant
/// digit first, without leading zeros (except for zero itself).
pub open spec fn dec_digits(n: nat) -> Seq<char>
    decreases n,
{
    if n < 10 {
        seq![digit_char(n as int)]
    } else {
        dec_digits(n / 10).push(digit_char((n % 10) as int))
    }
}

pub open spec fn all_digits(s: Seq<char>) -> bool {
    forall|i: int| 0 <= i < s.len() ==> is_digit_char(s[i])
}

/// The value of a digit string read most significant digit first.
pub open spec fn digits_val(s: Seq<char>) -> int
    decreases s.len(),
{
    if s.len() == 0 {
        0
    } else {
        digits_val(s.drop_last()) * 10 + digit_val(s.last())
    }
}

pub proof fn lemma_dec_digits(n: nat)
    ensures
        dec_digits(n).len() >= 1,
        all_digits(dec_digits(n)),
        digits_val(dec_digits(n)) == n,
    decreases n,
{
    if n < 10 {
        assert(dec_digits(n) == seq![digit_char(n as int)]);
        assert(dec_digits(n).drop_last() =~= Seq::<char>::empty());
        assert(digit_val(digit_char(n as int)) == n);
        assert(digits_val(Seq::<char>::empty()) == 0);
        assert(dec_digits(n).last() == digit_char(n as int));
    } else {
        lemma_dec_digits(n / 10);
        let pre = dec_digits(n / 10);
        let d = digit_char((n % 10) as int);
        assert(pre.push(d).drop_last() =~= pre);
        assert(pre.push(d).last() == d);
        assert(digit_val(digit_char((n % 10) as int)) == n % 10);
        assert forall|i: int| 0 <= i < pre.push(d).len() implies is_digit_char(pre.push(d)[i]) by {
            if i < pre.len() {
                assert(pre.push(d)[i] == pre[i]);
            }
        }
    }
}

/// Appending digits never lowers the value of a digit string.
pub proof fn lemma_digits_val_prefix_le(s: Seq<char>, k: int)
    requires
        all_digits(s),
        0 <= k <= s.len(),
    ensures
        digits_val(s.take(k)) <= digits_val(s),
    decreases s.len() - k,
{
    if k < s.len() {
        lemma_digits_val_prefix_le(s, k + 1);
        assert(s.take(k + 1).drop_last() =~= s.take(k));
        assert(s.take(k + 1).last() == s[k]);
        assert(digits_val(s.take(k)) >= 0) by {
            lemma_digits_val_nonneg(s.take(k));
        }
        assert(digits_val(s.take(k + 1)) == digits_val(s.take(k)) * 10 + digit_val(s[k]));
        assert(digits_val(s.take(k)) * 10 >= digits_val(s.take(k)));
    } else {
        assert(s.take(k) =~= s);
    }
}

pub proof fn lemma_digits_val_nonneg(s: Seq<char>)
    requires
        all_digits(s),
    ensures
        digits_val(s) >= 0,
    decreases s.len(),
{
    if s.len() > 0 {
        assert(all_digits(s.drop_last())) by {
            assert(forall|i: int|
                0 <= i < s.len() - 1 ==> s.drop_last()[i] == s[i]);
        }
        lemma_digits_val_nonneg(s.drop_last());
    }
}

/// The digit characters of a non-negative integer, most significant first.
pub fn u64_digits(n: u64) -> (r: Vec<char>)
    ensures
        r@ == dec_digits(n as nat),
    decreases n,
{
    if n < 10 {
        let d = digit_of(n);
        let mut r: Vec<char> = Vec::new();
        r.push(d);
        assert(r@ =~= seq![digit_char(n as int)]);
        r
    } else {
        let mut r = u64_digits(n / 10);
        let d = digit_of(n % 10);
        r.push(d);
        r
    }
}

/// The character of a digit below ten.
fn digit_of(d: u64) -> (c: char)
    requires
        d < 10,
    ensures
        c == digit_char(d as int),
{
    if d == 0 {
        '0'
    } else if d == 1 {
        '1'
    } else if d == 2 {
        '2'
    } else if d == 3 {
        '3'
    } else if d == 4 {
        '4'
    } else if d == 5 {
        '5'
    } else if d == 6 {
        '6'
    } else if d == 7 {
        '7'
    } else if d == 8 {
        '8'
    } else {
        '9'
    }
}

/// A string of decimal digits that denotes a value no greater than `bound`.
pub open spec fn valid_digits_in(s: Seq<char>, bound: int) -> bool {
    s.len() > 0 && all_digits(s) && digits_val(s) <= bound
}

/// What parsing a (possibly signed) decimal count yields: the denoted value
/// when the text is a well-formed integer in 32-bit signed range, and zero
/// otherwise.
pub open spec fn parse_count_spec(s: Seq<char>) -> int {
    if s.len() > 0 && s[0] == '-' {
        if valid_digits_in(s.drop_first(), 2147483648) {
            -digits_val(s.drop_first())
        } else {
            0
        }
    } else {
        let t = if s.len() > 0 && s[0] == '+' {
            s.drop_first()
        } else {
            s
        };
        if valid_digits_in(t, 2147483647) {
            digits_val(t)
        } else {
            0
        }
    }
}

/// Reads the digit run `v[start..]` as a magnitude, or reports that it is
/// malformed or exceeds `bound`; shared body of the signed parse.
fn parse_digits_bounded(v: &Vec<char>, start: usize, bound: u64) -> (r: Option<u64>)
    requires
        start <= v@.len(),
        bound <= 2147483648,
    ensures
        match r {
            Some(m) => valid_digits_in(v@.skip(start as int), bound as int) && m
                == digits_val(v@.skip(start as int)),
            None => !valid_digits_in(v@.skip(start as int), bound as int),
        },
{
    let ghost t = v@.skip(start as int);
    let n = v.len();
    if start == n {
        return None;
    }
    let mut mag: u64 = 0;
    let mut i = start;
    while i < n
        invariant
            start <= i <= n,
            n == v@.len(),
            t == v@.skip(start as int),
            all_digits(t.take(i - start)),
            mag == digits_val(t.take(i - start)),
            mag <= bound,
            bound <= 2147483648,
        decreases n - i,
    {
        let c = v[i];
        assert(t[i - start] == v@[i as int]);
        let u = c as u32;
        if !(48 <= u && u <= 57) {
            assert(!all_digits(t)) by {
                assert(!is_digit_char(t[i - start]));
            }
            return None;
        }
        let d: u64 = (u - 48) as u64;
        assert(d == digit_val(c) && d <= 9);
        let next = mag * 10 + d;
        assert(t.take(i - start + 1).drop_last() =~= t.take(i - start));
        assert(t.take(i - start + 1).last() == t[i - start]);
        assert(all_digits(t.take(i - start + 1)));
        assert(next == digits_val(t.take(i - start + 1)));
        if next > bound {
            proof {
                if all_digits(t) {
                    lemma_digits_val_prefix_le(t, i - start + 1);
                    assert(digits_val(t) > bound);
                }
            }
            return None;
        }
        mag = next;
        i = i + 1;
    }
    assert(t.take(n - start) =~= t);
    Some(mag)
}

/// Parses a decimal count from a string, defaulting to zero on malformed
/// or out-of-range text: how the ranking utilities and the provider
/// responses read their numbers.
pub fn parse_count(s: &str) -> (r: i64)
    ensures
        r == parse_count_spec(s@),
{
    let chars = crate::strutil::str_chars(s);
    parse_count_chars(&chars)
}

/// Parses a decimal count as `str::parse::<i32>` would, defaulting to zero
/// on malformed or out-of-range text.
pub fn parse_count_chars(v: &Vec<char>) -> (r: i64)
    ensures
        r == parse_count_spec(v@),
{
    if v.len() == 0 {
        return 0;
    }
    let c0 = v[0];
    if c0 == '-' {
        assert(v@.skip(1) =~= v@.drop_first());
        match parse_digits_bounded(v, 1, 2147483648) {
            Some(m) => -(m as i64),
            None => 0,
        }
    } else if c0 == '+' {
        assert(v@.skip(1) =~= v@.drop_first());
        match parse_digits_bounded(v, 1, 2147483647) {
            Some(m) => m as i64,
            None => 0,
        }
    } else {
        assert(v@.skip(0) =~= v@);
        match parse_digits_bounded(v, 0, 2147483647) {
            Some(m) => m as i64,
            None => 0,
        }
    }
}

} // verus!
