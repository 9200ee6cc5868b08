//! The cache-document format: a JSON-shaped object whose keys are cached
//! names and whose values are either integers (duration documents) or
//! arrays of strings (genre documents).
//!
//! Both directions are verified against the same grammar, and encoding
//! followed by parsing is proved to give every entry back, so a saved
//! cache reloads as an equal mapping.  The writer emits the compact form;
//! the reader also accepts insignificant whitespace between tokens, so a
//! pretty-printed document loads the same mapping.  A document that does
//! not fit the grammar parses to nothing, which the cache loaders treat
//! as empty.

use crate::numtext::{
    all_digits, dec_digits, digit_val, digits_val, is_digit_char, lemma_dec_digits, u64_digits,
};
use crate::strutil::{chars_string, str_chars};
use vstd::prelude::*;

verus! {

/// How one character is written inside a quoted string: quotes and
/// backslashes take a backslash before them, everything else stands as is.
pub open spec fn esc_char(c: char) -> Seq<char> {
    if c == '"' || c == '\\' {
        seq!['\\', c]
    } else {
        seq![c]
    }
}

/// How a whole name is written inside its quotes.
pub open spec fn esc(s: Seq<char>) -> Seq<char>
    decreases s.len(),
{
    if s.len() == 0 {
        Seq::empty()
    } else {
        esc_char(s[0]) + esc(s.drop_first())
    }
}

pub proof fn lemma_esc_push(s: Seq<char>, c: char)
    ensures
        esc(s.push(c)) == esc(s) + esc_char(c),
    decreases s.len(),
{
    if s.len() == 0 {
        assert(s.push(c)[0] == c);
        assert(s.push(c).drop_first() =~= Seq::<char>::empty());
        assert(esc(s.push(c)) == esc_char(c) + esc(Seq::<char>::empty()));
        assert(esc(Seq::<char>::empty()).len() == 0);
        assert(esc(s.push(c)) =~= esc(s) + esc_char(c));
    } else {
        assert(s.push(c)[0] == s[0]);
        assert(s.push(c).drop_first() =~= s.drop_first().push(c));
        lemma_esc_push(s.drop_first(), c);
        assert(esc_char(s[0]) + (esc(s.drop_first()) + esc_char(c)) =~= (esc_char(s[0]) + esc(
            s.drop_first(),
        )) + esc_char(c));
    }
}

/// One duration entry: a quoted, escaped key, a colon, and the decimal
/// value.
pub open spec fn enc_dur_entry(k: Seq<char>, v: u64) -> Seq<char> {
    seq!['"'] + esc(k) + seq!['"', ':'] + dec_digits(v as nat)
}

/// The entries of a duration document, comma-separated.
pub open spec fn enc_dur_entries(s: Seq<(Seq<char>, u64)>) -> Seq<char>
    decreases s.len(),
{
    if s.len() == 0 {
        Seq::empty()
    } else if s.len() == 1 {
        enc_dur_entry(s[0].0, s[0].1)
    } else {
        enc_dur_entry(s[0].0, s[0].1) + seq![','] + enc_dur_entries(s.drop_first())
    }
}

proof fn lemma_enc_dur_entries_push(s: Seq<(Seq<char>, u64)>, e: (Seq<char>, u64))
    ensures
        s.len() == 0 ==> enc_dur_entries(s.push(e)) == enc_dur_entry(e.0, e.1),
        s.len() > 0 ==> enc_dur_entries(s.push(e)) == enc_dur_entries(s) + seq![',']
            + enc_dur_entry(e.0, e.1),
    decreases s.len(),
{
    if s.len() == 0 {
        assert(s.push(e)[0] == e);
    } else {
        assert(s.push(e)[0] == s[0]);
        assert(s.push(e).drop_first() =~= s.drop_first().push(e));
        lemma_enc_dur_entries_push(s.drop_first(), e);
        if s.len() == 1 {
            assert(s.drop_first().len() == 0);
            assert(enc_dur_entries(s.push(e)) == enc_dur_entry(s[0].0, s[0].1) + seq![',']
                + enc_dur_entry(e.0, e.1));
            assert(enc_dur_entries(s) == enc_dur_entry(s[0].0, s[0].1));
        } else {
            assert(enc_dur_entry(s[0].0, s[0].1) + seq![','] + (enc_dur_entries(s.drop_first())
                + seq![','] + enc_dur_entry(e.0, e.1)) =~= (enc_dur_entry(s[0].0, s[0].1) + seq![
                ',',
            ] + enc_dur_entries(s.drop_first())) + seq![','] + enc_dur_entry(e.0, e.1));
        }
    }
}

/// A whole duration document.
pub open spec fn enc_dur_doc(s: Seq<(Seq<char>, u64)>) -> Seq<char> {
    seq!['{'] + enc_dur_entries(s) + seq!['}']
}

/// Reading a quoted string from just after its opening quote: characters
/// accumulate until the closing quote, a backslash taking the next
/// character literally.
pub open spec fn p_string(s: Seq<char>, i: int, acc: Seq<char>) -> Option<(Seq<char>, int)>
    decreases s.len() - i,
{
    if i < 0 || i >= s.len() {
        None
    } else if s[i] == '"' {
        Some((acc, i + 1))
    } else if s[i] == '\\' {
        if i + 1 < s.len() {
            p_string(s, i + 2, acc.push(s[i + 1]))
        } else {
            None
        }
    } else {
        p_string(s, i + 1, acc.push(s[i]))
    }
}

proof fn lemma_p_string_bounds(s: Seq<char>, i: int, acc: Seq<char>)
    ensures
        p_string(s, i, acc) matches Some((k, j)) ==> i < j <= s.len(),
    decreases s.len() - i,
{
    if 0 <= i < s.len() {
        if s[i] == '"' {
        } else if s[i] == '\\' {
            if i + 1 < s.len() {
                lemma_p_string_bounds(s, i + 2, acc.push(s[i + 1]));
            }
        } else {
            lemma_p_string_bounds(s, i + 1, acc.push(s[i]));
        }
    }
}

/// Whitespace that may stand between the tokens of a document without
/// changing what it denotes.
pub open spec fn is_ws_char(c: char) -> bool {
    c == ' ' || c == '\t' || c == '\n' || c == '\r'
}

/// Where the whitespace run starting at `i` ends: the position of the next
/// significant character.
pub open spec fn ws_end(s: Seq<char>, i: int) -> int
    decreases s.len() - i,
{
    if 0 <= i < s.len() && is_ws_char(s[i]) {
        ws_end(s, i + 1)
    } else {
        i
    }
}

proof fn lemma_ws_end_bounds(s: Seq<char>, i: int)
    requires
        0 <= i <= s.len(),
    ensures
        i <= ws_end(s, i) <= s.len(),
    decreases s.len() - i,
{
    if i < s.len() && is_ws_char(s[i]) {
        lemma_ws_end_bounds(s, i + 1);
    }
}

/// Steps over insignificant whitespace.
fn skip_ws(chars: &Vec<char>, start: usize) -> (r: usize)
    requires
        start <= chars@.len(),
    ensures
        r == ws_end(chars@, start as int),
        start <= r <= chars@.len(),
{
    let n = chars.len();
    let mut i = start;
    while i < n
        invariant_except_break
            n == chars@.len(),
            start <= i <= n,
            ws_end(chars@, start as int) == ws_end(chars@, i as int),
        ensures
            n == chars@.len(),
            start <= i <= n,
            ws_end(chars@, start as int) == i,
        decreases n - i,
    {
        let c = chars[i];
        if !(c == ' ' || c == '\t' || c == '\n' || c == '\r') {
            assert(!is_ws_char(chars@[i as int]));
            break ;
        }
        i = i + 1;
    }
    i
}

/// Where the digit run starting at `i` ends.
pub open spec fn digit_run_end(s: Seq<char>, i: int) -> int
    decreases s.len() - i,
{
    if 0 <= i < s.len() && is_digit_char(s[i]) {
        digit_run_end(s, i + 1)
    } else {
        i
    }
}

proof fn lemma_digit_run_end_bounds(s: Seq<char>, i: int)
    requires
        0 <= i <= s.len(),
    ensures
        i <= digit_run_end(s, i) <= s.len(),
    decreases s.len() - i,
{
    if i < s.len() && is_digit_char(s[i]) {
        lemma_digit_run_end_bounds(s, i + 1);
    }
}

/// Reading a decimal value: the digit run's value, unless there is no
/// digit or the value does not fit.
pub open spec fn p_number(s: Seq<char>, i: int) -> Option<(u64, int)> {
    let j = digit_run_end(s, i);
    if j == i {
        None
    } else if digits_val(s.subrange(i, j)) <= u64::MAX {
        Some((digits_val(s.subrange(i, j)) as u64, j))
    } else {
        None
    }
}

/// Reading one duration entry: a quoted key, a colon, and a value, with
/// insignificant whitespace allowed around the colon.
pub open spec fn p_dur_entry(s: Seq<char>, i: int) -> Option<((Seq<char>, u64), int)> {
    if 0 <= i < s.len() && s[i] == '"' {
        match p_string(s, i + 1, Seq::empty()) {
            Some((k, j)) => {
                let j2 = ws_end(s, j);
                if j2 < s.len() && s[j2] == ':' {
                    match p_number(s, ws_end(s, j2 + 1)) {
                        Some((v, m)) => Some(((k, v), m)),
                        None => None,
                    }
                } else {
                    None
                }
            },
            None => None,
        }
    } else {
        None
    }
}

proof fn lemma_p_dur_entry_bounds(s: Seq<char>, i: int)
    ensures
        p_dur_entry(s, i) matches Some((kv, j)) ==> i < j <= s.len(),
{
    if 0 <= i < s.len() && s[i] == '"' {
        lemma_p_string_bounds(s, i + 1, Seq::empty());
        match p_string(s, i + 1, Seq::empty()) {
            Some((k, j)) => {
                lemma_ws_end_bounds(s, j);
                let j2 = ws_end(s, j);
                if j2 < s.len() && s[j2] == ':' {
                    lemma_ws_end_bounds(s, j2 + 1);
                    lemma_digit_run_end_bounds(s, ws_end(s, j2 + 1));
                }
            },
            None => {},
        }
    }
}

/// Reading a comma-separated run of duration entries, whitespace allowed
/// around the commas; the returned position is the next significant
/// character after the last entry.
pub open spec fn p_dur_entries(s: Seq<char>, i: int, acc: Seq<(Seq<char>, u64)>) -> Option<
    (Seq<(Seq<char>, u64)>, int),
>
    decreases s.len() - i,
{
    match p_dur_entry(s, i) {
        None => None,
        Some((kv, j)) => {
            let j2 = ws_end(s, j);
            if j2 < s.len() && s[j2] == ',' {
                let k = ws_end(s, j2 + 1);
                if i < k <= s.len() {
                    p_dur_entries(s, k, acc.push(kv))
                } else {
                    None
                }
            } else {
                Some((acc.push(kv), j2))
            }
        },
    }
}

proof fn lemma_p_dur_entries_bounds(s: Seq<char>, i: int, acc: Seq<(Seq<char>, u64)>)
    ensures
        p_dur_entries(s, i, acc) matches Some((es, j)) ==> j <= s.len(),
    decreases s.len() - i,
{
    lemma_p_dur_entry_bounds(s, i);
    match p_dur_entry(s, i) {
        None => {},
        Some((kv, j)) => {
            lemma_ws_end_bounds(s, j);
            let j2 = ws_end(s, j);
            if j2 < s.len() && s[j2] == ',' {
                let k = ws_end(s, j2 + 1);
                if i < k <= s.len() {
                    lemma_p_dur_entries_bounds(s, k, acc.push(kv));
                }
            }
        },
    }
}

/// Reading a whole duration document: an object whose entries span the
/// full text, with insignificant whitespace allowed between tokens.
pub open spec fn p_dur_doc(s: Seq<char>) -> Option<Seq<(Seq<char>, u64)>> {
    let i0 = ws_end(s, 0);
    if 0 <= i0 < s.len() && s[i0] == '{' {
        let i1 = ws_end(s, i0 + 1);
        if i1 < s.len() && s[i1] == '}' {
            if ws_end(s, i1 + 1) == s.len() {
                Some(Seq::empty())
            } else {
                None
            }
        } else {
            match p_dur_entries(s, i1, Seq::empty()) {
                Some((es, j)) => if j < s.len() && s[j] == '}' && ws_end(s, j + 1) == s.len() {
                    Some(es)
                } else {
                    None
                },
                None => None,
            }
        }
    } else {
        None
    }
}

/// A quoted, escaped name reads back as itself.
proof fn lemma_p_string_at(s: Seq<char>, i: int, k: Seq<char>, acc: Seq<char>)
    requires
        0 <= i,
        i + esc(k).len() + 1 <= s.len(),
        s.subrange(i, i + esc(k).len()) == esc(k),
        s[i + esc(k).len()] == '"',
    ensures
        p_string(s, i, acc) == Some((acc + k, i + esc(k).len() + 1)),
    decreases k.len(),
{
    let e = esc(k).len() as int;
    if k.len() == 0 {
        assert(s[i] == '"');
        assert(acc + k =~= acc);
    } else {
        let c = k[0];
        let k2 = k.drop_first();
        let ec = esc_char(c);
        assert(esc(k) == ec + esc(k2));
        let e2 = esc(k2).len() as int;
        assert forall|d: int| 0 <= d < e implies s[i + d] == esc(k)[d] by {
            assert(s.subrange(i, i + e)[d] == s[i + d]);
        }
        if c == '"' || c == '\\' {
            assert(ec.len() == 2);
            assert(esc(k)[0] == '\\' && esc(k)[1] == c);
            assert(s[i] == '\\');
            assert(s[i + 1] == c);
            assert(i + 1 < s.len());
            assert(s.subrange(i + 2, i + 2 + e2) =~= esc(k2)) by {
                assert forall|d: int| 0 <= d < e2 implies s.subrange(i + 2, i + 2 + e2)[d] == esc(
                    k2,
                )[d] by {
                    assert(s.subrange(i + 2, i + 2 + e2)[d] == s[i + 2 + d]);
                    assert(esc(k)[2 + d] == esc(k2)[d]);
                }
            }
            assert(s[i + 2 + e2] == '"');
            lemma_p_string_at(s, i + 2, k2, acc.push(c));
            assert(p_string(s, i, acc) == p_string(s, i + 2, acc.push(s[i + 1])));
            assert(acc.push(c) + k2 =~= acc + k);
        } else {
            assert(ec.len() == 1);
            assert(esc(k)[0] == c);
            assert(s[i] == c);
            assert(c != '"' && c != '\\');
            assert(s.subrange(i + 1, i + 1 + e2) =~= esc(k2)) by {
                assert forall|d: int| 0 <= d < e2 implies s.subrange(i + 1, i + 1 + e2)[d] == esc(
                    k2,
                )[d] by {
                    assert(s.subrange(i + 1, i + 1 + e2)[d] == s[i + 1 + d]);
                    assert(esc(k)[1 + d] == esc(k2)[d]);
                }
            }
            assert(s[i + 1 + e2] == '"');
            lemma_p_string_at(s, i + 1, k2, acc.push(c));
            assert(p_string(s, i, acc) == p_string(s, i + 1, acc.push(s[i])));
            assert(acc.push(c) + k2 =~= acc + k);
        }
    }
}

/// A digit run lined up with a value's digits ends right after them.
proof fn lemma_digit_run_end_at(s: Seq<char>, i: int, d: Seq<char>)
    requires
        0 <= i,
        i + d.len() <= s.len(),
        all_digits(d),
        s.subrange(i, i + d.len()) == d,
        i + d.len() == s.len() || !is_digit_char(s[i + d.len()]),
    ensures
        digit_run_end(s, i) == i + d.len(),
    decreases d.len(),
{
    if d.len() == 0 {
    } else {
        assert(s.subrange(i, i + d.len())[0] == s[i]);
        assert(is_digit_char(s[i]));
        let d2 = d.drop_first();
        assert(s.subrange(i + 1, i + 1 + d2.len()) =~= d2) by {
            assert forall|x: int| 0 <= x < d2.len() implies s.subrange(i + 1, i + 1 + d2.len())[x]
                == d2[x] by {
                assert(s.subrange(i + 1, i + 1 + d2.len())[x] == s[i + 1 + x]);
                assert(s.subrange(i, i + d.len())[1 + x] == s[i + 1 + x]);
            }
        }
        assert(all_digits(d2)) by {
            assert(forall|x: int| 0 <= x < d2.len() ==> d2[x] == d[x + 1]);
        }
        lemma_digit_run_end_at(s, i + 1, d2);
    }
}

/// A value's digits read back as the value.
proof fn lemma_p_number_at(s: Seq<char>, i: int, v: u64)
    requires
        0 <= i,
        i + dec_digits(v as nat).len() <= s.len(),
        s.subrange(i, i + dec_digits(v as nat).len()) == dec_digits(v as nat),
        i + dec_digits(v as nat).len() == s.len() || !is_digit_char(
            s[i + dec_digits(v as nat).len()],
        ),
    ensures
        p_number(s, i) == Some((v, i + dec_digits(v as nat).len())),
{
    lemma_dec_digits(v as nat);
    lemma_digit_run_end_at(s, i, dec_digits(v as nat));
}

/// An encoded duration entry reads back as itself.
proof fn lemma_p_dur_entry_at(s: Seq<char>, i: int, k: Seq<char>, v: u64)
    requires
        0 <= i,
        i + enc_dur_entry(k, v).len() <= s.len(),
        s.subrange(i, i + enc_dur_entry(k, v).len()) == enc_dur_entry(k, v),
        i + enc_dur_entry(k, v).len() == s.len() || !is_digit_char(
            s[i + enc_dur_entry(k, v).len()],
        ),
    ensures
        p_dur_entry(s, i) == Some(((k, v), i + enc_dur_entry(k, v).len())),
{
    let enc = enc_dur_entry(k, v);
    let e = esc(k).len() as int;
    let d = dec_digits(v as nat).len() as int;
    assert(enc.len() == e + d + 3);
    assert forall|x: int| 0 <= x < enc.len() implies s[i + x] == enc[x] by {
        assert(s.subrange(i, i + enc.len())[x] == s[i + x]);
    }
    assert(enc[0] == '"');
    assert(s[i] == '"');
    assert(s.subrange(i + 1, i + 1 + e) =~= esc(k)) by {
        assert forall|x: int| 0 <= x < e implies s.subrange(i + 1, i + 1 + e)[x] == esc(k)[x] by {
            assert(s.subrange(i + 1, i + 1 + e)[x] == s[i + 1 + x]);
            assert(enc[1 + x] == esc(k)[x]);
        }
    }
    assert(enc[1 + e] == '"');
    assert(s[i + 1 + e] == '"');
    lemma_p_string_at(s, i + 1, k, Seq::empty());
    assert(Seq::<char>::empty() + k =~= k);
    assert(enc[e + 2] == ':');
    assert(s[i + e + 2] == ':');
    assert(!is_ws_char(s[i + e + 2]));
    assert(ws_end(s, i + e + 2) == i + e + 2);
    lemma_dec_digits(v as nat);
    assert(enc[e + 3] == dec_digits(v as nat)[0]);
    assert(is_digit_char(s[i + e + 3]));
    assert(!is_ws_char(s[i + e + 3]));
    assert(ws_end(s, i + e + 3) == i + e + 3);
    assert(s.subrange(i + e + 3, i + e + 3 + d) =~= dec_digits(v as nat)) by {
        assert forall|x: int| 0 <= x < d implies s.subrange(i + e + 3, i + e + 3 + d)[x]
            == dec_digits(v as nat)[x] by {
            assert(s.subrange(i + e + 3, i + e + 3 + d)[x] == s[i + e + 3 + x]);
            assert(enc[e + 3 + x] == dec_digits(v as nat)[x]);
        }
    }
    lemma_p_number_at(s, i + e + 3, v);
}

/// An encoded run of entries, terminated by the closing brace, reads back
/// as the entries.
proof fn lemma_p_dur_entries_at(
    s: Seq<char>,
    i: int,
    es: Seq<(Seq<char>, u64)>,
    acc: Seq<(Seq<char>, u64)>,
)
    requires
        0 <= i,
        es.len() >= 1,
        i + enc_dur_entries(es).len() < s.len(),
        s.subrange(i, i + enc_dur_entries(es).len()) == enc_dur_entries(es),
        s[i + enc_dur_entries(es).len()] == '}',
    ensures
        p_dur_entries(s, i, acc) == Some((acc + es, i + enc_dur_entries(es).len())),
    decreases es.len(),
{
    let enc = enc_dur_entries(es);
    let l = enc.len() as int;
    let e0 = enc_dur_entry(es[0].0, es[0].1);
    let l0 = e0.len() as int;
    assert forall|x: int| 0 <= x < l implies s[i + x] == enc[x] by {
        assert(s.subrange(i, i + l)[x] == s[i + x]);
    }
    if es.len() == 1 {
        assert(enc == e0);
        assert(s.subrange(i, i + l0) =~= e0);
        assert(!is_digit_char(s[i + l0]));
        lemma_p_dur_entry_at(s, i, es[0].0, es[0].1);
        assert(s[i + l0] == '}');
        assert(!is_ws_char(s[i + l0]));
        assert(ws_end(s, i + l0) == i + l0);
        assert(acc.push(es[0]) =~= acc + es);
    } else {
        let rest = es.drop_first();
        assert(enc == e0 + seq![','] + enc_dur_entries(rest));
        assert(s.subrange(i, i + l0) =~= e0) by {
            assert forall|x: int| 0 <= x < l0 implies s.subrange(i, i + l0)[x] == e0[x] by {
                assert(s.subrange(i, i + l0)[x] == s[i + x]);
                assert(enc[x] == e0[x]);
            }
        }
        assert(enc[l0] == ',');
        assert(s[i + l0] == ',');
        assert(!is_digit_char(s[i + l0]));
        lemma_p_dur_entry_at(s, i, es[0].0, es[0].1);
        assert(!is_ws_char(s[i + l0]));
        assert(ws_end(s, i + l0) == i + l0);
        assert(enc_dur_entries(rest)[0] == '"') by {
            if rest.len() == 1 {
            }
        }
        assert(enc[l0 + 1] == enc_dur_entries(rest)[0]);
        assert(s[i + l0 + 1] == '"');
        assert(!is_ws_char(s[i + l0 + 1]));
        assert(ws_end(s, i + l0 + 1) == i + l0 + 1);
        let l1 = enc_dur_entries(rest).len() as int;
        assert(s.subrange(i + l0 + 1, i + l0 + 1 + l1) =~= enc_dur_entries(rest)) by {
            assert forall|x: int| 0 <= x < l1 implies s.subrange(i + l0 + 1, i + l0 + 1 + l1)[x]
                == enc_dur_entries(rest)[x] by {
                assert(s.subrange(i + l0 + 1, i + l0 + 1 + l1)[x] == s[i + l0 + 1 + x]);
                assert(enc[l0 + 1 + x] == enc_dur_entries(rest)[x]);
            }
        }
        assert(s[i + l0 + 1 + l1] == '}');
        lemma_p_dur_entries_at(s, i + l0 + 1, rest, acc.push(es[0]));
        assert(acc.push(es[0]) + rest =~= acc + es);
    }
}

/// Round trip: an encoded duration document parses back to exactly its
/// entries, in order.
pub proof fn lemma_dur_round_trip(es: Seq<(Seq<char>, u64)>)
    ensures
        p_dur_doc(enc_dur_doc(es)) == Some(es),
{
    let s = enc_dur_doc(es);
    assert(s[0] == '{');
    assert(s.last() == '}');
    assert(!is_ws_char(s[0]));
    assert(ws_end(s, 0) == 0);
    if es.len() == 0 {
        assert(enc_dur_entries(es).len() == 0);
        assert(s.len() == 2);
        assert(s[1] == '}');
        assert(!is_ws_char(s[1]));
        assert(ws_end(s, 1) == 1);
        assert(ws_end(s, 2) == 2);
        assert(Seq::<(Seq<char>, u64)>::empty() =~= es);
    } else {
        let l = enc_dur_entries(es).len() as int;
        assert(s.len() == l + 2);
        assert(enc_dur_entry(es[0].0, es[0].1).len() >= 4);
        assert(l >= 1) by {
            if es.len() == 1 {
            }
        }
        assert(enc_dur_entries(es)[0] == '"') by {
            if es.len() == 1 {
            }
        }
        assert(s[1] == (seq!['{'] + enc_dur_entries(es) + seq!['}'])[1]);
        assert(s[1] == '"');
        assert(!is_ws_char(s[1]));
        assert(ws_end(s, 1) == 1);
        assert(s.subrange(1, 1 + l) =~= enc_dur_entries(es)) by {
            assert forall|x: int| 0 <= x < l implies s.subrange(1, 1 + l)[x] == enc_dur_entries(
                es,
            )[x] by {
                assert(s.subrange(1, 1 + l)[x] == s[1 + x]);
                assert(s[1 + x] == (seq!['{'] + enc_dur_entries(es) + seq!['}'])[1 + x]);
            }
        }
        assert(s[1 + l] == '}');
        lemma_p_dur_entries_at(s, 1, es, Seq::empty());
        assert(ws_end(s, 1 + l + 1) == s.len());
        assert(Seq::<(Seq<char>, u64)>::empty() + es =~= es);
    }
}

/// The entry views a duration entry list denotes.
pub open spec fn dur_entry_views(s: Seq<(String, u64)>) -> Seq<(Seq<char>, u64)> {
    s.map_values(|e: (String, u64)| (e.0@, e.1))
}

/// A quoted, escaped name.
pub open spec fn enc_qstr(k: Seq<char>) -> Seq<char> {
    seq!['"'] + esc(k) + seq!['"']
}

/// The items of a genre-tag array, comma-separated.
pub open spec fn enc_arr_items(vs: Seq<Seq<char>>) -> Seq<char>
    decreases vs.len(),
{
    if vs.len() == 0 {
        Seq::empty()
    } else if vs.len() == 1 {
        enc_qstr(vs[0])
    } else {
        enc_qstr(vs[0]) + seq![','] + enc_arr_items(vs.drop_first())
    }
}

/// A genre-tag array.
pub open spec fn enc_arr(vs: Seq<Seq<char>>) -> Seq<char> {
    seq!['['] + enc_arr_items(vs) + seq![']']
}

/// One genre entry: a quoted, escaped artist name, a colon, and the tag
/// array.
pub open spec fn enc_genre_entry(k: Seq<char>, vs: Seq<Seq<char>>) -> Seq<char> {
    enc_qstr(k) + seq![':'] + enc_arr(vs)
}

/// The entries of a genre document, comma-separated.
pub open spec fn enc_genre_entries(s: Seq<(Seq<char>, Seq<Seq<char>>)>) -> Seq<char>
    decreases s.len(),
{
    if s.len() == 0 {
        Seq::empty()
    } else if s.len() == 1 {
        enc_genre_entry(s[0].0, s[0].1)
    } else {
        enc_genre_entry(s[0].0, s[0].1) + seq![','] + enc_genre_entries(s.drop_first())
    }
}

/// A whole genre document.
pub open spec fn enc_genre_doc(s: Seq<(Seq<char>, Seq<Seq<char>>)>) -> Seq<char> {
    seq!['{'] + enc_genre_entries(s) + seq!['}']
}

/// Reading the items of a genre-tag array, from its first quote,
/// whitespace allowed around the commas; the returned position is the
/// next significant character after the last item.
pub open spec fn p_arr_items(s: Seq<char>, i: int, acc: Seq<Seq<char>>) -> Option<
    (Seq<Seq<char>>, int),
>
    decreases s.len() - i,
{
    if 0 <= i < s.len() && s[i] == '"' {
        match p_string(s, i + 1, Seq::empty()) {
            Some((v, j)) => {
                let j2 = ws_end(s, j);
                if j2 < s.len() && s[j2] == ',' {
                    let k = ws_end(s, j2 + 1);
                    if i < k <= s.len() {
                        p_arr_items(s, k, acc.push(v))
                    } else {
                        None
                    }
                } else {
                    Some((acc.push(v), j2))
                }
            },
            None => None,
        }
    } else {
        None
    }
}

/// Reading a genre-tag array, from its opening bracket, whitespace allowed
/// between tokens.
pub open spec fn p_arr(s: Seq<char>, i: int) -> Option<(Seq<Seq<char>>, int)> {
    if 0 <= i < s.len() && s[i] == '[' {
        let i1 = ws_end(s, i + 1);
        if i1 < s.len() && s[i1] == ']' {
            Some((Seq::empty(), i1 + 1))
        } else {
            match p_arr_items(s, i1, Seq::empty()) {
                Some((vs, j)) => if j < s.len() && s[j] == ']' {
                    Some((vs, j + 1))
                } else {
                    None
                },
                None => None,
            }
        }
    } else {
        None
    }
}

/// Reading one genre entry: a quoted key, a colon, and a tag array, with
/// insignificant whitespace allowed around the colon.
pub open spec fn p_genre_entry(s: Seq<char>, i: int) -> Option<
    ((Seq<char>, Seq<Seq<char>>), int),
> {
    if 0 <= i < s.len() && s[i] == '"' {
        match p_string(s, i + 1, Seq::empty()) {
            Some((k, j)) => {
                let j2 = ws_end(s, j);
                if j2 < s.len() && s[j2] == ':' {
                    match p_arr(s, ws_end(s, j2 + 1)) {
                        Some((vs, m)) => Some(((k, vs), m)),
                        None => None,
                    }
                } else {
                    None
                }
            },
            None => None,
        }
    } else {
        None
    }
}

proof fn lemma_p_arr_items_bounds(s: Seq<char>, i: int, acc: Seq<Seq<char>>)
    ensures
        p_arr_items(s, i, acc) matches Some((vs, j)) ==> i < j <= s.len(),
    decreases s.len() - i,
{
    if 0 <= i < s.len() && s[i] == '"' {
        lemma_p_string_bounds(s, i + 1, Seq::empty());
        match p_string(s, i + 1, Seq::empty()) {
            Some((v, j)) => {
                lemma_ws_end_bounds(s, j);
                let j2 = ws_end(s, j);
                if j2 < s.len() && s[j2] == ',' {
                    let k = ws_end(s, j2 + 1);
                    if i < k <= s.len() {
                        lemma_p_arr_items_bounds(s, k, acc.push(v));
                    }
                }
            },
            None => {},
        }
    }
}

proof fn lemma_p_arr_bounds(s: Seq<char>, i: int)
    ensures
        p_arr(s, i) matches Some((vs, j)) ==> i < j <= s.len(),
{
    if 0 <= i < s.len() && s[i] == '[' {
        lemma_ws_end_bounds(s, i + 1);
        lemma_p_arr_items_bounds(s, ws_end(s, i + 1), Seq::empty());
    }
}

proof fn lemma_p_genre_entry_bounds(s: Seq<char>, i: int)
    ensures
        p_genre_entry(s, i) matches Some((kv, j)) ==> i < j <= s.len(),
{
    if 0 <= i < s.len() && s[i] == '"' {
        lemma_p_string_bounds(s, i + 1, Seq::empty());
        match p_string(s, i + 1, Seq::empty()) {
            Some((k, j)) => {
                lemma_ws_end_bounds(s, j);
                let j2 = ws_end(s, j);
                if j2 < s.len() && s[j2] == ':' {
                    lemma_ws_end_bounds(s, j2 + 1);
                    lemma_p_arr_bounds(s, ws_end(s, j2 + 1));
                }
            },
            None => {},
        }
    }
}

/// Reading a comma-separated run of genre entries, whitespace allowed
/// around the commas; the returned position is the next significant
/// character after the last entry.
pub open spec fn p_genre_entries(s: Seq<char>, i: int, acc: Seq<(Seq<char>, Seq<Seq<char>>)>)
    -> Option<(Seq<(Seq<char>, Seq<Seq<char>>)>, int)>
    decreases s.len() - i,
{
    match p_genre_entry(s, i) {
        None => None,
        Some((kv, j)) => {
            let j2 = ws_end(s, j);
            if j2 < s.len() && s[j2] == ',' {
                let k = ws_end(s, j2 + 1);
                if i < k <= s.len() {
                    p_genre_entries(s, k, acc.push(kv))
                } else {
                    None
                }
            } else {
                Some((acc.push(kv), j2))
            }
        },
    }
}

/// Reading a whole genre document: an object whose entries span the full
/// text, with insignificant whitespace allowed between tokens.
pub open spec fn p_genre_doc(s: Seq<char>) -> Option<Seq<(Seq<char>, Seq<Seq<char>>)>> {
    let i0 = ws_end(s, 0);
    if 0 <= i0 < s.len() && s[i0] == '{' {
        let i1 = ws_end(s, i0 + 1);
        if i1 < s.len() && s[i1] == '}' {
            if ws_end(s, i1 + 1) == s.len() {
                Some(Seq::empty())
            } else {
                None
            }
        } else {
            match p_genre_entries(s, i1, Seq::empty()) {
                Some((es, j)) => if j < s.len() && s[j] == '}' && ws_end(s, j + 1) == s.len() {
                    Some(es)
                } else {
                    None
                },
                None => None,
            }
        }
    } else {
        None
    }
}

/// An encoded run of array items, terminated by the closing bracket,
/// reads back as the items.
proof fn lemma_p_arr_items_at(s: Seq<char>, i: int, vs: Seq<Seq<char>>, acc: Seq<Seq<char>>)
    requires
        0 <= i,
        vs.len() >= 1,
        i + enc_arr_items(vs).len() < s.len(),
        s.subrange(i, i + enc_arr_items(vs).len()) == enc_arr_items(vs),
        s[i + enc_arr_items(vs).len()] == ']',
    ensures
        p_arr_items(s, i, acc) == Some((acc + vs, i + enc_arr_items(vs).len())),
    decreases vs.len(),
{
    let enc = enc_arr_items(vs);
    let l = enc.len() as int;
    let q0 = enc_qstr(vs[0]);
    let l0 = q0.len() as int;
    let e0 = esc(vs[0]).len() as int;
    assert forall|x: int| 0 <= x < l implies s[i + x] == enc[x] by {
        assert(s.subrange(i, i + l)[x] == s[i + x]);
    }
    if vs.len() == 1 {
        assert(enc == q0);
        assert(q0[0] == '"');
        assert(s[i] == '"');
        assert(s.subrange(i + 1, i + 1 + e0) =~= esc(vs[0])) by {
            assert forall|x: int| 0 <= x < e0 implies s.subrange(i + 1, i + 1 + e0)[x] == esc(
                vs[0],
            )[x] by {
                assert(s.subrange(i + 1, i + 1 + e0)[x] == s[i + 1 + x]);
                assert(enc[1 + x] == esc(vs[0])[x]);
            }
        }
        assert(enc[1 + e0] == '"');
        lemma_p_string_at(s, i + 1, vs[0], Seq::empty());
        assert(Seq::<char>::empty() + vs[0] =~= vs[0]);
        assert(s[i + l0] == ']');
        assert(!is_ws_char(s[i + l0]));
        assert(ws_end(s, i + l0) == i + l0);
        assert(acc.push(vs[0]) =~= acc + vs);
    } else {
        let rest = vs.drop_first();
        assert(enc == q0 + seq![','] + enc_arr_items(rest));
        assert(enc[0] == q0[0]);
        assert(q0[0] == '"');
        assert(s[i] == '"');
        assert(s.subrange(i + 1, i + 1 + e0) =~= esc(vs[0])) by {
            assert forall|x: int| 0 <= x < e0 implies s.subrange(i + 1, i + 1 + e0)[x] == esc(
                vs[0],
            )[x] by {
                assert(s.subrange(i + 1, i + 1 + e0)[x] == s[i + 1 + x]);
                assert(enc[1 + x] == esc(vs[0])[x]);
            }
        }
        assert(enc[1 + e0] == '"');
        lemma_p_string_at(s, i + 1, vs[0], Seq::empty());
        assert(Seq::<char>::empty() + vs[0] =~= vs[0]);
        assert(enc[l0] == ',');
        assert(s[i + l0] == ',');
        assert(!is_ws_char(s[i + l0]));
        assert(ws_end(s, i + l0) == i + l0);
        assert(enc_arr_items(rest)[0] == '"') by {
            if rest.len() == 1 {
            }
        }
        assert(enc[l0 + 1] == enc_arr_items(rest)[0]);
        assert(s[i + l0 + 1] == '"');
        assert(!is_ws_char(s[i + l0 + 1]));
        assert(ws_end(s, i + l0 + 1) == i + l0 + 1);
        let l1 = enc_arr_items(rest).len() as int;
        assert(s.subrange(i + l0 + 1, i + l0 + 1 + l1) =~= enc_arr_items(rest)) by {
            assert forall|x: int| 0 <= x < l1 implies s.subrange(i + l0 + 1, i + l0 + 1 + l1)[x]
                == enc_arr_items(rest)[x] by {
                assert(s.subrange(i + l0 + 1, i + l0 + 1 + l1)[x] == s[i + l0 + 1 + x]);
                assert(enc[l0 + 1 + x] == enc_arr_items(rest)[x]);
            }
        }
        assert(s[i + l0 + 1 + l1] == ']');
        lemma_p_arr_items_at(s, i + l0 + 1, rest, acc.push(vs[0]));
        assert(acc.push(vs[0]) + rest =~= acc + vs);
    }
}

/// An encoded array reads back as its items.
proof fn lemma_p_arr_at(s: Seq<char>, i: int, vs: Seq<Seq<char>>)
    requires
        0 <= i,
        i + enc_arr(vs).len() <= s.len(),
        s.subrange(i, i + enc_arr(vs).len()) == enc_arr(vs),
    ensures
        p_arr(s, i) == Some((vs, i + enc_arr(vs).len())),
{
    let enc = enc_arr(vs);
    let a = enc.len() as int;
    assert forall|x: int| 0 <= x < a implies s[i + x] == enc[x] by {
        assert(s.subrange(i, i + a)[x] == s[i + x]);
    }
    assert(enc[0] == '[');
    assert(s[i] == '[');
    if vs.len() == 0 {
        assert(enc_arr_items(vs).len() == 0);
        assert(a == 2);
        assert(enc[1] == ']');
        assert(s[i + 1] == ']');
        assert(!is_ws_char(s[i + 1]));
        assert(ws_end(s, i + 1) == i + 1);
        assert(Seq::<Seq<char>>::empty() =~= vs);
    } else {
        let l = enc_arr_items(vs).len() as int;
        assert(enc_qstr(vs[0]).len() >= 2);
        assert(l >= 1) by {
            if vs.len() == 1 {
            }
        }
        assert(enc[1] == enc_arr_items(vs)[0]);
        assert(enc_arr_items(vs)[0] == '"') by {
            if vs.len() == 1 {
            }
        }
        assert(s[i + 1] == '"');
        assert(!is_ws_char(s[i + 1]));
        assert(ws_end(s, i + 1) == i + 1);
        assert(s.subrange(i + 1, i + 1 + l) =~= enc_arr_items(vs)) by {
            assert forall|x: int| 0 <= x < l implies s.subrange(i + 1, i + 1 + l)[x]
                == enc_arr_items(vs)[x] by {
                assert(s.subrange(i + 1, i + 1 + l)[x] == s[i + 1 + x]);
                assert(enc[1 + x] == enc_arr_items(vs)[x]);
            }
        }
        assert(enc[1 + l] == ']');
        assert(s[i + 1 + l] == ']');
        lemma_p_arr_items_at(s, i + 1, vs, Seq::empty());
        assert(Seq::<Seq<char>>::empty() + vs =~= vs);
    }
}

/// An encoded genre entry reads back as itself.
proof fn lemma_p_genre_entry_at(s: Seq<char>, i: int, k: Seq<char>, vs: Seq<Seq<char>>)
    requires
        0 <= i,
        i + enc_genre_entry(k, vs).len() <= s.len(),
        s.subrange(i, i + enc_genre_entry(k, vs).len()) == enc_genre_entry(k, vs),
    ensures
        p_genre_entry(s, i) == Some(((k, vs), i + enc_genre_entry(k, vs).len())),
{
    let enc = enc_genre_entry(k, vs);
    let e = esc(k).len() as int;
    let a = enc_arr(vs).len() as int;
    assert(enc.len() == e + a + 3);
    assert forall|x: int| 0 <= x < enc.len() implies s[i + x] == enc[x] by {
        assert(s.subrange(i, i + enc.len())[x] == s[i + x]);
    }
    assert(enc[0] == '"');
    assert(s[i] == '"');
    assert(s.subrange(i + 1, i + 1 + e) =~= esc(k)) by {
        assert forall|x: int| 0 <= x < e implies s.subrange(i + 1, i + 1 + e)[x] == esc(k)[x] by {
            assert(s.subrange(i + 1, i + 1 + e)[x] == s[i + 1 + x]);
            assert(enc[1 + x] == esc(k)[x]);
        }
    }
    assert(enc[1 + e] == '"');
    assert(s[i + 1 + e] == '"');
    lemma_p_string_at(s, i + 1, k, Seq::empty());
    assert(Seq::<char>::empty() + k =~= k);
    assert(enc[e + 2] == ':');
    assert(s[i + e + 2] == ':');
    assert(!is_ws_char(s[i + e + 2]));
    assert(ws_end(s, i + e + 2) == i + e + 2);
    assert(enc_arr(vs)[0] == '[');
    assert(enc[e + 3] == enc_arr(vs)[0]);
    assert(s[i + e + 3] == '[');
    assert(!is_ws_char(s[i + e + 3]));
    assert(ws_end(s, i + e + 3) == i + e + 3);
    assert(s.subrange(i + e + 3, i + e + 3 + a) =~= enc_arr(vs)) by {
        assert forall|x: int| 0 <= x < a implies s.subrange(i + e + 3, i + e + 3 + a)[x] == enc_arr(
            vs,
        )[x] by {
            assert(s.subrange(i + e + 3, i + e + 3 + a)[x] == s[i + e + 3 + x]);
            assert(enc[e + 3 + x] == enc_arr(vs)[x]);
        }
    }
    lemma_p_arr_at(s, i + e + 3, vs);
}

/// An encoded run of genre entries, terminated by the closing brace, reads
/// back as the entries.
proof fn lemma_p_genre_entries_at(
    s: Seq<char>,
    i: int,
    es: Seq<(Seq<char>, Seq<Seq<char>>)>,
    acc: Seq<(Seq<char>, Seq<Seq<char>>)>,
)
    requires
        0 <= i,
        es.len() >= 1,
        i + enc_genre_entries(es).len() < s.len(),
        s.subrange(i, i + enc_genre_entries(es).len()) == enc_genre_entries(es),
        s[i + enc_genre_entries(es).len()] == '}',
    ensures
        p_genre_entries(s, i, acc) == Some((acc + es, i + enc_genre_entries(es).len())),
    decreases es.len(),
{
    let enc = enc_genre_entries(es);
    let l = enc.len() as int;
    let e0 = enc_genre_entry(es[0].0, es[0].1);
    let l0 = e0.len() as int;
    assert forall|x: int| 0 <= x < l implies s[i + x] == enc[x] by {
        assert(s.subrange(i, i + l)[x] == s[i + x]);
    }
    if es.len() == 1 {
        assert(enc == e0);
        assert(s.subrange(i, i + l0) =~= e0);
        lemma_p_genre_entry_at(s, i, es[0].0, es[0].1);
        assert(s[i + l0] == '}');
        assert(!is_ws_char(s[i + l0]));
        assert(ws_end(s, i + l0) == i + l0);
        assert(acc.push(es[0]) =~= acc + es);
    } else {
        let rest = es.drop_first();
        assert(enc == e0 + seq![','] + enc_genre_entries(rest));
        assert(s.subrange(i, i + l0) =~= e0) by {
            assert forall|x: int| 0 <= x < l0 implies s.subrange(i, i + l0)[x] == e0[x] by {
                assert(s.subrange(i, i + l0)[x] == s[i + x]);
                assert(enc[x] == e0[x]);
            }
        }
        lemma_p_genre_entry_at(s, i, es[0].0, es[0].1);
        assert(enc[l0] == ',');
        assert(s[i + l0] == ',');
        assert(!is_ws_char(s[i + l0]));
        assert(ws_end(s, i + l0) == i + l0);
        assert(enc_qstr(rest[0].0)[0] == '"');
        assert(enc_genre_entries(rest)[0] == '"') by {
            if rest.len() == 1 {
            }
        }
        assert(enc[l0 + 1] == enc_genre_entries(rest)[0]);
        assert(s[i + l0 + 1] == '"');
        assert(!is_ws_char(s[i + l0 + 1]));
        assert(ws_end(s, i + l0 + 1) == i + l0 + 1);
        let l1 = enc_genre_entries(rest).len() as int;
        assert(s.subrange(i + l0 + 1, i + l0 + 1 + l1) =~= enc_genre_entries(rest)) by {
            assert forall|x: int| 0 <= x < l1 implies s.subrange(i + l0 + 1, i + l0 + 1 + l1)[x]
                == enc_genre_entries(rest)[x] by {
                assert(s.subrange(i + l0 + 1, i + l0 + 1 + l1)[x] == s[i + l0 + 1 + x]);
                assert(enc[l0 + 1 + x] == enc_genre_entries(rest)[x]);
            }
        }
        assert(s[i + l0 + 1 + l1] == '}');
        lemma_p_genre_entries_at(s, i + l0 + 1, rest, acc.push(es[0]));
        assert(acc.push(es[0]) + rest =~= acc + es);
    }
}

/// Round trip: an encoded genre document parses back to exactly its
/// entries, in order.
pub proof fn lemma_genre_round_trip(es: Seq<(Seq<char>, Seq<Seq<char>>)>)
    ensures
        p_genre_doc(enc_genre_doc(es)) == Some(es),
{
    let s = enc_genre_doc(es);
    assert(s[0] == '{');
    assert(!is_ws_char(s[0]));
    assert(ws_end(s, 0) == 0);
    if es.len() == 0 {
        assert(enc_genre_entries(es).len() == 0);
        assert(s.len() == 2);
        assert(s[1] == '}');
        assert(!is_ws_char(s[1]));
        assert(ws_end(s, 1) == 1);
        assert(ws_end(s, 2) == 2);
        assert(Seq::<(Seq<char>, Seq<Seq<char>>)>::empty() =~= es);
    } else {
        let l = enc_genre_entries(es).len() as int;
        assert(s.len() == l + 2);
        assert(enc_genre_entry(es[0].0, es[0].1).len() >= 5);
        assert(l >= 1) by {
            if es.len() == 1 {
            }
        }
        assert(enc_qstr(es[0].0)[0] == '"');
        assert(enc_genre_entries(es)[0] == '"') by {
            if es.len() == 1 {
            }
        }
        assert(s[1] == (seq!['{'] + enc_genre_entries(es) + seq!['}'])[1]);
        assert(s[1] == '"');
        assert(!is_ws_char(s[1]));
        assert(ws_end(s, 1) == 1);
        assert(s.subrange(1, 1 + l) =~= enc_genre_entries(es)) by {
            assert forall|x: int| 0 <= x < l implies s.subrange(1, 1 + l)[x] == enc_genre_entries(
                es,
            )[x] by {
                assert(s.subrange(1, 1 + l)[x] == s[1 + x]);
                assert(s[1 + x] == (seq!['{'] + enc_genre_entries(es) + seq!['}'])[1 + x]);
            }
        }
        assert(s[1 + l] == '}');
        lemma_p_genre_entries_at(s, 1, es, Seq::empty());
        assert(ws_end(s, 1 + l + 1) == s.len());
        assert(Seq::<(Seq<char>, Seq<Seq<char>>)>::empty() + es =~= es);
    }
}

/// The entry views a genre entry list denotes.
pub open spec fn genre_entry_views(s: Seq<(String, Vec<String>)>) -> Seq<
    (Seq<char>, Seq<Seq<char>>),
> {
    s.map_values(|e: (String, Vec<String>)| (e.0@, e.1.deep_view()))
}

/// Appends the escaped form of one name, between quotes, to the output.
fn push_quoted(out: &mut Vec<char>, k: &String)
    ensures
        final(out)@ == old(out)@ + seq!['"'] + esc(k@) + seq!['"'],
{
    let ghost base = out@;
    out.push('"');
    let chars = str_chars(k.as_str());
    let n = chars.len();
    for i in 0..n
        invariant
            n == chars@.len(),
            chars@ == k@,
            out@ == base + seq!['"'] + esc(k@.take(i as int)),
    {
        let c = chars[i];
        if c == '"' || c == '\\' {
            out.push('\\');
            out.push(c);
        } else {
            out.push(c);
        }
        proof {
            lemma_esc_push(k@.take(i as int), k@[i as int]);
            assert(k@.take(i as int).push(k@[i as int]) =~= k@.take(i + 1));
            assert(base + seq!['"'] + esc(k@.take(i as int)) + esc_char(k@[i as int]) =~= base
                + seq!['"'] + (esc(k@.take(i as int)) + esc_char(k@[i as int])));
        }
    }
    proof {
        assert(k@.take(n as int) =~= k@);
    }
    out.push('"');
    proof {
        assert(base + seq!['"'] + esc(k@) + seq!['"'] =~= (base + seq!['"'] + esc(k@)).push('"'));
    }
}

/// Writes a duration cache's entries as a document.
pub fn encode_duration_entries(entries: &Vec<(String, u64)>) -> (r: String)
    ensures
        r@ == enc_dur_doc(dur_entry_views(entries@)),
{
    let mut out: Vec<char> = Vec::new();
    out.push('{');
    let n = entries.len();
    proof {
        assert(dur_entry_views(entries@).take(0) =~= Seq::<(Seq<char>, u64)>::empty());
        assert(out@ =~= seq!['{'] + enc_dur_entries(dur_entry_views(entries@).take(0)));
    }
    for i in 0..n
        invariant
            n == entries@.len(),
            out@ == seq!['{'] + enc_dur_entries(dur_entry_views(entries@).take(i as int)),
    {
        let ghost views = dur_entry_views(entries@);
        let ghost before = out@;
        if i > 0 {
            out.push(',');
        }
        let ghost mid = out@;
        push_quoted(&mut out, &entries[i].0);
        out.push(':');
        let digits = u64_digits(entries[i].1);
        let m = digits.len();
        let ghost afterkey = out@;
        for j in 0..m
            invariant
                m == digits@.len(),
                digits@ == dec_digits(entries@[i as int].1 as nat),
                out@ == afterkey + digits@.take(j as int),
        {
            out.push(digits[j]);
            assert(digits@.take(j as int).push(digits@[j as int]) =~= digits@.take(j + 1));
            assert(afterkey + digits@.take(j as int) + seq![digits@[j as int]] =~= afterkey + (
            digits@.take(j as int) + seq![digits@[j as int]]));
        }
        proof {
            assert(digits@.take(m as int) =~= digits@);
            let e = views[i as int];
            assert(e == (entries@[i as int].0@, entries@[i as int].1));
            assert(out@ =~= mid + enc_dur_entry(e.0, e.1)) by {
                assert(afterkey =~= mid + seq!['"'] + esc(e.0) + seq!['"'] + seq![':']);
                assert(mid + seq!['"'] + esc(e.0) + seq!['"'] + seq![':'] + dec_digits(
                    e.1 as nat,
                ) =~= mid + (seq!['"'] + esc(e.0) + seq!['"', ':'] + dec_digits(e.1 as nat)));
            }
            lemma_enc_dur_entries_push(views.take(i as int), e);
            assert(views.take(i as int).push(e) =~= views.take(i + 1));
            if i == 0 {
                assert(mid == before);
                assert(out@ =~= seq!['{'] + enc_dur_entries(views.take(1)));
            } else {
                assert(mid =~= before + seq![',']);
                assert(out@ =~= seq!['{'] + enc_dur_entries(views.take(i + 1))) by {
                    assert(before + seq![','] + enc_dur_entry(e.0, e.1) =~= before + (seq![',']
                        + enc_dur_entry(e.0, e.1)));
                    assert(seq!['{'] + enc_dur_entries(views.take(i as int)) + (seq![',']
                        + enc_dur_entry(e.0, e.1)) =~= seq!['{'] + (enc_dur_entries(
                        views.take(i as int),
                    ) + seq![','] + enc_dur_entry(e.0, e.1)));
                }
            }
        }
    }
    proof {
        assert(dur_entry_views(entries@).take(n as int) =~= dur_entry_views(entries@));
    }
    out.push('}');
    proof {
        assert(seq!['{'] + enc_dur_entries(dur_entry_views(entries@)) + seq!['}'] =~= (seq!['{']
            + enc_dur_entries(dur_entry_views(entries@))).push('}'));
    }
    chars_string(&out)
}

proof fn lemma_enc_arr_items_push(s: Seq<Seq<char>>, e: Seq<char>)
    ensures
        s.len() == 0 ==> enc_arr_items(s.push(e)) == enc_qstr(e),
        s.len() > 0 ==> enc_arr_items(s.push(e)) == enc_arr_items(s) + seq![','] + enc_qstr(e),
    decreases s.len(),
{
    if s.len() == 0 {
        assert(s.push(e)[0] == e);
    } else {
        assert(s.push(e)[0] == s[0]);
        assert(s.push(e).drop_first() =~= s.drop_first().push(e));
        lemma_enc_arr_items_push(s.drop_first(), e);
        if s.len() == 1 {
            assert(enc_arr_items(s.push(e)) == enc_qstr(s[0]) + seq![','] + enc_qstr(e));
            assert(enc_arr_items(s) == enc_qstr(s[0]));
        } else {
            assert(enc_qstr(s[0]) + seq![','] + (enc_arr_items(s.drop_first()) + seq![',']
                + enc_qstr(e)) =~= (enc_qstr(s[0]) + seq![','] + enc_arr_items(s.drop_first()))
                + seq![','] + enc_qstr(e));
        }
    }
}

proof fn lemma_enc_genre_entries_push(
    s: Seq<(Seq<char>, Seq<Seq<char>>)>,
    e: (Seq<char>, Seq<Seq<char>>),
)
    ensures
        s.len() == 0 ==> enc_genre_entries(s.push(e)) == enc_genre_entry(e.0, e.1),
        s.len() > 0 ==> enc_genre_entries(s.push(e)) == enc_genre_entries(s) + seq![',']
            + enc_genre_entry(e.0, e.1),
    decreases s.len(),
{
    if s.len() == 0 {
        assert(s.push(e)[0] == e);
    } else {
        assert(s.push(e)[0] == s[0]);
        assert(s.push(e).drop_first() =~= s.drop_first().push(e));
        lemma_enc_genre_entries_push(s.drop_first(), e);
        if s.len() == 1 {
            assert(enc_genre_entries(s.push(e)) == enc_genre_entry(s[0].0, s[0].1) + seq![',']
                + enc_genre_entry(e.0, e.1));
            assert(enc_genre_entries(s) == enc_genre_entry(s[0].0, s[0].1));
        } else {
            assert(enc_genre_entry(s[0].0, s[0].1) + seq![','] + (enc_genre_entries(
                s.drop_first(),
            ) + seq![','] + enc_genre_entry(e.0, e.1)) =~= (enc_genre_entry(s[0].0, s[0].1)
                + seq![','] + enc_genre_entries(s.drop_first())) + seq![','] + enc_genre_entry(
                e.0,
                e.1,
            ));
        }
    }
}

/// Appends one encoded genre-tag array to the output.
fn push_array(out: &mut Vec<char>, vals: &Vec<String>)
    ensures
        final(out)@ == old(out)@ + enc_arr(vals.deep_view()),
{
    let ghost base = out@;
    out.push('[');
    let n = vals.len();
    proof {
        assert(vals.deep_view().take(0) =~= Seq::<Seq<char>>::empty());
        assert(out@ =~= base + seq!['['] + enc_arr_items(vals.deep_view().take(0)));
    }
    for i in 0..n
        invariant
            n == vals@.len(),
            n == vals.deep_view().len(),
            out@ == base + seq!['['] + enc_arr_items(vals.deep_view().take(i as int)),
    {
        let ghost views = vals.deep_view();
        let ghost before = out@;
        if i > 0 {
            out.push(',');
        }
        let ghost mid = out@;
        push_quoted(out, &vals[i]);
        proof {
            assert(views[i as int] == vals@[i as int]@);
            assert(out@ =~= mid + enc_qstr(views[i as int])) by {
                assert(mid + seq!['"'] + esc(views[i as int]) + seq!['"'] =~= mid + (seq!['"']
                    + esc(views[i as int]) + seq!['"']));
            }
            lemma_enc_arr_items_push(views.take(i as int), views[i as int]);
            assert(views.take(i as int).push(views[i as int]) =~= views.take(i + 1));
            if i == 0 {
                assert(mid == before);
                assert(out@ =~= base + seq!['['] + enc_arr_items(views.take(1)));
            } else {
                assert(mid =~= before + seq![',']);
                assert(out@ =~= base + seq!['['] + enc_arr_items(views.take(i + 1))) by {
                    assert(before + seq![','] + enc_qstr(views[i as int]) =~= before + (seq![',']
                        + enc_qstr(views[i as int])));
                    assert(base + seq!['['] + enc_arr_items(views.take(i as int)) + (seq![',']
                        + enc_qstr(views[i as int])) =~= base + seq!['['] + (enc_arr_items(
                        views.take(i as int),
                    ) + seq![','] + enc_qstr(views[i as int])));
                }
            }
        }
    }
    proof {
        assert(vals.deep_view().take(n as int) =~= vals.deep_view());
    }
    out.push(']');
    proof {
        assert(base + enc_arr(vals.deep_view()) =~= (base + seq!['['] + enc_arr_items(
            vals.deep_view(),
        )).push(']'));
    }
}

/// Writes a genre cache's entries as a document.
pub fn encode_genre_entries(entries: &Vec<(String, Vec<String>)>) -> (r: String)
    ensures
        r@ == enc_genre_doc(genre_entry_views(entries@)),
{
    let mut out: Vec<char> = Vec::new();
    out.push('{');
    let n = entries.len();
    proof {
        assert(genre_entry_views(entries@).take(0) =~= Seq::<(Seq<char>, Seq<Seq<char>>)>::empty());
        assert(out@ =~= seq!['{'] + enc_genre_entries(genre_entry_views(entries@).take(0)));
    }
    for i in 0..n
        invariant
            n == entries@.len(),
            out@ == seq!['{'] + enc_genre_entries(genre_entry_views(entries@).take(i as int)),
    {
        let ghost views = genre_entry_views(entries@);
        let ghost before = out@;
        if i > 0 {
            out.push(',');
        }
        let ghost mid = out@;
        push_quoted(&mut out, &entries[i].0);
        out.push(':');
        let ghost afterkey = out@;
        push_array(&mut out, &entries[i].1);
        proof {
            let e = views[i as int];
            assert(e == (entries@[i as int].0@, entries@[i as int].1.deep_view()));
            assert(out@ =~= mid + enc_genre_entry(e.0, e.1)) by {
                assert(afterkey =~= mid + seq!['"'] + esc(e.0) + seq!['"'] + seq![':']);
                assert(mid + seq!['"'] + esc(e.0) + seq!['"'] + seq![':'] + enc_arr(e.1) =~= mid + (
                (seq!['"'] + esc(e.0) + seq!['"']) + seq![':'] + enc_arr(e.1)));
            }
            lemma_enc_genre_entries_push(views.take(i as int), e);
            assert(views.take(i as int).push(e) =~= views.take(i + 1));
            if i == 0 {
                assert(mid == before);
                assert(out@ =~= seq!['{'] + enc_genre_entries(views.take(1)));
            } else {
                assert(mid =~= before + seq![',']);
                assert(out@ =~= seq!['{'] + enc_genre_entries(views.take(i + 1))) by {
                    assert(before + seq![','] + enc_genre_entry(e.0, e.1) =~= before + (seq![',']
                        + enc_genre_entry(e.0, e.1)));
                    assert(seq!['{'] + enc_genre_entries(views.take(i as int)) + (seq![',']
                        + enc_genre_entry(e.0, e.1)) =~= seq!['{'] + (enc_genre_entries(
                        views.take(i as int),
                    ) + seq![','] + enc_genre_entry(e.0, e.1)));
                }
            }
        }
    }
    proof {
        assert(genre_entry_views(entries@).take(n as int) =~= genre_entry_views(entries@));
    }
    out.push('}');
    proof {
        assert(seq!['{'] + enc_genre_entries(genre_entry_views(entries@)) + seq!['}'] =~= (seq![
            '{',
        ] + enc_genre_entries(genre_entry_views(entries@))).push('}'));
    }
    chars_string(&out)
}

/// Reads a quoted string from just after its opening quote.
fn parse_string_at(chars: &Vec<char>, start: usize) -> (r: Option<(Vec<char>, usize)>)
    requires
        start <= chars@.len(),
    ensures
        match r {
            Some((k, j)) => p_string(chars@, start as int, Seq::empty()) == Some(
                (k@, j as int),
            ) && start < j <= chars@.len(),
            None => p_string(chars@, start as int, Seq::empty()) is None,
        },
{
    let n = chars.len();
    let mut i = start;
    let mut acc: Vec<char> = Vec::new();
    proof {
        assert(acc@ =~= Seq::<char>::empty());
    }
    while i < n
        invariant_except_break
            n == chars@.len(),
            start <= i <= n,
            p_string(chars@, start as int, Seq::empty()) == p_string(chars@, i as int, acc@),
        ensures
            n == chars@.len(),
            start <= i <= n,
            p_string(chars@, start as int, Seq::empty()) == p_string(chars@, i as int, acc@),
            i < n ==> chars@[i as int] == '"',
        decreases n - i,
    {
        let c = chars[i];
        if c == '"' {
            break ;
        } else if c == '\\' {
            if i + 1 < n {
                acc.push(chars[i + 1]);
                i = i + 2;
            } else {
                return None;
            }
        } else {
            acc.push(c);
            i = i + 1;
        }
    }
    if i < n {
        Some((acc, i + 1))
    } else {
        None
    }
}

/// Reads a decimal value.
fn parse_number_at(chars: &Vec<char>, start: usize) -> (r: Option<(u64, usize)>)
    requires
        start <= chars@.len(),
    ensures
        match r {
            Some((v, j)) => p_number(chars@, start as int) == Some((v, j as int)) && start < j
                <= chars@.len(),
            None => p_number(chars@, start as int) is None,
        },
{
    let n = chars.len();
    let mut i = start;
    let mut acc: u64 = 0;
    let mut over: bool = false;
    proof {
        assert(chars@.subrange(start as int, start as int) =~= Seq::<char>::empty());
    }
    while i < n
        invariant_except_break
            n == chars@.len(),
            start <= i <= n,
            digit_run_end(chars@, start as int) == digit_run_end(chars@, i as int),
            all_digits(chars@.subrange(start as int, i as int)),
            if over {
                digits_val(chars@.subrange(start as int, i as int)) > u64::MAX
            } else {
                acc == digits_val(chars@.subrange(start as int, i as int))
            },
        ensures
            n == chars@.len(),
            start <= i <= n,
            digit_run_end(chars@, start as int) == i,
            all_digits(chars@.subrange(start as int, i as int)),
            if over {
                digits_val(chars@.subrange(start as int, i as int)) > u64::MAX
            } else {
                acc == digits_val(chars@.subrange(start as int, i as int))
            },
        decreases n - i,
    {
        let c = chars[i];
        let u = c as u32;
        if !(48 <= u && u <= 57) {
            assert(!is_digit_char(chars@[i as int]));
            break ;
        }
        let d: u64 = (u - 48) as u64;
        assert(is_digit_char(chars@[i as int]) && d == digit_val(chars@[i as int]));
        proof {
            assert(chars@.subrange(start as int, i + 1).drop_last() =~= chars@.subrange(
                start as int,
                i as int,
            ));
            assert(chars@.subrange(start as int, i + 1).last() == chars@[i as int]);
        }
        if !over {
            if acc <= (u64::MAX - d) / 10 {
                acc = acc * 10 + d;
            } else {
                proof {
                    assert(digits_val(chars@.subrange(start as int, i + 1)) == digits_val(
                        chars@.subrange(start as int, i as int),
                    ) * 10 + d);
                }
                over = true;
            }
        } else {
            proof {
                crate::numtext::lemma_digits_val_nonneg(
                    chars@.subrange(start as int, i as int),
                );
            }
        }
        i = i + 1;
    }
    if i == start {
        assert(digit_run_end(chars@, start as int) == start);
        return None;
    }
    if over {
        return None;
    }
    Some((acc, i))
}

/// Reads one duration entry.
fn parse_dur_entry_at(chars: &Vec<char>, start: usize) -> (r: Option<((Vec<char>, u64), usize)>)
    requires
        start <= chars@.len(),
    ensures
        match r {
            Some(((k, v), j)) => p_dur_entry(chars@, start as int) == Some(
                ((k@, v), j as int),
            ) && start < j <= chars@.len(),
            None => p_dur_entry(chars@, start as int) is None,
        },
{
    let n = chars.len();
    if start >= n {
        return None;
    }
    if chars[start] != '"' {
        return None;
    }
    let (k, j) = match parse_string_at(chars, start + 1) {
        Some(p) => p,
        None => { return None; },
    };
    let j2 = skip_ws(chars, j);
    if j2 >= n {
        return None;
    }
    if chars[j2] != ':' {
        return None;
    }
    let j3 = skip_ws(chars, j2 + 1);
    let (v, m) = match parse_number_at(chars, j3) {
        Some(p) => p,
        None => { return None; },
    };
    Some(((k, v), m))
}

/// Reads the comma-separated entries of a duration document, from just
/// after the opening brace.
fn parse_dur_entries_at(chars: &Vec<char>, start: usize) -> (r: Option<
    (Vec<(String, u64)>, usize),
>)
    requires
        start <= chars@.len(),
    ensures
        match r {
            Some((es, j)) => p_dur_entries(chars@, start as int, Seq::empty()) == Some(
                (dur_entry_views(es@), j as int),
            ) && j <= chars@.len(),
            None => p_dur_entries(chars@, start as int, Seq::empty()) is None,
        },
{
    let n = chars.len();
    let mut i = start;
    let mut acc: Vec<(String, u64)> = Vec::new();
    proof {
        assert(dur_entry_views(acc@) =~= Seq::<(Seq<char>, u64)>::empty());
    }
    loop
        invariant
            n == chars@.len(),
            start <= i <= n,
            p_dur_entries(chars@, start as int, Seq::empty()) == p_dur_entries(
                chars@,
                i as int,
                dur_entry_views(acc@),
            ),
        decreases n - i,
    {
        proof {
            lemma_p_dur_entry_bounds(chars@, i as int);
        }
        let ((kchars, v), j) = match parse_dur_entry_at(chars, i) {
            Some(p) => p,
            None => { return None; },
        };
        let key = chars_string(&kchars);
        let ghost prev = dur_entry_views(acc@);
        acc.push((key, v));
        proof {
            assert(dur_entry_views(acc@) =~= prev.push((kchars@, v)));
        }
        let j2 = skip_ws(chars, j);
        if j2 < n && chars[j2] == ',' {
            i = skip_ws(chars, j2 + 1);
        } else {
            return Some((acc, j2));
        }
    }
}

/// Reads a genre-tag array from its opening bracket.
fn parse_arr_at(chars: &Vec<char>, start: usize) -> (r: Option<(Vec<String>, usize)>)
    requires
        start <= chars@.len(),
    ensures
        match r {
            Some((vs, j)) => p_arr(chars@, start as int) == Some(
                (vs.deep_view(), j as int),
            ) && start < j <= chars@.len(),
            None => p_arr(chars@, start as int) is None,
        },
{
    let n = chars.len();
    if start >= n || chars[start] != '[' {
        return None;
    }
    let i1 = skip_ws(chars, start + 1);
    if i1 < n && chars[i1] == ']' {
        let empty: Vec<String> = Vec::new();
        proof {
            assert(empty.deep_view() =~= Seq::<Seq<char>>::empty());
        }
        return Some((empty, i1 + 1));
    }
    let mut i = i1;
    let mut acc: Vec<String> = Vec::new();
    proof {
        assert(acc.deep_view() =~= Seq::<Seq<char>>::empty());
    }
    loop
        invariant
            n == chars@.len(),
            start < n,
            chars@[start as int] == '[',
            i1 == ws_end(chars@, start + 1),
            !(i1 < n && chars@[i1 as int] == ']'),
            start + 1 <= i1 <= i <= n,
            p_arr_items(chars@, i1 as int, Seq::empty()) == p_arr_items(
                chars@,
                i as int,
                acc.deep_view(),
            ),
        decreases n - i,
    {
        if i >= n || chars[i] != '"' {
            return None;
        }
        let (v, j) = match parse_string_at(chars, i + 1) {
            Some(p) => p,
            None => { return None; },
        };
        let ghost prev = acc.deep_view();
        acc.push(chars_string(&v));
        proof {
            assert(acc.deep_view() =~= prev.push(v@));
        }
        let j2 = skip_ws(chars, j);
        if j2 < n && chars[j2] == ',' {
            i = skip_ws(chars, j2 + 1);
        } else {
            if j2 < n && chars[j2] == ']' {
                return Some((acc, j2 + 1));
            } else {
                return None;
            }
        }
    }
}

/// Reads one genre entry.
fn parse_genre_entry_at(chars: &Vec<char>, start: usize) -> (r: Option<
    ((Vec<char>, Vec<String>), usize),
>)
    requires
        start <= chars@.len(),
    ensures
        match r {
            Some(((k, vs), j)) => p_genre_entry(chars@, start as int) == Some(
                ((k@, vs.deep_view()), j as int),
            ) && start < j <= chars@.len(),
            None => p_genre_entry(chars@, start as int) is None,
        },
{
    let n = chars.len();
    if start >= n {
        return None;
    }
    if chars[start] != '"' {
        return None;
    }
    let (k, j) = match parse_string_at(chars, start + 1) {
        Some(p) => p,
        None => { return None; },
    };
    let j2 = skip_ws(chars, j);
    if j2 >= n {
        return None;
    }
    if chars[j2] != ':' {
        return None;
    }
    let j3 = skip_ws(chars, j2 + 1);
    let (vs, m) = match parse_arr_at(chars, j3) {
        Some(p) => p,
        None => { return None; },
    };
    Some(((k, vs), m))
}

/// Reads the comma-separated entries of a genre document, from just after
/// the opening brace.
fn parse_genre_entries_at(chars: &Vec<char>, start: usize) -> (r: Option<
    (Vec<(String, Vec<String>)>, usize),
>)
    requires
        start <= chars@.len(),
    ensures
        match r {
            Some((es, j)) => p_genre_entries(chars@, start as int, Seq::empty()) == Some(
                (genre_entry_views(es@), j as int),
            ) && j <= chars@.len(),
            None => p_genre_entries(chars@, start as int, Seq::empty()) is None,
        },
{
    let n = chars.len();
    let mut i = start;
    let mut acc: Vec<(String, Vec<String>)> = Vec::new();
    proof {
        assert(genre_entry_views(acc@) =~= Seq::<(Seq<char>, Seq<Seq<char>>)>::empty());
    }
    loop
        invariant
            n == chars@.len(),
            start <= i <= n,
            p_genre_entries(chars@, start as int, Seq::empty()) == p_genre_entries(
                chars@,
                i as int,
                genre_entry_views(acc@),
            ),
        decreases n - i,
    {
        proof {
            lemma_p_genre_entry_bounds(chars@, i as int);
        }
        let ((kchars, vs), j) = match parse_genre_entry_at(chars, i) {
            Some(p) => p,
            None => { return None; },
        };
        let key = chars_string(&kchars);
        let ghost prev = genre_entry_views(acc@);
        acc.push((key, vs));
        proof {
            assert(genre_entry_views(acc@) =~= prev.push((kchars@, acc@.last().1.deep_view())));
        }
        let j2 = skip_ws(chars, j);
        if j2 < n && chars[j2] == ',' {
            i = skip_ws(chars, j2 + 1);
        } else {
            return Some((acc, j2));
        }
    }
}

/// Reads a whole genre document; `None` reports text the grammar does not
/// cover.
pub fn parse_genre_doc(text: &str) -> (r: Option<Vec<(String, Vec<String>)>>)
    ensures
        match r {
            Some(v) => p_genre_doc(text@) == Some(genre_entry_views(v@)),
            None => p_genre_doc(text@) is None,
        },
{
    let chars = str_chars(text);
    let n = chars.len();
    let i0 = skip_ws(&chars, 0);
    if i0 >= n || chars[i0] != '{' {
        return None;
    }
    let i1 = skip_ws(&chars, i0 + 1);
    if i1 < n && chars[i1] == '}' {
        if skip_ws(&chars, i1 + 1) == n {
            let empty: Vec<(String, Vec<String>)> = Vec::new();
            proof {
                assert(genre_entry_views(empty@) =~= Seq::<(Seq<char>, Seq<Seq<char>>)>::empty());
            }
            Some(empty)
        } else {
            None
        }
    } else {
        match parse_genre_entries_at(&chars, i1) {
            Some((es, j)) => {
                if j < n && chars[j] == '}' && skip_ws(&chars, j + 1) == n {
                    Some(es)
                } else {
                    None
                }
            },
            None => None,
        }
    }
}

/// Reads a whole duration document; `None` reports text the grammar does
/// not cover.
pub fn parse_duration_doc(text: &str) -> (r: Option<Vec<(String, u64)>>)
    ensures
        match r {
            Some(v) => p_dur_doc(text@) == Some(dur_entry_views(v@)),
            None => p_dur_doc(text@) is None,
        },
{
    let chars = str_chars(text);
    let n = chars.len();
    let i0 = skip_ws(&chars, 0);
    if i0 >= n || chars[i0] != '{' {
        return None;
    }
    let i1 = skip_ws(&chars, i0 + 1);
    if i1 < n && chars[i1] == '}' {
        if skip_ws(&chars, i1 + 1) == n {
            let empty: Vec<(String, u64)> = Vec::new();
            proof {
                assert(dur_entry_views(empty@) =~= Seq::<(Seq<char>, u64)>::empty());
            }
            Some(empty)
        } else {
            None
        }
    } else {
        match parse_dur_entries_at(&chars, i1) {
            Some((es, j)) => {
                if j < n && chars[j] == '}' && skip_ws(&chars, j + 1) == n {
                    Some(es)
                } else {
                    None
                }
            },
            None => None,
        }
    }
}

} // verus!
