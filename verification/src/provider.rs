//! Decisions taken on scrobble-history-provider responses: reading a track's
//! duration field and judging whether a user's history can be processed.

use crate::numtext::{parse_count_chars, parse_count_spec};
use crate::strutil::str_chars;
use vstd::prelude::*;

verus! {

/// Why a user's listening history cannot be summarised.
pub enum UnprocessableErrors {
    UserNotFound,
    NotEnoughScrobbles,
}

impl UnprocessableErrors {
    /// A short description of the error.
    pub fn as_text(&self) -> (r: &'static str)
        ensures
            r@ == match self {
                UnprocessableErrors::UserNotFound => "UserNotFound"@,
                UnprocessableErrors::NotEnoughScrobbles => "NotEnoughScrobbles"@,
            },
    {
        match self {
            UnprocessableErrors::UserNotFound => "UserNotFound",
            UnprocessableErrors::NotEnoughScrobbles => "NotEnoughScrobbles",
        }
    }
}

/// The play length a track-info response denotes: its duration field parsed
/// as a decimal count, with a missing field, malformed text, or a
/// non-positive value all reading as zero ("no data").
///
/// Reading a non-positive value as "no data" is a deliberate tightening of
/// the raw signed parse: the engine's caches and totals hold play lengths
/// as non-negative milliseconds, and a negative reading — nonzero as text,
/// but no usable play length — signals a provider anomaly, so it degrades
/// to zero and lets the catalog-search fallback run instead of entering
/// the totals.
pub open spec fn track_duration_spec(field: Option<Seq<char>>) -> u64 {
    match field {
        Some(s) => if parse_count_spec(s) > 0 {
            parse_count_spec(s) as u64
        } else {
            0
        },
        None => 0,
    }
}

/// Reads the duration field of a track-info response, in milliseconds;
/// anything unusable — absent, malformed, out of range, or non-positive —
/// counts as zero and so triggers the catalog-search fallback (see
/// [`track_duration_spec`] for why non-positive readings are unusable).
pub fn get_track_duration(field: Option<&str>) -> (r: u64)
    ensures
        r == track_duration_spec(match field {
            Some(s) => Some(s@),
            None => None,
        }),
{
    match field {
        Some(s) => {
            let chars = str_chars(s);
            let v = parse_count_chars(&chars);
            if v > 0 {
                v as u64
            } else {
                0
            }
        },
        None => 0,
    }
}

/// Whether a user's history can be processed, given the error code of the
/// user-info response (if any) and the reported play count.  An error code
/// of six means the user does not exist; any other reported error is
/// ignored.  Without an error, fewer than 365 plays is too sparse to
/// summarise a year from.
pub fn user_processable(error_code: Option<i64>, playcount: i64) -> (r: Result<
    (),
    UnprocessableErrors,
>)
    ensures
        match error_code {
            Some(c) => if c == 6 {
                r matches Err(UnprocessableErrors::UserNotFound)
            } else {
                r is Ok
            },
            None => if playcount < 365 {
                r matches Err(UnprocessableErrors::NotEnoughScrobbles)
            } else {
                r is Ok
            },
        },
{
    match error_code {
        Some(c) => {
            if c == 6 {
                Err(UnprocessableErrors::UserNotFound)
            } else {
                Ok(())
            }
        },
        None => {
            if playcount < 365 {
                Err(UnprocessableErrors::NotEnoughScrobbles)
            } else {
                Ok(())
            }
        },
    }
}

} // verus!
