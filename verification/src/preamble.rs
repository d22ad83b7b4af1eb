//! What every log line starts with: the timestamp, then the banner of the
//! service that wrote the line, then a colon and a space.
//!
//! The banner is opaque. It is the longest run of bytes other than a colon,
//! and at least one byte long, so the first colon after the timestamp ends
//! it.
use crate::calendar::{
    datetime, datetime_at, lemma_timestamp_round_trip, timestamp_token, Timestamp, TimestampView,
};
use crate::scan::{
    is_digit, lemma_run_end, lemma_run_end_is, parsed, run_end, scan_until, ParseError, COLON,
    SPACE,
};
use vstd::prelude::*;

verus! {

/// The preamble at position `i`: a timestamp, a banner of one or more bytes
/// other than a colon, a colon and a space. The result is the timestamp and
/// the position after the space.
pub open spec fn preamble_at(s: Seq<u8>, i: int) -> Result<(TimestampView, int), ParseError> {
    match datetime_at(s, i) {
        Err(e) => Err(e),
        Ok((stamp, banner)) => {
            let colon = run_end(s, banner, COLON);
            if banner < colon && colon + 1 < s.len() && s[colon] == COLON && s[colon + 1] == SPACE {
                Ok((stamp, colon + 2))
            } else {
                Err(ParseError::Malformed)
            }
        },
    }
}

/// A banner: one byte at least, none of them a colon. A banner that starts
/// with a digit cannot be told from the timestamp before it.
pub open spec fn is_banner(banner: Seq<u8>) -> bool {
    &&& banner.len() > 0
    &&& !is_digit(banner[0])
    &&& forall|k: int| 0 <= k < banner.len() ==> banner[k] != COLON
}

/// The preamble that spells a timestamp and a banner.
pub open spec fn preamble_text(stamp: TimestampView, banner: Seq<u8>) -> Seq<u8> {
    timestamp_token(stamp) + banner + seq![COLON, SPACE]
}

/// A line that starts with the preamble of a valid timestamp and a banner is
/// read as that timestamp, up to the end of the preamble, whatever follows.
pub proof fn lemma_preamble(stamp: TimestampView, banner: Seq<u8>, rest: Seq<u8>)
    requires
        stamp.is_valid(),
        0 <= stamp.date.year <= 9999,
        is_banner(banner),
    ensures
        preamble_text(stamp, banner).len() == 21 + banner.len(),
        preamble_at(preamble_text(stamp, banner) + rest, 0) == Ok::<_, ParseError>(
            (stamp, 21 + banner.len() as int),
        ),
{
    let s = preamble_text(stamp, banner) + rest;
    let after = banner + seq![COLON, SPACE] + rest;
    assert(s =~= timestamp_token(stamp) + after);
    lemma_timestamp_round_trip(stamp, after);
    let colon = 19 + banner.len() as int;
    assert forall|k: int| 0 <= k < banner.len() implies s[19 + k] == banner[k] by {}
    assert(s[colon] == COLON);
    assert(s[colon + 1] == SPACE);
    lemma_run_end_is(s, 19, COLON, colon);
}

/// Parses the preamble of a line that starts at `pos`.
pub fn preamble(input: &[u8], pos: usize) -> (r: Result<(Timestamp, usize), ParseError>)
    ensures
        parsed(r) == preamble_at(input@, pos as int),
{
    let (stamp, banner) = match datetime(input, pos) {
        Ok(found) => found,
        Err(e) => {
            return Err(e);
        },
    };
    let colon = scan_until(input, banner, COLON);
    proof {
        lemma_run_end(input@, banner as int, COLON);
    }
    if banner < colon && colon < input.len() && input.len() - colon > 1 && input[colon + 1]
        == SPACE {
        Ok((stamp, colon + 2))
    } else {
        Err(ParseError::Malformed)
    }
}

} // verus!
