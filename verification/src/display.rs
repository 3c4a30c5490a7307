//! Plain-text rendering of durations.

use crate::digits::dec_of;
use crate::digits::u64_to_dec;
use vstd::prelude::*;

verus! {

/// Seconds rendered to two digits: a value under ten gets a leading zero.
pub open spec fn two_digit(n: nat) -> Seq<char> {
    if n < 10 {
        seq!['0'] + dec_of(n)
    } else {
        dec_of(n)
    }
}

/// The `minutes:seconds` rendering of a duration in milliseconds; zero and
/// negative durations render as `0:00`.
pub open spec fn duration_text(ms: i64) -> Seq<char> {
    if ms <= 0 {
        "0:00"@
    } else {
        let total = ms as int / 1000;
        dec_of((total / 60) as nat) + ":"@ + two_digit((total % 60) as nat)
    }
}

/// Render a duration in milliseconds as `minutes:seconds`, the seconds
/// always two digits.
pub fn format_duration(ms: i64) -> (r: String)
    ensures
        r@ == duration_text(ms),
{
    if ms <= 0 {
        proof {
            reveal_strlit("0:00");
        }
        return "0:00".to_owned();
    }
    let total_seconds = ms / 1000;
    let minutes = total_seconds / 60;
    let seconds = total_seconds % 60;
    let mut s = u64_to_dec(minutes as u64);
    proof {
        reveal_strlit(":");
        reveal_strlit("0");
    }
    s.append(":");
    if seconds < 10 {
        s.append("0");
    }
    let sec = u64_to_dec(seconds as u64);
    s.append(sec.as_str());
    proof {
        assert(s@ =~= duration_text(ms));
    }
    s
}

} // verus!
