//! Fixed-width formatting of an elapsed duration.

use vstd::prelude::*;
use crate::decimal::{fixed_text, uint_text, push_fixed, push_uint};

verus! {

/// The `HHH:MM:SS` text of a duration in seconds: hours zero-padded to at
/// least three digits (and growing as needed), minutes and seconds to two.
pub open spec fn hhhmmss_text(sec: int) -> Seq<char> {
    let hours = sec / 3600;
    let minutes = (sec / 60) % 60;
    let seconds = sec % 60;
    (if hours < 1000 {
        fixed_text(hours, 3)
    } else {
        uint_text(hours)
    }) + seq![':'] + fixed_text(minutes, 2) + seq![':'] + fixed_text(seconds, 2)
}

/// Format a duration in seconds as `HHH:MM:SS`.
pub fn hhhmmss(seconds: u64) -> (r: String)
    ensures
        r@ == hhhmmss_text(seconds as int),
{
    proof {
        reveal_strlit(":");
    }
    let hours: u64 = seconds / 3600;
    let minutes: u64 = (seconds / 60) % 60;
    let secs: u64 = seconds % 60;
    let mut out = String::new();
    if hours < 1000 {
        push_fixed(&mut out, hours, 3);
    } else {
        push_uint(&mut out, hours);
    }
    out.append(":");
    push_fixed(&mut out, minutes, 2);
    out.append(":");
    push_fixed(&mut out, secs, 2);
    proof {
        assert(out@ =~= hhhmmss_text(seconds as int));
    }
    out
}

} // verus!
