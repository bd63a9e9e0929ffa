//! Time arithmetic and rendering on plain second counts.

use crate::text::{dec_str, push_char, u64_to_string};
use vstd::prelude::*;
use vstd::string::{StrSliceExecFns, StringExecFns};

verus! {

/// Whether a timestamp has aged past a retention window of whole days.
pub fn is_expired(timestamp_secs: u64, now_secs: u64, days_threshold: u64) -> (r: bool)
    requires
        days_threshold <= u64::MAX / 86400,
    ensures
        r == (timestamp_secs + days_threshold * 86400 < now_secs),
{
    let window = days_threshold * 86400;
    if window <= now_secs {
        timestamp_secs < now_secs - window
    } else {
        false
    }
}

/// The rendering of a signed second count in decimal.
pub open spec fn dec_int_str(n: int) -> Seq<char> {
    if n < 0 {
        seq!['-'] + dec_str((-n) as nat)
    } else {
        dec_str(n as nat)
    }
}

/// A duration rendered at a coarse unit: seconds below a minute, then
/// minutes and seconds, then hours and minutes, then days and hours.
pub open spec fn duration_chars(secs: int) -> Seq<char> {
    if secs < 60 {
        dec_int_str(secs) + "s"@
    } else if secs < 3600 {
        dec_str((secs / 60) as nat) + "m"@ + dec_str((secs % 60) as nat) + "s"@
    } else if secs < 86400 {
        dec_str((secs / 3600) as nat) + "h"@ + dec_str(((secs % 3600) / 60) as nat) + "m"@
    } else {
        dec_str((secs / 86400) as nat) + "d"@ + dec_str(((secs % 86400) / 3600) as nat) + "h"@
    }
}

/// Renders a duration of whole seconds the way the service logs it.
pub fn format_duration(total_seconds: i64) -> (r: String)
    requires
        total_seconds > i64::MIN,
    ensures
        r@ == duration_chars(total_seconds as int),
{
    if total_seconds < 60 {
        let mut s = String::new();
        if total_seconds < 0 {
            push_char(&mut s, '-');
            let mag = u64_to_string((-total_seconds) as u64);
            s.append(mag.as_str());
        } else {
            let mag = u64_to_string(total_seconds as u64);
            s.append(mag.as_str());
        }
        s.append("s");
        proof {
            assert(s@ =~= duration_chars(total_seconds as int));
        }
        s
    } else if total_seconds < 3600 {
        let secs = total_seconds as u64;
        let mut s = u64_to_string(secs / 60);
        s.append("m");
        let rest = u64_to_string(secs % 60);
        s.append(rest.as_str());
        s.append("s");
        proof {
            assert(s@ =~= duration_chars(total_seconds as int));
        }
        s
    } else if total_seconds < 86400 {
        let secs = total_seconds as u64;
        let mut s = u64_to_string(secs / 3600);
        s.append("h");
        let rest = u64_to_string((secs % 3600) / 60);
        s.append(rest.as_str());
        s.append("m");
        proof {
            assert(s@ =~= duration_chars(total_seconds as int));
        }
        s
    } else {
        let secs = total_seconds as u64;
        let mut s = u64_to_string(secs / 86400);
        s.append("d");
        let rest = u64_to_string((secs % 86400) / 3600);
        s.append(rest.as_str());
        s.append("h");
        proof {
            assert(s@ =~= duration_chars(total_seconds as int));
        }
        s
    }
}

} // verus!
