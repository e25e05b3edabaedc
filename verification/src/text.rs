use vstd::prelude::*;
use vstd::string::{StrSliceExecFns, StringExecFns};

verus! {

// Decimal rendering for the few numbers the proxy prints itself: the
// measured ping inside the rewritten status text, and the session
// duration in the connection log line.

pub open spec fn spec_digit(d: nat) -> char {
    "0123456789"@[d as int]
}

/// The decimal digits of `n`, most significant first.
pub open spec fn spec_decimal(n: nat) -> Seq<char>
    decreases n,
{
    if n < 10 {
        seq![spec_digit(n)]
    } else {
        spec_decimal(n / 10) + seq![spec_digit(n % 10)]
    }
}

/// Appends the decimal form of `n`, mirroring `spec_decimal`.
pub fn append_decimal(out: &mut String, n: u64)
    ensures
        final(out)@ == old(out)@ + spec_decimal(n as nat),
    decreases n,
{
    if n >= 10 {
        append_decimal(out, n / 10);
    }
    let d = (n % 10) as usize;
    let digits = "0123456789";
    proof {
        reveal_strlit("0123456789");
    }
    let ds = digits.substring_char(d, d + 1);
    out.append(ds);
    proof {
        assert(ds@ =~= seq![spec_digit((n % 10) as nat)]);
        if n < 10 {
            assert(spec_decimal(n as nat) =~= seq![spec_digit(n as nat)]);
            assert(final(out)@ =~= old(out)@ + spec_decimal(n as nat));
        } else {
            assert(final(out)@ =~= old(out)@ + spec_decimal(n as nat));
        }
    }
}

/// The decimal form of `n` on its own.
pub fn u64_to_decimal(n: u64) -> (r: String)
    ensures
        r@ == spec_decimal(n as nat),
{
    let mut out = String::new();
    append_decimal(&mut out, n);
    proof {
        assert(Seq::<char>::empty() + spec_decimal(n as nat) =~= spec_decimal(n as nat));
    }
    out
}

// ---------------------------------------------------------------------
// The status suffix the proxy appends to the target's description.

/// The text appended to the description: brand, then the measured
/// ping in milliseconds.
pub open spec fn spec_status_suffix(ping_ms: nat) -> Seq<char> {
    "\u{a7}8[\u{a7}9Stupid MC Proxy: \u{a7}3"@ + spec_decimal(ping_ms) + "ms\u{a7}8]"@
}

pub fn status_suffix(ping_ms: u64) -> (r: String)
    ensures
        r@ == spec_status_suffix(ping_ms as nat),
{
    let mut out = String::from_str("\u{a7}8[\u{a7}9Stupid MC Proxy: \u{a7}3");
    append_decimal(&mut out, ping_ms);
    out.append("ms\u{a7}8]");
    proof {
        assert(out@ =~= spec_status_suffix(ping_ms as nat));
    }
    out
}

// ---------------------------------------------------------------------
// Session durations in the log: hours, minutes, seconds, and, for
// short sessions, milliseconds.

/// What the duration line holds for a session of `ms` milliseconds:
/// each unit appears only when non-zero, separated by single spaces,
/// and milliseconds appear only under ten seconds.
pub open spec fn spec_format_duration(ms: nat) -> Seq<char> {
    let hours = ms / 3600000;
    let minutes = (ms % 3600000) / 60000;
    let seconds = (ms % 60000) / 1000;
    let millis = ms % 1000;
    let with_hours = if hours > 0 {
        spec_decimal(hours) + "h"@
    } else {
        Seq::<char>::empty()
    };
    let with_minutes = if minutes > 0 {
        with_hours + (if with_hours.len() > 0 {
            " "@
        } else {
            Seq::<char>::empty()
        }) + spec_decimal(minutes) + "m"@
    } else {
        with_hours
    };
    let with_seconds = if seconds > 0 {
        with_minutes + (if with_minutes.len() > 0 {
            " "@
        } else {
            Seq::<char>::empty()
        }) + spec_decimal(seconds) + "s"@
    } else {
        with_minutes
    };
    if hours == 0 && minutes == 0 && seconds < 10 {
        with_seconds + (if with_seconds.len() > 0 {
            " "@
        } else {
            Seq::<char>::empty()
        }) + spec_decimal(millis) + "ms"@
    } else {
        with_seconds
    }
}

/// Renders a session duration for the log line.
pub fn format_duration(ms: u64) -> (r: String)
    ensures
        r@ == spec_format_duration(ms as nat),
{
    let hours = ms / 3600000;
    let minutes = (ms % 3600000) / 60000;
    let seconds = (ms % 60000) / 1000;
    let millis = ms % 1000;
    let mut out = String::new();
    proof {
        reveal_strlit("h");
        reveal_strlit("m");
        reveal_strlit("s");
        reveal_strlit("ms");
        reveal_strlit(" ");
        reveal_strlit("");
    }
    if hours > 0 {
        append_decimal(&mut out, hours);
        out.append("h");
    }
    proof {
        assert(out@ =~= (if hours > 0 {
            spec_decimal(hours as nat) + "h"@
        } else {
            Seq::<char>::empty()
        }));
    }
    if minutes > 0 {
        if !out.as_str().is_empty() {
            out.append(" ");
        }
        append_decimal(&mut out, minutes);
        out.append("m");
    }
    if seconds > 0 {
        if !out.as_str().is_empty() {
            out.append(" ");
        }
        append_decimal(&mut out, seconds);
        out.append("s");
    }
    if hours == 0 && minutes == 0 && seconds < 10 {
        if !out.as_str().is_empty() {
            out.append(" ");
        }
        append_decimal(&mut out, millis);
        out.append("ms");
    }
    proof {
        assert(out@ =~= spec_format_duration(ms as nat));
    }
    out
}

} // verus!
