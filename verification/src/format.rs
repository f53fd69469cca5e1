//! How durations are written in the settings.
use vstd::prelude::*;
use vstd::string::StringExecFns;

use crate::text::{dec, push_u64};

verus! {

/// A sample interval: milliseconds below a second, else whole seconds.
pub open spec fn interval_text(ms: u64) -> Seq<char> {
    if ms < 1000 {
        dec(ms as nat) + " ms"@
    } else {
        dec((ms / 1000) as nat) + " s"@
    }
}

/// A history span: seconds below a minute, else whole minutes.
pub open spec fn span_text(secs: u64) -> Seq<char> {
    if secs < 60 {
        dec(secs as nat) + " s"@
    } else {
        dec((secs / 60) as nat) + " min"@
    }
}

pub fn interval_ms(ms: u64) -> (s: String)
    ensures
        s@ == interval_text(ms),
{
    let mut s = String::new();
    if ms < 1000 {
        push_u64(&mut s, ms);
        s.append(" ms");
    } else {
        push_u64(&mut s, ms / 1000);
        s.append(" s");
    }
    s
}

pub fn span_secs(secs: u64) -> (s: String)
    ensures
        s@ == span_text(secs),
{
    let mut s = String::new();
    if secs < 60 {
        push_u64(&mut s, secs);
        s.append(" s");
    } else {
        push_u64(&mut s, secs / 60);
        s.append(" min");
    }
    s
}

} // verus!
