//! What the one-time root setup writes: the udev rule that lets the user's group read
//! the CPU energy counters.
use vstd::prelude::*;
use vstd::string::StringExecFns;

use crate::text::{dec, push_u64};

verus! {

pub open spec fn rapl_rule_text(gid: u32) -> Seq<char> {
    "# Written by Hyperion. Lets group "@ + dec(gid as nat)
        + " read CPU package power (RAPL energy),\n# which Linux otherwise restricts to root. Delete this file to undo.\nSUBSYSTEM==\"powercap\", KERNEL==\"intel-rapl:*\", RUN+=\"/bin/chgrp "@
        + dec(gid as nat) + " /sys%p/energy_uj\", RUN+=\"/bin/chmod g+r /sys%p/energy_uj\"\n"@
}

/// The rule letting group `gid` read the CPU energy counters, now and after reboots.
pub fn rapl_rule(gid: u32) -> (s: String)
    ensures
        s@ == rapl_rule_text(gid),
{
    let mut s = String::from_str("# Written by Hyperion. Lets group ");
    push_u64(&mut s, gid as u64);
    s.append(
        " read CPU package power (RAPL energy),\n# which Linux otherwise restricts to root. Delete this file to undo.\nSUBSYSTEM==\"powercap\", KERNEL==\"intel-rapl:*\", RUN+=\"/bin/chgrp ",
    );
    push_u64(&mut s, gid as u64);
    s.append(" /sys%p/energy_uj\", RUN+=\"/bin/chmod g+r /sys%p/energy_uj\"\n");
    s
}

} // verus!
