//! Intel GPUs (`i915` and the newer `xe` driver).
use vstd::prelude::*;

use crate::text::{chars_of, count_until, find_char};

verus! {

/// The second `:`-separated part of `slot` is "00" (the PCI bus).
pub open spec fn on_bus_zero(slot: Seq<char>) -> bool {
    let i = count_until(slot, ':') as int;
    let rest = slot.skip(i + 1);
    i < slot.len() && rest.take(count_until(rest, ':') as int) == "00"@
}

/// Built-in Intel graphics always sits on PCI bus 0; Arc cards don't.
pub fn is_integrated(slot: &str) -> (b: bool)
    ensures
        b == on_bus_zero(slot@),
{
    let v = chars_of(slot);
    let n = v.len();
    let c1 = find_char(&v, 0, n, ':');
    proof {
        assert(v@.subrange(0, n as int) =~= v@);
    }
    if c1 == n {
        return false;
    }
    let c2 = find_char(&v, c1 + 1, n, ':');
    proof {
        reveal_strlit("00");
        assert(v@.subrange(c1 + 1, n as int) =~= v@.skip(c1 + 1));
        assert(v@.skip(c1 + 1).take(c2 - c1 - 1) =~= v@.subrange(c1 + 1, c2 as int));
    }
    let b = c2 - c1 == 3 && v[c1 + 1] == '0' && v[c1 + 2] == '0';
    proof {
        let part = v@.subrange(c1 + 1, c2 as int);
        assert("00"@ =~= seq!['0', '0']);
        if c2 - c1 == 3 {
            assert(part =~= seq![v@[c1 + 1], v@[c1 + 2]]);
        } else {
            assert(part.len() != 2);
        }
    }
    b
}

} // verus!
