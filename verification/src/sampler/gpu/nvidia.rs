//! NVIDIA GPUs: matching NVML's PCI bus ids to sysfs slots, and the names NVML gives.
use vstd::prelude::*;

use crate::text::{
    at_range, chars_of, count_until, find_char, hex, parse_hex_u32, parse_hex_u32_at, push_char,
    push_hex, trim, trim_range, zero_padded,
};

verus! {

/// The sysfs slot for an NVML bus id: `domain:bus:device.function`, each part
/// hexadecimal, written back as `dddd:bb:dd.f` in lower case.
pub open spec fn normalized_bus_id(bus_id: Seq<char>) -> Option<Seq<char>> {
    let t = trim(bus_id);
    let i1 = count_until(t, ':') as int;
    let rest = t.skip(i1 + 1);
    let i2 = count_until(rest, ':') as int;
    let rest2 = rest.skip(i2 + 1);
    let i3 = count_until(rest2, '.') as int;
    if i1 >= t.len() || i2 >= rest.len() || i3 >= rest2.len() {
        None
    } else {
        match (
            parse_hex_u32(t.take(i1)),
            parse_hex_u32(rest.take(i2)),
            parse_hex_u32(rest2.take(i3)),
            parse_hex_u32(rest2.skip(i3 + 1)),
        ) {
            (Some(d), Some(b), Some(dev), Some(f)) => Some(
                zero_padded(hex(d as nat), 4) + ":"@ + zero_padded(hex(b as nat), 2) + ":"@
                    + zero_padded(hex(dev as nat), 2) + "."@ + hex(f as nat),
            ),
            _ => None,
        }
    }
}

proof fn lemma_parts(v: Seq<char>, t0: int, t1: int, c1: int, c2: int, c3: int)
    requires
        0 <= t0 <= c1 < c2 < c3 <= t1 <= v.len(),
    ensures
        ({
            let ts = v.subrange(t0, t1);
            let rest = ts.skip(c1 - t0 + 1);
            &&& v.subrange(c2 + 1, t1) == rest.skip(c2 - c1)
            &&& v.subrange(t0, c1) == ts.take(c1 - t0)
            &&& v.subrange(c1 + 1, c2) == rest.take(c2 - c1 - 1)
            &&& v.subrange(c2 + 1, c3) == rest.skip(c2 - c1).take(c3 - c2 - 1)
            &&& (c3 < t1 ==> v.subrange(c3 + 1, t1) == rest.skip(c2 - c1).skip(c3 - c2))
        }),
{
    let ts = v.subrange(t0, t1);
    let rest = ts.skip(c1 - t0 + 1);
    assert(rest =~= v.subrange(c1 + 1, t1));
    let rest2 = rest.skip(c2 - c1);
    assert(rest2 =~= v.subrange(c2 + 1, t1));
    assert(v.subrange(t0, c1) =~= ts.take(c1 - t0));
    assert(v.subrange(c1 + 1, c2) =~= rest.take(c2 - c1 - 1));
    assert(v.subrange(c2 + 1, c3) =~= rest2.take(c3 - c2 - 1));
    if c3 < t1 {
        assert(v.subrange(c3 + 1, t1) =~= rest2.skip(c3 - c2));
    }
}

/// NVML writes bus ids as `00000000:01:00.0` (8-digit domain, upper case); sysfs as
/// `0000:01:00.0`.
#[verifier::rlimit(60)]
pub fn normalize_bus_id(bus_id: &str) -> (r: Option<String>)
    ensures
        match r {
            Some(s) => normalized_bus_id(bus_id@) == Some(s@),
            None => normalized_bus_id(bus_id@) is None,
        },
{
    let v = chars_of(bus_id);
    let t = trim_range(&v, 0, v.len());
    proof {
        assert(v@.subrange(0, v@.len() as int) =~= bus_id@);
    }
    let ghost ts = at_range(v@, t);
    assert(ts == trim(bus_id@));
    let c1 = find_char(&v, t.0, t.1, ':');
    assert(count_until(ts, ':') == c1 - t.0);
    if c1 == t.1 {
        return None;
    }
    let ghost rest = ts.skip(c1 - t.0 + 1);
    assert(rest =~= v@.subrange(c1 + 1, t.1 as int));
    let c2 = find_char(&v, c1 + 1, t.1, ':');
    assert(count_until(rest, ':') == c2 - c1 - 1);
    if c2 == t.1 {
        return None;
    }
    let ghost rest2 = rest.skip(c2 - c1);
    assert(rest2 =~= v@.subrange(c2 + 1, t.1 as int));
    let c3 = find_char(&v, c2 + 1, t.1, '.');
    assert(count_until(rest2, '.') == c3 - c2 - 1);
    if c3 == t.1 {
        return None;
    }
    proof {
        lemma_parts(v@, t.0 as int, t.1 as int, c1 as int, c2 as int, c3 as int);
    }
    let domain = parse_hex_u32_at(&v, (t.0, c1));
    let bus = parse_hex_u32_at(&v, (c1 + 1, c2));
    let device = parse_hex_u32_at(&v, (c2 + 1, c3));
    let function = parse_hex_u32_at(&v, (c3 + 1, t.1));
    assert(domain == parse_hex_u32(ts.take(c1 - t.0)));
    assert(bus == parse_hex_u32(rest.take(c2 - c1 - 1)));
    assert(device == parse_hex_u32(rest2.take(c3 - c2 - 1)));
    assert(function == parse_hex_u32(rest2.skip(c3 - c2)));
    match (domain, bus, device, function) {
        (Some(domain), Some(bus), Some(device), Some(function)) => {
            let mut s = String::new();
            push_hex(&mut s, domain as u64, 4);
            push_char(&mut s, ':');
            push_hex(&mut s, bus as u64, 2);
            push_char(&mut s, ':');
            push_hex(&mut s, device as u64, 2);
            push_char(&mut s, '.');
            push_hex(&mut s, function as u64, 0);
            proof {
                assert(zero_padded(hex(function as nat), 0) =~= hex(function as nat));
                reveal_strlit(":");
                reveal_strlit(".");
                assert(s@ =~= zero_padded(hex(domain as nat), 4) + ":"@ + zero_padded(hex(bus as nat), 2)
                    + ":"@ + zero_padded(hex(device as nat), 2) + "."@ + hex(function as nat));
            }
            Some(s)
        },
        _ => None,
    }
}

/// NVML's name without the leading "NVIDIA " (repeated, as `trim_start_matches`).
pub open spec fn without_vendor(name: Seq<char>) -> Seq<char>
    decreases name.len(),
{
    if name.len() >= 7 && name.take(7) == "NVIDIA "@ {
        without_vendor(name.skip(7))
    } else {
        name
    }
}

/// The name to show for an NVIDIA card, from what NVML calls it.
pub fn display_name(name: &str) -> (s: &str)
    ensures
        s@ == without_vendor(name@),
{
    let v = chars_of(name);
    let p = chars_of("NVIDIA ");
    proof {
        reveal_strlit("NVIDIA ");
        assert(v@.skip(0) =~= v@);
    }
    let mut i: usize = 0;
    while v.len() - i >= 7 && crate::text::range_eq(&v, (i, i + 7), &p)
        invariant
            i <= v@.len(),
            p@ == "NVIDIA "@,
            p@.len() == 7,
            without_vendor(v@.skip(i as int)) == without_vendor(v@),
        decreases v@.len() - i,
    {
        proof {
            assert(at_range(v@, (i, (i + 7) as usize)) =~= v@.skip(i as int).take(7));
            assert(v@.skip(i as int).skip(7) =~= v@.skip(i + 7));
        }
        i = i + 7;
    }
    proof {
        if i + 7 <= v@.len() {
            assert(at_range(v@, (i, (i + 7) as usize)) =~= v@.skip(i as int).take(7));
        }
        assert(v@.subrange(i as int, v@.len() as int) =~= v@.skip(i as int));
    }
    name.substring_char(i, v.len())
}

} // verus!
