//! CPU package power: whether it can be read, which powercap domain holds it, and
//! the energy used between two readings of its counter.
use vstd::prelude::*;

use crate::text::{
    chars_of, count_until, find_char, range_eq, range_starts_with, starts_with, trim, trim_range,
};

verus! {

/// Whether this machine can report CPU power, and whether we may read it.
#[derive(Clone, Copy, Debug, PartialEq, Eq)]
pub enum PowerAccess {
    /// No RAPL energy counter (e.g. a VM, or not a Linux system).
    Unavailable,
    /// The counter exists but is root-only (the Linux default since 2020).
    NeedsPermission,
    Readable,
}

/// What the package domain found (if any) and opening its counter tell.
pub fn power_access_of(package_found: bool, counter_opens: bool) -> (a: PowerAccess)
    ensures
        !package_found ==> a == PowerAccess::Unavailable,
        package_found && counter_opens ==> a == PowerAccess::Readable,
        package_found && !counter_opens ==> a == PowerAccess::NeedsPermission,
{
    if !package_found {
        PowerAccess::Unavailable
    } else if counter_opens {
        PowerAccess::Readable
    } else {
        PowerAccess::NeedsPermission
    }
}

pub open spec fn colons(s: Seq<char>) -> nat
    decreases s.len(),
{
    if s.len() == 0 {
        0
    } else {
        colons(s.drop_last()) + if s.last() == ':' { 1nat } else { 0nat }
    }
}

/// A top-level RAPL domain (`intel-rapl:0`), not a subdomain (`intel-rapl:0:1`).
pub fn is_rapl_domain(name: &str) -> (b: bool)
    ensures
        b == (starts_with(name@, "intel-rapl:"@) && colons(name@) == 1),
{
    let v = chars_of(name);
    let prefix = chars_of("intel-rapl:");
    let n = v.len();
    proof {
        assert(v@.subrange(0, n as int) =~= v@);
    }
    let mut count: usize = 0;
    let mut i: usize = 0;
    while i < n
        invariant
            i <= n == v@.len(),
            count <= i,
            count == colons(v@.take(i as int)),
        decreases n - i,
    {
        proof {
            assert(v@.take(i + 1).drop_last() =~= v@.take(i as int));
        }
        if v[i] == ':' {
            count = count + 1;
        }
        i = i + 1;
    }
    proof {
        assert(v@.take(n as int) =~= v@);
        crate::text::lemma_at_range_full(v@);
    }
    range_starts_with(&v, (0, n), &prefix) && count == 1
}

/// The domain's `name` file says it is the CPU package.
pub fn is_package(name_file: &str) -> (b: bool)
    ensures
        b == starts_with(trim(name_file@), "package"@),
{
    let v = chars_of(name_file);
    let t = trim_range(&v, 0, v.len());
    let p = chars_of("package");
    proof {
        assert(v@.subrange(0, v@.len() as int) =~= name_file@);
    }
    range_starts_with(&v, t, &p)
}

/// Microjoules used between two readings of an energy counter that wraps at
/// `max_uj`: `None` when the counter went backwards past what a wrap explains.
pub fn energy_used(prev_uj: u64, cur_uj: u64, max_uj: u64) -> (used: Option<u64>)
    requires
        cur_uj < prev_uj && prev_uj <= max_uj ==> max_uj - prev_uj + cur_uj <= u64::MAX,
    ensures
        cur_uj >= prev_uj ==> used == Some((cur_uj - prev_uj) as u64),
        cur_uj < prev_uj && prev_uj <= max_uj ==> used == Some((max_uj - prev_uj + cur_uj) as u64),
        cur_uj < prev_uj && prev_uj > max_uj ==> used is None,
{
    if cur_uj >= prev_uj {
        Some(cur_uj - prev_uj)
    } else if prev_uj <= max_uj {
        Some(max_uj - prev_uj + cur_uj)
    } else {
        None
    }
}


// ---------------------------------------------------------------------------------
// CPU temperature

/// Chips and labels that report the CPU temperature, best first; `None` takes any
/// label.
pub open spec fn temp_sources() -> Seq<(Seq<char>, Option<Seq<char>>)> {
    seq![
        ("zenpower"@, Some("Tdie"@)),
        ("k10temp"@, Some("Tdie"@)),
        ("k10temp"@, Some("Tctl"@)),
        ("coretemp"@, Some("Package id 0"@)),
        ("cpu_thermal"@, None),
        ("k10temp"@, None),
    ]
}

fn temp_source(i: usize) -> (t: (&'static str, Option<&'static str>))
    requires
        i < 6,
    ensures
        t.0@ == temp_sources()[i as int].0,
        match t.1 {
            Some(l) => temp_sources()[i as int].1 == Some(l@),
            None => temp_sources()[i as int].1 is None,
        },
{
    match i {
        0 => ("zenpower", Some("Tdie")),
        1 => ("k10temp", Some("Tdie")),
        2 => ("k10temp", Some("Tctl")),
        3 => ("coretemp", Some("Package id 0")),
        4 => ("cpu_thermal", None),
        _ => ("k10temp", None),
    }
}

/// The label file of input `j` of chip `c`, as read (`None` when there is none).
pub open spec fn label_of(chips: Seq<(String, Vec<Option<String>>)>, c: int, j: int) -> Option<
    Seq<char>,
> {
    match chips[c].1@[j] {
        Some(l) => Some(l@),
        None => None,
    }
}

/// Whether input `j` of chip `c` is what source `s` asks for: the chip's name file
/// names that chip and, where the source wants a label, the input's label file holds
/// it (both trimmed).
pub open spec fn is_source(chips: Seq<(String, Vec<Option<String>>)>, s: int, c: int, j: int) -> bool {
    &&& 0 <= s < 6
    &&& 0 <= c < chips.len()
    &&& 0 <= j < chips[c].1@.len()
    &&& trim(chips[c].0@) == temp_sources()[s].0
    &&& match temp_sources()[s].1 {
        None => true,
        Some(want) => label_of(chips, c, j) matches Some(l) && trim(l) == want,
    }
}

/// `(s1, c1, j1)` comes before `(s2, c2, j2)`: a better source, or the same source on
/// an earlier chip, or an earlier input of the same chip.
pub open spec fn tried_before(s1: int, c1: int, j1: int, s2: int, c2: int, j2: int) -> bool {
    s1 < s2 || (s1 == s2 && (c1 < c2 || (c1 == c2 && j1 < j2)))
}

/// Input `j` of chip `c` is what source `s` asks for, and nothing tried before it is.
pub open spec fn first_source(chips: Seq<(String, Vec<Option<String>>)>, s: int, c: int, j: int) -> bool {
    &&& is_source(chips, s, c, j)
    &&& forall|s2: int, c2: int, j2: int|
        tried_before(s2, c2, j2, s, c, j) ==> !#[trigger] is_source(chips, s2, c2, j2)
}

fn trimmed_is(text: &str, want: &str) -> (b: bool)
    ensures
        b == (trim(text@) == want@),
{
    let v = chars_of(text);
    let w = chars_of(want);
    let r = trim_range(&v, 0, v.len());
    assert(v@.subrange(0, v@.len() as int) =~= v@);
    range_eq(&v, r, &w)
}

/// Which hwmon input reports the CPU temperature. `chips` holds, for every hwmon
/// chip, its `name` file and, for each of its `tempN_input` files in name order, its
/// `tempN_label` file. The best source wins; among chips and inputs that both fit it,
/// the first. Returns `(chip, input)`.
pub fn cpu_temp_choice(chips: &[(String, Vec<Option<String>>)]) -> (r: Option<(usize, usize)>)
    ensures
        r is None <==> forall|s: int, c: int, j: int| !#[trigger] is_source(chips@, s, c, j),
        r matches Some(p) ==> exists|s: int| #[trigger] first_source(chips@, s, p.0 as int, p.1 as int),
{
    let mut s: usize = 0;
    while s < 6
        invariant
            s <= 6,
            forall|s2: int, c2: int, j2: int| s2 < s ==> !#[trigger] is_source(chips@, s2, c2, j2),
        decreases 6 - s,
    {
        let (chip, label) = temp_source(s);
        let mut c: usize = 0;
        while c < chips.len()
            invariant
                s < 6,
                c <= chips@.len(),
                chip@ == temp_sources()[s as int].0,
                match label {
                    Some(l) => temp_sources()[s as int].1 == Some(l@),
                    None => temp_sources()[s as int].1 is None,
                },
                forall|s2: int, c2: int, j2: int| s2 < s ==> !#[trigger] is_source(chips@, s2, c2, j2),
                forall|c2: int, j2: int| c2 < c ==> !#[trigger] is_source(chips@, s as int, c2, j2),
            decreases chips@.len() - c,
        {
            if trimmed_is(chips[c].0.as_str(), chip) {
                let inputs = &chips[c].1;
                let mut j: usize = 0;
                while j < inputs.len()
                    invariant
                        s < 6,
                        c < chips@.len(),
                        inputs@ == chips@[c as int].1@,
                        j <= inputs@.len(),
                        trim(chips@[c as int].0@) == temp_sources()[s as int].0,
                        match label {
                            Some(l) => temp_sources()[s as int].1 == Some(l@),
                            None => temp_sources()[s as int].1 is None,
                        },
                        forall|s2: int, c2: int, j2: int|
                            s2 < s ==> !#[trigger] is_source(chips@, s2, c2, j2),
                        forall|c2: int, j2: int|
                            c2 < c ==> !#[trigger] is_source(chips@, s as int, c2, j2),
                        forall|j2: int| j2 < j ==> !#[trigger] is_source(chips@, s as int, c as int, j2),
                    decreases inputs@.len() - j,
                {
                    let hit = match label {
                        None => true,
                        Some(want) => match &inputs[j] {
                            Some(found) => trimmed_is(found.as_str(), want),
                            None => false,
                        },
                    };
                    if hit {
                        proof {
                            assert(is_source(chips@, s as int, c as int, j as int));
                            assert forall|s2: int, c2: int, j2: int|
                                tried_before(
                                    s2,
                                    c2,
                                    j2,
                                    s as int,
                                    c as int,
                                    j as int,
                                ) implies !#[trigger] is_source(chips@, s2, c2, j2) by {
                                if s2 < s {
                                } else if c2 < c {
                                } else {
                                }
                            }
                            assert(first_source(chips@, s as int, c as int, j as int));
                        }
                        let r = Some((c, j));
                        assert((r->0).0 == c && (r->0).1 == j);
                        return r;
                    }
                    j = j + 1;
                }
            }
            c = c + 1;
        }
        s = s + 1;
    }
    None
}

} // verus!
