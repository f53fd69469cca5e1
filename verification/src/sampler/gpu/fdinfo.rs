//! DRM `fdinfo`: for every open GPU file, how busy its client kept each engine and
//! how much memory it holds.
use vstd::prelude::*;

use crate::text::{
    at_range, chars_le, chars_of, count_until, lemma_count_until, lemma_lines_step,
    lemma_seq_le_total, line_at, lines, parse_u64, parse_u64_at, range_chars, range_ends_with,
    range_eq, range_starts_with, seq_le, starts_with, trim, trim_range, ufield_ranges, ufields,
};

verus! {

/// One client (one open GPU file) of one GPU.
#[derive(Clone, Debug, Default, PartialEq)]
pub struct Client {
    pub pdev: String,
    pub id: u64,
    /// `(engine, busy, total)`: busy nanoseconds (`total` None), or busy cycles out of
    /// `total` cycles (the xe driver).
    pub engines: Vec<(String, u64, Option<u64>)>,
    pub resident_system: u64,
    pub resident_vram: u64,
}

pub open spec fn engine_view(e: (String, u64, Option<u64>)) -> (Seq<char>, u64, Option<u64>) {
    (e.0@, e.1, e.2)
}

// ---------------------------------------------------------------------------------
// Memory amounts

/// `n` or `n KiB`/`MiB`/`GiB` (anything after the unit is ignored), in bytes; `None`
/// for anything else.
pub open spec fn resident_bytes(value: Seq<char>) -> Option<nat> {
    let f = ufields(value);
    if f.len() == 0 || parse_u64(f[0]) is None {
        None
    } else {
        let n = parse_u64(f[0])->0 as nat;
        if f.len() == 1 {
            Some(n)
        } else if f[1] == "KiB"@ {
            Some(n * 1024)
        } else if f[1] == "MiB"@ {
            Some(n * 1048576)
        } else if f[1] == "GiB"@ {
            Some(n * 1073741824)
        } else {
            None
        }
    }
}

/// Every amount that parses fits in a `u64` once scaled to bytes.
pub open spec fn bytes_fit(value: Seq<char>) -> bool {
    resident_bytes(value) matches Some(b) ==> b <= u64::MAX
}

fn bytes_at(v: &Vec<char>, r: (usize, usize), units: &[Vec<char>; 3]) -> (b: Option<u128>)
    requires
        r.0 <= r.1 <= v@.len(),
        units[0]@ == "KiB"@,
        units[1]@ == "MiB"@,
        units[2]@ == "GiB"@,
    ensures
        b matches Some(x) ==> resident_bytes(at_range(v@, r)) == Some(x as nat),
        b is None ==> resident_bytes(at_range(v@, r)) is None,
{
    let f = ufield_ranges(v, r.0, r.1);
    if f.len() == 0 {
        return None;
    }
    let n = match parse_u64_at(v, f[0]) {
        Some(n) => n,
        None => return None,
    };
    if f.len() == 1 {
        return Some(n as u128);
    }
    let unit: u128 = if range_eq(v, f[1], &units[0]) {
        1024
    } else if range_eq(v, f[1], &units[1]) {
        1048576
    } else if range_eq(v, f[1], &units[2]) {
        1073741824
    } else {
        return None;
    };
    Some(n as u128 * unit)
}

/// An amount of memory as fdinfo writes it: `1024`, `2048 KiB`, `1 MiB`, ...
pub fn bytes(value: &str) -> (b: Option<u64>)
    requires
        bytes_fit(value@),
    ensures
        b matches Some(x) ==> resident_bytes(value@) == Some(x as nat),
        b is None ==> resident_bytes(value@) is None,
{
    let v = chars_of(value);
    let units = [chars_of("KiB"), chars_of("MiB"), chars_of("GiB")];
    let n = v.len();
    assert(at_range(v@, (0, n)) =~= value@);
    match bytes_at(&v, (0, n), &units) {
        Some(b) => Some(b as u64),
        None => None,
    }
}

// ---------------------------------------------------------------------------------
// Parsing

/// `value` without any number of trailing ` ns`.
pub open spec fn strip_ns(s: Seq<char>) -> Seq<char>
    decreases s.len(),
{
    if s.len() >= 3 && s.skip(s.len() - 3) == " ns"@ {
        strip_ns(s.take(s.len() - 3))
    } else {
        s
    }
}

/// Index of the entry named `k`, or -1.
pub open spec fn find_named(s: Seq<(Seq<char>, u64)>, k: Seq<char>) -> int
    decreases s.len(),
{
    if s.len() == 0 {
        -1
    } else if s.last().0 == k {
        s.len() - 1
    } else {
        find_named(s.drop_last(), k)
    }
}

/// Sets `k` to `x`: in place if it is there, else appended (a map that remembers
/// first-insertion order).
pub open spec fn upsert(s: Seq<(Seq<char>, u64)>, k: Seq<char>, x: u64) -> Seq<(Seq<char>, u64)> {
    let i = find_named(s, k);
    if i >= 0 {
        s.update(i, (k, x))
    } else {
        s.push((k, x))
    }
}

/// Where reading the lines has got to.
pub struct FdState {
    pub pdev: Seq<char>,
    pub id: u64,
    /// `drm-engine-*` lines: busy nanoseconds, in line order.
    pub ns: Seq<(Seq<char>, u64)>,
    /// `drm-cycles-*` and `drm-total-cycles-*`: the last value per engine.
    pub cycles: Seq<(Seq<char>, u64)>,
    pub totals: Seq<(Seq<char>, u64)>,
    pub system: nat,
    pub vram: nat,
    /// A value did not parse: the file is not one we understand.
    pub failed: bool,
}

pub open spec fn fd_start() -> FdState {
    FdState {
        pdev: seq![],
        id: 0,
        ns: seq![],
        cycles: seq![],
        totals: seq![],
        system: 0,
        vram: 0,
        failed: false,
    }
}


pub open spec fn fd_step(st: FdState, line: Seq<char>) -> FdState {
    let k = count_until(line, ':') as int;
    let key = line.take(k);
    let value = trim(line.skip(k + 1));
    if st.failed || k >= line.len() {
        st
    } else if key == "drm-pdev"@ {
        FdState { pdev: value, ..st }
    } else if key == "drm-client-id"@ {
        match parse_u64(value) {
            Some(n) => FdState { id: n, ..st },
            None => FdState { failed: true, ..st },
        }
    } else if starts_with(key, "drm-engine-"@) {
        match parse_u64(strip_ns(value)) {
            Some(n) => FdState { ns: st.ns.push((key.skip(11), n)), ..st },
            None => FdState { failed: true, ..st },
        }
    } else if starts_with(key, "drm-total-cycles-"@) {
        match parse_u64(value) {
            Some(n) => FdState { totals: upsert(st.totals, key.skip(17), n), ..st },
            None => FdState { failed: true, ..st },
        }
    } else if starts_with(key, "drm-cycles-"@) {
        match parse_u64(value) {
            Some(n) => FdState { cycles: upsert(st.cycles, key.skip(11), n), ..st },
            None => FdState { failed: true, ..st },
        }
    } else if starts_with(key, "drm-resident-"@) {
        let region = key.skip(13);
        match resident_bytes(value) {
            None => FdState { failed: true, ..st },
            Some(b) => if starts_with(region, "system"@) || starts_with(region, "gtt"@) {
                FdState { system: st.system + b, ..st }
            } else if starts_with(region, "vram"@) || starts_with(region, "local"@) {
                FdState { vram: st.vram + b, ..st }
            } else {
                st
            },
        }
    } else {
        st
    }
}

pub open spec fn fd_fold(ls: Seq<Seq<char>>, st: FdState) -> FdState
    decreases ls.len(),
{
    if ls.len() == 0 {
        st
    } else {
        fd_fold(ls.drop_first(), fd_step(st, ls[0]))
    }
}

/// Every amount read before the first unparsable value fits in a `u64`, and so do
/// the running totals.
pub open spec fn fd_fits(ls: Seq<Seq<char>>, st: FdState) -> bool
    decreases ls.len(),
{
    if ls.len() == 0 || st.failed {
        true
    } else {
        let next = fd_step(st, ls[0]);
        let k = count_until(ls[0], ':') as int;
        (k < ls[0].len() && starts_with(ls[0].take(k), "drm-resident-"@) ==> bytes_fit(
            trim(ls[0].skip(k + 1)),
        )) && next.system <= u64::MAX
            && next.vram <= u64::MAX && fd_fits(ls.drop_first(), next)
    }
}

/// Index in the sorted `acc` where `name` goes: after every entry not greater than it.
pub open spec fn sorted_pos(acc: Seq<(Seq<char>, u64, Option<u64>)>, name: Seq<char>) -> nat
    decreases acc.len(),
{
    if acc.len() == 0 || !seq_le(acc[0].0, name) {
        0
    } else {
        1 + sorted_pos(acc.drop_first(), name)
    }
}

/// Stable sort by engine name, as `slice::sort_by`: each entry goes after the
/// entries before it whose name is not greater.
pub open spec fn sort_engines(es: Seq<(Seq<char>, u64, Option<u64>)>) -> Seq<
    (Seq<char>, u64, Option<u64>),
>
    decreases es.len(),
{
    if es.len() == 0 {
        seq![]
    } else {
        let acc = sort_engines(es.drop_last());
        acc.insert(sorted_pos(acc, es.last().0) as int, es.last())
    }
}

/// The engines of a fully read file: nanosecond ones in line order, then the cycle
/// counters with their totals, sorted by name. (The cycle counters have distinct
/// names, so the order they are added in does not change the result.)
pub open spec fn fd_engines(st: FdState) -> Seq<(Seq<char>, u64, Option<u64>)> {
    let ns = st.ns.map_values(|e: (Seq<char>, u64)| (e.0, e.1, None::<u64>));
    let cy = st.cycles.map_values(
        |e: (Seq<char>, u64)|
            (
                e.0,
                e.1,
                if find_named(st.totals, e.0) >= 0 {
                    Some(st.totals[find_named(st.totals, e.0)].1)
                } else {
                    None
                },
            ),
    );
    sort_engines(ns + cy)
}

/// The client an fdinfo file describes; `None` when it is not a GPU file (no
/// `drm-pdev`) or a value does not parse.
pub open spec fn fdinfo_client(text: Seq<char>) -> Option<(Seq<char>, u64, Seq<(Seq<char>, u64, Option<u64>)>, nat, nat)> {
    let st = fd_fold(lines(text), fd_start());
    if st.failed || st.pdev.len() == 0 {
        None
    } else {
        Some((st.pdev, st.id, fd_engines(st), st.system, st.vram))
    }
}

pub open spec fn ranges_view(v: Seq<char>, s: Seq<((usize, usize), u64)>) -> Seq<(Seq<char>, u64)> {
    s.map_values(|e: ((usize, usize), u64)| (at_range(v, e.0), e.1))
}

proof fn lemma_fold_failed(ls: Seq<Seq<char>>, st: FdState)
    requires
        st.failed,
    ensures
        fd_fold(ls, st) == st,
    decreases ls.len(),
{
    if ls.len() > 0 {
        lemma_fold_failed(ls.drop_first(), st);
    }
}

proof fn lemma_find_named(s: Seq<(Seq<char>, u64)>, k: Seq<char>)
    ensures
        -1 <= find_named(s, k) < s.len(),
        find_named(s, k) >= 0 ==> s[find_named(s, k)].0 == k,
    decreases s.len(),
{
    if s.len() > 0 {
        lemma_find_named(s.drop_last(), k);
    }
}

proof fn lemma_sorted_pos(acc: Seq<(Seq<char>, u64, Option<u64>)>, name: Seq<char>, p: int)
    requires
        0 <= p <= acc.len(),
        forall|j: int| 0 <= j < p ==> seq_le(#[trigger] acc[j].0, name),
        p == acc.len() || !seq_le(acc[p].0, name),
    ensures
        sorted_pos(acc, name) == p,
    decreases p,
{
    if p > 0 {
        assert forall|j: int| 0 <= j < p - 1 implies seq_le(#[trigger] acc.drop_first()[j].0, name) by {
            assert(acc.drop_first()[j] == acc[j + 1]);
        }
        lemma_sorted_pos(acc.drop_first(), name, p - 1);
    }
}

/// Index of the last entry of `s` whose name is `v[r]`.
fn find_range(v: &Vec<char>, s: &Vec<((usize, usize), u64)>, r: (usize, usize)) -> (i: Option<usize>)
    requires
        r.0 <= r.1 <= v@.len(),
        forall|j: int| 0 <= j < s@.len() ==> (#[trigger] s@[j]).0.0 <= s@[j].0.1 <= v@.len(),
    ensures
        i matches Some(k) ==> k < s@.len() && find_named(ranges_view(v@, s@), at_range(v@, r))
            == k as int,
        i is None ==> find_named(ranges_view(v@, s@), at_range(v@, r)) == -1,
{
    let name = range_chars(v, r);
    let mut i = s.len();
    let ghost sv = ranges_view(v@, s@);
    proof {
        assert(sv.take(i as int) =~= sv);
    }
    while i > 0
        invariant
            i <= s@.len(),
            name@ == at_range(v@, r),
            sv == ranges_view(v@, s@),
            forall|j: int| 0 <= j < s@.len() ==> (#[trigger] s@[j]).0.0 <= s@[j].0.1 <= v@.len(),
            find_named(sv, name@) == find_named(sv.take(i as int), name@),
        decreases i,
    {
        let e = s[i - 1];
        proof {
            assert(sv.take(i as int).drop_last() =~= sv.take(i - 1));
            assert(sv.take(i as int).last() == sv[i - 1]);
        }
        if range_eq(v, e.0, &name) {
            return Some(i - 1);
        }
        i = i - 1;
    }
    proof {
        assert(sv.take(0) =~= Seq::<(Seq<char>, u64)>::empty());
    }
    None
}

/// Parses one fdinfo file; `None` when it is not a GPU file (no `drm-pdev`) or a
/// value does not parse.
#[verifier::rlimit(30)]
pub fn parse(text: &str) -> (r: Option<Client>)
    requires
        fd_fits(lines(text@), fd_start()),
    ensures
        match r {
            None => fdinfo_client(text@) is None,
            Some(c) => fdinfo_client(text@) == Some(
                (
                    c.pdev@,
                    c.id,
                    c.engines@.map_values(|e: (String, u64, Option<u64>)| engine_view(e)),
                    c.resident_system as nat,
                    c.resident_vram as nat,
                ),
            ),
        },
{
    let v = chars_of(text);
    let k_pdev = chars_of("drm-pdev");
    let k_id = chars_of("drm-client-id");
    let k_engine = chars_of("drm-engine-");
    let k_total = chars_of("drm-total-cycles-");
    let k_cycles = chars_of("drm-cycles-");
    let k_resident = chars_of("drm-resident-");
    let k_system = chars_of("system");
    let k_gtt = chars_of("gtt");
    let k_vram = chars_of("vram");
    let k_local = chars_of("local");
    let ns_suffix = chars_of(" ns");
    let units = [chars_of("KiB"), chars_of("MiB"), chars_of("GiB")];
    proof {
        reveal_strlit("drm-engine-");
        reveal_strlit("drm-total-cycles-");
        reveal_strlit("drm-cycles-");
        reveal_strlit("drm-resident-");
        reveal_strlit(" ns");
    }
    let mut pdev: (usize, usize) = (0, 0);
    let mut id: u64 = 0;
    let mut ns: Vec<((usize, usize), u64)> = Vec::new();
    let mut cycles: Vec<((usize, usize), u64)> = Vec::new();
    let mut totals: Vec<((usize, usize), u64)> = Vec::new();
    let mut system: u64 = 0;
    let mut vram: u64 = 0;
    let ghost target = fd_fold(lines(text@), fd_start());
    let mut start: usize = 0;
    proof {
        assert(v@.skip(0) =~= v@);
        let st = FdState {
            pdev: at_range(v@, pdev),
            id,
            ns: ranges_view(v@, ns@),
            cycles: ranges_view(v@, cycles@),
            totals: ranges_view(v@, totals@),
            system: system as nat,
            vram: vram as nat,
            failed: false,
        };
        assert(st.pdev =~= fd_start().pdev);
        assert(st.ns =~= fd_start().ns);
        assert(st.cycles =~= fd_start().cycles);
        assert(st.totals =~= fd_start().totals);
        assert(st == fd_start());
    }
    while start < v.len()
        invariant
            start <= v@.len(),
            v@ == text@,
            k_pdev@ == "drm-pdev"@,
            k_id@ == "drm-client-id"@,
            k_engine@ == "drm-engine-"@,
            k_total@ == "drm-total-cycles-"@,
            k_cycles@ == "drm-cycles-"@,
            k_resident@ == "drm-resident-"@,
            k_system@ == "system"@,
            k_gtt@ == "gtt"@,
            k_vram@ == "vram"@,
            k_local@ == "local"@,
            ns_suffix@ == " ns"@,
            units[0]@ == "KiB"@,
            units[1]@ == "MiB"@,
            units[2]@ == "GiB"@,
            k_engine@.len() == 11,
            k_total@.len() == 17,
            k_cycles@.len() == 11,
            k_resident@.len() == 13,
            ns_suffix@.len() == 3,
            target == fd_fold(lines(text@), fd_start()),
            pdev.0 <= pdev.1 <= v@.len(),
            forall|j: int| 0 <= j < ns@.len() ==> (#[trigger] ns@[j]).0.0 <= ns@[j].0.1 <= v@.len(),
            forall|j: int|
                0 <= j < cycles@.len() ==> (#[trigger] cycles@[j]).0.0 <= cycles@[j].0.1 <= v@.len(),
            forall|j: int|
                0 <= j < totals@.len() ==> (#[trigger] totals@[j]).0.0 <= totals@[j].0.1 <= v@.len(),
            fd_fold(
                lines(v@.skip(start as int)),
                FdState {
                    pdev: at_range(v@, pdev),
                    id,
                    ns: ranges_view(v@, ns@),
                    cycles: ranges_view(v@, cycles@),
                    totals: ranges_view(v@, totals@),
                    system: system as nat,
                    vram: vram as nat,
                    failed: false,
                },
            ) == target,
            fd_fits(
                lines(v@.skip(start as int)),
                FdState {
                    pdev: at_range(v@, pdev),
                    id,
                    ns: ranges_view(v@, ns@),
                    cycles: ranges_view(v@, cycles@),
                    totals: ranges_view(v@, totals@),
                    system: system as nat,
                    vram: vram as nat,
                    failed: false,
                },
            ),
        decreases v@.len() - start,
    {
        let ghost st = FdState {
            pdev: at_range(v@, pdev),
            id,
            ns: ranges_view(v@, ns@),
            cycles: ranges_view(v@, cycles@),
            totals: ranges_view(v@, totals@),
            system: system as nat,
            vram: vram as nat,
            failed: false,
        };
        let (end, next) = line_at(&v, start);
        let ghost line = v@.subrange(start as int, end as int);
        let ghost after = fd_step(st, line);
        proof {
            lemma_lines_step(v@, start as int, end as int, next as int);
        }
        let mut c = start;
        while c < end && v[c] != ':'
            invariant
                start <= c <= end <= v@.len(),
                forall|k: int| start <= k < c ==> v@[k] != ':',
            decreases end - c,
        {
            c = c + 1;
        }
        proof {
            lemma_count_until(line, ':', (c - start) as int);
        }
        if c < end {
            let key = (start, c);
            let val = trim_range(&v, c + 1, end);
            proof {
                assert(line.take(c - start) =~= at_range(v@, key));
                assert(line.skip(c - start + 1) =~= v@.subrange(c + 1, end as int));
            }
            if range_eq(&v, key, &k_pdev) {
                pdev = val;
            } else if range_eq(&v, key, &k_id) {
                match parse_u64_at(&v, val) {
                    Some(n) => {
                        id = n;
                    },
                    None => {
                        proof {
                            lemma_fold_failed(lines(v@.skip(next as int)), after);
                        }
                        return None;
                    },
                }
            } else if range_starts_with(&v, key, &k_engine) {
                let mut b = val.1;
                while b - val.0 >= 3 && range_ends_with(&v, (val.0, b), &ns_suffix)
                    invariant
                        val.0 <= b <= val.1 <= v@.len(),
                        ns_suffix@ == " ns"@,
                        ns_suffix@.len() == 3,
                        strip_ns(at_range(v@, val)) == strip_ns(at_range(v@, (val.0, b))),
                    decreases b,
                {
                    proof {
                        assert(at_range(v@, (val.0, b)).take(b - val.0 - 3) =~= at_range(
                            v@,
                            (val.0, (b - 3) as usize),
                        ));
                    }
                    b = b - 3;
                }
                match parse_u64_at(&v, (val.0, b)) {
                    Some(n) => {
                        let name = (start + k_engine.len(), c);
                        proof {
                            assert(at_range(v@, key).skip(11) =~= at_range(v@, name));
                            assert(ranges_view(v@, ns@.push((name, n))) =~= ranges_view(v@, ns@).push(
                                (at_range(v@, name), n),
                            ));
                        }
                        ns.push((name, n));
                    },
                    None => {
                        proof {
                            lemma_fold_failed(lines(v@.skip(next as int)), after);
                        }
                        return None;
                    },
                }
            } else if range_starts_with(&v, key, &k_total) || range_starts_with(&v, key, &k_cycles) {
                let is_total = range_starts_with(&v, key, &k_total);
                match parse_u64_at(&v, val) {
                    Some(n) => {
                        let name = if is_total {
                            (start + k_total.len(), c)
                        } else {
                            (start + k_cycles.len(), c)
                        };
                        proof {
                            if is_total {
                                assert(at_range(v@, key).skip(17) =~= at_range(v@, name));
                            } else {
                                assert(at_range(v@, key).skip(11) =~= at_range(v@, name));
                            }
                        }
                        if is_total {
                            let ghost old = totals@;
                            match find_range(&v, &totals, name) {
                                Some(i) => {
                                    totals.set(i, (name, n));
                                    proof {
                                        assert(ranges_view(v@, totals@) =~= ranges_view(v@, old).update(
                                            i as int,
                                            (at_range(v@, name), n),
                                        ));
                                    }
                                },
                                None => {
                                    totals.push((name, n));
                                    proof {
                                        assert(ranges_view(v@, totals@) =~= ranges_view(v@, old).push(
                                            (at_range(v@, name), n),
                                        ));
                                    }
                                },
                            }
                        } else {
                            let ghost old = cycles@;
                            match find_range(&v, &cycles, name) {
                                Some(i) => {
                                    cycles.set(i, (name, n));
                                    proof {
                                        assert(ranges_view(v@, cycles@) =~= ranges_view(v@, old).update(
                                            i as int,
                                            (at_range(v@, name), n),
                                        ));
                                    }
                                },
                                None => {
                                    cycles.push((name, n));
                                    proof {
                                        assert(ranges_view(v@, cycles@) =~= ranges_view(v@, old).push(
                                            (at_range(v@, name), n),
                                        ));
                                    }
                                },
                            }
                        }
                    },
                    None => {
                        proof {
                            lemma_fold_failed(lines(v@.skip(next as int)), after);
                        }
                        return None;
                    },
                }
            } else if range_starts_with(&v, key, &k_resident) {
                match bytes_at(&v, val, &units) {
                    None => {
                        proof {
                            lemma_fold_failed(lines(v@.skip(next as int)), after);
                        }
                        return None;
                    },
                    Some(b) => {
                        assert(b <= u64::MAX);
                        let b = b as u64;
                        let region = (start + k_resident.len(), c);
                        proof {
                            assert(at_range(v@, key).skip(13) =~= at_range(v@, region));
                        }
                        if range_starts_with(&v, region, &k_system) || range_starts_with(
                            &v,
                            region,
                            &k_gtt,
                        ) {
                            system = system + b;
                        } else if range_starts_with(&v, region, &k_vram) || range_starts_with(
                            &v,
                            region,
                            &k_local,
                        ) {
                            vram = vram + b;
                        }
                    },
                }
            }
        }
        proof {
            let st2 = FdState {
                pdev: at_range(v@, pdev),
                id,
                ns: ranges_view(v@, ns@),
                cycles: ranges_view(v@, cycles@),
                totals: ranges_view(v@, totals@),
                system: system as nat,
                vram: vram as nat,
                failed: false,
            };
            assert(st2 == after);
        }
        start = next;
    }
    proof {
        assert(v@.skip(start as int) =~= Seq::<char>::empty());
    }
    if pdev.1 == pdev.0 {
        return None;
    }
    // Cycle counters, each with its total if there is one.
    let mut items: Vec<((usize, usize), u64, Option<u64>)> = Vec::new();
    let mut i: usize = 0;
    while i < ns.len()
        invariant
            i <= ns@.len(),
            items@.len() == i,
            forall|j: int| 0 <= j < ns@.len() ==> (#[trigger] ns@[j]).0.0 <= ns@[j].0.1 <= v@.len(),
            forall|j: int|
                0 <= j < i ==> (#[trigger] items@[j]).0.0 <= items@[j].0.1 <= v@.len() && items@[j]
                    == (ns@[j].0, ns@[j].1, None::<u64>),
        decreases ns@.len() - i,
    {
        items.push((ns[i].0, ns[i].1, None));
        i = i + 1;
    }
    let mut i: usize = 0;
    while i < cycles.len()
        invariant
            i <= cycles@.len(),
            items@.len() == ns@.len() + i,
            forall|j: int|
                0 <= j < cycles@.len() ==> (#[trigger] cycles@[j]).0.0 <= cycles@[j].0.1 <= v@.len(),
            forall|j: int|
                0 <= j < totals@.len() ==> (#[trigger] totals@[j]).0.0 <= totals@[j].0.1 <= v@.len(),
            forall|j: int|
                0 <= j < ns@.len() + i ==> (#[trigger] items@[j]).0.0 <= items@[j].0.1 <= v@.len(),
            forall|j: int| 0 <= j < ns@.len() ==> #[trigger] items@[j] == (ns@[j].0, ns@[j].1, None::<u64>),
            forall|j: int|
                0 <= j < i ==> #[trigger] items@[ns@.len() + j] == (
                    cycles@[j].0,
                    cycles@[j].1,
                    if find_named(ranges_view(v@, totals@), at_range(v@, cycles@[j].0)) >= 0 {
                        Some(
                            ranges_view(v@, totals@)[find_named(
                                ranges_view(v@, totals@),
                                at_range(v@, cycles@[j].0),
                            )].1,
                        )
                    } else {
                        None
                    },
                ),
        decreases cycles@.len() - i,
    {
        let ghost tv = ranges_view(v@, totals@);
        let total = match find_range(&v, &totals, cycles[i].0) {
            Some(k) => {
                assert(tv[k as int].1 == totals@[k as int].1);
                Some(totals[k].1)
            },
            None => None,
        };
        let ghost before = items@;
        items.push((cycles[i].0, cycles[i].1, total));
        proof {
            assert(items@[ns@.len() + i] == (cycles@[i as int].0, cycles@[i as int].1, total));
            assert forall|j: int| 0 <= j < ns@.len() + i implies #[trigger] items@[j] == before[j] by {}
        }
        i = i + 1;
    }
    let ghost st = FdState {
        pdev: at_range(v@, pdev),
        id,
        ns: ranges_view(v@, ns@),
        cycles: ranges_view(v@, cycles@),
        totals: ranges_view(v@, totals@),
        system: system as nat,
        vram: vram as nat,
        failed: false,
    };
    let ghost all = items@.map_values(
        |e: ((usize, usize), u64, Option<u64>)| (at_range(v@, e.0), e.1, e.2),
    );
    proof {
        let ns_v = st.ns.map_values(|e: (Seq<char>, u64)| (e.0, e.1, None::<u64>));
        let cy_v = st.cycles.map_values(
            |e: (Seq<char>, u64)|
                (
                    e.0,
                    e.1,
                    if find_named(st.totals, e.0) >= 0 {
                        Some(st.totals[find_named(st.totals, e.0)].1)
                    } else {
                        None
                    },
                ),
        );
        assert(all.len() == (ns_v + cy_v).len());
        assert forall|j: int| 0 <= j < all.len() implies all[j] == (ns_v + cy_v)[j] by {
            if j < ns@.len() {
                assert(items@[j] == (ns@[j].0, ns@[j].1, None::<u64>));
            } else {
                let jj = j - ns@.len();
                assert(items@[ns@.len() + jj] == (
                    cycles@[jj].0,
                    cycles@[jj].1,
                    if find_named(ranges_view(v@, totals@), at_range(v@, cycles@[jj].0)) >= 0 {
                        Some(
                            ranges_view(v@, totals@)[find_named(
                                ranges_view(v@, totals@),
                                at_range(v@, cycles@[jj].0),
                            )].1,
                        )
                    } else {
                        None
                    },
                ));
            }
        }
        assert(all =~= ns_v + cy_v);
    }
    // Stable insertion sort by name.
    let mut engines: Vec<(String, u64, Option<u64>)> = Vec::new();
    let mut keys: Vec<Vec<char>> = Vec::new();
    let mut i: usize = 0;
    proof {
        assert(all.take(0) =~= Seq::<(Seq<char>, u64, Option<u64>)>::empty());
        assert(engines@.map_values(|e: (String, u64, Option<u64>)| engine_view(e)) =~= Seq::<
            (Seq<char>, u64, Option<u64>),
        >::empty());
    }
    while i < items.len()
        invariant
            i <= items@.len(),
            v@ == text@,
            all == items@.map_values(
                |e: ((usize, usize), u64, Option<u64>)| (at_range(v@, e.0), e.1, e.2),
            ),
            forall|j: int|
                0 <= j < items@.len() ==> (#[trigger] items@[j]).0.0 <= items@[j].0.1 <= v@.len(),
            keys@.len() == engines@.len(),
            forall|j: int| 0 <= j < keys@.len() ==> (#[trigger] keys@[j])@ == engines@[j].0@,
            engines@.map_values(|e: (String, u64, Option<u64>)| engine_view(e)) == sort_engines(
                all.take(i as int),
            ),
        decreases items@.len() - i,
    {
        let item = items[i];
        let key = range_chars(&v, item.0);
        let ghost acc = engines@.map_values(|e: (String, u64, Option<u64>)| engine_view(e));
        let mut p: usize = 0;
        while p < engines.len() && chars_le(&keys[p], &key)
            invariant
                p <= engines@.len(),
                keys@.len() == engines@.len(),
                acc == engines@.map_values(|e: (String, u64, Option<u64>)| engine_view(e)),
                forall|j: int| 0 <= j < keys@.len() ==> (#[trigger] keys@[j])@ == engines@[j].0@,
                forall|j: int| 0 <= j < p ==> seq_le(#[trigger] acc[j].0, key@),
            decreases engines@.len() - p,
        {
            proof {
                assert(acc[p as int].0 == keys@[p as int]@);
            }
            p = p + 1;
        }
        proof {
            if p < engines@.len() {
                assert(acc[p as int].0 == keys@[p as int]@);
            }
            lemma_sorted_pos(acc, key@, p as int);
            assert(all.take(i + 1).drop_last() =~= all.take(i as int));
            assert(all.take(i + 1).last() == all[i as int]);
        }
        let name = text.substring_char(item.0.0, item.0.1).to_owned();
        let ghost before = engines@;
        engines.insert(p, (name, item.1, item.2));
        keys.insert(p, key);
        proof {
            assert(all[i as int] == (at_range(v@, item.0), item.1, item.2));
            assert(engine_view(engines@[p as int]) == all[i as int]);
            assert(engines@ == before.insert(p as int, (name, item.1, item.2)));
            assert(engines@.map_values(|e: (String, u64, Option<u64>)| engine_view(e)) =~= acc.insert(
                p as int,
                all[i as int],
            ));
        }
        i = i + 1;
    }
    proof {
        assert(all.take(items@.len() as int) =~= all);
    }
    let pdev = text.substring_char(pdev.0, pdev.1).to_owned();
    Some(Client { pdev, id, engines, resident_system: system, resident_vram: vram })
}


/// Whether every amount [`parse`] reads from `text` fits in a `u64` once scaled to
/// bytes, and so do the running totals, as [`parse`] needs.
pub fn amounts_fit(text: &str) -> (b: bool)
    ensures
        b == fd_fits(lines(text@), fd_start()),
{
    let v = chars_of(text);
    let k_pdev = chars_of("drm-pdev");
    let k_id = chars_of("drm-client-id");
    let k_engine = chars_of("drm-engine-");
    let k_total = chars_of("drm-total-cycles-");
    let k_cycles = chars_of("drm-cycles-");
    let k_resident = chars_of("drm-resident-");
    let k_system = chars_of("system");
    let k_gtt = chars_of("gtt");
    let k_vram = chars_of("vram");
    let k_local = chars_of("local");
    let ns_suffix = chars_of(" ns");
    let units = [chars_of("KiB"), chars_of("MiB"), chars_of("GiB")];
    proof {
        reveal_strlit("drm-engine-");
        reveal_strlit("drm-total-cycles-");
        reveal_strlit("drm-cycles-");
        reveal_strlit("drm-resident-");
        reveal_strlit(" ns");
    }
    let mut system: u64 = 0;
    let mut vram: u64 = 0;
    let ghost mut st = fd_start();
    let mut start: usize = 0;
    proof {
        assert(v@.skip(0) =~= v@);
    }
    while start < v.len()
        invariant
            start <= v@.len(),
            v@ == text@,
            k_pdev@ == "drm-pdev"@,
            k_id@ == "drm-client-id"@,
            k_engine@ == "drm-engine-"@,
            k_total@ == "drm-total-cycles-"@,
            k_cycles@ == "drm-cycles-"@,
            k_resident@ == "drm-resident-"@,
            k_system@ == "system"@,
            k_gtt@ == "gtt"@,
            k_vram@ == "vram"@,
            k_local@ == "local"@,
            ns_suffix@ == " ns"@,
            units[0]@ == "KiB"@,
            units[1]@ == "MiB"@,
            units[2]@ == "GiB"@,
            k_engine@.len() == 11,
            k_total@.len() == 17,
            k_cycles@.len() == 11,
            k_resident@.len() == 13,
            ns_suffix@.len() == 3,
            !st.failed,
            st.system == system,
            st.vram == vram,
            fd_fits(lines(v@.skip(start as int)), st) == fd_fits(lines(text@), fd_start()),
        decreases v@.len() - start,
    {
        let (end, next) = line_at(&v, start);
        let ghost line = v@.subrange(start as int, end as int);
        let ghost after = fd_step(st, line);
        proof {
            lemma_lines_step(v@, start as int, end as int, next as int);
        }
        let mut c = start;
        while c < end && v[c] != ':'
            invariant
                start <= c <= end <= v@.len(),
                forall|k: int| start <= k < c ==> v@[k] != ':',
            decreases end - c,
        {
            c = c + 1;
        }
        proof {
            lemma_count_until(line, ':', (c - start) as int);
        }
        if c < end {
            let key = (start, c);
            let val = trim_range(&v, c + 1, end);
            proof {
                assert(line.take(c - start) =~= at_range(v@, key));
                assert(line.skip(c - start + 1) =~= v@.subrange(c + 1, end as int));
            }
            if range_starts_with(&v, key, &k_resident) {
                if let Some(b) = bytes_at(&v, val, &units) {
                    if b > 0xffff_ffff_ffff_ffffu128 {
                        return false;
                    }
                }
            }
            if range_eq(&v, key, &k_pdev) {
            } else if range_eq(&v, key, &k_id) {
                if parse_u64_at(&v, val).is_none() {
                    proof {
                        assert(after.failed);
                        assert(fd_fits(lines(v@.skip(next as int)), after));
                    }
                    return true;
                }
            } else if range_starts_with(&v, key, &k_engine) {
                let mut b = val.1;
                while b - val.0 >= 3 && range_ends_with(&v, (val.0, b), &ns_suffix)
                    invariant
                        val.0 <= b <= val.1 <= v@.len(),
                        ns_suffix@ == " ns"@,
                        ns_suffix@.len() == 3,
                        strip_ns(at_range(v@, val)) == strip_ns(at_range(v@, (val.0, b))),
                    decreases b,
                {
                    proof {
                        assert(at_range(v@, (val.0, b)).take(b - val.0 - 3) =~= at_range(
                            v@,
                            (val.0, (b - 3) as usize),
                        ));
                    }
                    b = b - 3;
                }
                if parse_u64_at(&v, (val.0, b)).is_none() {
                    proof {
                        assert(after.failed);
                        assert(fd_fits(lines(v@.skip(next as int)), after));
                    }
                    return true;
                }
            } else if range_starts_with(&v, key, &k_total) || range_starts_with(&v, key, &k_cycles) {
                if parse_u64_at(&v, val).is_none() {
                    proof {
                        assert(after.failed);
                        assert(fd_fits(lines(v@.skip(next as int)), after));
                    }
                    return true;
                }
            } else if range_starts_with(&v, key, &k_resident) {
                match bytes_at(&v, val, &units) {
                    None => {
                        proof {
                        assert(after.failed);
                        assert(fd_fits(lines(v@.skip(next as int)), after));
                    }
                    return true;
                    },
                    Some(b) => {
                        let region = (start + k_resident.len(), c);
                        proof {
                            assert(at_range(v@, key).skip(13) =~= at_range(v@, region));
                        }
                        if range_starts_with(&v, region, &k_system) || range_starts_with(
                            &v,
                            region,
                            &k_gtt,
                        ) {
                            if system as u128 + b > 0xffff_ffff_ffff_ffffu128 {
                                return false;
                            }
                            system = system + b as u64;
                        } else if range_starts_with(&v, region, &k_vram) || range_starts_with(
                            &v,
                            region,
                            &k_local,
                        ) {
                            if vram as u128 + b > 0xffff_ffff_ffff_ffffu128 {
                                return false;
                            }
                            vram = vram + b as u64;
                        }
                    },
                }
            }
        }
        proof {
            assert(after.system == system);
            assert(after.vram == vram);
            assert(!after.failed);
            assert(fd_fits(lines(v@.skip(start as int)), st) == fd_fits(
                lines(v@.skip(next as int)),
                after,
            ));
            st = after;
        }
        start = next;
    }
    proof {
        assert(v@.skip(start as int) =~= Seq::<char>::empty());
    }
    true
}


/// Whether client `j` is the first read of its client on GPU `slot`.
pub open spec fn first_of_client(clients: Seq<Client>, slot: Seq<char>, j: int) -> bool {
    &&& clients[j].pdev@ == slot
    &&& forall|q: int| 0 <= q < j ==> !(#[trigger] clients[q].pdev@ == slot && clients[q].id == clients[j].id)
}

/// The clients of GPU `slot` among those read, one per client (a process reaches the
/// same client through every duplicate of its file descriptor): the first read of
/// each, in the order read. Returns indices into `clients`.
pub fn clients_of(clients: &[Client], slot: &String) -> (keep: Vec<usize>)
    ensures
        forall|i: int, j: int| 0 <= i < j < keep@.len() ==> #[trigger] keep@[i] < #[trigger] keep@[j],
        forall|i: int| 0 <= i < keep@.len() ==> #[trigger] keep@[i] < clients@.len(),
        forall|j: int|
            0 <= j < clients@.len() ==> (first_of_client(clients@, slot@, j) <==> exists|i: int|
                0 <= i < keep@.len() && #[trigger] keep@[i] == j),
{
    let mut keep: Vec<usize> = Vec::new();
    let mut j: usize = 0;
    while j < clients.len()
        invariant
            j <= clients@.len(),
            forall|a: int, b: int| 0 <= a < b < keep@.len() ==> #[trigger] keep@[a] < #[trigger] keep@[b],
            forall|i: int| 0 <= i < keep@.len() ==> #[trigger] keep@[i] < j,
            forall|m: int|
                0 <= m < j ==> (first_of_client(clients@, slot@, m) <==> exists|i: int|
                    0 <= i < keep@.len() && #[trigger] keep@[i] == m),
        decreases clients@.len() - j,
    {
        let ghost before = keep@;
        if clients[j].pdev == *slot {
            let mut q: usize = 0;
            while q < j && !(clients[q].pdev == *slot && clients[q].id == clients[j].id)
                invariant
                    q <= j < clients@.len(),
                    forall|r: int| 0 <= r < q ==> !(#[trigger] clients@[r].pdev@ == slot@ && clients@[r].id == clients@[j as int].id),
                decreases j - q,
            {
                q = q + 1;
            }
            if q == j {
                keep.push(j);
                proof {
                    assert(first_of_client(clients@, slot@, j as int));
                    assert(keep@[before.len() as int] == j);
                    assert forall|m: int| 0 <= m < j + 1 implies (first_of_client(clients@, slot@, m)
                        <==> exists|i: int| 0 <= i < keep@.len() && #[trigger] keep@[i] == m) by {
                        if m < j {
                            if exists|i: int| 0 <= i < keep@.len() && #[trigger] keep@[i] == m {
                                let i = choose|i: int| 0 <= i < keep@.len() && #[trigger] keep@[i] == m;
                                assert(i < before.len());
                                assert(before[i] == m);
                            }
                            if exists|i: int| 0 <= i < before.len() && #[trigger] before[i] == m {
                                let i = choose|i: int| 0 <= i < before.len() && #[trigger] before[i] == m;
                                assert(keep@[i] == m);
                            }
                        }
                    }
                }
            } else {
                proof {
                    assert(!first_of_client(clients@, slot@, j as int));
                }
            }
        }
        proof {
            if keep@ == before {
                assert forall|m: int| 0 <= m < j + 1 implies (first_of_client(clients@, slot@, m)
                    <==> exists|i: int| 0 <= i < keep@.len() && #[trigger] keep@[i] == m) by {
                    if m == j {
                        if exists|i: int| 0 <= i < keep@.len() && #[trigger] keep@[i] == m {
                            let i = choose|i: int| 0 <= i < keep@.len() && #[trigger] keep@[i] == m;
                            assert(keep@[i] < j);
                        }
                    }
                }
            }
        }
        j = j + 1;
    }
    keep
}

/// Reading one more line is one more step.
proof fn lemma_fold_push(ls: Seq<Seq<char>>, st: FdState, line: Seq<char>)
    ensures
        fd_fold(ls.push(line), st) == fd_step(fd_fold(ls, st), line),
    decreases ls.len(),
{
    if ls.len() > 0 {
        assert(ls.push(line).drop_first() =~= ls.drop_first().push(line));
        assert(ls.push(line)[0] == ls[0]);
        lemma_fold_push(ls.drop_first(), fd_step(st, ls[0]), line);
    } else {
        assert(ls.push(line).drop_first() =~= Seq::<Seq<char>>::empty());
        assert(ls.push(line)[0] == line);
        let next = fd_step(st, line);
        assert(fd_fold(Seq::<Seq<char>>::empty(), next) == next);
    }
}

/// A `drm-resident-<region>` line adds its amount to one of the client's totals: to
/// VRAM when the region is `vram...` or `local...` (discrete Intel cards call their
/// VRAM `local0`), to system memory when it is `system...` or `gtt...`. The other
/// total, and the rest of what was read, stay as they were.
pub proof fn lemma_resident_lines_add_up(ls: Seq<Seq<char>>, st: FdState, line: Seq<char>, b: nat)
    requires
        !fd_fold(ls, st).failed,
        count_until(line, ':') < line.len(),
        starts_with(line.take(count_until(line, ':') as int), "drm-resident-"@),
        resident_bytes(trim(line.skip(count_until(line, ':') as int + 1))) == Some(b),
    ensures
        ({
            let before = fd_fold(ls, st);
            let after = fd_fold(ls.push(line), st);
            let region = line.take(count_until(line, ':') as int).skip(13);
            &&& !after.failed
            &&& after.pdev == before.pdev && after.id == before.id && after.ns == before.ns
            &&& (starts_with(region, "vram"@) || starts_with(region, "local"@)) ==> after.vram == before.vram + b
                && after.system == before.system
            &&& (starts_with(region, "system"@) || starts_with(region, "gtt"@)) ==> after.system == before.system
                + b && after.vram == before.vram
        }),
{
    lemma_fold_push(ls, st, line);
    let k = count_until(line, ':') as int;
    let key = line.take(k);
    let region = key.skip(13);
    reveal_strlit("drm-resident-");
    reveal_strlit("drm-pdev");
    reveal_strlit("drm-client-id");
    reveal_strlit("drm-engine-");
    reveal_strlit("drm-total-cycles-");
    reveal_strlit("drm-cycles-");
    reveal_strlit("vram");
    reveal_strlit("local");
    reveal_strlit("system");
    reveal_strlit("gtt");
    assert(key[4] == 'r') by {
        assert(key.take(13)[4] == key[4]);
    }
    assert(key != "drm-pdev"@) by {
        if key == "drm-pdev"@ {
            assert("drm-pdev"@[4] == 'p');
        }
    }
    assert(key != "drm-client-id"@) by {
        if key == "drm-client-id"@ {
            assert("drm-client-id"@[4] == 'c');
        }
    }
    assert(!starts_with(key, "drm-engine-"@)) by {
        if starts_with(key, "drm-engine-"@) {
            assert(key.take(11)[4] == key[4]);
        }
    }
    assert(!starts_with(key, "drm-total-cycles-"@)) by {
        if starts_with(key, "drm-total-cycles-"@) {
            assert(key.take(17)[4] == key[4]);
        }
    }
    assert(!starts_with(key, "drm-cycles-"@)) by {
        if starts_with(key, "drm-cycles-"@) {
            assert(key.take(11)[4] == key[4]);
        }
    }
    if starts_with(region, "vram"@) || starts_with(region, "local"@) {
        assert(region[0] == 'v' || region[0] == 'l') by {
            if starts_with(region, "vram"@) {
                assert(region.take(4)[0] == region[0]);
            } else {
                assert(region.take(5)[0] == region[0]);
            }
        }
        assert(!starts_with(region, "system"@)) by {
            if starts_with(region, "system"@) {
                assert(region.take(6)[0] == region[0]);
            }
        }
        assert(!starts_with(region, "gtt"@)) by {
            if starts_with(region, "gtt"@) {
                assert(region.take(3)[0] == region[0]);
            }
        }
    }
}

} // verus!
