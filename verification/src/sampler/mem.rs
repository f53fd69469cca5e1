//! `/proc/meminfo`.
use vstd::prelude::*;

use crate::metrics::MemSample;
use crate::text::{
    at_range, chars_of, count_until, field_ranges, fields, lemma_count_until, line_at, lines,
    parse_u64, parse_u64_at, range_eq,
};

verus! {

/// What has been read from `/proc/meminfo` so far, in bytes.
pub struct MemInfo {
    pub total: u64,
    pub available: Option<u64>,
    pub free: u64,
    pub swap_total: u64,
    pub swap_free: u64,
}

/// The KiB figure of a `key: value kB` line: its first field, or 0 when that is not a
/// number.
pub open spec fn kib_of(rest: Seq<char>) -> nat {
    let f = fields(rest);
    if f.len() > 0 && parse_u64(f[0]) is Some {
        parse_u64(f[0])->0 as nat
    } else {
        0
    }
}

/// The key of a `key: value` line, or `None` without a colon.
pub open spec fn meminfo_key(line: Seq<char>) -> Option<Seq<char>> {
    let k = count_until(line, ':') as int;
    if k < line.len() {
        Some(line.take(k))
    } else {
        None
    }
}

pub open spec fn meminfo_rest(line: Seq<char>) -> Seq<char> {
    line.skip(count_until(line, ':') + 1int)
}

/// A line whose value, scaled from KiB to bytes, fits in a `u64`.
pub open spec fn meminfo_line_fits(line: Seq<char>) -> bool {
    meminfo_key(line) is Some ==> kib_of(meminfo_rest(line)) * 1024 <= u64::MAX
}

pub open spec fn meminfo_step(st: MemInfo, line: Seq<char>) -> MemInfo {
    match meminfo_key(line) {
        None => st,
        Some(key) => {
            let bytes = (kib_of(meminfo_rest(line)) * 1024) as u64;
            if key == "MemTotal"@ {
                MemInfo { total: bytes, ..st }
            } else if key == "MemAvailable"@ {
                MemInfo { available: Some(bytes), ..st }
            } else if key == "MemFree"@ {
                MemInfo { free: bytes, ..st }
            } else if key == "SwapTotal"@ {
                MemInfo { swap_total: bytes, ..st }
            } else if key == "SwapFree"@ {
                MemInfo { swap_free: bytes, ..st }
            } else {
                st
            }
        },
    }
}

/// Applies the lines in order; a later line with the same key wins.
pub open spec fn meminfo_fold(ls: Seq<Seq<char>>, st: MemInfo) -> MemInfo
    decreases ls.len(),
{
    if ls.len() == 0 {
        st
    } else {
        meminfo_fold(ls.drop_first(), meminfo_step(st, ls[0]))
    }
}

pub open spec fn meminfo_start() -> MemInfo {
    MemInfo { total: 0, available: None, free: 0, swap_total: 0, swap_free: 0 }
}

pub open spec fn saturating_sub(a: u64, b: u64) -> u64 {
    if a >= b {
        (a - b) as u64
    } else {
        0
    }
}

/// The sample a fully read `/proc/meminfo` gives: used memory is the total minus what
/// is available (or, on kernels without `MemAvailable`, minus what is free).
pub open spec fn meminfo_sample(m: MemInfo) -> MemSample {
    MemSample {
        total: m.total,
        used: saturating_sub(
            m.total,
            match m.available {
                Some(a) => a,
                None => m.free,
            },
        ),
        swap_total: m.swap_total,
        swap_used: saturating_sub(m.swap_total, m.swap_free),
    }
}

/// Every line's value fits in a `u64` once scaled to bytes.
pub open spec fn meminfo_fits(text: Seq<char>) -> bool {
    forall|i: int| 0 <= i < lines(text).len() ==> meminfo_line_fits(#[trigger] lines(text)[i])
}

pub fn parse_meminfo(text: &str) -> (m: MemSample)
    requires
        meminfo_fits(text@),
    ensures
        m == meminfo_sample(meminfo_fold(lines(text@), meminfo_start())),
{
    let v = chars_of(text);
    let k_total = chars_of("MemTotal");
    let k_avail = chars_of("MemAvailable");
    let k_free = chars_of("MemFree");
    let k_swap_total = chars_of("SwapTotal");
    let k_swap_free = chars_of("SwapFree");
    let mut st = MemInfo { total: 0, available: None, free: 0, swap_total: 0, swap_free: 0 };
    let mut start: usize = 0;
    proof {
        assert(v@.skip(0) =~= v@);
    }
    while start < v.len()
        invariant
            start <= v@.len(),
            v@ == text@,
            k_total@ == "MemTotal"@,
            k_avail@ == "MemAvailable"@,
            k_free@ == "MemFree"@,
            k_swap_total@ == "SwapTotal"@,
            k_swap_free@ == "SwapFree"@,
            meminfo_fold(lines(v@.skip(start as int)), st) == meminfo_fold(
                lines(text@),
                meminfo_start(),
            ),
            forall|i: int|
                0 <= i < lines(v@.skip(start as int)).len() ==> meminfo_line_fits(
                    #[trigger] lines(v@.skip(start as int))[i],
                ),
        decreases v@.len() - start,
    {
        let (end, next) = line_at(&v, start);
        let ghost line = v@.subrange(start as int, end as int);
        let ghost rest_lines = lines(v@.skip(next as int));
        proof {
            assert(lines(v@.skip(start as int)) =~= seq![line] + rest_lines);
            assert((seq![line] + rest_lines).drop_first() =~= rest_lines);
            assert(meminfo_line_fits(lines(v@.skip(start as int))[0]));
            assert forall|i: int| 0 <= i < rest_lines.len() implies meminfo_line_fits(
                #[trigger] rest_lines[i],
            ) by {
                assert(rest_lines[i] == lines(v@.skip(start as int))[i + 1]);
            }
        }
        // Find the colon.
        let mut c = start;
        while c < end && v[c] != ':'
            invariant
                start <= c <= end <= v@.len(),
                forall|k: int| start <= k < c ==> v@[k] != ':',
            decreases end - c,
        {
            c = c + 1;
        }
        proof {
            lemma_count_until(line, ':', (c - start) as int);
        }
        if c < end {
            let ghost rest = v@.subrange(c + 1, end as int);
            proof {
                assert(line.take((c - start) as int) =~= v@.subrange(start as int, c as int));
                assert(meminfo_rest(line) =~= rest);
            }
            let f = field_ranges(&v, c + 1, end);
            let kib: u64 = if f.len() > 0 {
                match parse_u64_at(&v, f[0]) {
                    Some(n) => n,
                    None => 0,
                }
            } else {
                0
            };
            assert(kib == kib_of(rest));
            let bytes = kib * 1024;
            let key = (start, c);
            if range_eq(&v, key, &k_total) {
                st.total = bytes;
            } else if range_eq(&v, key, &k_avail) {
                st.available = Some(bytes);
            } else if range_eq(&v, key, &k_free) {
                st.free = bytes;
            } else if range_eq(&v, key, &k_swap_total) {
                st.swap_total = bytes;
            } else if range_eq(&v, key, &k_swap_free) {
                st.swap_free = bytes;
            }
        }
        start = next;
    }
    proof {
        assert(v@.skip(start as int) =~= Seq::<char>::empty());
    }
    let avail = match st.available {
        Some(a) => a,
        None => st.free,
    };
    MemSample {
        total: st.total,
        used: st.total.saturating_sub(avail),
        swap_total: st.swap_total,
        swap_used: st.swap_total.saturating_sub(st.swap_free),
    }
}


/// Whether every line's value of `text` fits in a `u64` once scaled to bytes, as
/// [`parse_meminfo`] needs.
pub fn amounts_fit(text: &str) -> (b: bool)
    ensures
        b == meminfo_fits(text@),
{
    let v = chars_of(text);
    let mut start: usize = 0;
    proof {
        assert(v@.skip(0) =~= v@);
    }
    while start < v.len()
        invariant
            start <= v@.len(),
            v@ == text@,
            meminfo_fits(text@) <==> (forall|i: int|
                0 <= i < lines(v@.skip(start as int)).len() ==> meminfo_line_fits(
                    #[trigger] lines(v@.skip(start as int))[i],
                )),
        decreases v@.len() - start,
    {
        let (end, next) = line_at(&v, start);
        let ghost line = v@.subrange(start as int, end as int);
        let ghost here = lines(v@.skip(start as int));
        let ghost rest_lines = lines(v@.skip(next as int));
        proof {
            assert(here =~= seq![line] + rest_lines);
            assert(here[0] == line);
            assert forall|i: int| 0 <= i < rest_lines.len() implies #[trigger] rest_lines[i]
                == here[i + 1] by {}
            assert((forall|i: int| 0 <= i < here.len() ==> meminfo_line_fits(#[trigger] here[i]))
                <==> (meminfo_line_fits(line) && forall|i: int|
                0 <= i < rest_lines.len() ==> meminfo_line_fits(#[trigger] rest_lines[i]))) by {
                if meminfo_line_fits(line) && forall|i: int|
                    0 <= i < rest_lines.len() ==> meminfo_line_fits(#[trigger] rest_lines[i]) {
                    assert forall|i: int| 0 <= i < here.len() implies meminfo_line_fits(
                        #[trigger] here[i],
                    ) by {
                        if i > 0 {
                            assert(here[i] == rest_lines[i - 1]);
                        }
                    }
                }
            }
        }
        let mut c = start;
        while c < end && v[c] != ':'
            invariant
                start <= c <= end <= v@.len(),
                forall|k: int| start <= k < c ==> v@[k] != ':',
            decreases end - c,
        {
            c = c + 1;
        }
        proof {
            lemma_count_until(line, ':', (c - start) as int);
        }
        if c < end {
            let ghost rest = v@.subrange(c + 1, end as int);
            proof {
                assert(meminfo_rest(line) =~= rest);
            }
            let f = field_ranges(&v, c + 1, end);
            let kib: u64 = if f.len() > 0 {
                match parse_u64_at(&v, f[0]) {
                    Some(n) => n,
                    None => 0,
                }
            } else {
                0
            };
            assert(kib == kib_of(rest));
            if kib > 0x003f_ffff_ffff_ffffu64 {
                return false;
            }
        }
        start = next;
    }
    proof {
        assert(v@.skip(start as int) =~= Seq::<char>::empty());
    }
    true
}

} // verus!
