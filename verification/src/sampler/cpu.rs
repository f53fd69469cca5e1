//! `/proc/stat`: busy and total time of the whole CPU and of each core.
use vstd::prelude::*;

use crate::text::{
    at_range, chars_of, field_ranges, fields, line_at, lines, parse_u64, parse_u64_at,
    range_eq, range_starts_with,
};

verus! {

#[derive(Clone, Copy, Debug, Default, PartialEq, Eq)]
pub struct CpuTimes {
    pub busy: u64,
    pub total: u64,
}

/// The `k`-th counter of a `cpu` line (user, nice, system, idle, iowait, irq,
/// softirq, steal): the field after the label, or 0 when missing or not a number.
pub open spec fn stat_counter(f: Seq<Seq<char>>, k: int) -> nat {
    if 0 <= k && k + 1 < f.len() && parse_u64(f[k + 1]) is Some {
        parse_u64(f[k + 1])->0 as nat
    } else {
        0
    }
}

/// Sum of the first `n` counters.
pub open spec fn stat_sum(f: Seq<Seq<char>>, n: int) -> nat
    decreases n,
{
    if n <= 0 {
        0
    } else {
        stat_sum(f, n - 1) + stat_counter(f, n - 1)
    }
}

/// Whether `line` starts with `cpu`.
pub open spec fn is_cpu_line(line: Seq<char>) -> bool {
    line.len() >= 3 && line.take(3) == "cpu"@
}

/// The eight counters of a line add up to something that fits in a `u64`.
pub open spec fn stat_line_fits(line: Seq<char>) -> bool {
    stat_sum(fields(line), 8) <= u64::MAX
}

/// Busy time is everything but idle and iowait; guest time is already inside user
/// and nice.
pub open spec fn stat_times(line: Seq<char>) -> CpuTimes {
    let f = fields(line);
    let total = stat_sum(f, 8);
    let idle = stat_counter(f, 3) + stat_counter(f, 4);
    CpuTimes { busy: (total - idle) as u64, total: total as u64 }
}

/// The `cpu` lines come first; reading stops at the first other line.
pub open spec fn stat_fold(ls: Seq<Seq<char>>, agg: Option<CpuTimes>, cores: Seq<CpuTimes>) -> (
    Option<CpuTimes>,
    Seq<CpuTimes>,
)
    decreases ls.len(),
{
    if ls.len() == 0 || !is_cpu_line(ls[0]) {
        (agg, cores)
    } else if fields(ls[0])[0] == "cpu"@ {
        stat_fold(ls.drop_first(), Some(stat_times(ls[0])), cores)
    } else {
        stat_fold(ls.drop_first(), agg, cores.push(stat_times(ls[0])))
    }
}

/// Every `cpu` line that gets read has counters that fit.
pub open spec fn stat_fits(ls: Seq<Seq<char>>) -> bool
    decreases ls.len(),
{
    if ls.len() == 0 || !is_cpu_line(ls[0]) {
        true
    } else {
        stat_line_fits(ls[0]) && stat_fits(ls.drop_first())
    }
}

proof fn lemma_stat_sum_grows(f: Seq<Seq<char>>, n: int, m: int)
    requires
        0 <= n <= m,
    ensures
        stat_sum(f, n) <= stat_sum(f, m),
    decreases m - n,
{
    if n < m {
        lemma_stat_sum_grows(f, n, m - 1);
    }
}

/// Parses the aggregate `cpu` line and every `cpuN` line of `/proc/stat`.
pub fn parse_stat(text: &str) -> (r: (Option<CpuTimes>, Vec<CpuTimes>))
    requires
        stat_fits(lines(text@)),
    ensures
        (r.0, r.1@) == stat_fold(lines(text@), None, seq![]),
{
    let v = chars_of(text);
    let cpu = chars_of("cpu");
    let mut aggregate: Option<CpuTimes> = None;
    let mut cores: Vec<CpuTimes> = Vec::new();
    let mut start: usize = 0;
    proof {
        assert(v@.skip(0) =~= v@);
        assert(v@.skip(v@.len() as int) =~= Seq::<char>::empty());
    }
    while start < v.len()
        invariant
            start <= v@.len(),
            v@ == text@,
            v@.skip(v@.len() as int) == Seq::<char>::empty(),
            cpu@ == "cpu"@,
            stat_fold(lines(v@.skip(start as int)), aggregate, cores@) == stat_fold(
                lines(text@),
                None,
                seq![],
            ),
            stat_fits(lines(v@.skip(start as int))),
        ensures
            stat_fold(lines(text@), None, seq![]) == (aggregate, cores@),
        decreases v@.len() - start,
    {
        let (end, next) = line_at(&v, start);
        let ghost line = v@.subrange(start as int, end as int);
        let ghost rest_lines = lines(v@.skip(next as int));
        proof {
            assert(lines(v@.skip(start as int)) =~= seq![line] + rest_lines);
            assert((seq![line] + rest_lines).drop_first() =~= rest_lines);
        }
        if !range_starts_with(&v, (start, end), &cpu) {
            // cpu lines come first; the rest (notably `intr`) is long and irrelevant.
            break;
        }
        let f = field_ranges(&v, start, end);
        proof {
            reveal_strlit("cpu");
            assert(line.take(3)[0] == 'c');
            assert(fields(line).len() > 0) by {
                assert(line.len() > 0);
                crate::text::lemma_word_len_bound(line, false);
            }
        }
        let mut total: u64 = 0;
        let mut idle: u64 = 0;
        let mut k: usize = 0;
        while k < 8
            invariant
                k <= 8,
                start <= end <= v@.len(),
                line == v@.subrange(start as int, end as int),
                f@.len() == fields(line).len(),
                forall|i: int|
                    0 <= i < f@.len() ==> start <= (#[trigger] f@[i]).0 <= f@[i].1 <= end
                        && at_range(v@, f@[i]) == fields(line)[i],
                stat_line_fits(line),
                total == stat_sum(fields(line), k as int),
                idle == (if k > 4 {
                    stat_counter(fields(line), 3) + stat_counter(fields(line), 4)
                } else if k > 3 {
                    stat_counter(fields(line), 3)
                } else {
                    0
                }),
            decreases 8 - k,
        {
            let value: u64 = if k + 1 < f.len() {
                match parse_u64_at(&v, f[k + 1]) {
                    Some(n) => n,
                    None => 0,
                }
            } else {
                0
            };
            assert(value == stat_counter(fields(line), k as int));
            proof {
                lemma_stat_sum_grows(fields(line), k + 1, 8);
            }
            total = total + value;
            if k == 3 || k == 4 {
                idle = idle + value;
            }
            k = k + 1;
        }
        proof {
            lemma_stat_sum_grows(fields(line), 5, 8);
            assert(stat_sum(fields(line), 4) == stat_sum(fields(line), 3) + stat_counter(
                fields(line),
                3,
            ));
            assert(stat_sum(fields(line), 5) == stat_sum(fields(line), 3) + stat_counter(
                fields(line),
                3,
            ) + stat_counter(fields(line), 4));
        }
        let times = CpuTimes { busy: total - idle, total };
        if range_eq(&v, f[0], &cpu) {
            aggregate = Some(times);
        } else {
            cores.push(times);
        }
        start = next;
    }
    (aggregate, cores)
}

/// Whether every `cpu` line [`parse_stat`] reads has counters that add up within a
/// `u64`, as it needs.
pub fn counters_fit(text: &str) -> (b: bool)
    ensures
        b == stat_fits(lines(text@)),
{
    let v = chars_of(text);
    let cpu = chars_of("cpu");
    let mut start: usize = 0;
    proof {
        assert(v@.skip(0) =~= v@);
    }
    while start < v.len()
        invariant
            start <= v@.len(),
            v@ == text@,
            cpu@ == "cpu"@,
            stat_fits(lines(v@.skip(start as int))) == stat_fits(lines(text@)),
        decreases v@.len() - start,
    {
        let (end, next) = line_at(&v, start);
        let ghost line = v@.subrange(start as int, end as int);
        let ghost rest_lines = lines(v@.skip(next as int));
        proof {
            assert(lines(v@.skip(start as int)) =~= seq![line] + rest_lines);
            assert((seq![line] + rest_lines).drop_first() =~= rest_lines);
        }
        if !range_starts_with(&v, (start, end), &cpu) {
            return true;
        }
        let f = field_ranges(&v, start, end);
        let mut total: u128 = 0;
        let mut k: usize = 0;
        while k < 8
            invariant
                k <= 8,
                start <= end <= v@.len(),
                line == v@.subrange(start as int, end as int),
                f@.len() == fields(line).len(),
                forall|i: int|
                    0 <= i < f@.len() ==> start <= (#[trigger] f@[i]).0 <= f@[i].1 <= end
                        && at_range(v@, f@[i]) == fields(line)[i],
                total == stat_sum(fields(line), k as int),
                total <= k * 0xffff_ffff_ffff_ffffu128,
            decreases 8 - k,
        {
            let value: u64 = if k + 1 < f.len() {
                match parse_u64_at(&v, f[k + 1]) {
                    Some(n) => n,
                    None => 0,
                }
            } else {
                0
            };
            assert(value == stat_counter(fields(line), k as int));
            total = total + value as u128;
            k = k + 1;
        }
        if total > 0xffff_ffff_ffff_ffffu128 {
            proof {
                reveal_strlit("cpu");
                assert(is_cpu_line(line));
                assert(!stat_line_fits(line));
            }
            return false;
        }
        start = next;
    }
    proof {
        assert(v@.skip(start as int) =~= Seq::<char>::empty());
    }
    true
}

/// A `cpuN` line: a `cpu` line for one core, not the aggregate.
pub open spec fn is_core_line(line: Seq<char>) -> bool {
    is_cpu_line(line) && fields(line)[0] != "cpu"@
}

/// How many lines at the start of `ls` are `cpu` lines.
pub open spec fn cpu_block(ls: Seq<Seq<char>>) -> nat
    decreases ls.len(),
{
    if ls.len() == 0 || !is_cpu_line(ls[0]) {
        0
    } else {
        1 + cpu_block(ls.drop_first())
    }
}

/// How many of the first `j` lines of `ls` are `cpuN` lines.
pub open spec fn cores_before(ls: Seq<Seq<char>>, j: int) -> nat
    decreases j,
{
    if j <= 0 {
        0
    } else {
        cores_before(ls, j - 1) + if is_core_line(ls[j - 1]) {
            1nat
        } else {
            0nat
        }
    }
}

proof fn lemma_cpu_block_bound(ls: Seq<Seq<char>>)
    ensures
        cpu_block(ls) <= ls.len(),
        forall|j: int| 0 <= j < cpu_block(ls) ==> is_cpu_line(#[trigger] ls[j]),
    decreases ls.len(),
{
    if ls.len() > 0 && is_cpu_line(ls[0]) {
        lemma_cpu_block_bound(ls.drop_first());
        assert forall|j: int| 0 <= j < cpu_block(ls) implies is_cpu_line(#[trigger] ls[j]) by {
            if j > 0 {
                assert(ls[j] == ls.drop_first()[j - 1]);
            }
        }
    }
}

proof fn lemma_cores_before_shift(ls: Seq<Seq<char>>, j: int)
    requires
        ls.len() > 0,
        0 <= j < ls.len(),
    ensures
        cores_before(ls, j + 1) == (if is_core_line(ls[0]) {
            1nat
        } else {
            0nat
        }) + cores_before(ls.drop_first(), j),
    decreases j,
{
    let rest = ls.drop_first();
    assert(cores_before(ls, j + 1) == cores_before(ls, j) + if is_core_line(ls[j]) {
        1nat
    } else {
        0nat
    });
    if j > 0 {
        lemma_cores_before_shift(ls, j - 1);
        assert(ls[j] == rest[j - 1]);
        assert(cores_before(rest, j) == cores_before(rest, j - 1) + if is_core_line(rest[j - 1]) {
            1nat
        } else {
            0nat
        });
    } else {
        assert(cores_before(ls, 0) == 0);
        assert(cores_before(rest, 0) == 0);
    }
}

/// `t` was read from the `cpuN` line that has `k` such lines before it, in the block
/// of `cpu` lines that `ls` starts with.
pub open spec fn read_from_core_line(ls: Seq<Seq<char>>, k: int, t: CpuTimes) -> bool {
    exists|j: int|
        #![trigger cores_before(ls, j)]
        0 <= j < cpu_block(ls) && is_core_line(ls[j]) && cores_before(ls, j) == k && t == stat_times(ls[j])
}

proof fn lemma_fold_cores(ls: Seq<Seq<char>>, agg: Option<CpuTimes>, c0: Seq<CpuTimes>)
    ensures
        stat_fold(ls, agg, c0).1.len() == c0.len() + cores_before(ls, cpu_block(ls) as int),
        forall|k: int| 0 <= k < c0.len() ==> #[trigger] stat_fold(ls, agg, c0).1[k] == c0[k],
        forall|k: int|
            c0.len() <= k < stat_fold(ls, agg, c0).1.len() ==> read_from_core_line(
                ls,
                k - c0.len(),
                #[trigger] stat_fold(ls, agg, c0).1[k],
            ),
    decreases ls.len(),
{
    if ls.len() == 0 || !is_cpu_line(ls[0]) {
    } else {
        let rest = ls.drop_first();
        lemma_cpu_block_bound(rest);
        lemma_cores_before_shift(ls, cpu_block(rest) as int);
        let c = stat_fold(ls, agg, c0).1;
        if fields(ls[0])[0] == "cpu"@ {
            lemma_fold_cores(rest, Some(stat_times(ls[0])), c0);
            assert forall|k: int| c0.len() <= k < c.len() implies read_from_core_line(ls, k - c0.len(), #[trigger] c[k]) by {
                assert(read_from_core_line(rest, k - c0.len(), c[k]));
                let j2 = choose|j2: int|
                    #![trigger cores_before(rest, j2)]
                    0 <= j2 < cpu_block(rest) && is_core_line(rest[j2]) && cores_before(rest, j2) == k - c0.len()
                        && c[k] == stat_times(rest[j2]);
                lemma_cores_before_shift(ls, j2);
                assert(ls[j2 + 1] == rest[j2]);
            }
        } else {
            let t = stat_times(ls[0]);
            let c1 = c0.push(t);
            lemma_fold_cores(rest, agg, c1);
            assert forall|k: int| 0 <= k < c0.len() implies c[k] == c0[k] by {
                assert(c1[k] == c0[k]);
            }
            assert forall|k: int| c0.len() <= k < c.len() implies read_from_core_line(ls, k - c0.len(), #[trigger] c[k]) by {
                if k == c0.len() {
                    assert(c[k] == c1[k]);
                    assert(cores_before(ls, 0) == 0);
                    assert(is_core_line(ls[0]));
                } else {
                    assert(read_from_core_line(rest, k - c1.len(), c[k]));
                    let j2 = choose|j2: int|
                        #![trigger cores_before(rest, j2)]
                        0 <= j2 < cpu_block(rest) && is_core_line(rest[j2]) && cores_before(rest, j2) == k
                            - c1.len() && c[k] == stat_times(rest[j2]);
                    lemma_cores_before_shift(ls, j2);
                    assert(ls[j2 + 1] == rest[j2]);
                }
            }
        }
    }
}

/// The per-core list has one entry for each `cpuN` line of the block of `cpu` lines
/// the text starts with, in line order: entry `k` is read from the `cpuN` line with
/// `k` such lines before it, so each core's times stay with that core.
pub proof fn lemma_cores_follow_the_lines(text: Seq<char>)
    ensures
        stat_fold(lines(text), None, seq![]).1.len() == cores_before(lines(text), cpu_block(lines(text)) as int),
        forall|k: int|
            0 <= k < stat_fold(lines(text), None, seq![]).1.len() ==> read_from_core_line(
                lines(text),
                k,
                #[trigger] stat_fold(lines(text), None, seq![]).1[k],
            ),
{
    let c0: Seq<CpuTimes> = seq![];
    lemma_fold_cores(lines(text), None, c0);
}

} // verus!