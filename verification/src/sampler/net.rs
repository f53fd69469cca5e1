//! `/proc/net/dev`: bytes received and sent per network interface.
use vstd::prelude::*;

use crate::text::{
    at_range, chars_of, is_unicode_ws, count_until, field_ranges, fields, filter_map_lines, lemma_count_until,
    lemma_count_until_bound, lemma_filter_map_lines_from, lemma_trim_is_trimmed_from, trimmed_from,
    lemma_lines_step, line_at, lines, parse_u64, parse_u64_at, skip_lines, trim, trim_range,
};

verus! {

#[derive(Debug, PartialEq, Eq)]
pub struct NetCounters<'a> {
    pub name: &'a str,
    pub rx_bytes: u64,
    pub tx_bytes: u64,
}

/// `(name, rx_bytes, tx_bytes)` of one interface line: the name is what precedes the
/// first `:` (old kernels print `eth0:123` with no space), trimmed; received bytes are
/// the first field after it and sent bytes the ninth.
pub open spec fn net_dev_entry(line: Seq<char>) -> Option<(Seq<char>, u64, u64)> {
    let k = count_until(line, ':') as int;
    let f = fields(line.skip(k + 1));
    if k < line.len() && f.len() >= 9 && parse_u64(f[0]) is Some && parse_u64(f[8]) is Some {
        Some((trim(line.take(k)), parse_u64(f[0])->0, parse_u64(f[8])->0))
    } else {
        None
    }
}

/// Every interface of `/proc/net/dev`, after its two header lines.
pub open spec fn net_dev_entries(text: Seq<char>) -> Seq<(Seq<char>, u64, u64)> {
    let ls = lines(text);
    if ls.len() >= 2 {
        filter_map_lines(ls.skip(2), |l: Seq<char>| net_dev_entry(l))
    } else {
        seq![]
    }
}

pub fn parse_net_dev(text: &str) -> (out: Vec<NetCounters<'_>>)
    ensures
        out@.len() == net_dev_entries(text@).len(),
        forall|i: int|
            0 <= i < out@.len() ==> ((#[trigger] out@[i]).name@, out@[i].rx_bytes, out@[i].tx_bytes)
                == net_dev_entries(text@)[i],
{
    let v = chars_of(text);
    let ghost f = |l: Seq<char>| net_dev_entry(l);
    let ghost want = net_dev_entries(text@);
    let mut out: Vec<NetCounters<'_>> = Vec::new();
    let mut start = skip_lines(&v, 2);
    proof {
        if lines(v@).len() < 2 {
            assert(filter_map_lines(lines(v@.skip(start as int)), f) =~= Seq::<
                (Seq<char>, u64, u64),
            >::empty());
        }
    }
    while start < v.len()
        invariant
            start <= v@.len(),
            v@ == text@,
            want == net_dev_entries(text@),
            f == (|l: Seq<char>| net_dev_entry(l)),
            out@.len() + filter_map_lines(lines(v@.skip(start as int)), f).len() == want.len(),
            forall|i: int|
                0 <= i < out@.len() ==> ((#[trigger] out@[i]).name@, out@[i].rx_bytes,
                out@[i].tx_bytes) == want[i],
            forall|i: int|
                0 <= i < filter_map_lines(lines(v@.skip(start as int)), f).len() ==> want[out@.len()
                    + i] == #[trigger] filter_map_lines(lines(v@.skip(start as int)), f)[i],
        decreases v@.len() - start,
    {
        let (end, next) = line_at(&v, start);
        let ghost line = v@.subrange(start as int, end as int);
        let ghost rest = filter_map_lines(lines(v@.skip(next as int)), f);
        proof {
            lemma_lines_step(v@, start as int, end as int, next as int);
        }
        let mut c = start;
        while c < end && v[c] != ':'
            invariant
                start <= c <= end <= v@.len(),
                forall|k: int| start <= k < c ==> v@[k] != ':',
            decreases end - c,
        {
            c = c + 1;
        }
        proof {
            lemma_count_until(line, ':', (c - start) as int);
        }
        let mut entry: Option<NetCounters<'_>> = None;
        if c < end {
            proof {
                assert(line.skip(c - start + 1) =~= v@.subrange(c + 1, end as int));
                assert(line.take(c - start) =~= v@.subrange(start as int, c as int));
            }
            let fr = field_ranges(&v, c + 1, end);
            if fr.len() >= 9 {
                let rx = parse_u64_at(&v, fr[0]);
                let tx = parse_u64_at(&v, fr[8]);
                if let (Some(rx_bytes), Some(tx_bytes)) = (rx, tx) {
                    let (a, b) = trim_range(&v, start, c);
                    let name = text.substring_char(a, b);
                    entry = Some(NetCounters { name, rx_bytes, tx_bytes });
                }
            }
        }
        proof {
            match net_dev_entry(line) {
                Some(x) => {
                    assert(filter_map_lines(lines(v@.skip(start as int)), f) =~= seq![x] + rest);
                },
                None => {
                    assert(filter_map_lines(lines(v@.skip(start as int)), f) =~= rest);
                },
            }
        }
        match entry {
            Some(e) => {
                proof {
                    assert forall|i: int| 0 <= i < rest.len() implies want[out@.len() + 1 + i]
                        == #[trigger] rest[i] by {
                        assert(filter_map_lines(lines(v@.skip(start as int)), f)[i + 1] == rest[i]);
                    }
                    assert(filter_map_lines(lines(v@.skip(start as int)), f)[0] == want[out@.len()
                        + 0int]);
                }
                out.push(e);
            },
            None => {},
        }
        start = next;
    }
    proof {
        assert(v@.skip(start as int) =~= Seq::<char>::empty());
    }
    out
}

/// Every interface's name is the text before the first `:` of one of its interface
/// lines (those after the two header lines), with the whitespace around it removed:
/// right-aligned names such as `    lo` come out as `lo`. It neither starts nor ends
/// with whitespace, and holds no `:`.
pub proof fn lemma_net_names_are_trimmed(text: Seq<char>, i: int)
    requires
        0 <= i < net_dev_entries(text).len(),
    ensures
        exists|j: int|
            2 <= j < lines(text).len() && count_until(#[trigger] lines(text)[j], ':') < lines(text)[j].len()
                && trimmed_from(
                net_dev_entries(text)[i].0,
                lines(text)[j].take(count_until(lines(text)[j], ':') as int),
            ),
        !net_dev_entries(text)[i].0.contains(':'),
{
    let ls = lines(text);
    let f = |l: Seq<char>| net_dev_entry(l);
    let body = ls.skip(2);
    assert(net_dev_entries(text) == filter_map_lines(body, f));
    lemma_filter_map_lines_from(body, f, i);
    let jj = choose|jj: int| 0 <= jj < body.len() && #[trigger] f(body[jj]) == Some(filter_map_lines(body, f)[i]);
    let line = body[jj];
    assert(ls[jj + 2] == line);
    let k = count_until(line, ':') as int;
    let name = net_dev_entries(text)[i].0;
    assert(name == trim(line.take(k)));
    lemma_trim_is_trimmed_from(line.take(k));
    assert(count_until(ls[jj + 2], ':') < ls[jj + 2].len() && trimmed_from(name, ls[jj + 2].take(k)));
    lemma_count_until_bound(line, ':');
    let p = line.take(k);
    let a = choose|a: int|
        0 <= a && a + name.len() <= p.len() && #[trigger] p.subrange(a, a + name.len()) == name && (forall|q: int|
            0 <= q < a ==> is_unicode_ws(p[q])) && (forall|q: int| a + name.len() <= q < p.len() ==> is_unicode_ws(p[q]));
    assert forall|m: int| 0 <= m < name.len() implies name[m] != ':' by {
        assert(name[m] == p[a + m]);
        assert(p[a + m] == line[a + m]);
    }
}

} // verus!
