//! Text primitives shared by the parsers and formatters: splitting into lines and
//! whitespace-separated fields, trimming, and decimal/hexadecimal numbers.
//!
//! Exec code works on a `Vec<char>` of the input and on index ranges into it; the
//! specs speak of `Seq<char>` and follow the documented behaviour of the matching
//! `str` methods (`lines`, `split_ascii_whitespace`, `trim`, `u64::from_str`, ...).
use vstd::prelude::*;

verus! {

/// The characters of `s`, in order.
pub fn chars_of(s: &str) -> (v: Vec<char>)
    ensures
        v@ == s@,
{
    let mut v: Vec<char> = Vec::new();
    for c in it: s.chars()
        invariant
            it.seq() == s@,
            v@ == it.seq().take(it.index() as int),
    {
        v.push(c);
    }
    v
}

// ---------------------------------------------------------------------------------
// Character classes

/// ASCII whitespace as `char::is_ascii_whitespace` defines it.
pub open spec fn is_ascii_ws(c: char) -> bool {
    c == ' ' || c == '\t' || c == '\n' || c == '\x0C' || c == '\r'
}

/// Unicode `White_Space`, what `char::is_whitespace` (and so `str::trim`) tests.
pub open spec fn is_unicode_ws(c: char) -> bool {
    let u = c as u32;
    (0x09 <= u && u <= 0x0d) || u == 0x20 || u == 0x85 || u == 0xa0 || u == 0x1680 || (0x2000
        <= u && u <= 0x200a) || u == 0x2028 || u == 0x2029 || u == 0x202f || u == 0x205f || u
        == 0x3000
}

pub open spec fn is_digit(c: char) -> bool {
    '0' <= c && c <= '9'
}

pub open spec fn is_hex_digit(c: char) -> bool {
    ('0' <= c && c <= '9') || ('a' <= c && c <= 'f') || ('A' <= c && c <= 'F')
}

pub open spec fn digit_value(c: char) -> nat {
    if '0' <= c && c <= '9' {
        (c as u32 - '0' as u32) as nat
    } else if 'a' <= c && c <= 'f' {
        (c as u32 - 'a' as u32 + 10) as nat
    } else {
        (c as u32 - 'A' as u32 + 10) as nat
    }
}

pub fn ascii_ws(c: char) -> (b: bool)
    ensures
        b == is_ascii_ws(c),
{
    c == ' ' || c == '\t' || c == '\n' || c == '\x0C' || c == '\r'
}

pub fn unicode_ws(c: char) -> (b: bool)
    ensures
        b == is_unicode_ws(c),
{
    let u = c as u32;
    (0x09 <= u && u <= 0x0d) || u == 0x20 || u == 0x85 || u == 0xa0 || u == 0x1680 || (0x2000
        <= u && u <= 0x200a) || u == 0x2028 || u == 0x2029 || u == 0x202f || u == 0x205f || u
        == 0x3000
}

// ---------------------------------------------------------------------------------
// Scanning

/// Number of leading characters that differ from `c`.
pub open spec fn count_until(s: Seq<char>, c: char) -> nat
    decreases s.len(),
{
    if s.len() == 0 || s[0] == c {
        0
    } else {
        1 + count_until(s.drop_first(), c)
    }
}

/// Separators between words: ASCII whitespace, or with `unicode` all of Unicode's.
pub open spec fn is_sep(c: char, unicode: bool) -> bool {
    if unicode {
        is_unicode_ws(c)
    } else {
        is_ascii_ws(c)
    }
}

/// Number of leading characters that are not separators.
pub open spec fn word_len(s: Seq<char>, unicode: bool) -> nat
    decreases s.len(),
{
    if s.len() == 0 || is_sep(s[0], unicode) {
        0
    } else {
        1 + word_len(s.drop_first(), unicode)
    }
}

pub proof fn lemma_count_until(s: Seq<char>, c: char, j: int)
    requires
        0 <= j <= s.len(),
        forall|k: int| 0 <= k < j ==> s[k] != c,
        j == s.len() || s[j] == c,
    ensures
        count_until(s, c) == j,
    decreases j,
{
    if j > 0 {
        lemma_count_until(s.drop_first(), c, j - 1);
    }
}

/// Index of the first `c` in `v[lo..hi]`, or `hi`.
pub fn find_char(v: &Vec<char>, lo: usize, hi: usize, c: char) -> (i: usize)
    requires
        lo <= hi <= v@.len(),
    ensures
        lo <= i <= hi,
        i - lo == count_until(v@.subrange(lo as int, hi as int), c),
{
    let mut i = lo;
    while i < hi && v[i] != c
        invariant
            lo <= i <= hi <= v@.len(),
            forall|k: int| lo <= k < i ==> v@[k] != c,
        decreases hi - i,
    {
        i = i + 1;
    }
    proof {
        lemma_count_until(v@.subrange(lo as int, hi as int), c, i - lo);
    }
    i
}

pub proof fn lemma_at_range_full(v: Seq<char>)
    requires
        v.len() <= usize::MAX,
    ensures
        at_range(v, (0, v.len() as usize)) == v,
{
    assert(v.subrange(0, v.len() as int) =~= v);
}

/// Index of the last `c` in `s`, or -1.
pub open spec fn last_index(s: Seq<char>, c: char) -> int
    decreases s.len(),
{
    if s.len() == 0 {
        -1
    } else if s.last() == c {
        s.len() - 1
    } else {
        last_index(s.drop_last(), c)
    }
}

/// Index of the last `c` in `v[lo..hi]`.
pub fn rfind_char(v: &Vec<char>, lo: usize, hi: usize, c: char) -> (i: Option<usize>)
    requires
        lo <= hi <= v@.len(),
    ensures
        match i {
            Some(k) => lo <= k < hi && k - lo == last_index(v@.subrange(lo as int, hi as int), c),
            None => last_index(v@.subrange(lo as int, hi as int), c) == -1,
        },
{
    let ghost s = v@.subrange(lo as int, hi as int);
    let mut j = hi;
    proof {
        assert(s.take(hi - lo) =~= s);
    }
    while j > lo
        invariant
            lo <= j <= hi <= v@.len(),
            s == v@.subrange(lo as int, hi as int),
            last_index(s, c) == last_index(s.take(j - lo), c),
        decreases j,
    {
        proof {
            assert(s.take(j - lo).drop_last() =~= s.take(j - lo - 1));
            assert(s.take(j - lo).last() == v@[j - 1]);
        }
        if v[j - 1] == c {
            return Some(j - 1);
        }
        j = j - 1;
    }
    proof {
        assert(s.take(0) =~= Seq::<char>::empty());
    }
    None
}

/// `p` is a prefix of `s`.
pub open spec fn starts_with(s: Seq<char>, p: Seq<char>) -> bool {
    p.len() <= s.len() && s.take(p.len() as int) == p
}

pub proof fn lemma_count_until_bound(s: Seq<char>, c: char)
    ensures
        count_until(s, c) <= s.len(),
        count_until(s, c) < s.len() ==> s[count_until(s, c) as int] == c,
        forall|k: int| 0 <= k < count_until(s, c) ==> s[k] != c,
    decreases s.len(),
{
    if s.len() > 0 && s[0] != c {
        lemma_count_until_bound(s.drop_first(), c);
        assert forall|k: int| 0 <= k < count_until(s, c) implies s[k] != c by {
            if k > 0 {
                assert(s[k] == s.drop_first()[k - 1]);
            }
        }
    }
}

pub proof fn lemma_word_len(s: Seq<char>, unicode: bool, j: int)
    requires
        0 <= j <= s.len(),
        forall|k: int| 0 <= k < j ==> !is_sep(s[k], unicode),
        j == s.len() || is_sep(s[j], unicode),
    ensures
        word_len(s, unicode) == j,
    decreases j,
{
    if j > 0 {
        lemma_word_len(s.drop_first(), unicode, j - 1);
    }
}

pub proof fn lemma_word_len_bound(s: Seq<char>, unicode: bool)
    ensures
        word_len(s, unicode) <= s.len(),
        s.len() > 0 && !is_sep(s[0], unicode) ==> word_len(s, unicode) >= 1,
    decreases s.len(),
{
    if s.len() > 0 && !is_sep(s[0], unicode) {
        lemma_word_len_bound(s.drop_first(), unicode);
    }
}

// ---------------------------------------------------------------------------------
// Fields (`str::split_ascii_whitespace`)

/// The maximal runs of non-separator characters, in order.
pub open spec fn words(s: Seq<char>, unicode: bool) -> Seq<Seq<char>>
    decreases s.len(),
{
    if s.len() == 0 {
        seq![]
    } else if is_sep(s[0], unicode) {
        words(s.drop_first(), unicode)
    } else {
        let k = word_len(s, unicode) as int;
        if 1 <= k <= s.len() {
            seq![s.take(k)] + words(s.skip(k), unicode)
        } else {
            seq![]
        }
    }
}

/// The fields of `str::split_ascii_whitespace`.
pub open spec fn fields(s: Seq<char>) -> Seq<Seq<char>> {
    words(s, false)
}

/// The fields of `str::split_whitespace`.
pub open spec fn ufields(s: Seq<char>) -> Seq<Seq<char>> {
    words(s, true)
}

/// The characters `lo..hi` of `v`.
pub open spec fn at_range(v: Seq<char>, r: (usize, usize)) -> Seq<char> {
    v.subrange(r.0 as int, r.1 as int)
}

/// Index ranges, within `v`, of the fields (`split_ascii_whitespace`) of `v[lo..hi]`.
pub fn field_ranges(v: &Vec<char>, lo: usize, hi: usize) -> (out: Vec<(usize, usize)>)
    requires
        lo <= hi <= v@.len(),
    ensures
        out@.len() == fields(v@.subrange(lo as int, hi as int)).len(),
        forall|i: int|
            0 <= i < out@.len() ==> lo <= (#[trigger] out@[i]).0 <= out@[i].1 <= hi && at_range(
                v@,
                out@[i],
            ) == fields(v@.subrange(lo as int, hi as int))[i],
{
    word_ranges(v, lo, hi, false)
}

/// Index ranges, within `v`, of the fields (`split_whitespace`) of `v[lo..hi]`.
pub fn ufield_ranges(v: &Vec<char>, lo: usize, hi: usize) -> (out: Vec<(usize, usize)>)
    requires
        lo <= hi <= v@.len(),
    ensures
        out@.len() == ufields(v@.subrange(lo as int, hi as int)).len(),
        forall|i: int|
            0 <= i < out@.len() ==> lo <= (#[trigger] out@[i]).0 <= out@[i].1 <= hi && at_range(
                v@,
                out@[i],
            ) == ufields(v@.subrange(lo as int, hi as int))[i],
{
    word_ranges(v, lo, hi, true)
}

fn is_sep_exec(c: char, unicode: bool) -> (b: bool)
    ensures
        b == is_sep(c, unicode),
{
    if unicode {
        unicode_ws(c)
    } else {
        ascii_ws(c)
    }
}

fn word_ranges(v: &Vec<char>, lo: usize, hi: usize, unicode: bool) -> (out: Vec<(usize, usize)>)
    requires
        lo <= hi <= v@.len(),
    ensures
        out@.len() == words(v@.subrange(lo as int, hi as int), unicode).len(),
        forall|i: int|
            0 <= i < out@.len() ==> lo <= (#[trigger] out@[i]).0 <= out@[i].1 <= hi && at_range(
                v@,
                out@[i],
            ) == words(v@.subrange(lo as int, hi as int), unicode)[i],
{
    let mut out: Vec<(usize, usize)> = Vec::new();
    let ghost whole = v@.subrange(lo as int, hi as int);
    let mut i = lo;
    while i < hi
        invariant
            lo <= i <= hi <= v@.len(),
            whole == v@.subrange(lo as int, hi as int),
            out@.len() + words(v@.subrange(i as int, hi as int), unicode).len() == words(whole, unicode).len(),
            forall|m: int|
                0 <= m < out@.len() ==> lo <= (#[trigger] out@[m]).0 <= out@[m].1 <= hi && at_range(
                    v@,
                    out@[m],
                ) == words(whole, unicode)[m],
            forall|m: int|
                0 <= m < words(v@.subrange(i as int, hi as int), unicode).len() ==> words(whole, unicode)[out@.len()
                    + m] == #[trigger] words(v@.subrange(i as int, hi as int), unicode)[m],
        decreases hi - i,
    {
        let ghost rest = v@.subrange(i as int, hi as int);
        if is_sep_exec(v[i], unicode) {
            assert(rest.drop_first() =~= v@.subrange(i + 1, hi as int));
            i = i + 1;
        } else {
            let mut j = i;
            while j < hi && !is_sep_exec(v[j], unicode)
                invariant
                    i <= j <= hi <= v@.len(),
                    forall|k: int| i <= k < j ==> !is_sep(v@[k], unicode),
                decreases hi - j,
            {
                j = j + 1;
            }
            proof {
                lemma_word_len(rest, unicode, (j - i) as int);
                assert(rest.take((j - i) as int) =~= v@.subrange(i as int, j as int));
                assert(rest.skip((j - i) as int) =~= v@.subrange(j as int, hi as int));
                let tail = words(v@.subrange(j as int, hi as int), unicode);
                assert(words(rest, unicode) =~= seq![v@.subrange(i as int, j as int)] + tail);
                assert(words(whole, unicode)[out@.len() + 0int] == words(rest, unicode)[0]);
                assert forall|m: int| 0 <= m < tail.len() implies words(whole, unicode)[out@.len() + 1 + m]
                    == #[trigger] tail[m] by {
                    assert(words(rest, unicode)[m + 1] == tail[m]);
                }
            }
            out.push((i, j));
            i = j;
        }
    }
    out
}

// ---------------------------------------------------------------------------------
// Lines (`str::lines`)

/// Length of the first line, without its `\n`.
pub open spec fn line_len(s: Seq<char>) -> nat {
    count_until(s, '\n')
}

/// The first line: up to the first `\n`, minus a `\r` right before that `\n`.
pub open spec fn first_line(s: Seq<char>) -> Seq<char> {
    let k = line_len(s) as int;
    if k < s.len() && k > 0 && s[k - 1] == '\r' {
        s.take(k - 1)
    } else {
        s.take(k)
    }
}

/// What follows the first line and its line ending.
pub open spec fn after_line(s: Seq<char>) -> Seq<char> {
    let k = line_len(s) as int;
    if k < s.len() {
        s.skip(k + 1)
    } else {
        seq![]
    }
}

pub proof fn lemma_after_line_shorter(s: Seq<char>)
    requires
        s.len() > 0,
    ensures
        after_line(s).len() < s.len(),
{
    lemma_count_until_bound(s, '\n');
}

/// The lines of `s`, as `str::lines` yields them.
pub open spec fn lines(s: Seq<char>) -> Seq<Seq<char>>
    decreases s.len(),
{
    if s.len() == 0 {
        seq![]
    } else {
        proof {
            lemma_after_line_shorter(s);
        }
        seq![first_line(s)] + lines(after_line(s))
    }
}

/// Finds the line starting at `start`: it spans `start..end`, and the next one
/// starts at `next`.
pub fn line_at(v: &Vec<char>, start: usize) -> (r: (usize, usize))
    requires
        start < v@.len(),
    ensures
        start <= r.0 <= r.1 <= v@.len(),
        r.1 > start,
        v@.subrange(start as int, r.0 as int) == first_line(v@.skip(start as int)),
        v@.skip(r.1 as int) == after_line(v@.skip(start as int)),
{
    let ghost s = v@.skip(start as int);
    let mut j = start;
    while j < v.len() && v[j] != '\n'
        invariant
            start <= j <= v@.len(),
            forall|k: int| start <= k < j ==> v@[k] != '\n',
        decreases v@.len() - j,
    {
        j = j + 1;
    }
    proof {
        lemma_count_until(s, '\n', (j - start) as int);
    }
    if j < v.len() {
        let end = if j > start && v[j - 1] == '\r' {
            j - 1
        } else {
            j
        };
        assert(v@.subrange(start as int, end as int) =~= s.take((end - start) as int));
        assert(v@.skip((j + 1) as int) =~= s.skip((j - start) as int + 1));
        (end, j + 1)
    } else {
        assert(v@.subrange(start as int, j as int) =~= s.take((j - start) as int));
        assert(v@.skip(j as int) =~= Seq::<char>::empty());
        (j, j)
    }
}

/// The values `f` picks out of each line, in order (`Iterator::filter_map`).
pub open spec fn filter_map_lines<T>(ls: Seq<Seq<char>>, f: spec_fn(Seq<char>) -> Option<T>) -> Seq<T>
    decreases ls.len(),
{
    if ls.len() == 0 {
        seq![]
    } else {
        let r = filter_map_lines(ls.drop_first(), f);
        match f(ls[0]) {
            Some(x) => seq![x] + r,
            None => r,
        }
    }
}

/// `lines(v.skip(start))` starts with the line `start..end` and continues with the
/// lines from `next` on.
pub proof fn lemma_lines_step(v: Seq<char>, start: int, end: int, next: int)
    requires
        0 <= start < v.len(),
        v.subrange(start, end) == first_line(v.skip(start)),
        v.skip(next) == after_line(v.skip(start)),
    ensures
        lines(v.skip(start)) == seq![v.subrange(start, end)] + lines(v.skip(next)),
        lines(v.skip(start)).drop_first() == lines(v.skip(next)),
        lines(v.skip(start))[0] == v.subrange(start, end),
{
    assert(lines(v.skip(start)) =~= seq![v.subrange(start, end)] + lines(v.skip(next)));
    assert((seq![v.subrange(start, end)] + lines(v.skip(next))).drop_first() =~= lines(
        v.skip(next),
    ));
}

/// Skips `n` lines: the lines from the returned index on are `lines(v).skip(n)`
/// (or none, when `v` has fewer lines).
pub fn skip_lines(v: &Vec<char>, n: usize) -> (start: usize)
    ensures
        start <= v@.len(),
        lines(v@).len() >= n ==> lines(v@.skip(start as int)) == lines(v@).skip(n as int),
        lines(v@).len() < n ==> lines(v@.skip(start as int)).len() == 0,
{
    let mut start: usize = 0;
    let mut k: usize = 0;
    proof {
        assert(v@.skip(0) =~= v@);
        assert(lines(v@).skip(0) =~= lines(v@));
        assert(v@.skip(v@.len() as int) =~= Seq::<char>::empty());
    }
    while k < n && start < v.len()
        invariant
            start <= v@.len(),
            k <= n,
            lines(v@).len() >= k,
            lines(v@.skip(start as int)) == lines(v@).skip(k as int),
            v@.skip(v@.len() as int) == Seq::<char>::empty(),
        decreases n - k,
    {
        let (end, next) = line_at(v, start);
        proof {
            lemma_lines_step(v@, start as int, end as int, next as int);
            assert(lines(v@).skip(k as int).drop_first() =~= lines(v@).skip(k + 1));
        }
        start = next;
        k = k + 1;
    }
    start
}

// ---------------------------------------------------------------------------------
// Trimming

pub open spec fn lead_ws(s: Seq<char>) -> nat
    decreases s.len(),
{
    if s.len() == 0 || !is_unicode_ws(s[0]) {
        0
    } else {
        1 + lead_ws(s.drop_first())
    }
}

pub open spec fn trail_ws(s: Seq<char>) -> nat
    decreases s.len(),
{
    if s.len() == 0 || !is_unicode_ws(s.last()) {
        0
    } else {
        1 + trail_ws(s.drop_last())
    }
}

/// `s` without leading and trailing Unicode whitespace (`str::trim`).
pub open spec fn trim(s: Seq<char>) -> Seq<char> {
    let a = lead_ws(s) as int;
    let t = s.skip(a);
    t.take(t.len() - trail_ws(t))
}

pub proof fn lemma_lead_ws(s: Seq<char>, j: int)
    requires
        0 <= j <= s.len(),
        forall|k: int| 0 <= k < j ==> is_unicode_ws(s[k]),
        j == s.len() || !is_unicode_ws(s[j]),
    ensures
        lead_ws(s) == j,
    decreases j,
{
    if j > 0 {
        lemma_lead_ws(s.drop_first(), j - 1);
    }
}

pub proof fn lemma_trail_ws(s: Seq<char>, j: int)
    requires
        0 <= j <= s.len(),
        forall|k: int| s.len() - j <= k < s.len() ==> is_unicode_ws(s[k]),
        j == s.len() || !is_unicode_ws(s[s.len() - j - 1]),
    ensures
        trail_ws(s) == j,
    decreases j,
{
    if j > 0 {
        lemma_trail_ws(s.drop_last(), j - 1);
    }
}

/// `t` is `s` with the whitespace at both ends removed: `t` neither starts nor ends
/// with whitespace, and is a piece of `s` with only whitespace before and after it.
pub open spec fn trimmed_from(t: Seq<char>, s: Seq<char>) -> bool {
    &&& (t.len() == 0 || (!is_unicode_ws(t[0]) && !is_unicode_ws(t.last())))
    &&& exists|a: int|
        0 <= a && a + t.len() <= s.len() && #[trigger] s.subrange(a, a + t.len()) == t && (forall|k: int|
            0 <= k < a ==> is_unicode_ws(s[k])) && (forall|k: int| a + t.len() <= k < s.len() ==> is_unicode_ws(s[k]))
}

proof fn lemma_lead_ws_facts(s: Seq<char>)
    ensures
        lead_ws(s) <= s.len(),
        forall|k: int| 0 <= k < lead_ws(s) ==> is_unicode_ws(#[trigger] s[k]),
        lead_ws(s) < s.len() ==> !is_unicode_ws(s[lead_ws(s) as int]),
    decreases s.len(),
{
    if s.len() > 0 && is_unicode_ws(s[0]) {
        let r = s.drop_first();
        lemma_lead_ws_facts(r);
        assert forall|k: int| 0 <= k < lead_ws(s) implies is_unicode_ws(#[trigger] s[k]) by {
            if k > 0 {
                assert(s[k] == r[k - 1]);
            }
        }
        if lead_ws(s) < s.len() {
            assert(s[lead_ws(s) as int] == r[lead_ws(r) as int]);
        }
    }
}

proof fn lemma_trail_ws_facts(s: Seq<char>)
    ensures
        trail_ws(s) <= s.len(),
        forall|k: int| s.len() - trail_ws(s) <= k < s.len() ==> is_unicode_ws(#[trigger] s[k]),
        trail_ws(s) < s.len() ==> !is_unicode_ws(s[s.len() - trail_ws(s) - 1]),
    decreases s.len(),
{
    if s.len() > 0 && is_unicode_ws(s.last()) {
        let r = s.drop_last();
        lemma_trail_ws_facts(r);
        assert forall|k: int| s.len() - trail_ws(s) <= k < s.len() implies is_unicode_ws(#[trigger] s[k]) by {
            if k < s.len() - 1 {
                assert(s[k] == r[k]);
            }
        }
        if trail_ws(s) < s.len() {
            assert(s[s.len() - trail_ws(s) - 1] == r[r.len() - trail_ws(r) - 1]);
        }
    }
}

/// Trimming removes exactly the whitespace at both ends.
pub proof fn lemma_trim_is_trimmed_from(s: Seq<char>)
    ensures
        trimmed_from(trim(s), s),
{
    lemma_lead_ws_facts(s);
    let a = lead_ws(s) as int;
    let u = s.skip(a);
    lemma_trail_ws_facts(u);
    let t = trim(s);
    let n = u.len() - trail_ws(u);
    assert(t =~= s.subrange(a, a + n));
    assert forall|k: int| a + t.len() <= k < s.len() implies is_unicode_ws(s[k]) by {
        assert(s[k] == u[k - a]);
    }
    if t.len() > 0 {
        assert(t[0] == s[a]);
        assert(t.last() == u[u.len() - trail_ws(u) - 1]);
    }
    assert(s.subrange(a, a + t.len()) == t);
}

/// Every entry of `filter_map_lines(ls, f)` is what `f` gives for one of the lines.
pub proof fn lemma_filter_map_lines_from<T>(ls: Seq<Seq<char>>, f: spec_fn(Seq<char>) -> Option<T>, i: int)
    requires
        0 <= i < filter_map_lines(ls, f).len(),
    ensures
        exists|j: int| 0 <= j < ls.len() && #[trigger] f(ls[j]) == Some(filter_map_lines(ls, f)[i]),
    decreases ls.len(),
{
    let r = filter_map_lines(ls.drop_first(), f);
    match f(ls[0]) {
        Some(x) => {
            if i == 0 {
                assert(f(ls[0]) == Some(filter_map_lines(ls, f)[i]));
            } else {
                assert(filter_map_lines(ls, f)[i] == r[i - 1]);
                lemma_filter_map_lines_from(ls.drop_first(), f, i - 1);
                let j = choose|j: int| 0 <= j < ls.drop_first().len() && #[trigger] f(ls.drop_first()[j]) == Some(r[i - 1]);
                assert(ls[j + 1] == ls.drop_first()[j]);
            }
        },
        None => {
            lemma_filter_map_lines_from(ls.drop_first(), f, i);
            let j = choose|j: int| 0 <= j < ls.drop_first().len() && #[trigger] f(ls.drop_first()[j]) == Some(r[i]);
            assert(ls[j + 1] == ls.drop_first()[j]);
        },
    }
}

/// The range of `v[lo..hi]` left after trimming Unicode whitespace at both ends.
pub fn trim_range(v: &Vec<char>, lo: usize, hi: usize) -> (r: (usize, usize))
    requires
        lo <= hi <= v@.len(),
    ensures
        lo <= r.0 <= r.1 <= hi,
        at_range(v@, r) == trim(v@.subrange(lo as int, hi as int)),
{
    let ghost s = v@.subrange(lo as int, hi as int);
    let mut a = lo;
    while a < hi && unicode_ws(v[a])
        invariant
            lo <= a <= hi <= v@.len(),
            forall|k: int| lo <= k < a ==> is_unicode_ws(v@[k]),
        decreases hi - a,
    {
        a = a + 1;
    }
    let mut b = hi;
    while b > a && unicode_ws(v[b - 1])
        invariant
            lo <= a <= b <= hi <= v@.len(),
            forall|k: int| b <= k < hi ==> is_unicode_ws(v@[k]),
        decreases b - a,
    {
        b = b - 1;
    }
    proof {
        lemma_lead_ws(s, (a - lo) as int);
        let t = s.skip((a - lo) as int);
        assert(t =~= v@.subrange(a as int, hi as int));
        lemma_trail_ws(t, (hi - b) as int);
        assert(t.take(t.len() - (hi - b)) =~= v@.subrange(a as int, b as int));
    }
    (a, b)
}

// ---------------------------------------------------------------------------------
// Comparing

/// Whether `v[r]` holds exactly the characters of `w`.
pub fn range_eq(v: &Vec<char>, r: (usize, usize), w: &Vec<char>) -> (b: bool)
    requires
        r.0 <= r.1 <= v@.len(),
    ensures
        b == (at_range(v@, r) == w@),
{
    if r.1 - r.0 != w.len() {
        assert(at_range(v@, r).len() != w@.len());
        return false;
    }
    let mut i: usize = 0;
    while i < w.len()
        invariant
            r.0 <= r.1 <= v@.len(),
            r.1 - r.0 == w@.len(),
            i <= w@.len(),
            forall|k: int| 0 <= k < i ==> v@[r.0 + k] == w@[k],
        decreases w@.len() - i,
    {
        if v[r.0 + i] != w[i] {
            assert(at_range(v@, r)[i as int] != w@[i as int]);
            return false;
        }
        i = i + 1;
    }
    assert(at_range(v@, r) =~= w@);
    true
}

/// Whether `v[r]` begins with the characters of `w`.
pub fn range_starts_with(v: &Vec<char>, r: (usize, usize), w: &Vec<char>) -> (b: bool)
    requires
        r.0 <= r.1 <= v@.len(),
    ensures
        b == (w@.len() <= at_range(v@, r).len() && at_range(v@, r).take(w@.len() as int) == w@),
{
    if r.1 - r.0 < w.len() {
        return false;
    }
    let b = range_eq(v, (r.0, r.0 + w.len()), w);
    assert(at_range(v@, (r.0, (r.0 + w@.len()) as usize)) =~= at_range(v@, r).take(w@.len() as int));
    b
}

/// The characters of `v[r]`.
pub fn range_chars(v: &Vec<char>, r: (usize, usize)) -> (out: Vec<char>)
    requires
        r.0 <= r.1 <= v@.len(),
    ensures
        out@ == at_range(v@, r),
{
    let mut out: Vec<char> = Vec::new();
    let mut i = r.0;
    while i < r.1
        invariant
            r.0 <= i <= r.1 <= v@.len(),
            out@ == v@.subrange(r.0 as int, i as int),
        decreases r.1 - i,
    {
        out.push(v[i]);
        proof {
            assert(out@ =~= v@.subrange(r.0 as int, i + 1));
        }
        i = i + 1;
    }
    out
}

/// Whether `v[r]` ends with the characters of `w`.
pub fn range_ends_with(v: &Vec<char>, r: (usize, usize), w: &Vec<char>) -> (b: bool)
    requires
        r.0 <= r.1 <= v@.len(),
    ensures
        b == (w@.len() <= at_range(v@, r).len() && at_range(v@, r).skip(
            at_range(v@, r).len() - w@.len(),
        ) == w@),
{
    if r.1 - r.0 < w.len() {
        return false;
    }
    let b = range_eq(v, (r.1 - w.len(), r.1), w);
    assert(at_range(v@, ((r.1 - w@.len()) as usize, r.1)) =~= at_range(v@, r).skip(
        at_range(v@, r).len() - w@.len(),
    ));
    b
}

// ---------------------------------------------------------------------------------
// Decimal numbers

/// Value of a string of decimal digits (most significant first).
pub open spec fn digits_value(s: Seq<char>) -> nat
    decreases s.len(),
{
    if s.len() == 0 {
        0
    } else {
        digits_value(s.drop_last()) * 10 + digit_value(s.last())
    }
}

pub open spec fn all_digits(s: Seq<char>) -> bool {
    forall|i: int| 0 <= i < s.len() ==> is_digit(#[trigger] s[i])
}

/// The digits part of an unsigned number: `s` without one leading `+`.
pub open spec fn unsigned_body(s: Seq<char>) -> Seq<char> {
    if s.len() > 0 && s[0] == '+' {
        s.drop_first()
    } else {
        s
    }
}

/// What `u64::from_str` accepts: an optional `+`, then at least one decimal digit,
/// with a value that fits.
pub open spec fn parse_u64(s: Seq<char>) -> Option<u64> {
    let d = unsigned_body(s);
    if d.len() > 0 && all_digits(d) && digits_value(d) <= u64::MAX {
        Some(digits_value(d) as u64)
    } else {
        None
    }
}

pub proof fn lemma_digits_value_grows(s: Seq<char>, k: int)
    requires
        0 <= k <= s.len(),
    ensures
        digits_value(s.take(k)) <= digits_value(s),
    decreases s.len() - k,
{
    if k < s.len() {
        lemma_digits_value_grows(s, k + 1);
        assert(s.take(k + 1).drop_last() =~= s.take(k));
    } else {
        assert(s.take(k) =~= s);
    }
}

/// Parses `v[r]` as `u64::from_str` does.
pub fn parse_u64_at(v: &Vec<char>, r: (usize, usize)) -> (n: Option<u64>)
    requires
        r.0 <= r.1 <= v@.len(),
    ensures
        n == parse_u64(at_range(v@, r)),
{
    let ghost s = at_range(v@, r);
    let mut i = r.0;
    if i < r.1 && v[i] == '+' {
        i = i + 1;
    }
    let ghost d = s.skip(i - r.0);
    assert(d =~= unsigned_body(s));
    assert(d =~= v@.subrange(i as int, r.1 as int));
    if i == r.1 {
        return None;
    }
    let start = i;
    let mut value: u64 = 0;
    while i < r.1
        invariant
            r.0 <= start <= i <= r.1 <= v@.len(),
            d == v@.subrange(start as int, r.1 as int),
            d == unsigned_body(at_range(v@, r)),
            d.len() > 0,
            forall|k: int| start <= k < i ==> is_digit(v@[k]),
            value == digits_value(v@.subrange(start as int, i as int)),
        decreases r.1 - i,
    {
        let c = v[i];
        if !('0' <= c && c <= '9') {
            assert(!is_digit(d[i - start]));
            return None;
        }
        let digit = (c as u32 - '0' as u32) as u64;
        proof {
            assert(v@.subrange(start as int, i + 1).drop_last() =~= v@.subrange(
                start as int,
                i as int,
            ));
            assert(v@.subrange(start as int, i + 1).last() == c);
        }
        if value > (u64::MAX - digit) / 10 {
            proof {
                assert(v@.subrange(start as int, i + 1) =~= d.take(i + 1 - start));
                lemma_digits_value_grows(d, i + 1 - start);
            }
            return None;
        }
        value = value * 10 + digit;
        i = i + 1;
    }
    assert(v@.subrange(start as int, i as int) =~= d);
    Some(value)
}

pub open spec fn hex_value(s: Seq<char>) -> nat
    decreases s.len(),
{
    if s.len() == 0 {
        0
    } else {
        hex_value(s.drop_last()) * 16 + digit_value(s.last())
    }
}

pub open spec fn all_hex(s: Seq<char>) -> bool {
    forall|i: int| 0 <= i < s.len() ==> is_hex_digit(#[trigger] s[i])
}

/// What `u32::from_str_radix(_, 16)` accepts: an optional `+`, then at least one hex
/// digit of either case, with a value that fits.
pub open spec fn parse_hex_u32(s: Seq<char>) -> Option<u32> {
    let d = unsigned_body(s);
    if d.len() > 0 && all_hex(d) && hex_value(d) <= u32::MAX {
        Some(hex_value(d) as u32)
    } else {
        None
    }
}

proof fn lemma_hex_value_grows(s: Seq<char>, k: int)
    requires
        0 <= k <= s.len(),
    ensures
        hex_value(s.take(k)) <= hex_value(s),
    decreases s.len() - k,
{
    if k < s.len() {
        lemma_hex_value_grows(s, k + 1);
        assert(s.take(k + 1).drop_last() =~= s.take(k));
    } else {
        assert(s.take(k) =~= s);
    }
}

/// Parses `v[r]` as `u32::from_str_radix(_, 16)` does.
pub fn parse_hex_u32_at(v: &Vec<char>, r: (usize, usize)) -> (n: Option<u32>)
    requires
        r.0 <= r.1 <= v@.len(),
    ensures
        n == parse_hex_u32(at_range(v@, r)),
{
    let ghost s = at_range(v@, r);
    let mut i = r.0;
    if i < r.1 && v[i] == '+' {
        i = i + 1;
    }
    let ghost d = s.skip(i - r.0);
    assert(d =~= unsigned_body(s));
    assert(d =~= v@.subrange(i as int, r.1 as int));
    if i == r.1 {
        return None;
    }
    let start = i;
    let mut value: u64 = 0;
    while i < r.1
        invariant
            r.0 <= start <= i <= r.1 <= v@.len(),
            d == v@.subrange(start as int, r.1 as int),
            d == unsigned_body(at_range(v@, r)),
            d.len() > 0,
            forall|k: int| start <= k < i ==> is_hex_digit(v@[k]),
            value == hex_value(v@.subrange(start as int, i as int)),
            value <= u32::MAX,
        decreases r.1 - i,
    {
        let c = v[i];
        let digit: u64 = if '0' <= c && c <= '9' {
            (c as u32 - '0' as u32) as u64
        } else if 'a' <= c && c <= 'f' {
            (c as u32 - 'a' as u32 + 10) as u64
        } else if 'A' <= c && c <= 'F' {
            (c as u32 - 'A' as u32 + 10) as u64
        } else {
            assert(!is_hex_digit(d[i - start]));
            return None;
        };
        proof {
            assert(v@.subrange(start as int, i + 1).drop_last() =~= v@.subrange(
                start as int,
                i as int,
            ));
            assert(v@.subrange(start as int, i + 1).last() == c);
        }
        let next = value * 16 + digit;
        if next > 0xffff_ffffu64 {
            proof {
                assert(v@.subrange(start as int, i + 1) =~= d.take(i + 1 - start));
                lemma_hex_value_grows(d, i + 1 - start);
            }
            return None;
        }
        value = next;
        i = i + 1;
    }
    assert(v@.subrange(start as int, i as int) =~= d);
    Some(value as u32)
}

/// The lowercase hexadecimal digits of `n` (no leading zeros).
pub open spec fn hex(n: nat) -> Seq<char>
    decreases n,
{
    if n < 16 {
        seq![digit_char(n)]
    } else {
        hex(n / 16).push(digit_char(n % 16))
    }
}

/// `s` with zeros in front up to `width` characters.
pub open spec fn zero_padded(s: Seq<char>, width: nat) -> Seq<char> {
    if s.len() >= width {
        s
    } else {
        Seq::new((width - s.len()) as nat, |i: int| '0') + s
    }
}

fn push_hex_digits(out: &mut Vec<char>, n: u64)
    ensures
        final(out)@ == old(out)@ + hex(n as nat),
    decreases n,
{
    if n >= 16 {
        push_hex_digits(out, n / 16);
    }
    let d = (n % 16) as u8;
    let c = if d < 10 {
        (48u8 + d) as char
    } else {
        (87u8 + d) as char
    };
    out.push(c);
}

/// Appends `n` in lowercase hexadecimal, zero-padded to `width` (how `{:0width$x}`
/// formats it).
pub fn push_hex(s: &mut String, n: u64, width: usize)
    ensures
        final(s)@ == old(s)@ + zero_padded(hex(n as nat), width as nat),
{
    let mut digits: Vec<char> = Vec::new();
    push_hex_digits(&mut digits, n);
    let mut k = digits.len();
    let ghost start = s@;
    while k < width
        invariant
            digits@.len() <= k <= width || (k == digits@.len() && k >= width),
            s@ == start + Seq::new((k - digits@.len()) as nat, |i: int| '0'),
        decreases width - k,
    {
        push_char(s, '0');
        proof {
            assert(Seq::new((k + 1 - digits@.len()) as nat, |i: int| '0') =~= Seq::new(
                (k - digits@.len()) as nat,
                |i: int| '0',
            ).push('0'));
        }
        k = k + 1;
    }
    push_chars(s, &digits);
    proof {
        if digits@.len() >= width {
            assert(Seq::new((k - digits@.len()) as nat, |i: int| '0') =~= Seq::<char>::empty());
            assert(s@ =~= start + hex(n as nat));
        } else {
            assert(s@ =~= start + zero_padded(hex(n as nat), width as nat));
        }
    }
}

/// The decimal digits of `n` (no sign, no leading zeros).
pub open spec fn dec(n: nat) -> Seq<char>
    decreases n,
{
    if n < 10 {
        seq![digit_char(n)]
    } else {
        dec(n / 10).push(digit_char(n % 10))
    }
}

pub open spec fn digit_char(d: nat) -> char {
    if d < 10 {
        ('0' as u32 + d) as char
    } else {
        ('a' as u32 + d - 10) as char
    }
}

/// Appends the decimal digits of `n`.
pub fn push_dec(out: &mut Vec<char>, n: u64)
    ensures
        final(out)@ == old(out)@ + dec(n as nat),
    decreases n,
{
    if n >= 10 {
        push_dec(out, n / 10);
    }
    let d = (n % 10) as u8;
    let c = (48u8 + d) as char;
    out.push(c);
}

// ---------------------------------------------------------------------------------
// Building strings

/// What `String::from_utf8_lossy` makes of `bytes`: the text they encode, with each
/// invalid sequence replaced by U+FFFD.
pub uninterp spec fn utf8_lossy(bytes: Seq<u8>) -> Seq<char>;

/// `String::from_utf8_lossy`. Believed of it: the result depends on the bytes alone,
/// and valid UTF-8 decodes to exactly the characters it encodes. How invalid
/// sequences are replaced is not stated.
#[verifier::external_body]
pub(crate) fn string_from_utf8_lossy(bytes: &[u8]) -> (s: String)
    ensures
        s@ == utf8_lossy(bytes@),
        vstd::utf8::valid_utf8(bytes@) ==> s@ == vstd::utf8::decode_utf8(bytes@),
{
    String::from_utf8_lossy(bytes).into_owned()
}

/// `String::push`: appends one character.
#[verifier::external_body]
pub(crate) fn push_char(s: &mut String, c: char)
    ensures
        final(s)@ == old(s)@.push(c),
{
    s.push(c);
}

/// Appends every character of `chars`, in order.
pub fn push_chars(s: &mut String, chars: &Vec<char>)
    ensures
        final(s)@ == old(s)@ + chars@,
{
    let ghost start = s@;
    let mut i: usize = 0;
    while i < chars.len()
        invariant
            i <= chars@.len(),
            s@ == start + chars@.take(i as int),
        decreases chars@.len() - i,
    {
        push_char(s, chars[i]);
        proof {
            assert(chars@.take(i + 1) =~= chars@.take(i as int).push(chars@[i as int]));
        }
        i = i + 1;
    }
    proof {
        assert(chars@.take(i as int) =~= chars@);
    }
}

/// Appends the decimal digits of `n` (how `{}` formats it).
pub fn push_u64(s: &mut String, n: u64)
    ensures
        final(s)@ == old(s)@ + dec(n as nat),
{
    let mut digits: Vec<char> = Vec::new();
    push_dec(&mut digits, n);
    push_chars(s, &digits);
}

/// Appends the decimal digits of `n`, with a `-` first when it is negative (how `{}`
/// formats an integer).
pub fn push_i64(s: &mut String, n: i64)
    ensures
        final(s)@ == old(s)@ + signed_dec(n as int),
{
    let mut digits: Vec<char> = Vec::new();
    if n < 0 {
        push_char(s, '-');
        let m: u64 = if n == i64::MIN { 9223372036854775808u64 } else { (-n) as u64 };
        push_dec(&mut digits, m);
    } else {
        push_dec(&mut digits, n as u64);
    }
    push_chars(s, &digits);
}

/// `n` as `{}` formats it.
pub open spec fn signed_dec(n: int) -> Seq<char> {
    if n < 0 {
        seq!['-'] + dec((-n) as nat)
    } else {
        dec(n as nat)
    }
}

/// What `str::to_lowercase` makes of `s`: Unicode's lowercase mapping.
pub uninterp spec fn lowercase(s: Seq<char>) -> Seq<char>;

/// Every character of `s` is ASCII.
pub open spec fn is_ascii_text(s: Seq<char>) -> bool {
    forall|i: int| 0 <= i < s.len() ==> (#[trigger] s[i] as u32) < 128
}

/// `c` with an ASCII capital letter made small; anything else unchanged.
pub open spec fn ascii_lower(c: char) -> char {
    if 'A' <= c && c <= 'Z' {
        ((c as u32) + 32) as char
    } else {
        c
    }
}

/// ASCII text in lower case: each capital letter made small, the rest unchanged.
pub open spec fn ascii_lowered(s: Seq<char>) -> Seq<char> {
    s.map_values(|c: char| ascii_lower(c))
}

/// No character of `s` is an ASCII capital letter.
pub open spec fn no_ascii_upper(s: Seq<char>) -> bool {
    forall|i: int| 0 <= i < s.len() ==> !('A' <= #[trigger] s[i] && s[i] <= 'Z')
}

/// `str::to_lowercase`. Believed of it: the result depends on the text alone, holds
/// no ASCII capital letter (each character is replaced by its lowercase mapping),
/// and on ASCII text makes `A`-`Z` into `a`-`z` and leaves every other character as
/// it is. Which lowercase each non-ASCII character has is not stated.
#[verifier::external_body]
pub(crate) fn to_lowercase(s: &str) -> (r: String)
    ensures
        r@ == lowercase(s@),
        no_ascii_upper(r@),
        is_ascii_text(s@) ==> r@ == ascii_lowered(s@),
{
    s.to_lowercase()
}

// ---------------------------------------------------------------------------------
// Ordering

/// Lexicographic order by code point, which is also the byte order of the UTF-8
/// encodings (how `String`'s `Ord` compares).
pub open spec fn seq_le(a: Seq<char>, b: Seq<char>) -> bool
    decreases a.len(),
{
    if a.len() == 0 {
        true
    } else if b.len() == 0 {
        false
    } else if (a[0] as u32) < (b[0] as u32) {
        true
    } else if (a[0] as u32) > (b[0] as u32) {
        false
    } else {
        seq_le(a.drop_first(), b.drop_first())
    }
}

pub proof fn lemma_seq_le_total(a: Seq<char>, b: Seq<char>)
    ensures
        seq_le(a, b) || seq_le(b, a),
    decreases a.len(),
{
    if a.len() > 0 && b.len() > 0 && (a[0] as u32) == (b[0] as u32) {
        lemma_seq_le_total(a.drop_first(), b.drop_first());
    }
}

pub proof fn lemma_seq_le_trans(a: Seq<char>, b: Seq<char>, c: Seq<char>)
    requires
        seq_le(a, b),
        seq_le(b, c),
    ensures
        seq_le(a, c),
    decreases a.len(),
{
    if a.len() > 0 && b.len() > 0 && c.len() > 0 && (a[0] as u32) == (b[0] as u32) && (b[0] as u32)
        == (c[0] as u32) {
        lemma_seq_le_trans(a.drop_first(), b.drop_first(), c.drop_first());
    }
}

pub proof fn lemma_seq_le_refl(a: Seq<char>)
    ensures
        seq_le(a, a),
    decreases a.len(),
{
    if a.len() > 0 {
        lemma_seq_le_refl(a.drop_first());
    }
}

pub proof fn lemma_seq_le_antisym(a: Seq<char>, b: Seq<char>)
    requires
        seq_le(a, b),
        seq_le(b, a),
    ensures
        a == b,
    decreases a.len(),
{
    if a.len() > 0 && b.len() > 0 {
        let u = a[0] as u32;
        vstd::utf8::char_u32_cast(a[0], u);
        vstd::utf8::char_u32_cast(b[0], u);
        lemma_seq_le_antisym(a.drop_first(), b.drop_first());
        assert(a =~= seq![a[0]] + a.drop_first());
        assert(b =~= seq![b[0]] + b.drop_first());
    } else {
        assert(a =~= b);
    }
}

/// Compares `a` and `b` lexicographically by code point.
pub fn chars_le(a: &Vec<char>, b: &Vec<char>) -> (r: bool)
    ensures
        r == seq_le(a@, b@),
{
    let mut i: usize = 0;
    proof {
        assert(a@.skip(0) =~= a@);
        assert(b@.skip(0) =~= b@);
    }
    while i < a.len() && i < b.len() && (a[i] as u32) == (b[i] as u32)
        invariant
            i <= a@.len(),
            i <= b@.len(),
            seq_le(a@.skip(i as int), b@.skip(i as int)) == seq_le(a@, b@),
        decreases a@.len() - i,
    {
        proof {
            assert(a@.skip(i as int).drop_first() =~= a@.skip(i + 1));
            assert(b@.skip(i as int).drop_first() =~= b@.skip(i + 1));
        }
        i = i + 1;
    }
    if i == a.len() {
        true
    } else if i == b.len() {
        false
    } else {
        (a[i] as u32) < (b[i] as u32)
    }
}

} // verus!
