//! Block devices: `/proc/diskstats` counters and the mounts of `/proc/self/mounts`.
use vstd::prelude::*;

use vstd::utf8::{decode_utf8, encode_utf8, valid_utf8};

use crate::text::{
    at_range, chars_le, chars_of, field_ranges, fields, filter_map_lines, lemma_lines_step,
    lemma_seq_le_refl, lemma_seq_le_total, lemma_seq_le_trans, line_at, lines, parse_u64, parse_u64_at, range_eq,
    range_starts_with, seq_le, string_from_utf8_lossy, utf8_lossy, count_until, find_char,
    starts_with, trim, trim_range, push_char,
};
use vstd::string::StringExecFns;

verus! {

#[derive(Debug, PartialEq, Eq)]
pub struct DiskCounters<'a> {
    pub name: &'a str,
    pub reads: u64,
    pub sectors_read: u64,
    pub writes: u64,
    pub sectors_written: u64,
}

/// `(name, reads, sectors read, writes, sectors written)` of a `/proc/diskstats`
/// line: fields 3, 4, 6, 8 and 10; lines with fewer fields or non-numeric counters
/// are skipped.
pub open spec fn diskstats_entry(line: Seq<char>) -> Option<(Seq<char>, u64, u64, u64, u64)> {
    let f = fields(line);
    if f.len() >= 10 && parse_u64(f[3]) is Some && parse_u64(f[5]) is Some && parse_u64(f[7]) is Some
        && parse_u64(f[9]) is Some {
        Some((f[2], parse_u64(f[3])->0, parse_u64(f[5])->0, parse_u64(f[7])->0, parse_u64(f[9])->0))
    } else {
        None
    }
}

pub open spec fn diskstats_entries(text: Seq<char>) -> Seq<(Seq<char>, u64, u64, u64, u64)> {
    filter_map_lines(lines(text), |l: Seq<char>| diskstats_entry(l))
}

pub open spec fn counters_view(c: DiskCounters) -> (Seq<char>, u64, u64, u64, u64) {
    (c.name@, c.reads, c.sectors_read, c.writes, c.sectors_written)
}

pub fn parse_diskstats(text: &str) -> (out: Vec<DiskCounters<'_>>)
    ensures
        out@.len() == diskstats_entries(text@).len(),
        forall|i: int|
            0 <= i < out@.len() ==> counters_view(#[trigger] out@[i]) == diskstats_entries(
                text@,
            )[i],
{
    let v = chars_of(text);
    let ghost f = |l: Seq<char>| diskstats_entry(l);
    let ghost want = diskstats_entries(text@);
    let mut out: Vec<DiskCounters<'_>> = Vec::new();
    let mut start: usize = 0;
    proof {
        assert(v@.skip(0) =~= v@);
    }
    while start < v.len()
        invariant
            start <= v@.len(),
            v@ == text@,
            want == diskstats_entries(text@),
            f == (|l: Seq<char>| diskstats_entry(l)),
            out@.len() + filter_map_lines(lines(v@.skip(start as int)), f).len() == want.len(),
            forall|i: int|
                0 <= i < out@.len() ==> counters_view(#[trigger] out@[i]) == want[i],
            forall|i: int|
                0 <= i < filter_map_lines(lines(v@.skip(start as int)), f).len() ==> want[out@.len()
                    + i] == #[trigger] filter_map_lines(lines(v@.skip(start as int)), f)[i],
        decreases v@.len() - start,
    {
        let (end, next) = line_at(&v, start);
        let ghost line = v@.subrange(start as int, end as int);
        let ghost rest = filter_map_lines(lines(v@.skip(next as int)), f);
        proof {
            lemma_lines_step(v@, start as int, end as int, next as int);
        }
        let mut entry: Option<DiskCounters<'_>> = None;
        let fr = field_ranges(&v, start, end);
        if fr.len() >= 10 {
            let reads = parse_u64_at(&v, fr[3]);
            let sectors_read = parse_u64_at(&v, fr[5]);
            let writes = parse_u64_at(&v, fr[7]);
            let sectors_written = parse_u64_at(&v, fr[9]);
            if let (Some(reads), Some(sectors_read), Some(writes), Some(sectors_written)) = (
                reads,
                sectors_read,
                writes,
                sectors_written,
            ) {
                let name = text.substring_char(fr[2].0, fr[2].1);
                entry = Some(DiskCounters { name, reads, sectors_read, writes, sectors_written });
            }
        }
        proof {
            match diskstats_entry(line) {
                Some(x) => {
                    assert(filter_map_lines(lines(v@.skip(start as int)), f) =~= seq![x] + rest);
                },
                None => {
                    assert(filter_map_lines(lines(v@.skip(start as int)), f) =~= rest);
                },
            }
        }
        match entry {
            Some(e) => {
                proof {
                    assert forall|i: int| 0 <= i < rest.len() implies want[out@.len() + 1 + i]
                        == #[trigger] rest[i] by {
                        assert(filter_map_lines(lines(v@.skip(start as int)), f)[i + 1] == rest[i]);
                    }
                    assert(filter_map_lines(lines(v@.skip(start as int)), f)[0] == want[out@.len()
                        + 0int]);
                }
                out.push(e);
            },
            None => {},
        }
        start = next;
    }
    proof {
        assert(v@.skip(start as int) =~= Seq::<char>::empty());
    }
    out
}

// ---------------------------------------------------------------------------------
// udev

/// `(KEY, VALUE)` of an `E:KEY=VALUE` line (split at the first `=`).
pub open spec fn udev_entry(line: Seq<char>) -> Option<(Seq<char>, Seq<char>)> {
    let rest = line.skip(2);
    let i = count_until(rest, '=') as int;
    if starts_with(line, "E:"@) && i < rest.len() {
        Some((rest.take(i), rest.skip(i + 1)))
    } else {
        None
    }
}

pub open spec fn udev_entries(text: Seq<char>) -> Seq<(Seq<char>, Seq<char>)> {
    filter_map_lines(lines(text), |l: Seq<char>| udev_entry(l))
}

/// The `E:KEY=VALUE` lines of a udev database entry, in order; where a key occurs
/// twice, the later value is the one that counts.
pub fn udev_props(text: &str) -> (out: Vec<(String, String)>)
    ensures
        out@.len() == udev_entries(text@).len(),
        forall|i: int|
            0 <= i < out@.len() ==> ((#[trigger] out@[i]).0@, out@[i].1@) == udev_entries(text@)[i],
{
    let v = chars_of(text);
    let prefix = chars_of("E:");
    proof {
        reveal_strlit("E:");
    }
    let ghost f = |l: Seq<char>| udev_entry(l);
    let ghost want = udev_entries(text@);
    let mut out: Vec<(String, String)> = Vec::new();
    let mut start: usize = 0;
    proof {
        assert(v@.skip(0) =~= v@);
    }
    while start < v.len()
        invariant
            start <= v@.len(),
            v@ == text@,
            prefix@ == "E:"@,
            prefix@.len() == 2,
            want == udev_entries(text@),
            f == (|l: Seq<char>| udev_entry(l)),
            out@.len() + filter_map_lines(lines(v@.skip(start as int)), f).len() == want.len(),
            forall|i: int| 0 <= i < out@.len() ==> ((#[trigger] out@[i]).0@, out@[i].1@) == want[i],
            forall|i: int|
                0 <= i < filter_map_lines(lines(v@.skip(start as int)), f).len() ==> want[out@.len()
                    + i] == #[trigger] filter_map_lines(lines(v@.skip(start as int)), f)[i],
        decreases v@.len() - start,
    {
        let (end, next) = line_at(&v, start);
        let ghost line = v@.subrange(start as int, end as int);
        let ghost rest = filter_map_lines(lines(v@.skip(next as int)), f);
        proof {
            lemma_lines_step(v@, start as int, end as int, next as int);
        }
        let mut entry: Option<(String, String)> = None;
        if range_starts_with(&v, (start, end), &prefix) {
            let eq = find_char(&v, start + 2, end, '=');
            proof {
                assert(v@.subrange(start + 2, end as int) =~= line.skip(2));
            }
            if eq < end {
                proof {
                    assert(v@.subrange(start + 2, eq as int) =~= line.skip(2).take(eq - start - 2));
                    assert(v@.subrange(eq + 1, end as int) =~= line.skip(2).skip(eq - start - 1));
                }
                let key = text.substring_char(start + 2, eq).to_owned();
                let value = text.substring_char(eq + 1, end).to_owned();
                entry = Some((key, value));
            }
        }
        proof {
            match udev_entry(line) {
                Some(x) => {
                    assert(filter_map_lines(lines(v@.skip(start as int)), f) =~= seq![x] + rest);
                },
                None => {
                    assert(filter_map_lines(lines(v@.skip(start as int)), f) =~= rest);
                },
            }
        }
        match entry {
            Some(e) => {
                proof {
                    assert forall|i: int| 0 <= i < rest.len() implies want[out@.len() + 1 + i]
                        == #[trigger] rest[i] by {
                        assert(filter_map_lines(lines(v@.skip(start as int)), f)[i + 1] == rest[i]);
                    }
                    assert(filter_map_lines(lines(v@.skip(start as int)), f)[0] == want[out@.len()
                        + 0int]);
                }
                out.push(e);
            },
            None => {},
        }
        start = next;
    }
    proof {
        assert(v@.skip(start as int) =~= Seq::<char>::empty());
    }
    out
}

/// What identifies a drive across reboots, and what to call it.
#[derive(Clone, Debug, PartialEq, Eq)]
pub struct DriveInfo {
    pub name: String,
    /// udev's `ID_SERIAL` (model + serial): the same drive keeps it across reboots.
    pub id: String,
    pub serial: Option<String>,
    pub model: String,
}

pub open spec fn props_view(props: Seq<(String, String)>) -> Seq<(Seq<char>, Seq<char>)> {
    props.map_values(|p: (String, String)| (p.0@, p.1@))
}

/// The value `props` give `key`: the last entry for it wins.
pub open spec fn prop_value(props: Seq<(Seq<char>, Seq<char>)>, key: Seq<char>) -> Option<Seq<char>>
    decreases props.len(),
{
    if props.len() == 0 {
        None
    } else if props.last().0 == key {
        Some(props.last().1)
    } else {
        prop_value(props.drop_last(), key)
    }
}

/// udev writes spaces in model names as `_`.
pub open spec fn model_text(m: Seq<char>) -> Seq<char> {
    trim(m.map_values(|c: char| if c == '_' { ' ' } else { c }))
}

/// The model name udev gives, if it gives a non-empty one.
pub open spec fn udev_model_of(props: Seq<(Seq<char>, Seq<char>)>) -> Option<Seq<char>> {
    match prop_value(props, "ID_MODEL"@) {
        Some(m) => if model_text(m).len() > 0 {
            Some(model_text(m))
        } else {
            None
        },
        None => None,
    }
}

/// A drive's name: udev's model, else the kernel's `device/model`, else its kernel
/// name.
pub open spec fn drive_model(
    props: Seq<(Seq<char>, Seq<char>)>,
    sysfs_model: Option<Seq<char>>,
    name: Seq<char>,
) -> Seq<char> {
    match udev_model_of(props) {
        Some(m) => m,
        None => match sysfs_model {
            Some(m) => if trim(m).len() > 0 {
                trim(m)
            } else {
                name
            },
            None => name,
        },
    }
}

fn prop_get<'a>(props: &'a [(String, String)], key: &String) -> (v: Option<&'a String>)
    ensures
        match v {
            Some(s) => prop_value(props_view(props@), key@) == Some(s@),
            None => prop_value(props_view(props@), key@) is None,
        },
{
    let ghost all = props_view(props@);
    let mut i = props.len();
    proof {
        assert(all.take(i as int) =~= all);
    }
    while i > 0
        invariant
            i <= props@.len(),
            all == props_view(props@),
            prop_value(all, key@) == prop_value(all.take(i as int), key@),
        decreases i,
    {
        let ghost pre = all.take(i as int);
        assert(pre.drop_last() =~= all.take(i - 1));
        assert(pre.last() == (props@[i - 1].0@, props@[i - 1].1@));
        if props[i - 1].0 == *key {
            return Some(&props[i - 1].1);
        }
        i = i - 1;
    }
    None
}

/// The model name udev gives a drive, with its `_` written as spaces and trimmed;
/// `None` when udev gives none, or only blanks.
pub fn udev_model(props: &[(String, String)]) -> (m: Option<String>)
    ensures
        match m {
            Some(s) => udev_model_of(props_view(props@)) == Some(s@),
            None => udev_model_of(props_view(props@)) is None,
        },
{
    let key = String::from_str("ID_MODEL");
    proof {
        reveal_strlit("ID_MODEL");
    }
    let raw = match prop_get(props, &key) {
        Some(m) => m,
        None => return None,
    };
    let src = chars_of(raw.as_str());
    let mut spaced: Vec<char> = Vec::new();
    let mut i: usize = 0;
    while i < src.len()
        invariant
            i <= src@.len(),
            spaced@ == src@.take(i as int).map_values(|c: char| if c == '_' { ' ' } else { c }),
        decreases src@.len() - i,
    {
        let c = src[i];
        spaced.push(if c == '_' { ' ' } else { c });
        assert(spaced@ =~= src@.take(i + 1).map_values(|c: char| if c == '_' { ' ' } else { c }));
        i = i + 1;
    }
    assert(src@.take(src@.len() as int) =~= src@);
    let r = trim_range(&spaced, 0, spaced.len());
    assert(spaced@.subrange(0, spaced@.len() as int) =~= spaced@);
    if r.0 == r.1 {
        return None;
    }
    let mut out = String::new();
    let mut k = r.0;
    while k < r.1
        invariant
            r.0 <= k <= r.1 <= spaced@.len(),
            out@ == spaced@.subrange(r.0 as int, k as int),
        decreases r.1 - k,
    {
        push_char(&mut out, spaced[k]);
        assert(out@ =~= spaced@.subrange(r.0 as int, k + 1));
        k = k + 1;
    }
    Some(out)
}

/// What identifies a drive and what to call it, from udev's properties for it and the
/// kernel's `device/model` (read where udev gives no model): udev's `ID_SERIAL`
/// identifies it, else its kernel name.
pub fn drive_info(name: &str, props: &[(String, String)], sysfs_model: Option<&str>) -> (d: DriveInfo)
    ensures
        d.name@ == name@,
        d.model@ == drive_model(
            props_view(props@),
            match sysfs_model {
                Some(m) => Some(m@),
                None => None,
            },
            name@,
        ),
        d.id@ == match prop_value(props_view(props@), "ID_SERIAL"@) {
            Some(s) => s,
            None => name@,
        },
        match d.serial {
            Some(s) => prop_value(props_view(props@), "ID_SERIAL_SHORT"@) == Some(s@),
            None => prop_value(props_view(props@), "ID_SERIAL_SHORT"@) is None,
        },
{
    let model = match udev_model(props) {
        Some(m) => m,
        None => match sysfs_model {
            Some(m) => {
                let v = chars_of(m);
                let r = trim_range(&v, 0, v.len());
                assert(v@.subrange(0, v@.len() as int) =~= v@);
                if r.0 == r.1 {
                    name.to_owned()
                } else {
                    m.substring_char(r.0, r.1).to_owned()
                }
            },
            None => name.to_owned(),
        },
    };
    let serial_key = String::from_str("ID_SERIAL");
    let short_key = String::from_str("ID_SERIAL_SHORT");
    let id = match prop_get(props, &serial_key) {
        Some(s) => s.clone(),
        None => name.to_owned(),
    };
    let serial = match prop_get(props, &short_key) {
        Some(s) => Some(s.clone()),
        None => None,
    };
    DriveInfo { name: name.to_owned(), id, serial, model }
}

// ---------------------------------------------------------------------------------
// Mount paths

pub open spec fn is_octal(b: u8) -> bool {
    48 <= b && b <= 55
}

/// `\ooo` at the start of `b` (the kernel's escape for space, tab, newline and
/// backslash in mount paths).
pub open spec fn starts_with_escape(b: Seq<u8>) -> bool {
    b.len() > 3 && b[0] == 92 && is_octal(b[1]) && is_octal(b[2]) && is_octal(b[3])
}

pub open spec fn escape_value(b: Seq<u8>) -> nat {
    ((b[1] - 48) * 64 + (b[2] - 48) * 8 + (b[3] - 48)) as nat
}

/// The bytes with every `\ooo` escape replaced by the byte it stands for; an escape
/// needs four bytes, so a shorter one at the end stays as it is.
pub open spec fn unescape_bytes(b: Seq<u8>) -> Seq<u8>
    decreases b.len(),
{
    if b.len() == 0 {
        seq![]
    } else if starts_with_escape(b) {
        seq![escape_value(b) as u8] + unescape_bytes(b.skip(4))
    } else {
        seq![b[0]] + unescape_bytes(b.drop_first())
    }
}

/// Every escape that gets decoded stands for a byte (`\000` to `\377`).
pub open spec fn escapes_fit(b: Seq<u8>) -> bool
    decreases b.len(),
{
    if b.len() == 0 {
        true
    } else if starts_with_escape(b) {
        escape_value(b) <= 255 && escapes_fit(b.skip(4))
    } else {
        escapes_fit(b.drop_first())
    }
}

/// Decodes the kernel's `\ooo` escapes in a mount path.
pub fn unescape_octal(s: &str) -> (out: String)
    requires
        escapes_fit(encode_utf8(s@)),
    ensures
        out@ == utf8_lossy(unescape_bytes(encode_utf8(s@))),
        valid_utf8(unescape_bytes(encode_utf8(s@))) ==> out@ == decode_utf8(unescape_bytes(encode_utf8(s@))),
{
    let bytes = s.as_bytes();
    let mut out: Vec<u8> = Vec::new();
    let mut i: usize = 0;
    proof {
        assert(bytes@.skip(0) =~= bytes@);
    }
    while i < bytes.len()
        invariant
            i <= bytes@.len(),
            bytes@ == encode_utf8(s@),
            out@ + unescape_bytes(bytes@.skip(i as int)) == unescape_bytes(bytes@),
            escapes_fit(bytes@.skip(i as int)),
        decreases bytes@.len() - i,
    {
        let ghost rest = bytes@.skip(i as int);
        if bytes[i] == 92 && bytes.len() - i > 3 && 48 <= bytes[i + 1] && bytes[i + 1] <= 55 && 48
            <= bytes[i + 2] && bytes[i + 2] <= 55 && 48 <= bytes[i + 3] && bytes[i + 3] <= 55 {
            assert(starts_with_escape(rest));
            let value = (bytes[i + 1] - 48) * 64 + (bytes[i + 2] - 48) * 8 + (bytes[i + 3] - 48);
            proof {
                assert(rest.skip(4) =~= bytes@.skip(i + 4));
                assert(out@.push(value) + unescape_bytes(bytes@.skip(i + 4)) =~= out@
                    + unescape_bytes(rest));
            }
            out.push(value);
            i = i + 4;
        } else {
            assert(!starts_with_escape(rest));
            proof {
                assert(rest.drop_first() =~= bytes@.skip(i + 1));
                assert(out@.push(bytes@[i as int]) + unescape_bytes(bytes@.skip(i + 1)) =~= out@
                    + unescape_bytes(rest));
            }
            out.push(bytes[i]);
            i = i + 1;
        }
    }
    proof {
        assert(bytes@.skip(i as int) =~= Seq::<u8>::empty());
        assert(out@ =~= out@ + unescape_bytes(bytes@.skip(i as int)));
    }
    string_from_utf8_lossy(out.as_slice())
}

// ---------------------------------------------------------------------------------
// Mounts

#[derive(Clone, Debug, PartialEq, Eq)]
pub struct MountEntry {
    pub device: String,
    pub mount: String,
    pub fstype: String,
}

/// A mount path (or device) with its `\ooo` escapes decoded.
pub open spec fn unescaped(x: Seq<char>) -> Seq<char> {
    utf8_lossy(unescape_bytes(encode_utf8(x)))
}

/// Where the decoded bytes of `x` are valid UTF-8, `x` unescapes to the text they
/// encode.
pub open spec fn decodes_plainly(x: Seq<char>) -> bool {
    valid_utf8(unescape_bytes(encode_utf8(x))) ==> unescaped(x) == decode_utf8(unescape_bytes(encode_utf8(x)))
}

/// The device and mount path of a block device mount line decode plainly.
pub open spec fn mount_line_plain(line: Seq<char>) -> bool {
    mount_fields(line) matches Some((d, mt, t)) ==> decodes_plainly(d) && decodes_plainly(mt)
}

/// Length in bytes, what `str::len` counts.
pub open spec fn byte_len(x: Seq<char>) -> nat {
    encode_utf8(x).len()
}

/// `(device, mount, fstype)` of a mount line backed by a block device (`/dev/...`,
/// except squashfs images), still escaped.
pub open spec fn mount_fields(line: Seq<char>) -> Option<(Seq<char>, Seq<char>, Seq<char>)> {
    let f = fields(line);
    if f.len() >= 3 && f[0].len() >= 5 && f[0].take(5) == "/dev/"@ && f[2] != "squashfs"@ {
        Some((f[0], f[1], f[2]))
    } else {
        None
    }
}

/// Device -> `(mount, fstype)`: a device mounted several times (btrfs subvolumes,
/// bind mounts) keeps its shortest mount path, the first one among equally short ones.
pub open spec fn mount_step(m: Map<Seq<char>, (Seq<char>, Seq<char>)>, line: Seq<char>) -> Map<
    Seq<char>,
    (Seq<char>, Seq<char>),
> {
    match mount_fields(line) {
        None => m,
        Some((d, mt, t)) => {
            let dev = unescaped(d);
            let mnt = unescaped(mt);
            if m.contains_key(dev) && byte_len(m[dev].0) <= byte_len(mnt) {
                m
            } else {
                m.insert(dev, (mnt, t))
            }
        },
    }
}

pub open spec fn mounts_fold(ls: Seq<Seq<char>>, m: Map<Seq<char>, (Seq<char>, Seq<char>)>) -> Map<
    Seq<char>,
    (Seq<char>, Seq<char>),
>
    decreases ls.len(),
{
    if ls.len() == 0 {
        m
    } else {
        mounts_fold(ls.drop_first(), mount_step(m, ls[0]))
    }
}

/// The mounts of `/proc/self/mounts`, by device.
pub open spec fn mounts_of(text: Seq<char>) -> Map<Seq<char>, (Seq<char>, Seq<char>)> {
    mounts_fold(lines(text), Map::empty())
}

/// The escapes in each block device mount line decode to bytes.
pub open spec fn mount_line_fits(line: Seq<char>) -> bool {
    mount_fields(line) matches Some((d, mt, t)) ==> escapes_fit(encode_utf8(d)) && escapes_fit(
        encode_utf8(mt),
    )
}

pub open spec fn mounts_fit(text: Seq<char>) -> bool {
    forall|i: int| 0 <= i < lines(text).len() ==> mount_line_fits(#[trigger] lines(text)[i])
}

/// Block-device-backed mounts from `/proc/self/mounts`, one per device (btrfs
/// subvolumes and bind mounts collapse to the shortest mount path), in mount path
/// order.
pub fn parse_mounts(text: &str) -> (out: Vec<MountEntry>)
    requires
        mounts_fit(text@),
    ensures
        forall|i: int|
            0 <= i < out@.len() ==> mounts_of(text@).contains_key((#[trigger] out@[i]).device@)
                && mounts_of(text@)[out@[i].device@] == (out@[i].mount@, out@[i].fstype@),
        forall|d: Seq<char>|
            #[trigger] mounts_of(text@).contains_key(d) ==> exists|i: int|
                0 <= i < out@.len() && (#[trigger] out@[i]).device@ == d,
        forall|i: int, j: int|
            0 <= i < j < out@.len() ==> (#[trigger] out@[i]).device@ != (#[trigger] out@[j]).device@,
        forall|i: int, j: int|
            0 <= i < j < out@.len() ==> seq_le((#[trigger] out@[i]).mount@, (#[trigger] out@[j]).mount@),
        forall|j: int| 0 <= j < lines(text@).len() ==> mount_line_plain(#[trigger] lines(text@)[j]),
{
    let v = chars_of(text);
    let ghost mut n: int = 0;
    let dev_prefix = chars_of("/dev/");
    let squashfs = chars_of("squashfs");
    let ghost target = mounts_of(text@);
    let ghost mut m: Map<Seq<char>, (Seq<char>, Seq<char>)> = Map::empty();
    let mut acc: Vec<MountEntry> = Vec::new();
    let mut start: usize = 0;
    proof {
        assert(v@.skip(0) =~= v@);
        assert(lines(text@).skip(0) =~= lines(text@));
    }
    while start < v.len()
        invariant
            start <= v@.len(),
            v@ == text@,
            dev_prefix@ == "/dev/"@,
            squashfs@ == "squashfs"@,
            target == mounts_of(text@),
            mounts_fold(lines(v@.skip(start as int)), m) == target,
            forall|i: int|
                0 <= i < lines(v@.skip(start as int)).len() ==> mount_line_fits(
                    #[trigger] lines(v@.skip(start as int))[i],
                ),
            forall|k: int|
                0 <= k < acc@.len() ==> m.contains_key((#[trigger] acc@[k]).device@) && m[acc@[k].device@]
                    == (acc@[k].mount@, acc@[k].fstype@),
            forall|d: Seq<char>|
                #[trigger] m.contains_key(d) ==> exists|k: int|
                    0 <= k < acc@.len() && (#[trigger] acc@[k]).device@ == d,
            forall|i: int, j: int|
                0 <= i < j < acc@.len() ==> (#[trigger] acc@[i]).device@ != (#[trigger] acc@[j]).device@,
            0 <= n <= lines(text@).len(),
            lines(v@.skip(start as int)) == lines(text@).skip(n),
            forall|j: int| 0 <= j < n ==> mount_line_plain(#[trigger] lines(text@)[j]),
        decreases v@.len() - start,
    {
        let (end, next) = line_at(&v, start);
        let ghost line = v@.subrange(start as int, end as int);
        proof {
            lemma_lines_step(v@, start as int, end as int, next as int);
            assert(mount_line_fits(line));
            assert forall|i: int| 0 <= i < lines(v@.skip(next as int)).len() implies mount_line_fits(
                #[trigger] lines(v@.skip(next as int))[i],
            ) by {
                assert(lines(v@.skip(next as int))[i] == lines(v@.skip(start as int))[i + 1]);
            }
        }
        let fr = field_ranges(&v, start, end);
        let ghost m0 = m;
        if fr.len() >= 3 && range_starts_with(&v, fr[0], &dev_prefix) && !range_eq(
            &v,
            fr[2],
            &squashfs,
        ) {
            proof {
                reveal_strlit("/dev/");
                assert(mount_fields(line) is Some);
            }
            let device = unescape_octal(text.substring_char(fr[0].0, fr[0].1));
            let mount = unescape_octal(text.substring_char(fr[1].0, fr[1].1));
            let fstype = text.substring_char(fr[2].0, fr[2].1).to_owned();
            let mount_len = mount.as_str().as_bytes().len();
            let mut k: usize = 0;
            while k < acc.len() && !(acc[k].device == device)
                invariant
                    k <= acc@.len(),
                    forall|q: int| 0 <= q < k ==> (#[trigger] acc@[q]).device@ != device@,
                decreases acc@.len() - k,
            {
                k = k + 1;
            }
            let entry = MountEntry { device, mount, fstype };
            proof {
                let f = fields(line);
                assert(entry.device@ == unescaped(f[0]));
                assert(entry.mount@ == unescaped(f[1]));
                assert(decodes_plainly(f[0]));
                assert(decodes_plainly(f[1]));
                assert(entry.fstype@ == f[2]);
                assert(mount_len == byte_len(entry.mount@));
                if k < acc@.len() {
                    assert(acc@[k as int].device@ == entry.device@);
                    assert(m0.contains_key(entry.device@));
                    assert(m0[entry.device@].0 == acc@[k as int].mount@);
                }
            }
            if k < acc.len() {
                if acc[k].mount.as_str().as_bytes().len() <= mount_len {
                    // The one already kept is at least as short.
                } else {
                    proof {
                        m = m.insert(entry.device@, (entry.mount@, entry.fstype@));
                    }
                    let ghost old_acc = acc@;
                    acc.set(k, entry);
                    proof {
                        assert forall|d: Seq<char>| #[trigger] m.contains_key(d) implies exists|q: int|
                            0 <= q < acc@.len() && (#[trigger] acc@[q]).device@ == d by {
                            if d != acc@[k as int].device@ {
                                assert(m0.contains_key(d));
                                let q = choose|q: int| 0 <= q < old_acc.len() && (#[trigger] old_acc[q]).device@ == d;
                                assert(q != k);
                                assert(acc@[q].device@ == d);
                            } else {
                                assert(acc@[k as int].device@ == d);
                            }
                        }
                    }
                }
            } else {
                proof {
                    if m.contains_key(entry.device@) {
                        let q = choose|q: int| 0 <= q < acc@.len() && (#[trigger] acc@[q]).device@
                            == entry.device@;
                        assert(false);
                    }
                    m = m.insert(entry.device@, (entry.mount@, entry.fstype@));
                }
                let ghost old_acc = acc@;
                acc.push(entry);
                proof {
                    assert forall|d: Seq<char>| #[trigger] m.contains_key(d) implies exists|q: int|
                        0 <= q < acc@.len() && (#[trigger] acc@[q]).device@ == d by {
                        if d == acc@[old_acc.len() as int].device@ {
                        } else {
                            assert(m0.contains_key(d));
                            let q = choose|q: int| 0 <= q < old_acc.len() && (#[trigger] old_acc[q]).device@ == d;
                            assert(acc@[q].device@ == d);
                        }
                    }
                }
            }
        }
        assert(m == mount_step(m0, line));
        proof {
            assert(lines(text@).skip(n)[0] == line);
            assert(lines(text@)[n] == line);
            assert(mount_line_plain(line));
            assert(lines(text@).skip(n).drop_first() =~= lines(text@).skip(n + 1));
            n = n + 1;
        }
        start = next;
    }
    proof {
        assert(v@.skip(start as int) =~= Seq::<char>::empty());
        assert(m == target);
        assert(lines(text@).skip(n).len() == 0);
    }
    let out = sort_by_mount(acc);
    proof {
        let perm = choose|perm: Seq<int>|
            #![trigger perm.len()]
            perm.len() == out@.len() && out@.len() == acc@.len() && (forall|i: int|
                0 <= i < perm.len() ==> 0 <= #[trigger] perm[i] < acc@.len() && out@[i] == acc@[perm[i]])
                && (forall|i: int, j: int|
                0 <= i < j < perm.len() ==> #[trigger] perm[i] != #[trigger] perm[j]) && (forall|j: int|
                0 <= j < acc@.len() ==> #[trigger] hits(perm, j));
        assert forall|i: int| 0 <= i < out@.len() implies target.contains_key((#[trigger] out@[i]).device@)
            && target[out@[i].device@] == (out@[i].mount@, out@[i].fstype@) by {
            assert(out@[i] == acc@[perm[i]]);
        }
        assert forall|d: Seq<char>| #[trigger] target.contains_key(d) implies exists|i: int|
            0 <= i < out@.len() && (#[trigger] out@[i]).device@ == d by {
            let k = choose|k: int| 0 <= k < acc@.len() && (#[trigger] acc@[k]).device@ == d;
            assert(hits(perm, k));
            let i = choose|i: int| 0 <= i < perm.len() && #[trigger] perm[i] == k;
            assert(out@[i] == acc@[k]);
        }
        assert forall|i: int, j: int| 0 <= i < j < out@.len() implies (#[trigger] out@[i]).device@
            != (#[trigger] out@[j]).device@ by {
            assert(out@[i] == acc@[perm[i]] && out@[j] == acc@[perm[j]]);
            if perm[i] < perm[j] {
            } else {
            }
        }
    }
    out
}

/// Whether every escape of `s` stands for a byte, as [`unescape_octal`] needs.
fn escapes_fit_text(s: &str) -> (b: bool)
    ensures
        b == escapes_fit(encode_utf8(s@)),
{
    let bytes = s.as_bytes();
    let mut i: usize = 0;
    proof {
        assert(bytes@.skip(0) =~= bytes@);
    }
    while i < bytes.len()
        invariant
            i <= bytes@.len(),
            bytes@ == encode_utf8(s@),
            escapes_fit(bytes@) == escapes_fit(bytes@.skip(i as int)),
        decreases bytes@.len() - i,
    {
        let ghost rest = bytes@.skip(i as int);
        if bytes[i] == 92 && bytes.len() - i > 3 && 48 <= bytes[i + 1] && bytes[i + 1] <= 55 && 48
            <= bytes[i + 2] && bytes[i + 2] <= 55 && 48 <= bytes[i + 3] && bytes[i + 3] <= 55 {
            assert(starts_with_escape(rest));
            let value: u32 = (bytes[i + 1] - 48) as u32 * 64 + (bytes[i + 2] - 48) as u32 * 8 + (
            bytes[i + 3] - 48) as u32;
            if value > 255 {
                return false;
            }
            proof {
                assert(rest.skip(4) =~= bytes@.skip(i + 4));
            }
            i = i + 4;
        } else {
            assert(!starts_with_escape(rest));
            proof {
                assert(rest.drop_first() =~= bytes@.skip(i + 1));
            }
            i = i + 1;
        }
    }
    proof {
        assert(bytes@.skip(i as int) =~= Seq::<u8>::empty());
    }
    true
}

/// Whether the escapes of every block device mount line of `text` stand for bytes, as
/// [`parse_mounts`] needs.
pub fn mounts_fit_text(text: &str) -> (b: bool)
    ensures
        b == mounts_fit(text@),
{
    let v = chars_of(text);
    let dev_prefix = chars_of("/dev/");
    let squashfs = chars_of("squashfs");
    let mut start: usize = 0;
    proof {
        assert(v@.skip(0) =~= v@);
    }
    while start < v.len()
        invariant
            start <= v@.len(),
            v@ == text@,
            dev_prefix@ == "/dev/"@,
            squashfs@ == "squashfs"@,
            mounts_fit(text@) <==> (forall|i: int|
                0 <= i < lines(v@.skip(start as int)).len() ==> mount_line_fits(
                    #[trigger] lines(v@.skip(start as int))[i],
                )),
        decreases v@.len() - start,
    {
        let (end, next) = line_at(&v, start);
        let ghost line = v@.subrange(start as int, end as int);
        let ghost here = lines(v@.skip(start as int));
        let ghost rest_lines = lines(v@.skip(next as int));
        proof {
            lemma_lines_step(v@, start as int, end as int, next as int);
            assert(here[0] == line);
            assert forall|i: int| 0 <= i < rest_lines.len() implies #[trigger] rest_lines[i]
                == here[i + 1] by {}
            assert((forall|i: int| 0 <= i < here.len() ==> mount_line_fits(#[trigger] here[i]))
                <==> (mount_line_fits(line) && forall|i: int|
                0 <= i < rest_lines.len() ==> mount_line_fits(#[trigger] rest_lines[i]))) by {
                if mount_line_fits(line) && forall|i: int|
                    0 <= i < rest_lines.len() ==> mount_line_fits(#[trigger] rest_lines[i]) {
                    assert forall|i: int| 0 <= i < here.len() implies mount_line_fits(
                        #[trigger] here[i],
                    ) by {
                        if i > 0 {
                            assert(here[i] == rest_lines[i - 1]);
                        }
                    }
                }
            }
        }
        let fr = field_ranges(&v, start, end);
        if fr.len() >= 3 && range_starts_with(&v, fr[0], &dev_prefix) && !range_eq(
            &v,
            fr[2],
            &squashfs,
        ) {
            proof {
                reveal_strlit("/dev/");
                assert(mount_fields(line) is Some);
            }
            let device = text.substring_char(fr[0].0, fr[0].1);
            let mount = text.substring_char(fr[1].0, fr[1].1);
            proof {
                let f = fields(line);
                assert(device@ == f[0]);
                assert(mount@ == f[1]);
            }
            if !escapes_fit_text(device) || !escapes_fit_text(mount) {
                return false;
            }
        } else {
            assert(mount_fields(line) is None);
        }
        start = next;
    }
    proof {
        assert(v@.skip(start as int) =~= Seq::<char>::empty());
    }
    true
}

// ---------------------------------------------------------------------------------
// Mounts by disk

pub open spec fn disks_view(disks: Seq<Vec<String>>) -> Seq<Seq<Seq<char>>> {
    disks.map_values(|v: Vec<String>| v@.map_values(|s: String| s@))
}

/// Every disk of every mount, in order.
pub open spec fn all_disks(ds: Seq<Seq<Seq<char>>>) -> Seq<Seq<char>>
    decreases ds.len(),
{
    if ds.len() == 0 {
        seq![]
    } else {
        all_disks(ds.drop_last()) + ds.last()
    }
}

/// `s` without repeats, each kept where it first occurs.
pub open spec fn first_appearances(s: Seq<Seq<char>>) -> Seq<Seq<char>>
    decreases s.len(),
{
    if s.len() == 0 {
        seq![]
    } else {
        let r = first_appearances(s.drop_last());
        if r.contains(s.last()) {
            r
        } else {
            r.push(s.last())
        }
    }
}

/// `i` once for every time `row` lists `d`.
pub open spec fn hits_in(row: Seq<Seq<char>>, d: Seq<char>, i: usize) -> Seq<usize>
    decreases row.len(),
{
    if row.len() == 0 {
        seq![]
    } else {
        hits_in(row.drop_last(), d, i) + if row.last() == d {
            seq![i]
        } else {
            seq![]
        }
    }
}

/// The mounts that lie on disk `d`, in order.
pub open spec fn mounts_on(ds: Seq<Seq<Seq<char>>>, d: Seq<char>) -> Seq<usize>
    decreases ds.len(),
{
    if ds.len() == 0 {
        seq![]
    } else {
        mounts_on(ds.drop_last(), d) + hits_in(ds.last(), d, (ds.len() - 1) as usize)
    }
}

proof fn lemma_hits_in(row: Seq<Seq<char>>, d: Seq<char>, i: usize, x: usize)
    ensures
        hits_in(row, d, i).contains(x) <==> (x == i && row.contains(d)),
    decreases row.len(),
{
    if row.len() > 0 {
        lemma_hits_in(row.drop_last(), d, i, x);
        let r = hits_in(row.drop_last(), d, i);
        let tail: Seq<usize> = if row.last() == d { seq![i] } else { seq![] };
        if (r + tail).contains(x) {
            let k = choose|k: int| 0 <= k < (r + tail).len() && (r + tail)[k] == x;
            if k < r.len() {
                assert(r[k] == x);
            }
        }
        if x == i && row.contains(d) {
            let k = choose|k: int| 0 <= k < row.len() && row[k] == d;
            if k < row.len() - 1 {
                assert(row.drop_last()[k] == d);
                let m = choose|m: int| 0 <= m < r.len() && r[m] == x;
                assert((r + tail)[m] == x);
            } else {
                assert((r + tail)[r.len() as int] == x);
            }
        }
        if row.drop_last().contains(d) {
            let k = choose|k: int| 0 <= k < row.drop_last().len() && row.drop_last()[k] == d;
            assert(row[k] == d);
        }
    }
}

/// The groups tell each mount's disks exactly: mount `i` is listed under disk `d` if
/// and only if `d` is one of the disks it lies on.
pub proof fn lemma_mounts_on(ds: Seq<Seq<Seq<char>>>, d: Seq<char>, i: usize)
    requires
        ds.len() <= usize::MAX,
    ensures
        mounts_on(ds, d).contains(i) <==> (i < ds.len() && ds[i as int].contains(d)),
    decreases ds.len(),
{
    if ds.len() > 0 {
        let n = (ds.len() - 1) as usize;
        lemma_mounts_on(ds.drop_last(), d, i);
        lemma_hits_in(ds.last(), d, n, i);
        let (a, b) = (mounts_on(ds.drop_last(), d), hits_in(ds.last(), d, n));
        if (a + b).contains(i) {
            let k = choose|k: int| 0 <= k < (a + b).len() && (a + b)[k] == i;
            if k < a.len() {
                assert(a[k] == i);
            } else {
                assert(b[k - a.len()] == i);
            }
        }
        if i < ds.len() && ds[i as int].contains(d) {
            if i < n {
                assert(ds.drop_last()[i as int] == ds[i as int]);
                let k = choose|k: int| 0 <= k < a.len() && a[k] == i;
                assert((a + b)[k] == i);
            } else {
                assert(ds[i as int] == ds.last());
                let k = choose|k: int| 0 <= k < b.len() && b[k] == i;
                assert((a + b)[a.len() + k] == i);
            }
        }
        if i < n && ds.drop_last()[i as int].contains(d) {
            assert(ds.drop_last()[i as int] == ds[i as int]);
        }
    }
}

/// Each disk gets one group: the disks come without repeats, and every disk some
/// mount lies on is among them.
pub proof fn lemma_one_group_per_disk(s: Seq<Seq<char>>)
    ensures
        forall|a: int, b: int|
            0 <= a < b < first_appearances(s).len() ==> #[trigger] first_appearances(s)[a]
                != #[trigger] first_appearances(s)[b],
        forall|x: Seq<char>| #[trigger] first_appearances(s).contains(x) <==> s.contains(x),
    decreases s.len(),
{
    if s.len() > 0 {
        lemma_one_group_per_disk(s.drop_last());
        let r = first_appearances(s.drop_last());
        assert forall|x: Seq<char>| #[trigger] first_appearances(s).contains(x) <==> s.contains(x) by {
            if s.drop_last().contains(x) {
                let k = choose|k: int| 0 <= k < s.drop_last().len() && s.drop_last()[k] == x;
                assert(s[k] == x);
            }
            if s.contains(x) && x != s.last() {
                let k = choose|k: int| 0 <= k < s.len() && s[k] == x;
                assert(s.drop_last()[k] == x);
            }
            if !r.contains(s.last()) {
                assert(r.push(s.last())[r.len() as int] == s.last());
                if r.push(s.last()).contains(x) {
                    let k = choose|k: int| 0 <= k < r.push(s.last()).len() && r.push(s.last())[k] == x;
                    if k < r.len() {
                        assert(r[k] == x);
                    }
                }
                if r.contains(x) {
                    let k = choose|k: int| 0 <= k < r.len() && r[k] == x;
                    assert(r.push(s.last())[k] == x);
                }
            }
            if x == s.last() {
                assert(s[s.len() - 1] == x);
            }
        }
    }
}

/// Each disk with the mounts that lie on it, from `disks[i]`, the disks mount `i` lies
/// on (one for a plain partition, several under LVM or RAID). Disks come in the order
/// they first appear.
pub fn group_by_disk(disks: &[Vec<String>]) -> (groups: Vec<(String, Vec<usize>)>)
    ensures
        groups@.len() == first_appearances(all_disks(disks_view(disks@))).len(),
        forall|k: int|
            0 <= k < groups@.len() ==> (#[trigger] groups@[k]).0@ == first_appearances(
                all_disks(disks_view(disks@)),
            )[k] && groups@[k].1@ == mounts_on(disks_view(disks@), groups@[k].0@),
{
    let ghost dv = disks_view(disks@);
    let mut keys: Vec<String> = Vec::new();
    let mut i: usize = 0;
    proof {
        assert(dv.take(0) =~= Seq::<Seq<Seq<char>>>::empty());
    }
    while i < disks.len()
        invariant
            i <= disks@.len(),
            dv == disks_view(disks@),
            keys@.map_values(|s: String| s@) == first_appearances(all_disks(dv.take(i as int))),
        decreases disks@.len() - i,
    {
        let row = &disks[i];
        let ghost before = all_disks(dv.take(i as int));
        let mut j: usize = 0;
        proof {
            assert(dv[i as int].take(0) =~= Seq::<Seq<char>>::empty());
            assert(before + dv[i as int].take(0) =~= before);
        }
        while j < row.len()
            invariant
                i < disks@.len(),
                j <= row@.len(),
                row@ == disks@[i as int]@,
                dv == disks_view(disks@),
                dv[i as int] == row@.map_values(|s: String| s@),
                keys@.map_values(|s: String| s@) == first_appearances(
                    before + dv[i as int].take(j as int),
                ),
            decreases row@.len() - j,
        {
            let ghost seen = before + dv[i as int].take(j as int);
            let ghost fa = first_appearances(seen);
            let mut k: usize = 0;
            while k < keys.len() && !(keys[k] == row[j])
                invariant
                    k <= keys@.len(),
                    j < row@.len(),
                    forall|q: int| 0 <= q < k ==> (#[trigger] keys@[q])@ != row@[j as int]@,
                decreases keys@.len() - k,
            {
                k = k + 1;
            }
            let ghost x = row@[j as int]@;
            proof {
                assert(seen.push(x) =~= before + dv[i as int].take(j + 1));
                assert(seen.push(x).drop_last() =~= seen);
                if k < keys@.len() {
                    assert(fa[k as int] == x);
                    assert(fa.contains(x));
                } else {
                    assert forall|q: int| 0 <= q < fa.len() implies fa[q] != x by {
                        assert(fa[q] == keys@[q]@);
                    }
                }
            }
            if k == keys.len() {
                keys.push(row[j].clone());
                assert(keys@.map_values(|s: String| s@) =~= fa.push(x));
            }
            j = j + 1;
        }
        proof {
            assert(dv[i as int].take(row@.len() as int) =~= dv[i as int]);
            assert(dv.take(i + 1).drop_last() =~= dv.take(i as int));
        }
        i = i + 1;
    }
    proof {
        assert(dv.take(disks@.len() as int) =~= dv);
    }
    let ghost fa = first_appearances(all_disks(dv));
    let mut groups: Vec<(String, Vec<usize>)> = Vec::new();
    let mut k: usize = 0;
    while k < keys.len()
        invariant
            k <= keys@.len(),
            dv == disks_view(disks@),
            keys@.map_values(|s: String| s@) == fa,
            groups@.len() == k,
            forall|q: int|
                0 <= q < k ==> (#[trigger] groups@[q]).0@ == fa[q] && groups@[q].1@ == mounts_on(
                    dv,
                    groups@[q].0@,
                ),
        decreases keys@.len() - k,
    {
        let key = &keys[k];
        let ghost d = key@;
        let mut list: Vec<usize> = Vec::new();
        let mut i: usize = 0;
        while i < disks.len()
            invariant
                i <= disks@.len(),
                dv == disks_view(disks@),
                list@ == mounts_on(dv.take(i as int), d),
                key@ == d,
            decreases disks@.len() - i,
        {
            let row = &disks[i];
            let ghost before = list@;
            let mut j: usize = 0;
            proof {
                assert(dv[i as int].take(0) =~= Seq::<Seq<char>>::empty());
            }
            while j < row.len()
                invariant
                    i < disks@.len(),
                    j <= row@.len(),
                    row@ == disks@[i as int]@,
                    dv == disks_view(disks@),
                    dv[i as int] == row@.map_values(|s: String| s@),
                    key@ == d,
                    list@ == before + hits_in(dv[i as int].take(j as int), d, i),
                decreases row@.len() - j,
            {
                proof {
                    assert(dv[i as int].take(j + 1).drop_last() =~= dv[i as int].take(j as int));
                }
                if row[j] == *key {
                    list.push(i);
                }
                assert(list@ =~= before + hits_in(dv[i as int].take(j + 1), d, i));
                j = j + 1;
            }
            proof {
                assert(dv[i as int].take(row@.len() as int) =~= dv[i as int]);
                assert(dv.take(i + 1).drop_last() =~= dv.take(i as int));
            }
            i = i + 1;
        }
        proof {
            assert(dv.take(disks@.len() as int) =~= dv);
            assert(keys@[k as int]@ == fa[k as int]);
        }
        groups.push((key.clone(), list));
        k = k + 1;
    }
    groups
}

/// Whether one of the mounts `on` (indices into `mounts`) is the root filesystem.
pub fn holds_root(mounts: &[MountEntry], on: &[usize]) -> (b: bool)
    requires
        forall|k: int| 0 <= k < on@.len() ==> (#[trigger] on@[k]) < mounts@.len(),
    ensures
        b == exists|k: int| 0 <= k < on@.len() && mounts@[#[trigger] on@[k] as int].mount@ == "/"@,
{
    let root = String::from_str("/");
    let mut k: usize = 0;
    while k < on.len()
        invariant
            k <= on@.len(),
            root@ == "/"@,
            forall|q: int| 0 <= q < on@.len() ==> (#[trigger] on@[q]) < mounts@.len(),
            forall|q: int| 0 <= q < k ==> mounts@[#[trigger] on@[q] as int].mount@ != "/"@,
        decreases on@.len() - k,
    {
        if mounts[on[k]].mount == root {
            return true;
        }
        k = k + 1;
    }
    false
}

// ---------------------------------------------------------------------------------
// Drive order

/// Drive `a` may come before drive `b` (each `(kernel name, holds the root
/// filesystem)`): the boot drive first, the rest by name.
pub open spec fn drive_before(a: (Seq<char>, bool), b: (Seq<char>, bool)) -> bool {
    (a.1 && !b.1) || (a.1 == b.1 && seq_le(a.0, b.0))
}

pub open spec fn drive_keys(drives: Seq<(String, bool)>) -> Seq<(Seq<char>, bool)> {
    drives.map_values(|d: (String, bool)| (d.0@, d.1))
}

/// Whether `j` is one of the entries of `order`.
pub open spec fn listed(order: Seq<usize>, j: int) -> bool {
    exists|i: int| 0 <= i < order.len() && order[i] == j
}

proof fn lemma_drive_before_total(a: (Seq<char>, bool), b: (Seq<char>, bool))
    ensures
        drive_before(a, b) || drive_before(b, a),
{
    lemma_seq_le_total(a.0, b.0);
}

proof fn lemma_drive_before_trans(a: (Seq<char>, bool), b: (Seq<char>, bool), c: (Seq<char>, bool))
    requires
        drive_before(a, b),
        drive_before(b, c),
    ensures
        drive_before(a, c),
{
    if a.1 == b.1 && b.1 == c.1 {
        lemma_seq_le_trans(a.0, b.0, c.0);
    }
}

/// The order drives are listed in: the one holding the root filesystem first, then
/// by kernel name; drives that tie keep their order. Returns the indices of `drives`.
pub fn drive_order(drives: &[(String, bool)]) -> (order: Vec<usize>)
    ensures
        order@.len() == drives@.len(),
        forall|i: int| 0 <= i < order@.len() ==> #[trigger] order@[i] < drives@.len(),
        forall|i: int, j: int| 0 <= i < j < order@.len() ==> #[trigger] order@[i] != #[trigger] order@[j],
        forall|j: int| 0 <= j < drives@.len() ==> #[trigger] listed(order@, j),
        forall|i: int, j: int|
            0 <= i < j < order@.len() ==> drive_before(
                drive_keys(drives@)[#[trigger] order@[i] as int],
                drive_keys(drives@)[#[trigger] order@[j] as int],
            ),
        // Drives that tie keep their order.
        forall|i: int, j: int|
            0 <= i < j < order@.len() && drive_keys(drives@)[#[trigger] order@[i] as int] == drive_keys(
                drives@,
            )[#[trigger] order@[j] as int] ==> order@[i] < order@[j],
{
    let ghost d = drive_keys(drives@);
    let mut names: Vec<Vec<char>> = Vec::new();
    let mut i: usize = 0;
    while i < drives.len()
        invariant
            i <= drives@.len(),
            d == drive_keys(drives@),
            names@.len() == i,
            forall|j: int| 0 <= j < i ==> (#[trigger] names@[j])@ == d[j].0,
        decreases drives@.len() - i,
    {
        names.push(chars_of(drives[i].0.as_str()));
        i = i + 1;
    }
    let mut out: Vec<usize> = Vec::new();
    let mut k: usize = 0;
    while k < drives.len()
        invariant
            k <= drives@.len(),
            d == drive_keys(drives@),
            d.len() == drives@.len(),
            names@.len() == drives@.len(),
            forall|j: int| 0 <= j < names@.len() ==> (#[trigger] names@[j])@ == d[j].0,
            forall|j: int| 0 <= j < names@.len() ==> (#[trigger] d[j]).1 == drives@[j].1,
            out@.len() == k,
            forall|i: int| 0 <= i < k ==> #[trigger] out@[i] < k,
            forall|i: int, j: int| 0 <= i < j < k ==> #[trigger] out@[i] != #[trigger] out@[j],
            forall|j: int| 0 <= j < k ==> #[trigger] listed(out@, j),
            forall|i: int, j: int|
                0 <= i < j < k ==> drive_before(
                    d[#[trigger] out@[i] as int],
                    d[#[trigger] out@[j] as int],
                ),
            forall|i: int, j: int|
                0 <= i < j < k && d[#[trigger] out@[i] as int] == d[#[trigger] out@[j] as int]
                    ==> out@[i] < out@[j],
        decreases drives@.len() - k,
    {
        let boot = drives[k].1;
        // After every drive that may come before this one.
        let mut p: usize = 0;
        while p < out.len() && ((drives[out[p]].1 && !boot) || (drives[out[p]].1 == boot
            && chars_le(&names[out[p]], &names[k])))
            invariant
                p <= out@.len(),
                k < drives@.len(),
                boot == drives@[k as int].1,
                forall|i: int| 0 <= i < out@.len() ==> #[trigger] out@[i] < k,
                forall|j: int| 0 <= j < names@.len() ==> (#[trigger] names@[j])@ == d[j].0,
                forall|j: int| 0 <= j < names@.len() ==> (#[trigger] d[j]).1 == drives@[j].1,
                names@.len() == drives@.len(),
                d.len() == drives@.len(),
                forall|i: int| 0 <= i < p ==> drive_before(d[#[trigger] out@[i] as int], d[k as int]),
            decreases out@.len() - p,
        {
            p = p + 1;
        }
        proof {
            if p < out@.len() {
                assert(!drive_before(d[out@[p as int] as int], d[k as int]));
                lemma_drive_before_total(d[out@[p as int] as int], d[k as int]);
            }
            assert forall|j: int| p <= j < out@.len() implies drive_before(
                d[k as int],
                d[#[trigger] out@[j] as int],
            ) && !drive_before(d[out@[j] as int], d[k as int]) by {
                if j > p {
                    lemma_drive_before_trans(d[k as int], d[out@[p as int] as int], d[out@[j] as int]);
                    if drive_before(d[out@[j] as int], d[k as int]) {
                        lemma_drive_before_trans(
                            d[out@[p as int] as int],
                            d[out@[j] as int],
                            d[k as int],
                        );
                    }
                }
            }
        }
        let ghost old_out = out@;
        out.insert(p, k);
        proof {
            assert forall|i: int| 0 <= i < k + 1 implies #[trigger] out@[i] < k + 1 by {
                if i < p {
                    assert(out@[i] == old_out[i]);
                } else if i > p {
                    assert(out@[i] == old_out[i - 1]);
                }
            }
            assert forall|i: int, j: int| 0 <= i < j < k + 1 implies #[trigger] out@[i]
                != #[trigger] out@[j] by {
                if i < p && j < p {
                } else if i < p && j == p {
                    assert(out@[i] == old_out[i]);
                } else if i < p {
                    assert(out@[i] == old_out[i] && out@[j] == old_out[j - 1]);
                } else if i == p {
                    assert(out@[j] == old_out[j - 1]);
                } else {
                    assert(out@[i] == old_out[i - 1] && out@[j] == old_out[j - 1]);
                }
            }
            assert forall|j: int| 0 <= j < k + 1 implies #[trigger] listed(out@, j) by {
                if j == k {
                    assert(out@[p as int] == j);
                } else {
                    assert(listed(old_out, j));
                    let i = choose|i: int| 0 <= i < old_out.len() && old_out[i] == j;
                    if i < p {
                        assert(out@[i] == j);
                    } else {
                        assert(out@[i + 1] == j);
                    }
                }
            }
            assert forall|i: int, j: int| 0 <= i < j < k + 1 implies drive_before(
                d[#[trigger] out@[i] as int],
                d[#[trigger] out@[j] as int],
            ) && (d[out@[i] as int] == d[out@[j] as int] ==> out@[i] < out@[j]) by {
                if j < p {
                    assert(out@[i] == old_out[i] && out@[j] == old_out[j]);
                } else if j == p {
                    assert(out@[i] == old_out[i]);
                } else if i < p {
                    assert(out@[i] == old_out[i] && out@[j] == old_out[j - 1]);
                    lemma_drive_before_trans(
                        d[old_out[i] as int],
                        d[k as int],
                        d[old_out[j - 1] as int],
                    );
                } else if i == p {
                    assert(out@[j] == old_out[j - 1]);
                    if d[out@[i] as int] == d[out@[j] as int] {
                        lemma_seq_le_refl(d[k as int].0);
                    }
                } else {
                    assert(out@[i] == old_out[i - 1] && out@[j] == old_out[j - 1]);
                }
            }
        }
        k = k + 1;
    }
    out
}

/// Whether `j` is one of the entries of `perm`.
pub open spec fn hits(perm: Seq<int>, j: int) -> bool {
    exists|i: int| 0 <= i < perm.len() && perm[i] == j
}

/// `acc` reordered by mount path.
fn sort_by_mount(acc: Vec<MountEntry>) -> (out: Vec<MountEntry>)
    ensures
        exists|perm: Seq<int>|
            #![trigger perm.len()]
            perm.len() == out@.len() && out@.len() == acc@.len() && (forall|i: int|
                0 <= i < perm.len() ==> 0 <= #[trigger] perm[i] < acc@.len() && out@[i] == acc@[perm[i]])
                && (forall|i: int, j: int|
                0 <= i < j < perm.len() ==> #[trigger] perm[i] != #[trigger] perm[j]) && (forall|j: int|
                0 <= j < acc@.len() ==> #[trigger] hits(perm, j)),
        forall|i: int, j: int|
            0 <= i < j < out@.len() ==> seq_le((#[trigger] out@[i]).mount@, (#[trigger] out@[j]).mount@),
{
    let mut out: Vec<MountEntry> = Vec::new();
    let mut keys: Vec<Vec<char>> = Vec::new();
    let ghost mut perm: Seq<int> = seq![];
    let mut k: usize = 0;
    while k < acc.len()
        invariant
            k <= acc@.len(),
            out@.len() == k,
            keys@.len() == k,
            perm.len() == k,
            forall|i: int| 0 <= i < k ==> (#[trigger] keys@[i])@ == out@[i].mount@,
            forall|i: int|
                0 <= i < k ==> 0 <= #[trigger] perm[i] < k && out@[i] == acc@[perm[i]],
            forall|i: int, j: int| 0 <= i < j < k ==> #[trigger] perm[i] != #[trigger] perm[j],
            forall|j: int| 0 <= j < k ==> #[trigger] hits(perm, j),
            forall|i: int, j: int|
                0 <= i < j < k ==> seq_le((#[trigger] out@[i]).mount@, (#[trigger] out@[j]).mount@),
        decreases acc@.len() - k,
    {
        let e = MountEntry {
            device: acc[k].device.clone(),
            mount: acc[k].mount.clone(),
            fstype: acc[k].fstype.clone(),
        };
        let key = chars_of(e.mount.as_str());
        let mut p: usize = 0;
        while p < out.len() && chars_le(&keys[p], &key)
            invariant
                p <= out@.len(),
                out@.len() == keys@.len(),
                forall|i: int| 0 <= i < out@.len() ==> (#[trigger] keys@[i])@ == out@[i].mount@,
                forall|i: int| 0 <= i < p ==> seq_le((#[trigger] out@[i]).mount@, key@),
            decreases out@.len() - p,
        {
            p = p + 1;
        }
        proof {
            if p < out@.len() {
                lemma_seq_le_total(key@, out@[p as int].mount@);
            }
            assert forall|j: int| p <= j < out@.len() implies seq_le(key@, (#[trigger] out@[j]).mount@) by {
                if j > p {
                    lemma_seq_le_trans(key@, out@[p as int].mount@, out@[j].mount@);
                }
            }
        }
        let ghost old_out = out@;
        let ghost old_perm = perm;
        out.insert(p, e);
        keys.insert(p, key);
        proof {
            perm = perm.insert(p as int, k as int);
            assert forall|i: int, j: int| 0 <= i < j < k + 1 implies seq_le(
                (#[trigger] out@[i]).mount@,
                (#[trigger] out@[j]).mount@,
            ) by {
                if j < p {
                    assert(out@[i] == old_out[i] && out@[j] == old_out[j]);
                } else if j == p {
                    assert(out@[i] == old_out[i]);
                } else if i < p {
                    assert(out@[i] == old_out[i] && out@[j] == old_out[j - 1]);
                    lemma_seq_le_trans(old_out[i].mount@, acc@[k as int].mount@, old_out[j - 1].mount@);
                } else if i == p {
                    assert(out@[j] == old_out[j - 1]);
                } else {
                    assert(out@[i] == old_out[i - 1] && out@[j] == old_out[j - 1]);
                }
            }
            assert forall|i: int| 0 <= i < k + 1 implies 0 <= #[trigger] perm[i] < k + 1 && out@[i]
                == acc@[perm[i]] by {
                if i < p {
                    assert(perm[i] == old_perm[i]);
                } else if i > p {
                    assert(perm[i] == old_perm[i - 1]);
                }
            }
            assert forall|i: int, j: int| 0 <= i < j < k + 1 implies #[trigger] perm[i]
                != #[trigger] perm[j] by {
                if i < p && j < p {
                } else if i < p && j == p {
                    assert(perm[i] == old_perm[i]);
                } else if i < p {
                    assert(perm[i] == old_perm[i] && perm[j] == old_perm[j - 1]);
                } else if i == p {
                    assert(perm[j] == old_perm[j - 1]);
                } else {
                    assert(perm[i] == old_perm[i - 1] && perm[j] == old_perm[j - 1]);
                }
            }
            assert forall|j: int| 0 <= j < k + 1 implies #[trigger] hits(perm, j) by {
                if j == k {
                    assert(perm[p as int] == j);
                } else {
                    assert(hits(old_perm, j));
                    let i = choose|i: int| 0 <= i < old_perm.len() && #[trigger] old_perm[i] == j;
                    if i < p {
                        assert(perm[i] == j);
                    } else {
                        assert(perm[i + 1] == j);
                    }
                }
            }
        }
        k = k + 1;
    }
    proof {
        assert(exists|perm2: Seq<int>| #![trigger perm2.len()] perm2 == perm && perm2.len() == perm.len());
    }
    out
}

} // verus!
