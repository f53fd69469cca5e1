//! Friendly GPU names from the system's PCI ID database (`pci.ids`, from the hwdata
//! or pciutils packages on every major distro).
use vstd::prelude::*;

use crate::text::{
    at_range, chars_of, hex, last_index, lemma_lines_step, line_at, lines, push_hex, range_starts_with,
    rfind_char, starts_with, trim, trim_range, zero_padded,
};

verus! {

/// Where the database may be, in the order it is looked for.
pub const PATHS: [&'static str; 3] = [
    "/usr/share/hwdata/pci.ids",
    "/usr/share/misc/pci.ids",
    "/usr/share/pci.ids",
];

/// A vendor line starts with its id, in four lowercase hex digits, and two spaces.
pub open spec fn vendor_prefix(vendor: u16) -> Seq<char> {
    zero_padded(hex(vendor as nat), 4) + "  "@
}

/// A device line is indented by a tab under its vendor.
pub open spec fn device_prefix(device: u16) -> Seq<char> {
    seq!['\t'] + zero_padded(hex(device as nat), 4) + "  "@
}

/// The marketing name in the last brackets ("Navi 23 [Radeon RX 6600]" -> "Radeon RX
/// 6600"), or the whole name.
pub open spec fn marketing(name: Seq<char>) -> Seq<char> {
    let open = last_index(name, '[');
    let close = last_index(name, ']');
    if open >= 0 && close >= 0 && open < close {
        name.subrange(open + 1, close)
    } else {
        name
    }
}

/// The name found by reading `ls` on, `in_vendor` telling whether the lines are under
/// the wanted vendor: comments and blank lines are skipped; a line that is not
/// indented starts another vendor (the wanted one's section ending the search).
pub open spec fn lookup_lines(ls: Seq<Seq<char>>, in_vendor: bool, vp: Seq<char>, dp: Seq<char>) -> Option<Seq<char>>
    decreases ls.len(),
{
    if ls.len() == 0 {
        None
    } else {
        let line = ls[0];
        if line.len() == 0 || line[0] == '#' {
            lookup_lines(ls.drop_first(), in_vendor, vp, dp)
        } else if line[0] != '\t' {
            if in_vendor {
                None
            } else {
                lookup_lines(ls.drop_first(), starts_with(line, vp), vp, dp)
            }
        } else if in_vendor && starts_with(line, dp) {
            Some(marketing(trim(line.skip(dp.len() as int))))
        } else {
            lookup_lines(ls.drop_first(), in_vendor, vp, dp)
        }
    }
}

pub open spec fn pci_name(db: Seq<char>, vendor: u16, device: u16) -> Option<Seq<char>> {
    lookup_lines(lines(db), false, vendor_prefix(vendor), device_prefix(device))
}

fn prefix_chars(indent: bool, id: u16) -> (v: Vec<char>)
    ensures
        indent ==> v@ == device_prefix(id),
        !indent ==> v@ == vendor_prefix(id),
{
    let mut s = String::new();
    if indent {
        crate::text::push_char(&mut s, '\t');
    }
    push_hex(&mut s, id as u64, 4);
    crate::text::push_char(&mut s, ' ');
    crate::text::push_char(&mut s, ' ');
    proof {
        reveal_strlit("  ");
        assert("  "@ =~= seq![' ', ' ']);
        if indent {
            assert(s@ =~= device_prefix(id));
        } else {
            assert(s@ =~= vendor_prefix(id));
        }
    }
    chars_of(s.as_str())
}

/// The device's name, preferring the marketing name in brackets
/// ("Navi 23 [Radeon RX 6600/6600 XT/6600M]" -> "Radeon RX 6600/6600 XT/6600M").
pub fn lookup(db: &str, vendor: u16, device: u16) -> (r: Option<String>)
    ensures
        match r {
            Some(s) => pci_name(db@, vendor, device) == Some(s@),
            None => pci_name(db@, vendor, device) is None,
        },
{
    let v = chars_of(db);
    let vp = prefix_chars(false, vendor);
    let dp = prefix_chars(true, device);
    let mut in_vendor = false;
    let mut start: usize = 0;
    proof {
        assert(v@.skip(0) =~= v@);
    }
    while start < v.len()
        invariant
            start <= v@.len(),
            v@ == db@,
            vp@ == vendor_prefix(vendor),
            dp@ == device_prefix(device),
            lookup_lines(lines(v@.skip(start as int)), in_vendor, vp@, dp@) == pci_name(db@, vendor, device),
        decreases v@.len() - start,
    {
        let (end, next) = line_at(&v, start);
        let ghost line = v@.subrange(start as int, end as int);
        proof {
            lemma_lines_step(v@, start as int, end as int, next as int);
        }
        if end == start || v[start] == '#' {
            start = next;
        } else if v[start] != '\t' {
            if in_vendor {
                return None;
            }
            in_vendor = range_starts_with(&v, (start, end), &vp);
            start = next;
        } else if in_vendor && range_starts_with(&v, (start, end), &dp) {
            let t = trim_range(&v, start + dp.len(), end);
            proof {
                assert(v@.subrange(start + dp@.len(), end as int) =~= line.skip(dp@.len() as int));
            }
            let open = rfind_char(&v, t.0, t.1, '[');
            let close = rfind_char(&v, t.0, t.1, ']');
            let ghost name = at_range(v@, t);
            assert(name =~= v@.subrange(t.0 as int, t.1 as int));
            match (open, close) {
                (Some(o), Some(c)) => {
                    if o < c {
                        proof {
                            assert(name.subrange(o - t.0 + 1, c - t.0) =~= db@.subrange(
                                o + 1,
                                c as int,
                            ));
                        }
                        return Some(db.substring_char(o + 1, c).to_owned());
                    }
                },
                _ => {},
            }
            return Some(db.substring_char(t.0, t.1).to_owned());
        } else {
            start = next;
        }
    }
    proof {
        assert(v@.skip(start as int) =~= Seq::<char>::empty());
    }
    None
}

} // verus!
