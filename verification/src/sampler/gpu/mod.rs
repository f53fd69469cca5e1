//! GPUs: which card files are GPUs, how each is sampled and named, usage and memory
//! from DRM fdinfo, names from the PCI ID database, and the slots NVML and sysfs
//! agree on.
pub mod fdinfo;
pub mod intel;
pub mod nvidia;
pub mod pci_ids;

use vstd::prelude::*;
use vstd::string::StringExecFns;

use crate::text::{
    all_digits, at_range, chars_le, chars_of, is_digit, lemma_seq_le_antisym,
    lemma_seq_le_total, lemma_seq_le_trans, lowercase, ascii_lowered, is_ascii_text, parse_hex_u32, parse_hex_u32_at,
    range_starts_with, seq_le, starts_with, to_lowercase, trim, trim_range,
};

verus! {

/// `card0`, not connectors like `card0-DP-1` or render nodes.
pub open spec fn card_name(name: Seq<char>) -> bool {
    starts_with(name, "card"@) && name.len() > 4 && all_digits(name.skip(4))
}

pub fn is_card_name(name: &str) -> (b: bool)
    ensures
        b == card_name(name@),
{
    let v = chars_of(name);
    let p = chars_of("card");
    let n = v.len();
    proof {
        reveal_strlit("card");
        crate::text::lemma_at_range_full(v@);
    }
    if !range_starts_with(&v, (0, n), &p) || n <= 4 {
        return false;
    }
    let mut i: usize = 4;
    while i < v.len()
        invariant
            4 <= i <= v@.len(),
            v@ == name@,
            forall|k: int| 4 <= k < i ==> is_digit(v@[k]),
        decreases v@.len() - i,
    {
        if !('0' <= v[i] && v[i] <= '9') {
            assert(v@.skip(4)[i - 4] == v@[i as int]);
            assert(!is_digit(v@.skip(4)[i - 4]));
            assert(!all_digits(v@.skip(4)));
            return false;
        }
        i = i + 1;
    }
    assert forall|k: int| 0 <= k < v@.skip(4).len() implies is_digit(#[trigger] v@.skip(4)[k]) by {
        assert(v@.skip(4)[k] == v@[k + 4]);
    }
    true
}

/// The hex text without every leading `0x`.
pub open spec fn without_0x(s: Seq<char>) -> Seq<char>
    decreases s.len(),
{
    if s.len() >= 2 && s[0] == '0' && s[1] == 'x' {
        without_0x(s.skip(2))
    } else {
        s
    }
}

/// A PCI vendor or device id as sysfs writes it (`0x1002`).
pub open spec fn pci_id(text: Seq<char>) -> Option<u16> {
    match parse_hex_u32(without_0x(trim(text))) {
        Some(v) => if v <= 0xffff { Some(v as u16) } else { None },
        None => None,
    }
}

pub fn parse_pci_id(text: &str) -> (id: Option<u16>)
    ensures
        id == pci_id(text@),
{
    let v = chars_of(text);
    let t = trim_range(&v, 0, v.len());
    proof {
        assert(v@.subrange(0, v@.len() as int) =~= text@);
    }
    let mut a = t.0;
    proof {
        assert(at_range(v@, (a, t.1)) =~= trim(text@));
    }
    while t.1 - a >= 2 && v[a] == '0' && v[a + 1] == 'x'
        invariant
            t.0 <= a <= t.1 <= v@.len(),
            without_0x(at_range(v@, (a, t.1))) == without_0x(trim(text@)),
        decreases t.1 - a,
    {
        proof {
            assert(at_range(v@, (a, t.1)).skip(2) =~= at_range(v@, ((a + 2) as usize, t.1)));
        }
        a = a + 2;
    }
    match parse_hex_u32_at(&v, (a, t.1)) {
        Some(x) => if x <= 0xffff {
            Some(x as u16)
        } else {
            None
        },
        None => None,
    }
}

/// How a GPU is sampled.
#[derive(Clone, Copy, Debug, PartialEq, Eq)]
pub enum BackendKind {
    Amd,
    Intel,
    /// NVML, with the GPU's NVML index.
    Nvidia(u32),
    /// Unknown driver: whatever hwmon offers (temperatures, maybe power).
    Basic,
}

/// The backend for a GPU with `driver`, given its NVML index if NVML knows it.
pub fn backend_kind(driver: &str, nvml_index: Option<u32>) -> (k: BackendKind)
    ensures
        k == if driver@ == "amdgpu"@ {
            BackendKind::Amd
        } else if driver@ == "i915"@ || driver@ == "xe"@ {
            BackendKind::Intel
        } else {
            match nvml_index {
                Some(i) => BackendKind::Nvidia(i),
                None => BackendKind::Basic,
            }
        },
{
    let d = driver.to_owned();
    if d == "amdgpu".to_owned() {
        BackendKind::Amd
    } else if d == "i915".to_owned() || d == "xe".to_owned() {
        BackendKind::Intel
    } else {
        match nvml_index {
            Some(i) => BackendKind::Nvidia(i),
            None => BackendKind::Basic,
        }
    }
}

/// What to call a GPU: NVML's name, else the PCI database's, else its slot.
pub fn gpu_name(nvml_name: Option<String>, pci_name: Option<String>, slot: &str) -> (s: String)
    ensures
        s@ == match (nvml_name, pci_name) {
            (Some(n), _) => n@,
            (None, Some(p)) => p@,
            (None, None) => "GPU "@ + slot@,
        },
{
    match (nvml_name, pci_name) {
        (Some(n), _) => n,
        (None, Some(p)) => p,
        (None, None) => {
            let mut s = String::from_str("GPU ");
            s.append(slot);
            s
        },
    }
}

/// The readable name of a hwmon temperature sensor from its `tempN_label` text
/// (none: no label file).
pub open spec fn temp_name(label: Seq<char>) -> Seq<char> {
    if label == "edge"@ {
        "Edge"@
    } else if label == "junction"@ {
        "Hotspot"@
    } else if label == "mem"@ || label == "vram"@ {
        "Memory"@
    } else if label == "pkg"@ {
        "Package"@
    } else if label.len() == 0 {
        "GPU"@
    } else {
        label
    }
}

pub fn temp_label(label_file: Option<&str>) -> (s: String)
    ensures
        s@ == temp_name(
            match label_file {
                Some(t) => lowercase(trim(t@)),
                None => seq![],
            },
        ),
        match label_file {
            Some(t) => is_ascii_text(trim(t@)) ==> s@ == temp_name(ascii_lowered(trim(t@))),
            None => true,
        },
{
    let label = match label_file {
        Some(t) => {
            let v = chars_of(t);
            let r = trim_range(&v, 0, v.len());
            proof {
                assert(v@.subrange(0, v@.len() as int) =~= t@);
            }
            to_lowercase(t.substring_char(r.0, r.1))
        },
        None => String::new(),
    };
    if label == "edge".to_owned() {
        "Edge".to_owned()
    } else if label == "junction".to_owned() {
        "Hotspot".to_owned()
    } else if label == "mem".to_owned() || label == "vram".to_owned() {
        "Memory".to_owned()
    } else if label == "pkg".to_owned() {
        "Package".to_owned()
    } else if label.as_str().unicode_len() == 0 {
        "GPU".to_owned()
    } else {
        label
    }
}


// ---------------------------------------------------------------------------------
// One card per slot

/// `a` sorts strictly before `b`.
pub open spec fn slot_before(a: Seq<char>, b: Seq<char>) -> bool {
    seq_le(a, b) && a != b
}

proof fn lemma_slot_before_trans(a: Seq<char>, b: Seq<char>, c: Seq<char>)
    requires
        slot_before(a, b),
        slot_before(b, c),
    ensures
        slot_before(a, c),
{
    lemma_seq_le_trans(a, b, c);
    if a == c {
        lemma_seq_le_antisym(a, b);
    }
}

/// Card `m`'s slot is the slot of one of the cards in `keep`.
pub open spec fn represented(s: Seq<Seq<char>>, keep: Seq<usize>, m: int) -> bool {
    exists|i: int| 0 <= i < keep.len() && s[keep[i] as int] == s[m]
}

/// `keep` lists indices of `s` in strictly increasing slot order, each the first card
/// in its slot, and every slot of the first `n` cards is among them.
pub open spec fn one_per_slot_upto(s: Seq<Seq<char>>, keep: Seq<usize>, n: int) -> bool {
    &&& forall|i: int| 0 <= i < keep.len() ==> #[trigger] keep[i] < n
    &&& forall|i: int, j: int|
        0 <= i < j < keep.len() ==> slot_before(s[#[trigger] keep[i] as int], s[#[trigger] keep[j] as int])
    &&& forall|m: int| 0 <= m < n ==> #[trigger] represented(s, keep, m)
    &&& forall|i: int, q: int|
        0 <= i < keep.len() && 0 <= q < keep[i] ==> #[trigger] s[q] != s[#[trigger] keep[i] as int]
}

proof fn lemma_insert_position(s: Seq<Seq<char>>, keep: Seq<usize>, p: int, k: usize)
    requires
        k < s.len(),
        0 <= p <= keep.len(),
        one_per_slot_upto(s, keep, k as int),
        forall|i: int| 0 <= i < p ==> slot_before(s[#[trigger] keep[i] as int], s[k as int]),
        p < keep.len() ==> !seq_le(s[keep[p] as int], s[k as int]),
    ensures
        forall|j: int| p <= j < keep.len() ==> slot_before(s[k as int], s[#[trigger] keep[j] as int]),
        forall|q: int| 0 <= q < k ==> #[trigger] s[q] != s[k as int],
{
    let sk = s[k as int];
    if p < keep.len() {
        lemma_seq_le_total(s[keep[p] as int], sk);
    }
    assert forall|j: int| p <= j < keep.len() implies slot_before(sk, s[#[trigger] keep[j] as int]) by {
        if j > p {
            lemma_slot_before_trans(sk, s[keep[p] as int], s[keep[j] as int]);
        }
    }
    // No kept card has this slot, so no earlier card has it either.
    assert forall|q: int| 0 <= q < k implies #[trigger] s[q] != sk by {
        if s[q] == sk {
            assert(represented(s, keep, q));
            let i = choose|i: int| 0 <= i < keep.len() && s[keep[i] as int] == s[q];
            if i < p {
                assert(slot_before(s[keep[i] as int], sk));
            } else {
                assert(slot_before(sk, s[keep[i] as int]));
            }
        }
    }
}

proof fn lemma_keep_inserted(s: Seq<Seq<char>>, keep: Seq<usize>, p: int, k: usize)
    requires
        k < s.len(),
        0 <= p <= keep.len(),
        one_per_slot_upto(s, keep, k as int),
        forall|i: int| 0 <= i < p ==> slot_before(s[#[trigger] keep[i] as int], s[k as int]),
        forall|j: int| p <= j < keep.len() ==> slot_before(s[k as int], s[#[trigger] keep[j] as int]),
        forall|q: int| 0 <= q < k ==> #[trigger] s[q] != s[k as int],
    ensures
        one_per_slot_upto(s, keep.insert(p, k), k + 1),
{
    let sk = s[k as int];
    let out = keep.insert(p, k);
    assert forall|i: int| 0 <= i < out.len() implies #[trigger] out[i] < k + 1 by {
        if i < p {
            assert(out[i] == keep[i]);
        } else if i > p {
            assert(out[i] == keep[i - 1]);
        }
    }
    assert forall|i: int, j: int| 0 <= i < j < out.len() implies slot_before(
        s[#[trigger] out[i] as int],
        s[#[trigger] out[j] as int],
    ) by {
        if j < p {
            assert(out[i] == keep[i] && out[j] == keep[j]);
        } else if j == p {
            assert(out[i] == keep[i]);
        } else if i < p {
            assert(out[i] == keep[i] && out[j] == keep[j - 1]);
            lemma_slot_before_trans(s[keep[i] as int], sk, s[keep[j - 1] as int]);
        } else if i == p {
            assert(out[j] == keep[j - 1]);
        } else {
            assert(out[i] == keep[i - 1] && out[j] == keep[j - 1]);
        }
    }
    assert forall|m: int| 0 <= m < k + 1 implies #[trigger] represented(s, out, m) by {
        if m == k {
            assert(out[p] == k);
        } else {
            assert(represented(s, keep, m));
            let i = choose|i: int| 0 <= i < keep.len() && s[keep[i] as int] == s[m];
            if i < p {
                assert(out[i] == keep[i]);
            } else {
                assert(out[i + 1] == keep[i]);
            }
        }
    }
    assert forall|i: int, q: int| 0 <= i < out.len() && 0 <= q < out[i] implies #[trigger] s[q]
        != s[#[trigger] out[i] as int] by {
        if i < p {
            assert(out[i] == keep[i]);
        } else if i > p {
            assert(out[i] == keep[i - 1]);
        }
    }
}

pub open spec fn slots_view(slots: Seq<String>) -> Seq<Seq<char>> {
    slots.map_values(|x: String| x@)
}

/// The cards to keep of those found, one per PCI slot (a card shows up once per DRM
/// node): for each slot the first card found in it, in slot order. `slots[i]` is card
/// `i`'s slot; the result lists card indices.
pub fn one_per_slot(slots: &[String]) -> (keep: Vec<usize>)
    ensures
        one_per_slot_upto(slots_view(slots@), keep@, slots@.len() as int),
{
    let ghost sv = slots_view(slots@);
    let mut names: Vec<Vec<char>> = Vec::new();
    let mut i: usize = 0;
    while i < slots.len()
        invariant
            i <= slots@.len(),
            sv == slots_view(slots@),
            names@.len() == i,
            forall|j: int| 0 <= j < i ==> (#[trigger] names@[j])@ == sv[j],
        decreases slots@.len() - i,
    {
        names.push(chars_of(slots[i].as_str()));
        i = i + 1;
    }
    let mut out: Vec<usize> = Vec::new();
    let mut k: usize = 0;
    while k < slots.len()
        invariant
            k <= slots@.len(),
            sv == slots_view(slots@),
            names@.len() == slots@.len(),
            forall|j: int| 0 <= j < names@.len() ==> (#[trigger] names@[j])@ == sv[j],
            one_per_slot_upto(sv, out@, k as int),
        decreases slots@.len() - k,
    {
        let mut p: usize = 0;
        while p < out.len() && chars_le(&names[out[p]], &names[k]) && !(slots[out[p]] == slots[k])
            invariant
                p <= out@.len(),
                k < slots@.len(),
                sv == slots_view(slots@),
                names@.len() == slots@.len(),
                forall|j: int| 0 <= j < names@.len() ==> (#[trigger] names@[j])@ == sv[j],
                forall|i: int| 0 <= i < out@.len() ==> #[trigger] out@[i] < k,
                forall|i: int| 0 <= i < p ==> slot_before(sv[#[trigger] out@[i] as int], sv[k as int]),
            decreases out@.len() - p,
        {
            p = p + 1;
        }
        if p < out.len() && slots[out[p]] == slots[k] {
            // An earlier card in the same slot is kept.
            proof {
                let ghost pp = p as int;
                assert forall|m: int| 0 <= m < k + 1 implies #[trigger] represented(sv, out@, m) by {
                    if m == k {
                        assert(sv[out@[pp] as int] == sv[m]);
                    }
                }
            }
        } else {
            proof {
                if p < out@.len() {
                    assert(sv[out@[p as int] as int] != sv[k as int]);
                }
                lemma_insert_position(sv, out@, p as int, k);
                lemma_keep_inserted(sv, out@, p as int, k);
            }
            out.insert(p, k);
        }
        k = k + 1;
    }
    out
}

} // verus!
