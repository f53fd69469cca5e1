//! What each tile is called: its key in the config file and its title.
use vstd::prelude::*;
use vstd::string::StringExecFns;

use crate::metrics::{EnabledSet, MetricId};
use crate::text::{chars_of, count_until, find_char, trim, trim_range};

verus! {

/// The four tiles each GPU gets.
#[derive(Clone, Copy, Debug, PartialEq, Eq)]
pub enum GpuView {
    Usage,
    Power,
    Memory,
    Temp,
}

pub open spec fn gpu_view_key(v: GpuView) -> Seq<char> {
    match v {
        GpuView::Usage => "usage"@,
        GpuView::Power => "power"@,
        GpuView::Memory => "memory"@,
        GpuView::Temp => "temp"@,
    }
}

pub open spec fn gpu_view_label(v: GpuView) -> Seq<char> {
    match v {
        GpuView::Usage => "Usage"@,
        GpuView::Power => "Power"@,
        GpuView::Memory => "Memory"@,
        GpuView::Temp => "Temperature"@,
    }
}

impl GpuView {
    pub fn key(self) -> (s: &'static str)
        ensures
            s@ == gpu_view_key(self),
    {
        match self {
            GpuView::Usage => "usage",
            GpuView::Power => "power",
            GpuView::Memory => "memory",
            GpuView::Temp => "temp",
        }
    }

    pub fn label(self) -> (s: &'static str)
        ensures
            s@ == gpu_view_label(self),
    {
        match self {
            GpuView::Usage => "Usage",
            GpuView::Power => "Power",
            GpuView::Memory => "Memory",
            GpuView::Temp => "Temperature",
        }
    }
}

/// The part of `name` before the first `/`, trimmed.
pub open spec fn short_name(name: Seq<char>) -> Seq<char> {
    trim(name.take(count_until(name, '/') as int))
}

/// "Radeon RX 6600/6600 XT/6600M" -> "Radeon RX 6600": the database lists every
/// card sharing a chip; the first is enough for a title.
pub fn short_gpu_name(name: &str) -> (s: &str)
    ensures
        s@ == short_name(name@),
{
    let v = chars_of(name);
    let end = find_char(&v, 0, v.len(), '/');
    let r = trim_range(&v, 0, end);
    proof {
        assert(v@.subrange(0, v@.len() as int) =~= v@);
        assert(v@.subrange(0, end as int) =~= name@.take(end as int));
    }
    name.substring_char(r.0, r.1)
}

/// A tile of the dashboard, with what its key and title are made of.
pub enum Card<'a> {
    Cpu,
    Memory,
    Net(&'a str),
    /// A drive, by its stable id and its model name.
    Drive { id: &'a str, model: &'a str },
    /// One of a GPU's tiles, by the GPU's id (PCI slot) and name.
    Gpu { id: &'a str, name: &'a str, view: GpuView },
}

pub open spec fn card_key(c: Card) -> Seq<char> {
    match c {
        Card::Cpu => "cpu"@,
        Card::Memory => "memory"@,
        Card::Net(name) => "net:"@ + name@,
        Card::Drive { id, .. } => "drive:"@ + id@,
        Card::Gpu { id, view, .. } => "gpu:"@ + id@ + ":"@ + gpu_view_key(view),
    }
}

pub open spec fn card_title(c: Card) -> Seq<char> {
    match c {
        Card::Cpu => "CPU"@,
        Card::Memory => "Memory"@,
        Card::Net(name) => "Network · "@ + name@,
        Card::Drive { model, .. } => model@,
        Card::Gpu { name, view, .. } => short_name(name@) + " · "@ + gpu_view_label(view),
    }
}

impl<'a> Card<'a> {
    /// Stable identifier stored in the config file; never change the format.
    pub fn key(&self) -> (s: String)
        ensures
            s@ == card_key(*self),
    {
        match *self {
            Card::Cpu => "cpu".to_owned(),
            Card::Memory => "memory".to_owned(),
            Card::Net(name) => {
                let mut s = String::from_str("net:");
                s.append(name);
                s
            },
            Card::Drive { id, .. } => {
                let mut s = String::from_str("drive:");
                s.append(id);
                s
            },
            Card::Gpu { id, view, .. } => {
                let mut s = String::from_str("gpu:");
                s.append(id);
                s.append(":");
                s.append(view.key());
                s
            },
        }
    }

    pub fn title(&self) -> (s: String)
        ensures
            s@ == card_title(*self),
    {
        match *self {
            Card::Cpu => "CPU".to_owned(),
            Card::Memory => "Memory".to_owned(),
            Card::Net(name) => {
                let mut s = String::from_str("Network · ");
                s.append(name);
                s
            },
            Card::Drive { model, .. } => model.to_owned(),
            Card::Gpu { name, view, .. } => {
                let mut s = String::from_str(short_gpu_name(name));
                s.append(" · ");
                s.append(view.label());
                s
            },
        }
    }
}

/// What identifies a tile: its kind, and the id or name it is for.
pub open spec fn card_identity(c: Card) -> (int, Seq<char>, int) {
    match c {
        Card::Cpu => (0, seq![], 0),
        Card::Memory => (1, seq![], 0),
        Card::Net(name) => (2, name@, 0),
        Card::Drive { id, .. } => (3, id@, 0),
        Card::Gpu { id, view, .. } => (
            4,
            id@,
            match view {
                GpuView::Usage => 0,
                GpuView::Power => 1,
                GpuView::Memory => 2,
                GpuView::Temp => 3,
            },
        ),
    }
}

proof fn lemma_view_keys()
    ensures
        forall|v: GpuView| #![auto] gpu_view_key(v).len() >= 4 && !gpu_view_key(v).contains(':'),
        forall|v: GpuView, w: GpuView| #![auto] gpu_view_key(v) == gpu_view_key(w) ==> v == w,
{
    reveal_strlit("usage");
    reveal_strlit("power");
    reveal_strlit("memory");
    reveal_strlit("temp");
    assert forall|v: GpuView| #![auto] gpu_view_key(v).len() >= 4 && !gpu_view_key(v).contains(':') by {
        let k = gpu_view_key(v);
        assert forall|i: int| 0 <= i < k.len() implies k[i] != ':' by {}
    }
    assert forall|v: GpuView, w: GpuView| #![auto] gpu_view_key(v) == gpu_view_key(w) implies v == w by {
        let (a, b) = (gpu_view_key(v), gpu_view_key(w));
        if v != w {
            if a.len() == b.len() {
                assert(a[0] != b[0] || a[1] != b[1]);
            }
        }
    }
}

/// Tiles have distinct keys: the key says which kind of tile it is and which device
/// (and, for a GPU, which of its views).
pub proof fn lemma_card_keys_are_distinct(a: Card, b: Card)
    ensures
        card_key(a) == card_key(b) ==> card_identity(a) == card_identity(b),
{
    reveal_strlit("cpu");
    reveal_strlit("memory");
    reveal_strlit("net:");
    reveal_strlit("drive:");
    reveal_strlit("gpu:");
    reveal_strlit(":");
    lemma_view_keys();
    let (ka, kb) = (card_key(a), card_key(b));
    if ka == kb {
        // The first character tells the kind apart.
        assert(ka[0] == kb[0]);
        match (a, b) {
            (Card::Net(x), Card::Net(y)) => {
                assert(x@ =~= ka.skip(4));
                assert(y@ =~= kb.skip(4));
            },
            (Card::Drive { id: x, .. }, Card::Drive { id: y, .. }) => {
                assert(x@ =~= ka.skip(6));
                assert(y@ =~= kb.skip(6));
            },
            (Card::Gpu { id: x, view: vx, .. }, Card::Gpu { id: y, view: vy, .. }) => {
                let (sx, sy) = (gpu_view_key(vx), gpu_view_key(vy));
                let n = ka.len();
                assert(ka =~= "gpu:"@ + x@ + ":"@ + sx);
                assert(kb =~= "gpu:"@ + y@ + ":"@ + sy);
                // The view's key is what follows the last ':'.
                if sx.len() < sy.len() {
                    assert(ka[n - sx.len() - 1] == ':');
                    assert(kb[n - sx.len() - 1] == sy[sy.len() - sx.len() - 1]);
                    assert(sy.contains(sy[sy.len() - sx.len() - 1]));
                    assert(false);
                } else if sy.len() < sx.len() {
                    assert(kb[n - sy.len() - 1] == ':');
                    assert(ka[n - sy.len() - 1] == sx[sx.len() - sy.len() - 1]);
                    assert(sx.contains(sx[sx.len() - sy.len() - 1]));
                    assert(false);
                }
                assert(sx =~= ka.skip(n - sx.len()));
                assert(sy =~= kb.skip(n - sy.len()));
                assert(x@ =~= ka.subrange(4, n - sx.len() - 1));
                assert(y@ =~= kb.subrange(4, n - sy.len() - 1));
            },
            _ => {},
        }
    }
}

/// The title of a popped-out tile's window.
pub fn window_title(tile_title: &str) -> (s: String)
    ensures
        s@ == "Hyperion — "@ + tile_title@,
{
    let mut s = String::from_str("Hyperion — ");
    s.append(tile_title);
    s
}


// ---------------------------------------------------------------------------------
// Which tiles there are

/// A device's tile follows the user's choice, else the default.
pub open spec fn shown_by_choice(choice: Option<bool>, default: bool) -> bool {
    match choice {
        Some(b) => b,
        None => default,
    }
}

/// Whether a drive's tile is on: the user's choice, else only the boot drive.
pub fn drive_shown(choice: Option<bool>, boot: bool) -> (b: bool)
    ensures
        b == shown_by_choice(choice, boot),
{
    match choice {
        Some(b) => b,
        None => boot,
    }
}

/// Whether a GPU's tiles are on: the user's choice, else dedicated GPUs only (or the
/// integrated one when it's all there is).
pub fn gpu_shown(choice: Option<bool>, integrated: bool, any_dedicated: bool) -> (b: bool)
    ensures
        b == shown_by_choice(choice, !integrated || !any_dedicated),
{
    match choice {
        Some(b) => b,
        None => !integrated || !any_dedicated,
    }
}

/// What the tile list needs to know of one GPU: what it reports, and what the user
/// chose for it.
#[derive(Clone, Copy, Debug, PartialEq, Eq)]
pub struct GpuFacts {
    pub choice: Option<bool>,
    pub integrated: bool,
    /// Reports its usage.
    pub usage: bool,
    /// Reports its core clock.
    pub clock: bool,
    /// Reports its power draw.
    pub power: bool,
    /// Reports its VRAM.
    pub vram: bool,
    /// Reports memory it holds in system RAM.
    pub system_memory: bool,
    /// Reports at least one temperature.
    pub temps: bool,
}

/// What the tile list needs to know of the latest snapshot.
pub struct SnapshotFacts {
    pub cpu: bool,
    pub mem: bool,
    pub gpus: Vec<GpuFacts>,
    /// How many network interfaces there are.
    pub nets: usize,
    /// Each drive: the user's choice, and whether it holds the root filesystem.
    pub drives: Vec<(Option<bool>, bool)>,
}

/// One tile, by the index of its device in the snapshot.
#[derive(Clone, Copy, Debug, PartialEq, Eq)]
pub enum Tile {
    Cpu,
    Gpu(usize, GpuView),
    Memory,
    Net(usize),
    Drive(usize),
}

/// The tiles of GPU `i`: one per view that is switched on and that it reports.
pub open spec fn gpu_tiles(g: GpuFacts, i: usize, e: Set<MetricId>) -> Seq<Tile> {
    (if e.contains(MetricId::GpuUsage) && (g.usage || g.clock) {
        seq![Tile::Gpu(i, GpuView::Usage)]
    } else {
        seq![]
    }) + (if e.contains(MetricId::GpuPower) && g.power {
        seq![Tile::Gpu(i, GpuView::Power)]
    } else {
        seq![]
    }) + (if e.contains(MetricId::GpuMemory) && (g.vram || g.system_memory) {
        seq![Tile::Gpu(i, GpuView::Memory)]
    } else {
        seq![]
    }) + (if e.contains(MetricId::GpuTemp) && g.temps {
        seq![Tile::Gpu(i, GpuView::Temp)]
    } else {
        seq![]
    })
}

pub open spec fn any_dedicated(gs: Seq<GpuFacts>) -> bool {
    exists|i: int| 0 <= i < gs.len() && !(#[trigger] gs[i]).integrated
}

/// The tiles of the first `n` GPUs that are shown.
pub open spec fn gpus_tiles(gs: Seq<GpuFacts>, n: int, e: Set<MetricId>, dedicated: bool) -> Seq<Tile>
    decreases n,
{
    if n <= 0 {
        seq![]
    } else {
        let g = gs[n - 1];
        gpus_tiles(gs, n - 1, e, dedicated) + if shown_by_choice(
            g.choice,
            !g.integrated || !dedicated,
        ) {
            gpu_tiles(g, (n - 1) as usize, e)
        } else {
            seq![]
        }
    }
}

/// The tiles of the first `n` drives that are shown.
pub open spec fn drives_tiles(ds: Seq<(Option<bool>, bool)>, n: int) -> Seq<Tile>
    decreases n,
{
    if n <= 0 {
        seq![]
    } else {
        drives_tiles(ds, n - 1) + if shown_by_choice(ds[n - 1].0, ds[n - 1].1) {
            seq![Tile::Drive((n - 1) as usize)]
        } else {
            seq![]
        }
    }
}

/// Every tile the data and settings call for, in default order: CPU, the GPUs' tiles,
/// memory, network interfaces, drives.
pub open spec fn tile_list(
    cpu: bool,
    mem: bool,
    gpus: Seq<GpuFacts>,
    nets: usize,
    drives: Seq<(Option<bool>, bool)>,
    e: Set<MetricId>,
) -> Seq<Tile> {
    (if (e.contains(MetricId::CpuTotal) || e.contains(MetricId::CpuPerCore)) && cpu {
        seq![Tile::Cpu]
    } else {
        seq![]
    }) + gpus_tiles(gpus, gpus.len() as int, e, any_dedicated(gpus)) + (if (e.contains(
        MetricId::RamUsage,
    ) || e.contains(MetricId::SwapUsage)) && mem {
        seq![Tile::Memory]
    } else {
        seq![]
    }) + (if e.contains(MetricId::NetThroughput) {
        Seq::new(nets as nat, |i: int| Tile::Net(i as usize))
    } else {
        seq![]
    }) + (if e.contains(MetricId::DiskIo) || e.contains(MetricId::DiskIops) || e.contains(
        MetricId::DiskTemp,
    ) || e.contains(MetricId::DiskSpace) {
        drives_tiles(drives, drives.len() as int)
    } else {
        seq![]
    })
}

/// Every tile the current data and settings call for, in default order.
pub fn collect(facts: &SnapshotFacts, enabled: EnabledSet) -> (out: Vec<Tile>)
    ensures
        out@ == tile_list(
            facts.cpu,
            facts.mem,
            facts.gpus@,
            facts.nets,
            facts.drives@,
            enabled@,
        ),
{
    let ghost e = enabled@;
    let gpus = &facts.gpus;
    let drives = &facts.drives;
    let mut out: Vec<Tile> = Vec::new();
    if (enabled.contains(MetricId::CpuTotal) || enabled.contains(MetricId::CpuPerCore))
        && facts.cpu {
        out.push(Tile::Cpu);
    }
    let ghost head = out@;
    let mut dedicated = false;
    let mut k: usize = 0;
    while k < gpus.len()
        invariant
            k <= gpus@.len(),
            dedicated == exists|j: int| 0 <= j < k && !(#[trigger] gpus@[j]).integrated,
        decreases gpus@.len() - k,
    {
        if !gpus[k].integrated {
            dedicated = true;
        }
        k = k + 1;
    }
    assert(dedicated == any_dedicated(gpus@));
    let mut k: usize = 0;
    while k < gpus.len()
        invariant
            k <= gpus@.len(),
            e == enabled@,
            dedicated == any_dedicated(gpus@),
            out@ == head + gpus_tiles(gpus@, k as int, e, dedicated),
        decreases gpus@.len() - k,
    {
        let g = gpus[k];
        let ghost before = out@;
        if gpu_shown(g.choice, g.integrated, dedicated) {
            if enabled.contains(MetricId::GpuUsage) && (g.usage || g.clock) {
                out.push(Tile::Gpu(k, GpuView::Usage));
            }
            if enabled.contains(MetricId::GpuPower) && g.power {
                out.push(Tile::Gpu(k, GpuView::Power));
            }
            if enabled.contains(MetricId::GpuMemory) && (g.vram || g.system_memory) {
                out.push(Tile::Gpu(k, GpuView::Memory));
            }
            if enabled.contains(MetricId::GpuTemp) && g.temps {
                out.push(Tile::Gpu(k, GpuView::Temp));
            }
            assert(out@ =~= before + gpu_tiles(g, k, e));
        }
        assert(gpus_tiles(gpus@, k + 1, e, dedicated) == gpus_tiles(gpus@, k as int, e, dedicated)
            + if shown_by_choice(g.choice, !g.integrated || !dedicated) {
            gpu_tiles(g, k, e)
        } else {
            seq![]
        });
        assert(out@ =~= head + gpus_tiles(gpus@, k + 1, e, dedicated));
        k = k + 1;
    }
    if (enabled.contains(MetricId::RamUsage) || enabled.contains(MetricId::SwapUsage))
        && facts.mem {
        out.push(Tile::Memory);
    }
    if enabled.contains(MetricId::NetThroughput) {
        let ghost before = out@;
        let mut i: usize = 0;
        while i < facts.nets
            invariant
                i <= facts.nets,
                out@ == before + Seq::new(i as nat, |j: int| Tile::Net(j as usize)),
            decreases facts.nets - i,
        {
            out.push(Tile::Net(i));
            assert(out@ =~= before + Seq::new((i + 1) as nat, |j: int| Tile::Net(j as usize)));
            i = i + 1;
        }
    }
    if enabled.contains(MetricId::DiskIo) || enabled.contains(MetricId::DiskIops)
        || enabled.contains(MetricId::DiskTemp) || enabled.contains(MetricId::DiskSpace) {
        let ghost before = out@;
        let mut k: usize = 0;
        while k < drives.len()
            invariant
                k <= drives@.len(),
                out@ == before + drives_tiles(drives@, k as int),
            decreases drives@.len() - k,
        {
            let (choice, boot) = drives[k];
            if drive_shown(choice, boot) {
                out.push(Tile::Drive(k));
            }
            assert(out@ =~= before + drives_tiles(drives@, k + 1));
            k = k + 1;
        }
    }
    assert(out@ =~= tile_list(
        facts.cpu,
        facts.mem,
        facts.gpus@,
        facts.nets,
        facts.drives@,
        enabled@,
    ));
    out
}

proof fn lemma_gpus_tiles_are_gpus(gs: Seq<GpuFacts>, n: int, e: Set<MetricId>, dedicated: bool)
    ensures
        forall|i: int| 0 <= i < gpus_tiles(gs, n, e, dedicated).len() ==> (#[trigger] gpus_tiles(gs, n, e, dedicated)[i]) is Gpu,
    decreases n,
{
    if n > 0 {
        lemma_gpus_tiles_are_gpus(gs, n - 1, e, dedicated);
        let a = gpus_tiles(gs, n - 1, e, dedicated);
        let r = gpus_tiles(gs, n, e, dedicated);
        assert forall|i: int| 0 <= i < r.len() implies (#[trigger] r[i]) is Gpu by {
            if i >= a.len() {
                let g = gs[n - 1];
                let t = gpu_tiles(g, (n - 1) as usize, e);
                assert(r[i] == t[i - a.len()]);
            }
        }
    }
}

proof fn lemma_drives_tiles_are_drives(ds: Seq<(Option<bool>, bool)>, n: int)
    ensures
        forall|i: int| 0 <= i < drives_tiles(ds, n).len() ==> (#[trigger] drives_tiles(ds, n)[i]) is Drive,
    decreases n,
{
    if n > 0 {
        lemma_drives_tiles_are_drives(ds, n - 1);
        let a = drives_tiles(ds, n - 1);
        let r = drives_tiles(ds, n);
        assert forall|i: int| 0 <= i < r.len() implies (#[trigger] r[i]) is Drive by {
            if i < a.len() {
                assert(r[i] == a[i]);
            }
        }
    }
}

/// The CPU tile shows, and first, exactly when there is CPU data and its total or its
/// per-core load is switched on; no other tile is the CPU tile.
pub proof fn lemma_cpu_tile_iff_a_cpu_metric_is_on(
    cpu: bool,
    mem: bool,
    gpus: Seq<GpuFacts>,
    nets: usize,
    drives: Seq<(Option<bool>, bool)>,
    e: Set<MetricId>,
)
    ensures
        tile_list(cpu, mem, gpus, nets, drives, e).contains(Tile::Cpu) <==> cpu && (e.contains(
            MetricId::CpuTotal,
        ) || e.contains(MetricId::CpuPerCore)),
        cpu && (e.contains(MetricId::CpuTotal) || e.contains(MetricId::CpuPerCore)) ==> tile_list(
            cpu,
            mem,
            gpus,
            nets,
            drives,
            e,
        )[0] == Tile::Cpu,
        forall|i: int|
            0 < i < tile_list(cpu, mem, gpus, nets, drives, e).len() ==> #[trigger] tile_list(
                cpu,
                mem,
                gpus,
                nets,
                drives,
                e,
            )[i] != Tile::Cpu,
{
    let on = cpu && (e.contains(MetricId::CpuTotal) || e.contains(MetricId::CpuPerCore));
    let head: Seq<Tile> = if on { seq![Tile::Cpu] } else { seq![] };
    let g = gpus_tiles(gpus, gpus.len() as int, e, any_dedicated(gpus));
    let m: Seq<Tile> = if (e.contains(MetricId::RamUsage) || e.contains(MetricId::SwapUsage)) && mem {
        seq![Tile::Memory]
    } else {
        seq![]
    };
    let n: Seq<Tile> = if e.contains(MetricId::NetThroughput) {
        Seq::new(nets as nat, |i: int| Tile::Net(i as usize))
    } else {
        seq![]
    };
    let d: Seq<Tile> = if e.contains(MetricId::DiskIo) || e.contains(MetricId::DiskIops) || e.contains(
        MetricId::DiskTemp,
    ) || e.contains(MetricId::DiskSpace) {
        drives_tiles(drives, drives.len() as int)
    } else {
        seq![]
    };
    let rest = g + m + n + d;
    let t = tile_list(cpu, mem, gpus, nets, drives, e);
    assert(t == head + rest);
    lemma_gpus_tiles_are_gpus(gpus, gpus.len() as int, e, any_dedicated(gpus));
    lemma_drives_tiles_are_drives(drives, drives.len() as int);
    assert forall|i: int| 0 <= i < rest.len() implies #[trigger] rest[i] != Tile::Cpu by {
        if i < g.len() {
            assert(rest[i] == g[i]);
        } else if i < g.len() + m.len() {
            assert(rest[i] == m[i - g.len()]);
        } else if i < g.len() + m.len() + n.len() {
            assert(rest[i] == n[i - g.len() - m.len()]);
        } else {
            assert(rest[i] == d[i - g.len() - m.len() - n.len()]);
        }
    }
    assert forall|i: int| 0 < i < t.len() implies #[trigger] t[i] != Tile::Cpu by {
        if on {
            assert(t[i] == rest[i - 1]);
        } else {
            assert(t[i] == rest[i]);
        }
    }
    if on {
        assert(t[0] == Tile::Cpu);
    } else {
        assert forall|i: int| 0 <= i < t.len() implies t[i] != Tile::Cpu by {
            assert(t[i] == rest[i]);
        }
    }
}

} // verus!
