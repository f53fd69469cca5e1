//! The metrics the user can switch on and off, and the plain samples the collectors
//! produce.
use vstd::prelude::*;

verus! {

#[derive(Clone, Copy, Debug, PartialEq, Eq, Hash, PartialOrd, Ord, Structural)]
pub enum Category {
    Cpu,
    Gpu,
    Memory,
    Storage,
    Network,
}

pub open spec fn category_label(c: Category) -> Seq<char> {
    match c {
        Category::Cpu => "CPU"@,
        Category::Gpu => "GPU"@,
        Category::Memory => "Memory"@,
        Category::Storage => "Storage"@,
        Category::Network => "Network"@,
    }
}

impl Category {
    pub const ALL: [Category; 5] = [
        Category::Cpu,
        Category::Gpu,
        Category::Memory,
        Category::Storage,
        Category::Network,
    ];

    pub fn label(self) -> (s: &'static str)
        ensures
            s@ == category_label(self),
    {
        match self {
            Category::Cpu => "CPU",
            Category::Gpu => "GPU",
            Category::Memory => "Memory",
            Category::Storage => "Storage",
            Category::Network => "Network",
        }
    }
}

#[derive(Clone, Copy, Debug, PartialEq, Eq, Hash, Structural)]
pub enum MetricId {
    CpuTotal,
    CpuPerCore,
    CpuTemp,
    CpuPower,
    GpuUsage,
    GpuPower,
    GpuMemory,
    GpuTemp,
    RamUsage,
    SwapUsage,
    DiskSpace,
    DiskIo,
    DiskTemp,
    DiskIops,
    NetThroughput,
}

/// Position of the metric among the variants (its bit in an [`EnabledSet`]).
pub open spec fn metric_index(id: MetricId) -> u64 {
    match id {
        MetricId::CpuTotal => 0,
        MetricId::CpuPerCore => 1,
        MetricId::CpuTemp => 2,
        MetricId::CpuPower => 3,
        MetricId::GpuUsage => 4,
        MetricId::GpuPower => 5,
        MetricId::GpuMemory => 6,
        MetricId::GpuTemp => 7,
        MetricId::RamUsage => 8,
        MetricId::SwapUsage => 9,
        MetricId::DiskSpace => 10,
        MetricId::DiskIo => 11,
        MetricId::DiskTemp => 12,
        MetricId::DiskIops => 13,
        MetricId::NetThroughput => 14,
    }
}

/// The metric whose bit is `i`.
spec fn metric_at(i: u64) -> MetricId {
    if i == 0 { MetricId::CpuTotal }
    else if i == 1 { MetricId::CpuPerCore }
    else if i == 2 { MetricId::CpuTemp }
    else if i == 3 { MetricId::CpuPower }
    else if i == 4 { MetricId::GpuUsage }
    else if i == 5 { MetricId::GpuPower }
    else if i == 6 { MetricId::GpuMemory }
    else if i == 7 { MetricId::GpuTemp }
    else if i == 8 { MetricId::RamUsage }
    else if i == 9 { MetricId::SwapUsage }
    else if i == 10 { MetricId::DiskSpace }
    else if i == 11 { MetricId::DiskIo }
    else if i == 12 { MetricId::DiskTemp }
    else if i == 13 { MetricId::DiskIops }
    else { MetricId::NetThroughput }
}

/// Stable identifier used in the config file.
pub open spec fn metric_key(id: MetricId) -> Seq<char> {
    match id {
        MetricId::CpuTotal => "cpu.total"@,
        MetricId::CpuPerCore => "cpu.per_core"@,
        MetricId::CpuTemp => "cpu.temp"@,
        MetricId::CpuPower => "cpu.power"@,
        MetricId::GpuUsage => "gpu.usage"@,
        MetricId::GpuPower => "gpu.power"@,
        MetricId::GpuMemory => "gpu.memory"@,
        MetricId::GpuTemp => "gpu.temp"@,
        MetricId::RamUsage => "mem.ram"@,
        MetricId::SwapUsage => "mem.swap"@,
        MetricId::DiskSpace => "storage.space"@,
        MetricId::DiskIo => "storage.io"@,
        MetricId::DiskTemp => "storage.temp"@,
        MetricId::DiskIops => "storage.iops"@,
        MetricId::NetThroughput => "net.throughput"@,
    }
}

pub open spec fn metric_label(id: MetricId) -> Seq<char> {
    match id {
        MetricId::CpuTotal => "Total usage"@,
        MetricId::CpuPerCore => "Per-core usage"@,
        MetricId::CpuTemp => "Temperature"@,
        MetricId::CpuPower => "Power draw"@,
        MetricId::GpuUsage => "Usage and core clock"@,
        MetricId::GpuPower => "Power draw"@,
        MetricId::GpuMemory => "Memory (VRAM and spill)"@,
        MetricId::GpuTemp => "Temperatures"@,
        MetricId::RamUsage => "RAM usage"@,
        MetricId::SwapUsage => "Swap usage"@,
        MetricId::DiskSpace => "Partition space"@,
        MetricId::DiskIo => "Read/write speed"@,
        MetricId::DiskTemp => "Temperature"@,
        MetricId::DiskIops => "IOPS"@,
        MetricId::NetThroughput => "Upload/download speed"@,
    }
}

pub open spec fn metric_category(id: MetricId) -> Category {
    match id {
        MetricId::CpuTotal | MetricId::CpuPerCore | MetricId::CpuTemp | MetricId::CpuPower => {
            Category::Cpu
        },
        MetricId::GpuUsage | MetricId::GpuPower | MetricId::GpuMemory | MetricId::GpuTemp => {
            Category::Gpu
        },
        MetricId::RamUsage | MetricId::SwapUsage => Category::Memory,
        MetricId::DiskSpace | MetricId::DiskIo | MetricId::DiskTemp | MetricId::DiskIops => {
            Category::Storage
        },
        MetricId::NetThroughput => Category::Network,
    }
}

pub open spec fn metric_series_prefix(id: MetricId) -> Option<Seq<char>> {
    match id {
        MetricId::CpuTotal => Some("cpu"@),
        MetricId::RamUsage => Some("ram"@),
        MetricId::SwapUsage => Some("swap"@),
        MetricId::DiskIo => Some("disk:"@),
        MetricId::NetThroughput => Some("net:"@),
        MetricId::GpuUsage => Some("gpu-usage:"@),
        MetricId::GpuPower => Some("gpu-power:"@),
        MetricId::GpuMemory => Some("gpu-mem:"@),
        MetricId::GpuTemp => Some("gpu-temp:"@),
        _ => None,
    }
}

impl MetricId {
    pub const ALL: [MetricId; 15] = [
        MetricId::CpuTotal,
        MetricId::CpuPerCore,
        MetricId::CpuTemp,
        MetricId::CpuPower,
        MetricId::GpuUsage,
        MetricId::GpuPower,
        MetricId::GpuMemory,
        MetricId::GpuTemp,
        MetricId::RamUsage,
        MetricId::SwapUsage,
        MetricId::DiskIo,
        MetricId::DiskIops,
        MetricId::DiskTemp,
        MetricId::DiskSpace,
        MetricId::NetThroughput,
    ];

    /// Stable identifier used in the config file; never rename.
    pub fn key(self) -> (s: &'static str)
        ensures
            s@ == metric_key(self),
    {
        match self {
            MetricId::CpuTotal => "cpu.total",
            MetricId::CpuPerCore => "cpu.per_core",
            MetricId::CpuTemp => "cpu.temp",
            MetricId::CpuPower => "cpu.power",
            MetricId::GpuUsage => "gpu.usage",
            MetricId::GpuPower => "gpu.power",
            MetricId::GpuMemory => "gpu.memory",
            MetricId::GpuTemp => "gpu.temp",
            MetricId::RamUsage => "mem.ram",
            MetricId::SwapUsage => "mem.swap",
            MetricId::DiskSpace => "storage.space",
            MetricId::DiskIo => "storage.io",
            MetricId::DiskTemp => "storage.temp",
            MetricId::DiskIops => "storage.iops",
            MetricId::NetThroughput => "net.throughput",
        }
    }

    pub fn label(self) -> (s: &'static str)
        ensures
            s@ == metric_label(self),
    {
        match self {
            MetricId::CpuTotal => "Total usage",
            MetricId::CpuPerCore => "Per-core usage",
            MetricId::CpuTemp => "Temperature",
            MetricId::CpuPower => "Power draw",
            MetricId::GpuUsage => "Usage and core clock",
            MetricId::GpuPower => "Power draw",
            MetricId::GpuMemory => "Memory (VRAM and spill)",
            MetricId::GpuTemp => "Temperatures",
            MetricId::RamUsage => "RAM usage",
            MetricId::SwapUsage => "Swap usage",
            MetricId::DiskSpace => "Partition space",
            MetricId::DiskIo => "Read/write speed",
            MetricId::DiskTemp => "Temperature",
            MetricId::DiskIops => "IOPS",
            MetricId::NetThroughput => "Upload/download speed",
        }
    }

    pub fn category(self) -> (c: Category)
        ensures
            c == metric_category(self),
    {
        match self {
            MetricId::CpuTotal | MetricId::CpuPerCore | MetricId::CpuTemp | MetricId::CpuPower => {
                Category::Cpu
            },
            MetricId::GpuUsage | MetricId::GpuPower | MetricId::GpuMemory | MetricId::GpuTemp => {
                Category::Gpu
            },
            MetricId::RamUsage | MetricId::SwapUsage => Category::Memory,
            MetricId::DiskSpace | MetricId::DiskIo | MetricId::DiskTemp | MetricId::DiskIops => {
                Category::Storage
            },
            MetricId::NetThroughput => Category::Network,
        }
    }

    /// Every metric starts out switched on.
    pub fn default_enabled(self) -> (b: bool)
        ensures
            b,
    {
        true
    }

    /// Prefix of the history series this metric produces, if any.
    pub fn series_prefix(self) -> (p: Option<&'static str>)
        ensures
            p matches Some(s) ==> metric_series_prefix(self) == Some(s@),
            p is None <==> metric_series_prefix(self) is None,
    {
        match self {
            MetricId::CpuTotal => Some("cpu"),
            MetricId::RamUsage => Some("ram"),
            MetricId::SwapUsage => Some("swap"),
            MetricId::DiskIo => Some("disk:"),
            MetricId::NetThroughput => Some("net:"),
            MetricId::GpuUsage => Some("gpu-usage:"),
            MetricId::GpuPower => Some("gpu-power:"),
            MetricId::GpuMemory => Some("gpu-mem:"),
            MetricId::GpuTemp => Some("gpu-temp:"),
            MetricId::CpuPerCore
            | MetricId::CpuTemp
            | MetricId::CpuPower
            | MetricId::DiskSpace
            | MetricId::DiskTemp
            | MetricId::DiskIops => None,
        }
    }

    fn index(self) -> (i: u64)
        ensures
            i == metric_index(self),
    {
        match self {
            MetricId::CpuTotal => 0,
            MetricId::CpuPerCore => 1,
            MetricId::CpuTemp => 2,
            MetricId::CpuPower => 3,
            MetricId::GpuUsage => 4,
            MetricId::GpuPower => 5,
            MetricId::GpuMemory => 6,
            MetricId::GpuTemp => 7,
            MetricId::RamUsage => 8,
            MetricId::SwapUsage => 9,
            MetricId::DiskSpace => 10,
            MetricId::DiskIo => 11,
            MetricId::DiskTemp => 12,
            MetricId::DiskIops => 13,
            MetricId::NetThroughput => 14,
        }
    }

    fn bit(self) -> (b: u64)
        ensures
            b == 1u64 << metric_index(self),
    {
        1u64 << self.index()
    }
}

/// Two metrics share a key only if they are the same metric.
pub proof fn lemma_metric_keys_unique(a: MetricId, b: MetricId)
    ensures
        metric_key(a) == metric_key(b) ==> a == b,
{
    reveal_strlit("cpu.total");
    reveal_strlit("cpu.per_core");
    reveal_strlit("cpu.temp");
    reveal_strlit("cpu.power");
    reveal_strlit("gpu.usage");
    reveal_strlit("gpu.power");
    reveal_strlit("gpu.memory");
    reveal_strlit("gpu.temp");
    reveal_strlit("mem.ram");
    reveal_strlit("mem.swap");
    reveal_strlit("storage.space");
    reveal_strlit("storage.io");
    reveal_strlit("storage.temp");
    reveal_strlit("storage.iops");
    reveal_strlit("net.throughput");
    if metric_key(a) == metric_key(b) && a != b {
        // Keys of different metrics differ in length or in one of their first characters.
        assert(metric_key(a).len() != metric_key(b).len() || metric_key(a)[0] != metric_key(b)[0]
            || metric_key(a)[4] != metric_key(b)[4] || metric_key(a)[5] != metric_key(b)[5]
            || metric_key(a)[8] != metric_key(b)[8] || metric_key(a)[9] != metric_key(b)[9]);
    }
}

/// The metrics that are switched on, one bit per metric.
#[derive(Clone, Copy, Debug, PartialEq, Eq, Structural)]
pub struct EnabledSet(u64);

impl View for EnabledSet {
    type V = Set<MetricId>;

    closed spec fn view(&self) -> Set<MetricId> {
        Set::new(|id: MetricId| self.0 & (1u64 << metric_index(id)) != 0)
    }
}

proof fn lemma_bits(x: u64, a: u64, b: u64)
    requires
        a < 64,
        b < 64,
    ensures
        (x | (1u64 << a)) & (1u64 << a) != 0,
        (x & !(1u64 << a)) & (1u64 << a) == 0,
        a != b ==> (((x | (1u64 << a)) & (1u64 << b) != 0) <==> (x & (1u64 << b) != 0)),
        a != b ==> (((x & !(1u64 << a)) & (1u64 << b) != 0) <==> (x & (1u64 << b) != 0)),
        0u64 & (1u64 << a) == 0,
{
    assert((x | (1u64 << a)) & (1u64 << a) != 0) by (bit_vector)
        requires
            a < 64,
    ;
    assert((x & !(1u64 << a)) & (1u64 << a) == 0) by (bit_vector)
        requires
            a < 64,
    ;
    assert(a != b ==> (((x | (1u64 << a)) & (1u64 << b) != 0) <==> (x & (1u64 << b) != 0)))
        by (bit_vector)
        requires
            a < 64,
            b < 64,
    ;
    assert(a != b ==> (((x & !(1u64 << a)) & (1u64 << b) != 0) <==> (x & (1u64 << b) != 0)))
        by (bit_vector)
        requires
            a < 64,
            b < 64,
    ;
    assert(0u64 & (1u64 << a) == 0) by (bit_vector)
        requires
            a < 64,
    ;
}

proof fn lemma_index_injective(a: MetricId, b: MetricId)
    ensures
        metric_index(a) == metric_index(b) ==> a == b,
        metric_index(a) < 15,
{
}

impl Default for EnabledSet {
    /// Nothing switched on.
    fn default() -> (s: Self)
        ensures
            s@ == Set::<MetricId>::empty(),
            s.wf(),
    {
        let s = EnabledSet(0);
        proof {
            assert forall|id: MetricId| !s@.contains(id) by {
                lemma_bits(0, metric_index(id), 0);
            }
            assert(s@ =~= Set::<MetricId>::empty());
        }
        s
    }
}

/// Two sets of stored bits that hold no bit beyond the metrics' and agree on every
/// metric's bit are the same bits.
proof fn lemma_bits_agree(x: u64, y: u64)
    requires
        x < 0x8000,
        y < 0x8000,
        forall|i: u64| i < 15 ==> ((x & (1u64 << i) != 0) <==> (y & (1u64 << i) != 0)),
    ensures
        x == y,
{
    assert(((x & (1u64 << 0u64) != 0) <==> (y & (1u64 << 0u64) != 0)));
    assert(((x & (1u64 << 1u64) != 0) <==> (y & (1u64 << 1u64) != 0)));
    assert(((x & (1u64 << 2u64) != 0) <==> (y & (1u64 << 2u64) != 0)));
    assert(((x & (1u64 << 3u64) != 0) <==> (y & (1u64 << 3u64) != 0)));
    assert(((x & (1u64 << 4u64) != 0) <==> (y & (1u64 << 4u64) != 0)));
    assert(((x & (1u64 << 5u64) != 0) <==> (y & (1u64 << 5u64) != 0)));
    assert(((x & (1u64 << 6u64) != 0) <==> (y & (1u64 << 6u64) != 0)));
    assert(((x & (1u64 << 7u64) != 0) <==> (y & (1u64 << 7u64) != 0)));
    assert(((x & (1u64 << 8u64) != 0) <==> (y & (1u64 << 8u64) != 0)));
    assert(((x & (1u64 << 9u64) != 0) <==> (y & (1u64 << 9u64) != 0)));
    assert(((x & (1u64 << 10u64) != 0) <==> (y & (1u64 << 10u64) != 0)));
    assert(((x & (1u64 << 11u64) != 0) <==> (y & (1u64 << 11u64) != 0)));
    assert(((x & (1u64 << 12u64) != 0) <==> (y & (1u64 << 12u64) != 0)));
    assert(((x & (1u64 << 13u64) != 0) <==> (y & (1u64 << 13u64) != 0)));
    assert(((x & (1u64 << 14u64) != 0) <==> (y & (1u64 << 14u64) != 0)));
    assert(x == y) by (bit_vector)
        requires
            x < 0x8000,
            y < 0x8000,
            ((x & (1u64 << 0u64) != 0) <==> (y & (1u64 << 0u64) != 0)),
            ((x & (1u64 << 1u64) != 0) <==> (y & (1u64 << 1u64) != 0)),
            ((x & (1u64 << 2u64) != 0) <==> (y & (1u64 << 2u64) != 0)),
            ((x & (1u64 << 3u64) != 0) <==> (y & (1u64 << 3u64) != 0)),
            ((x & (1u64 << 4u64) != 0) <==> (y & (1u64 << 4u64) != 0)),
            ((x & (1u64 << 5u64) != 0) <==> (y & (1u64 << 5u64) != 0)),
            ((x & (1u64 << 6u64) != 0) <==> (y & (1u64 << 6u64) != 0)),
            ((x & (1u64 << 7u64) != 0) <==> (y & (1u64 << 7u64) != 0)),
            ((x & (1u64 << 8u64) != 0) <==> (y & (1u64 << 8u64) != 0)),
            ((x & (1u64 << 9u64) != 0) <==> (y & (1u64 << 9u64) != 0)),
            ((x & (1u64 << 10u64) != 0) <==> (y & (1u64 << 10u64) != 0)),
            ((x & (1u64 << 11u64) != 0) <==> (y & (1u64 << 11u64) != 0)),
            ((x & (1u64 << 12u64) != 0) <==> (y & (1u64 << 12u64) != 0)),
            ((x & (1u64 << 13u64) != 0) <==> (y & (1u64 << 13u64) != 0)),
            ((x & (1u64 << 14u64) != 0) <==> (y & (1u64 << 14u64) != 0)),
    ;
}

/// A set is determined by the metrics switched on in it: two sets with the same
/// metrics are equal.
pub proof fn lemma_same_metrics_same_set(a: EnabledSet, b: EnabledSet)
    requires
        a.wf(),
        b.wf(),
        a@ == b@,
    ensures
        a == b,
{
    assert forall|i: u64| i < 15 implies ((a.0 & (1u64 << i) != 0) <==> (b.0 & (1u64 << i) != 0)) by {
        let id = metric_at(i);
        assert(metric_index(id) == i);
        assert(a@.contains(id) == (a.0 & (1u64 << metric_index(id)) != 0));
        assert(b@.contains(id) == (b.0 & (1u64 << metric_index(id)) != 0));
        assert(a@.contains(id) == b@.contains(id));
    }
    lemma_bits_agree(a.0, b.0);
}

impl EnabledSet {
    /// The stored bits hold nothing but the metrics' bits.
    pub closed spec fn wf(self) -> bool {
        self.0 < 0x8000
    }

    pub fn contains(self, id: MetricId) -> (b: bool)
        ensures
            b == self@.contains(id),
    {
        self.0 & id.bit() != 0
    }

    pub fn set(&mut self, id: MetricId, on: bool)
        ensures
            final(self)@ == (if on {
                old(self)@.insert(id)
            } else {
                old(self)@.remove(id)
            }),
            old(self).wf() ==> final(self).wf(),
    {
        let ghost x = self.0;
        if on {
            self.0 = self.0 | id.bit();
        } else {
            self.0 = self.0 & !id.bit();
        }
        proof {
            let want = if on {
                old(self)@.insert(id)
            } else {
                old(self)@.remove(id)
            };
            assert forall|m: MetricId| self@.contains(m) == want.contains(m) by {
                lemma_index_injective(m, id);
                lemma_index_injective(id, m);
                lemma_bits(x, metric_index(id), metric_index(m));
            }
            assert(self@ =~= want);
            let i = metric_index(id);
            if x < 0x8000 {
                if on {
                    assert(x | (1u64 << i) < 0x8000) by (bit_vector)
                        requires
                            x < 0x8000,
                            i < 15,
                    ;
                } else {
                    assert(x & !(1u64 << i) < 0x8000) by (bit_vector)
                        requires
                            x < 0x8000,
                            i < 15,
                    ;
                }
            }
        }
    }

    /// Whether any of `ids` is switched on.
    pub fn any(self, ids: &[MetricId]) -> (b: bool)
        ensures
            b == exists|i: int| 0 <= i < ids@.len() && self@.contains(#[trigger] ids@[i]),
    {
        let mut i: usize = 0;
        while i < ids.len()
            invariant
                i <= ids@.len(),
                forall|k: int| 0 <= k < i ==> !self@.contains(#[trigger] ids@[k]),
            decreases ids@.len() - i,
        {
            if self.contains(ids[i]) {
                return true;
            }
            i = i + 1;
        }
        false
    }
}

/// All values in bytes.
#[derive(Clone, Copy, Debug, Default, PartialEq, Eq)]
pub struct MemSample {
    pub total: u64,
    pub used: u64,
    pub swap_total: u64,
    pub swap_used: u64,
}

/// Space on one mounted filesystem, in bytes.
#[derive(Clone, Debug, PartialEq, Eq)]
pub struct FsUsage {
    pub device: String,
    pub mount: String,
    pub fstype: String,
    pub total: u64,
    pub used: u64,
}

} // verus!
