use hyperion::sampler::cpu::{parse_stat, CpuTimes};
use hyperion::sampler::disk::{
    drive_info, drive_order, group_by_disk, holds_root, parse_diskstats, parse_mounts, udev_model,
    udev_props, unescape_octal, DiskCounters, MountEntry,
};
use hyperion::sampler::sensors::cpu_temp_choice;
use hyperion::sampler::mem::parse_meminfo;
use hyperion::sampler::net::{parse_net_dev, NetCounters};
use hyperion::sampler::schedule::{plan, slow_due, Plan, Schedule, FIRST_SAMPLE_MAX_DELAY, SLOW_PERIOD};
use hyperion::metrics::{EnabledSet, MetricId};

const STAT_A: &str = "\
cpu  100 0 50 800 50 0 0 0 0 0
cpu0 50 0 25 400 25 0 0 0 0 0
cpu1 50 0 25 400 25 0 0 0 0 0
intr 12345 0 0 0
ctxt 999
";

#[test]
fn parses_aggregate_and_cores() {
    let (total, cores) = parse_stat(STAT_A);
    assert_eq!(total, Some(CpuTimes { busy: 150, total: 1000 }));
    assert_eq!(cores.len(), 2);
    assert_eq!(cores[0], CpuTimes { busy: 75, total: 500 });
}

#[test]
fn stat_without_cpu_lines_has_no_times() {
    let (total, cores) = parse_stat("intr 1 2 3\nctxt 9\n");
    assert_eq!(total, None);
    assert!(cores.is_empty());
}

#[test]
fn parses_diskstats_fields() {
    let text = "\
 259       0 nvme0n1 54842 9087 4064596 31473 297763 3255 10879235 154311 0 17636 187856 5104 0 7866592 1282 5043 789
   8       0 sda 266 0 19280 138 0 0 0 0 0 44 138 0 0 0 0 0 0
";
    let d = parse_diskstats(text);
    assert_eq!(
        d[0],
        DiskCounters {
            name: "nvme0n1",
            reads: 54_842,
            sectors_read: 4_064_596,
            writes: 297_763,
            sectors_written: 10_879_235,
        }
    );
    assert_eq!(d[1].name, "sda");
}

#[test]
fn diskstats_skips_short_and_garbled_lines() {
    let d = parse_diskstats("8 0 sda 1 2 3\n8 1 sdb x 0 0 0 0 0 0 0 0\n");
    assert!(d.is_empty());
}

#[test]
fn collapses_btrfs_subvolumes_and_skips_virtual() {
    let text = "\
proc /proc proc rw 0 0
/dev/nvme0n1p2 /home btrfs rw,subvol=/@home 0 0
/dev/nvme0n1p2 / btrfs rw,subvol=/@ 0 0
/dev/nvme0n1p1 /boot vfat rw 0 0
/dev/loop0 /snap/core squashfs ro 0 0
/dev/sdb1 /run/media/me/My\\040Drive exfat rw 0 0
";
    let m = parse_mounts(text);
    let mounts: Vec<_> = m.iter().map(|e| e.mount.as_str()).collect();
    assert_eq!(mounts, ["/", "/boot", "/run/media/me/My Drive"]);
    assert_eq!(m[0].device, "/dev/nvme0n1p2");
}

#[test]
fn unescapes_octal_sequences() {
    assert_eq!(unescape_octal(r"a\040b\134c"), r"a b\c");
    assert_eq!(unescape_octal(r"trailing\04"), r"trailing\04");
}

#[test]
fn unescaping_builds_utf8_from_escaped_bytes() {
    // "é" is 0xc3 0xa9 in UTF-8.
    assert_eq!(unescape_octal(r"caf\303\251"), "café");
}

#[test]
fn udev_entries_split_at_the_first_equals() {
    let props = udev_props(
        "S:disk/by-id/x\nE:ID_MODEL=Samsung_SSD_860_EVO_500GB\nE:ID_SERIAL=Samsung_SSD_860_EVO_500GB_S59U\nE:ID_SERIAL_SHORT=S59U\nE:X=a=b\nE:broken\n",
    );
    assert_eq!(
        props,
        vec![
            ("ID_MODEL".to_owned(), "Samsung_SSD_860_EVO_500GB".to_owned()),
            ("ID_SERIAL".to_owned(), "Samsung_SSD_860_EVO_500GB_S59U".to_owned()),
            ("ID_SERIAL_SHORT".to_owned(), "S59U".to_owned()),
            ("X".to_owned(), "a=b".to_owned()),
        ]
    );
}

#[test]
fn parses_meminfo() {
    let text = "\
MemTotal:       16284692 kB
MemFree:         2000000 kB
MemAvailable:    8000000 kB
Buffers:          100000 kB
SwapCached:            0 kB
SwapTotal:      16285692 kB
SwapFree:       16285232 kB
";
    let m = parse_meminfo(text);
    assert_eq!(m.total, 16_284_692 * 1024);
    assert_eq!(m.used, (16_284_692 - 8_000_000) * 1024);
    assert_eq!(m.swap_total, 16_285_692 * 1024);
    assert_eq!(m.swap_used, 460 * 1024);
}

#[test]
fn falls_back_to_memfree_without_memavailable() {
    let m = parse_meminfo("MemTotal: 1000 kB\nMemFree: 400 kB\n");
    assert_eq!(m.used, 600 * 1024);
    assert_eq!(m.swap_total, 0);
}

const NET_DEV: &str = "\
Inter-|   Receive                                                |  Transmit
 face |bytes    packets errs drop fifo frame compressed multicast|bytes    packets errs drop fifo colls carrier compressed
    lo:    6848      70    0    0    0     0          0         0     6848      70    0    0    0     0       0          0
enp9s0: 254623634  248455    0    0    0     0          0       823 41268245  165174    0    0    0     0       0          0
eth1:123 1 0 0 0 0 0 0 456 2 0 0 0 0 0 0
";

#[test]
fn parses_rx_and_tx_bytes() {
    let n = parse_net_dev(NET_DEV);
    assert_eq!(n.len(), 3);
    assert_eq!(n[1], NetCounters { name: "enp9s0", rx_bytes: 254_623_634, tx_bytes: 41_268_245 });
    assert_eq!(n[2], NetCounters { name: "eth1", rx_bytes: 123, tx_bytes: 456 });
}

#[test]
fn net_dev_without_header_lines_is_empty() {
    assert!(parse_net_dev("just one line\n").is_empty());
}

#[test]
fn first_sample_comes_soon_and_ticks_never_burst() {
    let second = 1_000_000_000;
    let mut s = Schedule::start(10, 3 * second);
    assert_eq!(s.wait(10), FIRST_SAMPLE_MAX_DELAY);
    s.ticked(10 + FIRST_SAMPLE_MAX_DELAY);
    assert_eq!(s.wait(10 + FIRST_SAMPLE_MAX_DELAY), 3 * second);
    // Woken long after the tick was due: one interval from now, not a burst.
    let late = 100 * second;
    s.ticked(late);
    assert_eq!(s.wait(late), 3 * second);
    s.set_interval(second);
    assert_eq!(s.wait(late), second);
}

#[test]
fn slow_work_runs_first_then_every_period() {
    assert!(slow_due(None, 0));
    assert!(!slow_due(Some(100), 100 + SLOW_PERIOD - 1));
    assert!(slow_due(Some(100), 100 + SLOW_PERIOD));
}

#[test]
fn a_tick_reads_only_what_is_switched_on() {
    let mut e = EnabledSet::default();
    e.set(MetricId::CpuPerCore, true);
    e.set(MetricId::DiskSpace, true);
    let p = plan(e);
    assert!(p.cpu && !p.cpu_temp && !p.cpu_power && !p.mem && !p.net && !p.gpus);
    assert!(!p.drives && !p.drive_temp);
    e.set(MetricId::CpuPerCore, false);
    e.set(MetricId::CpuPower, true);
    e.set(MetricId::GpuTemp, true);
    e.set(MetricId::DiskIo, true);
    let p = plan(e);
    assert!(!p.cpu && p.cpu_power && p.gpus && p.drives);
    e.set(MetricId::DiskIo, false);
    e.set(MetricId::DiskTemp, true);
    e.set(MetricId::CpuTemp, true);
    let p = plan(e);
    assert!(!p.cpu && p.cpu_temp && !p.drives && p.drive_temp);
    assert_eq!(
        plan(EnabledSet::default()),
        Plan {
            cpu: false,
            cpu_temp: false,
            cpu_power: false,
            mem: false,
            drives: false,
            drive_temp: false,
            net: false,
            gpus: false,
        }
    );
}

fn props(text: &str) -> Vec<(String, String)> {
    udev_props(text)
}

#[test]
fn drive_model_and_stable_id_come_from_udev() {
    let p = props(
        "S:disk/by-id/x\nE:ID_MODEL=Samsung_SSD_860_EVO_500GB\nE:ID_SERIAL=Samsung_SSD_860_EVO_500GB_S59U\nE:ID_SERIAL_SHORT=S59U\n",
    );
    let info = drive_info("nvme0n1", &p, Some("ignored"));
    assert_eq!(info.name, "nvme0n1");
    assert_eq!(info.model, "Samsung SSD 860 EVO 500GB");
    assert_eq!(info.id, "Samsung_SSD_860_EVO_500GB_S59U");
    assert_eq!(info.serial.as_deref(), Some("S59U"));
}

#[test]
fn drive_falls_back_to_the_kernel_model_then_the_kernel_name() {
    let info = drive_info("nvme0n1", &[], None);
    assert_eq!(info.model, "nvme0n1");
    assert_eq!(info.id, "nvme0n1");
    assert_eq!(info.serial, None);
    let info = drive_info("sda", &[], Some("  WDC WD10EZEX \n"));
    assert_eq!(info.model, "WDC WD10EZEX");
    let info = drive_info("sda", &props("E:ID_MODEL=__\n"), Some("   "));
    assert_eq!(info.model, "sda");
    // The last line for a key wins.
    let p = props("E:ID_SERIAL=old\nE:ID_SERIAL=new\n");
    assert_eq!(drive_info("sda", &p, None).id, "new");
    assert_eq!(udev_model(&props("E:ID_MODEL= _Disk_ \n")).as_deref(), Some("Disk"));
}

fn chip(name: &str, labels: &[Option<&str>]) -> (String, Vec<Option<String>>) {
    (
        format!("{name}\n"),
        labels.iter().map(|l| l.map(|l| format!("{l}\n"))).collect(),
    )
}

#[test]
fn temp_choice_prefers_tdie_then_tctl_and_ignores_other_chips() {
    let mut chips = vec![
        chip("nvme", &[Some("Composite")]),
        chip("k10temp", &[Some("Tctl"), Some("Tccd1")]),
    ];
    assert_eq!(cpu_temp_choice(&chips), Some((1, 0)));
    chips.push(chip("zenpower", &[Some("Tdie")]));
    assert_eq!(cpu_temp_choice(&chips), Some((2, 0)));
}

#[test]
fn temp_choice_finds_the_intel_package() {
    let chips = vec![chip("coretemp", &[Some("Core 0"), Some("Package id 0")])];
    assert_eq!(cpu_temp_choice(&chips), Some((0, 1)));
}

#[test]
fn temp_choice_without_a_cpu_sensor_is_none() {
    assert_eq!(cpu_temp_choice(&[chip("amdgpu", &[Some("edge")])]), None);
    assert_eq!(cpu_temp_choice(&[]), None);
}

#[test]
fn temp_choice_takes_any_label_where_the_source_names_none() {
    // cpu_thermal (e.g. a Raspberry Pi) has no labels; its first input is taken.
    let chips = vec![chip("cpu_thermal", &[None, None])];
    assert_eq!(cpu_temp_choice(&chips), Some((0, 0)));
    // k10temp without Tdie or Tctl falls back to its first input, after every
    // labelled source has been tried on every chip.
    let chips = vec![
        chip("k10temp", &[Some("Tccd1"), Some("Tccd2")]),
        chip("coretemp", &[Some("Package id 0")]),
    ];
    assert_eq!(cpu_temp_choice(&chips), Some((1, 0)));
    let chips = vec![chip("k10temp", &[Some("Tccd1"), None])];
    assert_eq!(cpu_temp_choice(&chips), Some((0, 0)));
}

fn names(v: &[&str]) -> Vec<String> {
    v.iter().map(|s| s.to_string()).collect()
}

#[test]
fn mounts_are_grouped_by_disk_in_order_of_appearance() {
    // A partition on nvme0n1, an LVM volume over nvme0n1 and sda, a mount with no
    // disk (its device could not be resolved), and one on sda.
    let disks = vec![
        names(&["nvme0n1"]),
        names(&["nvme0n1", "sda"]),
        names(&[]),
        names(&["sda"]),
    ];
    assert_eq!(
        group_by_disk(&disks),
        vec![("nvme0n1".to_string(), vec![0, 1]), ("sda".to_string(), vec![1, 3])]
    );
    assert!(group_by_disk(&[]).is_empty());
}

fn mount(path: &str) -> MountEntry {
    MountEntry {
        device: "/dev/x".to_string(),
        mount: path.to_string(),
        fstype: "ext4".to_string(),
    }
}

#[test]
fn the_root_filesystem_marks_the_boot_drive() {
    let mounts = vec![mount("/home"), mount("/"), mount("/boot")];
    assert!(holds_root(&mounts, &[0, 1]));
    assert!(!holds_root(&mounts, &[0, 2]));
    assert!(!holds_root(&mounts, &[]));
}

#[test]
fn boot_drive_first_then_by_name() {
    let drives = vec![
        ("sdb".to_string(), false),
        ("nvme1n1".to_string(), false),
        ("sda".to_string(), true),
        ("nvme0n1".to_string(), false),
    ];
    assert_eq!(drive_order(&drives), vec![2, 3, 1, 0]);
    assert!(drive_order(&[]).is_empty());
    // Ties keep their order.
    let same = vec![("sda".to_string(), false), ("sda".to_string(), false)];
    assert_eq!(drive_order(&same), vec![0, 1]);
}
