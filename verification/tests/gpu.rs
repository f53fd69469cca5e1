use hyperion::sampler::gpu::fdinfo::{bytes, clients_of, parse, Client};
use hyperion::sampler::gpu::intel::is_integrated;
use hyperion::sampler::gpu::nvidia::{display_name, normalize_bus_id};
use hyperion::sampler::gpu::pci_ids::lookup;
use hyperion::sampler::gpu::one_per_slot;

const I915: &str = "pos:\t0\nflags:\t02100002\nmnt_id:\t26\ndrm-driver:\ti915\n\
drm-pdev:\t0000:00:02.0\ndrm-client-id:\t7\ndrm-engine-render:\t1000000000 ns\n\
drm-engine-video:\t0 ns\ndrm-resident-system0:\t2048 KiB\n";

const XE: &str = "drm-driver:\txe\ndrm-pdev:\t0000:03:00.0\ndrm-client-id:\t3\n\
drm-cycles-rcs:\t500\ndrm-total-cycles-rcs:\t1000\ndrm-resident-vram0:\t1 MiB\n\
drm-resident-gtt:\t4096\n";

#[test]
fn parses_i915_engine_time_and_memory() {
    let c = parse(I915).unwrap();
    assert_eq!(c.pdev, "0000:00:02.0");
    assert_eq!(c.id, 7);
    assert_eq!(
        c.engines,
        [("render".to_owned(), 1_000_000_000, None), ("video".to_owned(), 0, None)]
    );
    assert_eq!(c.resident_system, 2048 * 1024);
}

#[test]
fn parses_xe_cycles_and_vram() {
    let c = parse(XE).unwrap();
    assert_eq!(c.engines, [("rcs".to_owned(), 500, Some(1000))]);
    assert_eq!(c.resident_vram, 1 << 20);
    assert_eq!(c.resident_system, 4096);
}

#[test]
fn not_a_gpu_file_is_none() {
    assert_eq!(parse("pos:\t0\nflags:\t02\n"), None);
}

#[test]
fn unparsable_value_makes_the_file_unknown() {
    assert_eq!(parse("drm-pdev:\t0000:00:02.0\ndrm-client-id:\tseven\n"), None);
}

#[test]
fn engines_are_sorted_by_name_with_cycle_counters_after_equal_names() {
    let c = parse(
        "drm-pdev: x\ndrm-cycles-vcs: 5\ndrm-engine-rcs: 7 ns\ndrm-cycles-bcs: 1\ndrm-cycles-vcs: 6\ndrm-total-cycles-vcs: 9\n",
    )
    .unwrap();
    assert_eq!(
        c.engines,
        [("bcs".to_owned(), 1, None), ("rcs".to_owned(), 7, None), ("vcs".to_owned(), 6, Some(9))]
    );
}

#[test]
fn memory_amounts_take_binary_units() {
    assert_eq!(bytes("1024"), Some(1024));
    assert_eq!(bytes("2 KiB"), Some(2048));
    assert_eq!(bytes("3 GiB"), Some(3 << 30));
    assert_eq!(bytes("3 kB"), None);
    assert_eq!(bytes(""), None);
}

#[test]
fn bus_zero_is_integrated() {
    assert!(is_integrated("0000:00:02.0"));
    assert!(!is_integrated("0000:03:00.0"));
}

#[test]
fn a_slot_without_a_bus_is_not_integrated() {
    assert!(!is_integrated("0000"));
    assert!(!is_integrated("0000:000:02.0"));
}

#[test]
fn bus_ids_match_sysfs_slots() {
    assert_eq!(normalize_bus_id("00000000:01:00.0").as_deref(), Some("0000:01:00.0"));
    assert_eq!(normalize_bus_id("00000000:0A:00.1").as_deref(), Some("0000:0a:00.1"));
    assert_eq!(normalize_bus_id("garbage"), None);
}

#[test]
fn bus_ids_are_trimmed_and_every_part_must_be_hex() {
    assert_eq!(normalize_bus_id("  0:1:2.3 \n").as_deref(), Some("0000:01:02.3"));
    assert_eq!(normalize_bus_id("0000:0g:00.0"), None);
    assert_eq!(normalize_bus_id("0000:01:00"), None);
}

#[test]
fn nvidia_prefix_is_dropped_from_names() {
    assert_eq!(display_name("NVIDIA GeForce RTX 4090"), "GeForce RTX 4090");
    assert_eq!(display_name("Quadro P400"), "Quadro P400");
}

const DB: &str = "\
# comment
1002  Advanced Micro Devices, Inc. [AMD/ATI]
\t73ff  Navi 23 [Radeon RX 6600/6600 XT/6600M]
\t\t1043 05e3  Dual Radeon RX 6600
\t15bf  Phoenix1
10de  NVIDIA Corporation
\t2684  AD102 [GeForce RTX 4090]
8086  Intel Corporation
\t46a6  Alder Lake-P GT2 [Iris Xe Graphics]
C 03  Display controller
";

#[test]
fn prefers_the_bracketed_marketing_name() {
    assert_eq!(lookup(DB, 0x1002, 0x73ff).as_deref(), Some("Radeon RX 6600/6600 XT/6600M"));
    assert_eq!(lookup(DB, 0x8086, 0x46a6).as_deref(), Some("Iris Xe Graphics"));
}

#[test]
fn falls_back_to_the_codename_and_misses_cleanly() {
    assert_eq!(lookup(DB, 0x1002, 0x15bf).as_deref(), Some("Phoenix1"));
    // Same device id under another vendor must not match.
    assert_eq!(lookup(DB, 0x10de, 0x73ff), None);
    assert_eq!(lookup(DB, 0xabcd, 0x0001), None);
}

#[test]
fn one_card_per_slot_in_slot_order() {
    let slots: Vec<String> = ["0000:0c:00.0", "0000:03:00.0", "0000:0c:00.0", "0000:00:02.0"]
        .iter()
        .map(|s| s.to_string())
        .collect();
    // The first card found in each slot, slots in order.
    assert_eq!(one_per_slot(&slots), vec![3, 1, 0]);
    assert!(one_per_slot(&[]).is_empty());
}

fn client(pdev: &str, id: u64, system: u64) -> Client {
    Client {
        pdev: pdev.to_string(),
        id,
        engines: Vec::new(),
        resident_system: system,
        resident_vram: 0,
    }
}

#[test]
fn each_client_of_the_card_counts_once() {
    let slot = "0000:00:02.0".to_string();
    let read = vec![
        client("0000:00:02.0", 7, 100),
        client("0000:03:00.0", 7, 1),
        client("0000:00:02.0", 7, 100),
        client("0000:00:02.0", 9, 5),
    ];
    // The duplicate fd of client 7 and the other card's client are left out.
    assert_eq!(clients_of(&read, &slot), vec![0, 3]);
    assert!(clients_of(&[], &slot).is_empty());
}
