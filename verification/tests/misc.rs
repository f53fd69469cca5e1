use hyperion::config::{nearest_step, HISTORY_STEPS_SECS, INTERVAL_STEPS_MS};
use hyperion::format::{interval_ms, span_secs};
use hyperion::frame_limit::{remaining, FrameLimiter};
use hyperion::main_window::MainWindow;
use hyperion::metrics::{EnabledSet, MetricId};
use hyperion::privileged::rapl_rule;
use hyperion::ui::theme::{custom_key, file_name, slug, ThemeColor};
use std::time::Duration;

fn ns(d: Duration) -> u64 {
    d.as_nanos() as u64
}

#[test]
fn interval_steps_match_spec() {
    assert_eq!(INTERVAL_STEPS_MS.first(), Some(&100));
    assert_eq!(INTERVAL_STEPS_MS[9], 1000);
    assert_eq!(INTERVAL_STEPS_MS.last(), Some(&10_000));
    assert!(INTERVAL_STEPS_MS[..10].windows(2).all(|w| w[1] - w[0] == 100));
    assert!(INTERVAL_STEPS_MS[9..].windows(2).all(|w| w[1] - w[0] == 1000));
}

#[test]
fn saved_values_snap_to_the_nearest_step() {
    assert_eq!(INTERVAL_STEPS_MS[nearest_step(&INTERVAL_STEPS_MS, 1450)], 1000);
    assert_eq!(HISTORY_STEPS_SECS[nearest_step(&HISTORY_STEPS_SECS, 100_000)], 1800);
    // Halfway between two steps: the first one wins.
    assert_eq!(nearest_step(&[10, 20], 15), 0);
    assert_eq!(nearest_step(&[], 15), 0);
}

#[test]
fn formats_durations() {
    assert_eq!(interval_ms(100), "100 ms");
    assert_eq!(interval_ms(3000), "3 s");
    assert_eq!(span_secs(30), "30 s");
    assert_eq!(span_secs(1800), "30 min");
}

#[test]
fn waits_only_for_the_rest_of_the_frame() {
    let budget = Duration::from_millis(13);
    assert_eq!(remaining(ns(Duration::from_millis(5)), ns(budget)), ns(Duration::from_millis(8)));
    assert_eq!(remaining(ns(Duration::from_millis(20)), ns(budget)), ns(Duration::ZERO));
}

#[test]
fn the_first_frame_does_not_wait() {
    let mut l = FrameLimiter::with_budget(10);
    assert_eq!(l.wait_for(100), 0);
    l.started(100);
    assert_eq!(l.wait_for(104), 6);
    assert_eq!(l.wait_for(130), 0);
    assert_eq!(l.budget(), 10);
}

#[test]
fn rule_only_grants_read_to_the_given_group() {
    let rule = rapl_rule(1000);
    assert!(rule.contains("KERNEL==\"intel-rapl:*\""));
    assert!(rule.contains("/bin/chgrp 1000 /sys%p/energy_uj"));
    assert!(rule.contains("/bin/chmod g+r /sys%p/energy_uj"));
    assert!(!rule.contains("o+r"));
}

#[test]
fn metric_keys_are_unique() {
    let mut keys: Vec<_> = MetricId::ALL.iter().map(|m| m.key()).collect();
    keys.sort_unstable();
    keys.dedup();
    assert_eq!(keys.len(), MetricId::ALL.len());
}

#[test]
fn enabled_set_roundtrip() {
    let mut set = EnabledSet::default();
    set.set(MetricId::DiskIo, true);
    assert!(set.contains(MetricId::DiskIo));
    assert!(!set.contains(MetricId::CpuTotal));
    set.set(MetricId::DiskIo, false);
    assert_eq!(set, EnabledSet::default());
}

#[test]
fn slugs_are_file_name_safe() {
    assert_eq!(slug("Rosé Pine 2!"), "ros-pine-2");
    assert_eq!(slug("  ***  "), "theme");
}

#[test]
fn slugs_are_lower_case() {
    assert_eq!(slug("My THEME"), "my-theme");
}

#[test]
fn theme_files_are_numbered_when_taken() {
    assert_eq!(file_name("nord", 1), "nord.toml");
    assert_eq!(file_name("nord", 2), "nord-2.toml");
    assert_eq!(custom_key("nord-2"), "custom:nord-2");
}

#[test]
fn colours_roundtrip_as_hex() {
    let c = ThemeColor::hex(0xff8c32);
    assert_eq!(c.to_hex_string(), "#ff8c32");
    assert_eq!(ThemeColor::parse("#FF8C32"), Some(c));
    assert_eq!(ThemeColor::parse("ff8c32"), Some(c));
    assert_eq!(ThemeColor::parse("#ff8c3"), None);
}

#[test]
fn colours_need_six_hex_digits() {
    assert_eq!(ThemeColor::parse("  #00ff00 "), Some(ThemeColor { r: 0, g: 255, b: 0 }));
    assert_eq!(ThemeColor::parse("#00ff0g"), None);
    assert_eq!(ThemeColor::parse("##00ff00"), None);
    assert_eq!(ThemeColor::parse("+12345"), None);
    assert_eq!(ThemeColor::parse("#+12345"), None);
    assert_eq!(ThemeColor::parse("#ABCDEF"), Some(ThemeColor { r: 0xab, g: 0xcd, b: 0xef }));
}

#[test]
fn focus_brings_the_window_back_only_after_leaving() {
    let mut w = MainWindow::new();
    assert!(!w.is_hidden());
    w.note_hidden();
    w.observe_focus(Some(true));
    assert!(w.is_hidden());
    w.observe_focus(None);
    w.observe_focus(Some(false));
    assert!(w.is_hidden());
    w.observe_focus(Some(true));
    assert!(!w.is_hidden());
    w.note_hidden();
    w.note_shown();
    assert!(!w.is_hidden());
}
