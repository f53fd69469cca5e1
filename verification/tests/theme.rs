use hyperion::ui::theme::{presets, shades, ThemeColor, DEFAULT_KEY};

fn lum(c: ThemeColor) -> u32 {
    u32::from(c.r) + u32::from(c.g) + u32::from(c.b)
}

#[test]
fn preset_keys_are_unique_and_include_the_default() {
    let mut keys: Vec<_> = presets().iter().map(|(k, _)| *k).collect();
    assert!(keys.contains(&DEFAULT_KEY));
    let n = keys.len();
    keys.sort_unstable();
    keys.dedup();
    assert_eq!(keys.len(), n);
}

#[test]
fn earlier_theme_keys_are_still_presets() {
    let keys: Vec<_> = presets().iter().map(|(k, _)| *k).collect();
    for key in ["jade", "dracula", "nord", "gruvbox", "monokai", "solarized", "amber"] {
        assert!(keys.contains(&key), "{key}");
    }
    assert!(!keys.contains(&"no-such-theme"));
}

#[test]
fn light_themes_derive_darker_borders_dark_themes_lighter() {
    let p = |key: &str| {
        let (_, spec) = presets().into_iter().find(|(k, _)| *k == key).unwrap();
        (spec.light, spec.bg_bottom, shades(&spec))
    };
    let (light, bottom, s) = p("github-light");
    assert!(light && lum(s.card_stroke) < lum(bottom));
    let (light, bottom, s) = p("github-dark");
    assert!(!light && lum(s.card_stroke) > lum(bottom));
}

#[test]
fn advanced_overrides_replace_derived_colours() {
    let mut spec = presets().remove(0).1;
    let red = ThemeColor::hex(0xff0000);
    spec.advanced.cpu = Some(red);
    spec.advanced.grid = Some(red);
    let s = shades(&spec);
    assert_eq!(s.cpu, red);
    assert_eq!(s.grid, red);
    assert_eq!(s.ram, spec.accent);
}

#[test]
fn every_preset_has_its_own_maxed_colour() {
    for (key, spec) in presets() {
        assert!(spec.advanced.load_high.is_some(), "{key} has no maxed colour");
    }
}

#[test]
fn derived_shades_step_from_the_bottom_background() {
    let mut spec = presets().into_iter().find(|(k, _)| *k == DEFAULT_KEY).unwrap().1;
    spec.light = false;
    spec.bg_bottom = ThemeColor { r: 10, g: 20, b: 250 };
    spec.advanced = Default::default();
    let s = shades(&spec);
    // Dark: card +16 (see-through), border +32, inset -6, all saturating.
    assert_eq!(s.card, ThemeColor { r: 26, g: 36, b: 255 });
    assert_eq!(s.card_alpha, 0xd8);
    assert_eq!(s.card_stroke, ThemeColor { r: 42, g: 52, b: 255 });
    assert_eq!(s.well, ThemeColor { r: 4, g: 14, b: 244 });
    // The grid follows the border; the load scale ends in red.
    assert_eq!(s.grid, s.card_stroke);
    assert_eq!(s.load_high, ThemeColor { r: 0xff, g: 0x55, b: 0x55 });
    assert_eq!(s.load_low, spec.accent2);
    assert_eq!(s.load_mid, spec.accent);

    spec.light = true;
    let s = shades(&spec);
    // Light: card +14, border -34, inset -10.
    assert_eq!(s.card, ThemeColor { r: 24, g: 34, b: 255 });
    assert_eq!(s.card_alpha, 0xe6);
    assert_eq!(s.card_stroke, ThemeColor { r: 0, g: 0, b: 216 });
    assert_eq!(s.well, ThemeColor { r: 0, g: 10, b: 240 });
    assert_eq!(s.load_high, ThemeColor { r: 0xd1, g: 0x24, b: 0x2f });
}

#[test]
fn an_overridden_card_is_opaque() {
    let mut spec = presets().remove(0).1;
    let card = ThemeColor::hex(0x123456);
    spec.advanced.card = Some(card);
    spec.advanced.card_stroke = Some(card);
    let s = shades(&spec);
    assert_eq!(s.card, card);
    assert_eq!(s.card_alpha, 255);
    assert_eq!(s.card_stroke, card);
    // The grid follows the (overridden) border.
    assert_eq!(s.grid, card);
}

#[test]
fn presets_hold_their_table_colours() {
    let list = presets();
    assert_eq!(list.len(), 27);
    let (key, jade) = &list[0];
    assert_eq!(*key, "jade");
    assert_eq!(jade.name, "Jade");
    assert!(!jade.light);
    assert_eq!(jade.accent, ThemeColor::hex(0xff8c32));
    assert_eq!(jade.advanced.load_high, Some(ThemeColor::hex(0xff4d4d)));
    assert_eq!(jade.advanced.load_low, None);
    let contrast = &list.iter().find(|(k, _)| *k == "high-contrast").unwrap().1;
    assert_eq!(contrast.advanced.card, Some(ThemeColor::hex(0x000000)));
    assert_eq!(contrast.advanced.card_stroke, Some(ThemeColor::hex(0x6fc3df)));
    let (key, last) = &list[26];
    assert_eq!(*key, "solarized-light");
    assert!(last.light);
}
