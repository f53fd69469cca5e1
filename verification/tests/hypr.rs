use hyperion::hypr::{
    all_ok, legacy_command, legacy_tile_rule, lua_command, lua_string, lua_tile_rule, place_actions,
    regex_escape, Action, Client, Dialect, Hypr,
};

#[test]
fn builds_lua_dispatch_for_hyprland_053_and_later() {
    let cmd = lua_command("0xab", &[Action::Float, Action::Move([8, 43])]);
    assert_eq!(
        cmd,
        "eval hl.dispatch(hl.dsp.window.float({ window = \"address:0xab\", action = \"set\" })) \
         hl.dispatch(hl.dsp.window.move({ window = \"address:0xab\", x = 8, y = 43 }))"
    );
}

#[test]
fn builds_legacy_batch_for_older_hyprland() {
    let cmd = legacy_command("0xab", &[Action::Resize([460, 190]), Action::Move([8, 43])]);
    assert_eq!(
        cmd,
        "[[BATCH]]dispatch resizewindowpixel exact 460 190,address:0xab;\
         dispatch movewindowpixel exact 8 43,address:0xab"
    );
}

#[test]
fn negative_positions_keep_their_sign() {
    assert_eq!(
        legacy_command("0x1", &[Action::Move([-1920, -5])]),
        "[[BATCH]]dispatch movewindowpixel exact -1920 -5,address:0x1"
    );
}

#[test]
fn tile_rule_escapes_title_regex_and_places_window() {
    let rule = lua_tile_rule("hyperion-tile", "Hyperion — Disk · sd(a)", Some([8, 43]), [460, 190]);
    assert_eq!(
        rule,
        r#"eval hl.window_rule({ name = "hyperion-tile: Hyperion — Disk · sd(a)", match = { class = "^(hyperion-tile)$", title = "^(Hyperion — Disk · sd\\(a\\))$" }, float = true, size = { 460, 190 }, move = { 8, 43 } })"#
    );
}

#[test]
fn tile_rule_without_position_leaves_it_to_the_compositor() {
    let rule = lua_tile_rule("c", "t", None, [1, 2]);
    assert_eq!(
        rule,
        r#"eval hl.window_rule({ name = "c: t", match = { class = "^(c)$", title = "^(t)$" }, float = true, size = { 1, 2 } })"#
    );
    assert_eq!(
        legacy_tile_rule("c", "a.b", [1, 2]),
        "[[BATCH]]keyword windowrulev2 float,class:^(c)$;keyword windowrulev2 size 1 2,title:^(a\\.b)$"
    );
}

#[test]
fn escaping_for_regex_and_lua() {
    assert_eq!(regex_escape("a+b*(c)|[d]{e}^$.?\\"), "a\\+b\\*\\(c\\)\\|\\[d\\]\\{e\\}\\^\\$\\.\\?\\\\");
    assert_eq!(lua_string("say \"hi\" \\o/"), "\"say \\\"hi\\\" \\\\o/\"");
}

#[test]
fn recognises_success_and_error_replies() {
    assert!(all_ok("ok"));
    assert!(all_ok("ok\n\nok\n\nok"));
    assert!(!all_ok(""));
    assert!(!all_ok("error: [string ...]: ')' expected near 'exact'"));
}

#[test]
fn dialect_is_found_once_and_then_kept() {
    let mut h = Hypr::new();
    assert_eq!(h.first_try(), Dialect::Lua);
    assert_eq!(h.after_reply(Dialect::Lua, false), Some(Dialect::Legacy));
    assert_eq!(h.after_reply(Dialect::Legacy, true), None);
    assert_eq!(h.dialect(), Some(Dialect::Legacy));
    assert_eq!(h.first_try(), Dialect::Legacy);
    // Once known, a failing command is not retried in the other dialect.
    assert_eq!(h.after_reply(Dialect::Legacy, false), None);
    assert_eq!(h.dialect(), Some(Dialect::Legacy));
}

#[test]
fn neither_dialect_working_leaves_it_unknown() {
    let mut h = Hypr::new();
    assert_eq!(h.after_reply(Dialect::Lua, false), Some(Dialect::Legacy));
    assert_eq!(h.after_reply(Dialect::Legacy, false), None);
    assert_eq!(h.dialect(), None);
}

#[test]
fn placing_sends_only_the_steps_still_needed() {
    let mut c = Client {
        address: "0x1".into(),
        pid: 1,
        class: "c".into(),
        title: "t".into(),
        at: [10, 20],
        size: [400, 200],
        floating: false,
    };
    assert_eq!(
        place_actions(&c, [10, 20], [500, 200]),
        vec![Action::Float, Action::Resize([500, 200])]
    );
    c.floating = true;
    assert_eq!(place_actions(&c, [10, 20], [400, 200]), vec![]);
    assert_eq!(place_actions(&c, [0, 20], [400, 200]), vec![Action::Move([0, 20])]);
}

#[test]
fn our_windows_are_told_apart_by_pid_class_and_title() {
    let c = |pid: i64, class: &str, title: &str| Client {
        address: "0x1".into(),
        pid,
        class: class.into(),
        title: title.into(),
        at: [0, 0],
        size: [1, 1],
        floating: true,
    };
    assert!(c(7, "hyperion", "Hyperion").is_ours(7));
    assert!(c(7, "hyperion-tile", "CPU").is_ours(7));
    assert!(!c(8, "hyperion", "Hyperion").is_ours(7));
    assert!(!c(7, "firefox", "Hyperion").is_ours(7));
    assert!(c(7, "hyperion-tile", "CPU").is_titled(7, "CPU"));
    assert!(!c(7, "hyperion-tile", "CPU").is_titled(7, "GPU"));
    assert!(!c(9, "hyperion-tile", "CPU").is_titled(7, "CPU"));
}
