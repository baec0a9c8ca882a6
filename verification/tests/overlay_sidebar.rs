use kanshiui::model::{OutputMode, RuntimeOutput, ScreenConfig};
use kanshiui::overlay::{
    arg_value, move_command, overlay_args, overlay_targets, payload_from_args, pid_criteria,
    wants_overlay, IdentifyOverlayApp, OverlayPayload,
};
use kanshiui::sidebar::{
    card_connector, card_modes, choose_mirror_target, keep_valid_target, mirror_candidates,
    settle_mirrors, unmirrored_pos_x, visible_screens,
};

fn mode(w: u32, h: u32, r: i64) -> OutputMode {
    OutputMode { width: w, height: h, refresh_mhz: r }
}

fn output(conn: &str, make: Option<&str>, modes: Vec<OutputMode>) -> RuntimeOutput {
    RuntimeOutput {
        connector_name: conn.to_string(),
        make: make.map(|s| s.to_string()),
        model: make.map(|_| "Model".to_string()),
        serial: None,
        active: true,
        current_scale_milli: 1500,
        available_modes: modes,
        layout_x: -10,
        layout_y: 20,
        layout_width: 1920,
        layout_height: 1080,
    }
}

fn screen(id: &str, conn: &str, x: i32, enabled: bool, mirror: bool) -> ScreenConfig {
    ScreenConfig {
        id: id.to_string(),
        connector_name: conn.to_string(),
        enabled,
        selected_mode: mode(1000, 500, 60_000),
        available_modes: vec![mode(800, 600, 60_000)],
        scale_milli: 1000,
        pos_x: x,
        pos_y: 0,
        mirror,
        mirror_target: if mirror { Some("X".to_string()) } else { None },
    }
}

fn args(v: &[&str]) -> Vec<String> {
    v.iter().map(|s| s.to_string()).collect()
}

#[test]
fn arg_value_takes_the_following_argument() {
    let a = args(&["prog", "--x", "5", "--y"]);
    assert_eq!(arg_value(&a, "--x"), Some("5".to_string()));
    assert_eq!(arg_value(&a, "--y"), None);
    assert_eq!(arg_value(&a, "--z"), None);
}

#[test]
fn payload_defaults() {
    let a = args(&["prog", "--identify-overlay", "--connector", "DP-1"]);
    assert!(wants_overlay(&a));
    let p = payload_from_args(&a);
    assert_eq!(p.connector, "DP-1");
    assert_eq!(p.display_name, "Unknown Display");
    assert_eq!(p.scale, "1");
    assert_eq!(p.mode, "unknown mode");
    assert!(!wants_overlay(&args(&["prog"])));
}

#[test]
fn overlay_app_keeps_payload() {
    let p = OverlayPayload {
        connector: "c".to_string(),
        display_name: "d".to_string(),
        scale: "1".to_string(),
        mode: "m".to_string(),
    };
    let app = IdentifyOverlayApp::new(p);
    assert_eq!(app.payload.connector, "c");
    assert_eq!(app.payload.display_name, "d");
}

#[test]
fn overlay_command_line() {
    let o = output("DP-1", Some("Dell"), vec![mode(1920, 1080, 60_000), mode(2560, 1440, 59_951)]);
    let a = overlay_args(&o);
    assert_eq!(
        a,
        args(&[
            "--identify-overlay",
            "--connector",
            "DP-1",
            "--display-name",
            "Dell Model",
            "--x",
            "-10",
            "--y",
            "20",
            "--scale",
            "1.5",
            "--mode",
            "2560x1440@59.951Hz",
        ])
    );
    let bare = output("HDMI-A-1", None, vec![]);
    let b = overlay_args(&bare);
    assert_eq!(b[4], "HDMI-A-1");
    assert_eq!(b[12], "unknown mode");
}

#[test]
fn overlay_targets_need_a_layout() {
    let mut off = output("A", None, vec![]);
    off.layout_width = 0;
    let on = output("B", None, vec![]);
    assert_eq!(overlay_targets(&[off, on]), vec![1]);
}

#[test]
fn sway_commands() {
    assert_eq!(pid_criteria(4242), "[pid=\"4242\"]");
    assert_eq!(
        move_command("eDP-1"),
        "floating enable, sticky enable, border pixel 0, move window to output eDP-1, move position 24 24"
    );
}

#[test]
fn mirror_candidates_exclude_self_disabled_and_mirroring() {
    let screens = vec![
        screen("A", "A", 0, true, false),
        screen("B", "B", 0, false, false),
        screen("C", "C", 0, true, true),
        screen("D", "D", 0, true, false),
    ];
    assert_eq!(mirror_candidates(&screens, 0), vec!["D".to_string()]);
    assert_eq!(mirror_candidates(&screens, 1), vec!["A".to_string(), "D".to_string()]);
    let c = mirror_candidates(&screens, 2);
    assert_eq!(keep_valid_target(Some("D".to_string()), &c), Some("D".to_string()));
    assert_eq!(keep_valid_target(Some("B".to_string()), &c), None);
    assert_eq!(keep_valid_target(None, &c), None);
}

#[test]
fn unmirror_moves_past_overlapping_screens() {
    let snapshot = vec![screen("A", "A", 0, true, false), screen("B", "B", 1000, true, false), screen("M", "M", 500, true, true)];
    let me = screen("M", "M", 500, true, false);
    // overlaps A (0..1000) and B (1000..2000): past B's right edge plus the gap
    assert_eq!(unmirrored_pos_x(&snapshot, &me), Some(2040));
    let far = screen("M", "M", 5000, true, false);
    assert_eq!(unmirrored_pos_x(&snapshot, &far), Some(5000));
    let huge = screen("M", "M", i32::MAX - 10, true, false);
    assert_eq!(unmirrored_pos_x(&snapshot, &huge), None);
}

#[test]
fn card_lookups() {
    let outs = vec![
        output("DP-1", Some("Dell"), vec![mode(1, 1, 1)]),
        output("DP-2", Some("Dell"), vec![mode(2, 2, 2)]),
    ];
    // keyed by connector first
    let by_conn = screen("Dell Model", "DP-1", 0, true, false);
    assert_eq!(card_modes(&outs, &by_conn), vec![mode(1, 1, 1)]);
    // the display id of the last output that has it
    let by_id = screen("Dell Model", "X-9", 0, true, false);
    assert_eq!(card_modes(&outs, &by_id), vec![mode(2, 2, 2)]);
    let none = screen("Z", "Z", 0, true, false);
    assert_eq!(card_modes(&outs, &none), vec![mode(800, 600, 60_000)]);
    assert_eq!(card_connector(&outs, &by_conn), "DP-1");
    let same = screen("Dell Model", "Dell Model", 0, true, false);
    assert_eq!(card_connector(&outs, &same), "DP-2");
    assert_eq!(card_connector(&outs, &none), "Z");
}

#[test]
fn canvas_draws_enabled_unmirrored() {
    let screens = vec![
        screen("A", "A", 0, true, false),
        screen("B", "B", 0, false, false),
        screen("C", "C", 0, true, true),
        screen("D", "D", 0, true, false),
    ];
    assert_eq!(visible_screens(&screens), vec![0, 3]);
}

#[test]
fn screen_multiset_counts_each_id_once() {
    let screens = vec![
        screen("Dell", "DP-1", 0, true, false),
        screen("eDP-1", "eDP-1", 0, true, false),
        screen("Dell", "DP-2", 0, true, false),
    ];
    let mut m = kanshiui::matching::screen_multiset(&screens);
    m.sort();
    assert_eq!(m, vec![("Dell".to_string(), 2), ("eDP-1".to_string(), 1)]);
}

#[test]
fn choosing_a_mirror_target_sets_mirroring() {
    let mut s = screen("HDMI-A-1", "HDMI-A-1", 0, true, false);
    assert!(!choose_mirror_target(&mut s, Some("eDP-1".to_string())));
    assert!(s.mirror);
    assert_eq!(s.mirror_target.as_deref(), Some("eDP-1"));
    assert!(choose_mirror_target(&mut s, None));
    assert!(!s.mirror);
    assert!(s.mirror_target.is_none());
    assert!(!choose_mirror_target(&mut s, None));
}

#[test]
fn settling_the_cards_keeps_only_valid_targets() {
    let a = screen("A", "A", 0, true, false);
    let b = screen("B", "B", 1920, true, false);
    let mut c = screen("C", "C", 3840, true, true);
    c.mirror_target = Some("A".to_string());
    let d = screen("D", "D", 5760, false, false);
    let snapshot = vec![a.clone(), b.clone(), c.clone(), d.clone()];
    let mut screens = snapshot.clone();
    let picks = vec![
        Some("B".to_string()), // B can be mirrored
        Some("B".to_string()), // not itself
        None,                  // C stops mirroring
        Some("D".to_string()), // D is disabled
    ];
    let stopped = settle_mirrors(&mut screens, &snapshot, picks);
    assert_eq!(stopped, vec![2]);
    assert!(screens[0].mirror);
    assert_eq!(screens[0].mirror_target.as_deref(), Some("B"));
    for s in &screens[1..] {
        assert!(!s.mirror);
        assert!(s.mirror_target.is_none());
    }
}
