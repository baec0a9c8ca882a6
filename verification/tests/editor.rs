use kanshiui::editor::{
    can_refresh_with, confirmation_timed_out, default_layout_fits, AppState, KanshiApp, SaveOutcome,
};
use kanshiui::model::{OutputMode, Profile, RuntimeOutput, ScreenConfig};

fn mode(w: u32, h: u32, r: i64) -> OutputMode {
    OutputMode { width: w, height: h, refresh_mhz: r }
}

fn output(conn: &str, make: Option<&str>, model: Option<&str>, serial: Option<&str>) -> RuntimeOutput {
    RuntimeOutput {
        connector_name: conn.to_string(),
        make: make.map(|s| s.to_string()),
        model: model.map(|s| s.to_string()),
        serial: serial.map(|s| s.to_string()),
        active: true,
        current_scale_milli: 1000,
        available_modes: vec![mode(1920, 1080, 60_000), mode(2560, 1440, 59_951)],
        layout_x: 0,
        layout_y: 0,
        layout_width: 2560,
        layout_height: 1440,
    }
}

fn screen(id: &str, x: i32, y: i32, enabled: bool) -> ScreenConfig {
    ScreenConfig {
        id: id.to_string(),
        connector_name: id.to_string(),
        enabled,
        selected_mode: mode(1920, 1080, 60_000),
        available_modes: vec![mode(1920, 1080, 60_000)],
        scale_milli: 1000,
        pos_x: x,
        pos_y: y,
        mirror: false,
        mirror_target: None,
    }
}

fn profile(name: &str, ids: &[&str]) -> Profile {
    Profile {
        name: name.to_string(),
        screens: ids.iter().enumerate().map(|(i, id)| screen(id, (i as i32) * 1920, 0, true)).collect(),
        raw_range: None,
    }
}

fn app() -> KanshiApp {
    KanshiApp::new("/tmp/kanshiui".to_string())
}

#[test]
fn new_app_has_default_snap_threshold() {
    let a = app();
    assert_eq!(a.state.settings.snap_threshold_px, 100);
    assert_eq!(a.config_path, "/tmp/kanshiui");
    assert!(a.state.profiles.is_empty());
    assert!(a.state.current_profile.is_none());
}

#[test]
fn init_defaults_keeps_a_positive_threshold() {
    let mut s = AppState::default();
    s.settings.snap_threshold_px = 42;
    s.init_defaults();
    assert_eq!(s.settings.snap_threshold_px, 42);
    s.settings.snap_threshold_px = -5;
    s.init_defaults();
    assert_eq!(s.settings.snap_threshold_px, 100);
}

#[test]
fn refresh_generates_sorted_auto_profile() {
    let mut a = app();
    let outs = vec![output("eDP-1", None, None, None), output("DP-2", Some("Dell Inc."), Some("P2723D"), Some("HJP"))];
    a.refresh_all(Ok(outs), Ok((String::new(), vec![])));
    assert_eq!(a.state.current_profile_name, "Auto - Dell Inc. P2723D HJP+eDP-1");
    assert_eq!(a.state.profiles.len(), 1);
    assert_eq!(a.state.status, "Loaded current outputs and profiles");
    assert!(a.state.show_first_run_dialog);
    let cur = a.state.current_profile.as_ref().unwrap();
    assert_eq!(cur.screens.len(), 2);
    // best mode is the largest, placed side by side
    assert_eq!(cur.screens[0].selected_mode.width, 2560);
    assert_eq!(cur.screens[1].pos_x, 2560);
    assert_eq!(cur.screens[0].id, "eDP-1");
    assert_eq!(cur.screens[1].id, "Dell Inc. P2723D HJP");
    assert!(!a.state.current_profile_read_only);
}

#[test]
fn refresh_makes_auto_name_unique() {
    let mut a = app();
    let outs = vec![output("eDP-1", None, None, None)];
    let existing = vec![profile("Auto - eDP-1", &["HDMI-A-1"]), profile("Auto - eDP-1 (2)", &["HDMI-A-1"])];
    a.refresh_all(Ok(outs), Ok(("profile x {}".to_string(), existing)));
    assert_eq!(a.state.current_profile_name, "Auto - eDP-1 (2) (3)");
    assert_eq!(a.state.profiles.len(), 3);
    assert!(!a.state.show_first_run_dialog);
}

#[test]
fn refresh_without_outputs_names_profile() {
    let mut a = app();
    a.refresh_all(Ok(vec![]), Ok(("\n  \n".to_string(), vec![])));
    assert_eq!(a.state.current_profile_name, "Profile");
    assert!(a.state.show_first_run_dialog);
}

#[test]
fn refresh_loads_matching_profile() {
    let mut a = app();
    let outs = vec![output("eDP-1", None, None, None), output("DP-1", None, None, None)];
    let existing = vec![profile("Other", &["HDMI-A-1"]), profile("Desk", &["DP-1", "eDP-1"])];
    a.refresh_all(Ok(outs), Ok(("x".to_string(), existing)));
    assert_eq!(a.state.current_profile_name, "Desk");
    assert_eq!(a.state.profiles.len(), 2);
    assert_eq!(a.state.status, "Loaded current outputs and profiles");
}

#[test]
fn refresh_reports_scan_failure() {
    let mut a = app();
    a.state.profiles.push(profile("Keep", &["eDP-1"]));
    a.refresh_all(Err("no sway".to_string()), Ok((String::new(), vec![])));
    assert_eq!(a.state.status, "Failed to scan sway outputs: no sway");
    assert_eq!(a.state.profiles.len(), 1);
    assert!(a.state.current_profile.is_none());
}

#[test]
fn refresh_clears_profiles_on_load_failure() {
    let mut a = app();
    a.state.profiles.push(profile("Old", &["eDP-1"]));
    a.refresh_all(Ok(vec![output("eDP-1", None, None, None)]), Err("bad file".to_string()));
    // the profile made for the outputs is the only one, and the status is overwritten
    assert_eq!(a.state.profiles.len(), 1);
    assert_eq!(a.state.current_profile_name, "Auto - eDP-1");
    assert_eq!(a.state.status, "Loaded current outputs and profiles");
}

#[test]
fn layout_checks() {
    let outs = vec![output("eDP-1", None, None, None)];
    assert!(default_layout_fits(&outs));
    assert!(can_refresh_with(&outs, &vec![]));
}

#[test]
fn load_profile_marks_mismatch_read_only() {
    let mut a = app();
    a.state.connected_outputs = vec![output("eDP-1", None, None, None)];
    a.state.profiles = vec![profile("Desk", &["DP-1"]), profile("Laptop", &["eDP-1"])];
    a.load_profile_into_editor("Desk");
    assert!(a.state.current_profile_read_only);
    assert_eq!(a.state.status, "Loaded profile 'Desk' as read-only (hardware mismatch)");
    a.load_profile_into_editor("Laptop");
    assert!(!a.state.current_profile_read_only);
    assert_eq!(a.state.current_profile_name, "Laptop");
    assert_eq!(a.state.status, "Loaded profile 'Laptop' in editor");
    a.load_profile_into_editor("Missing");
    assert_eq!(a.state.current_profile_name, "Laptop");
}

#[test]
fn matching_uses_display_ids_only() {
    let mut a = app();
    a.state.connected_outputs = vec![output("DP-1", Some("Dell"), Some("U2720Q"), None)];
    assert!(a.profile_matches_current_hardware(&profile("p", &["Dell U2720Q"])));
    assert!(!a.profile_matches_current_hardware(&profile("p", &["DP-1"])));
    assert!(!a.profile_matches_current_hardware(&profile("p", &["Dell U2720Q", "Dell U2720Q"])));
}

#[test]
fn save_requires_a_name_and_a_profile() {
    let mut a = app();
    assert!(a.profile_to_save().is_none());
    assert_eq!(a.state.status, "No profile in editor");
    a.state.current_profile = Some(profile("x", &["eDP-1"]));
    a.state.current_profile_name = "   ".to_string();
    assert!(a.profile_to_save().is_none());
    assert_eq!(a.state.status, "Please provide a profile name");
    a.state.current_profile_read_only = true;
    assert!(a.profile_to_save().is_none());
    assert_eq!(a.state.status, "Profile is read-only because it does not match current hardware");
    a.state.current_profile_read_only = false;
    a.state.current_profile_name = "  Home  ".to_string();
    let p = a.profile_to_save().unwrap();
    assert_eq!(p.name, "Home");
}

#[test]
fn save_written_replaces_same_name_and_waits_for_confirmation() {
    let mut a = app();
    a.state.profiles = vec![profile("Home", &["DP-1"]), profile("Work", &["eDP-1"])];
    a.state.current_profile_name = " Home ".to_string();
    let saved = profile("Home", &["eDP-1"]);
    a.save_current_profile(saved, SaveOutcome::Written { previous: Some("old".to_string()), restarted: Ok(()) });
    assert_eq!(a.state.profiles.len(), 2);
    assert_eq!(a.state.profiles[0].screens[0].id, "eDP-1");
    assert!(a.state.pending_confirmation);
    assert_eq!(a.state.previous_config_contents.as_deref(), Some("old"));
    assert_eq!(a.state.status, "Applied profile 'Home' and restarted kanshi (confirming...)");
    assert_eq!(a.state.current_profile.as_ref().unwrap().name, "Home");
}

#[test]
fn save_written_adds_new_profile_and_reports_restart_failure() {
    let mut a = app();
    a.save_current_profile(
        profile("New", &["eDP-1"]),
        SaveOutcome::Written { previous: None, restarted: Err("no systemd".to_string()) },
    );
    assert_eq!(a.state.profiles.len(), 1);
    assert_eq!(a.state.status, "Saved profile 'New' but failed to restart kanshi: no systemd (confirming...)");
}

#[test]
fn save_failure_is_reported() {
    let mut a = app();
    a.save_current_profile(profile("New", &["eDP-1"]), SaveOutcome::Failed("disk full".to_string()));
    assert_eq!(a.state.status, "Save failed: disk full");
    assert!(a.state.profiles.is_empty());
    assert!(!a.state.pending_confirmation);
}

#[test]
fn apply_flow() {
    let mut a = app();
    // nothing to apply: no profile is handed out, so nothing is written or restarted
    assert!(a.profile_to_save().is_none());
    assert_eq!(a.state.status, "No profile in editor");
    assert!(!a.state.pending_confirmation);
    a.state.current_profile = Some(profile("x", &["eDP-1"]));
    a.state.current_profile_name = "Home".to_string();
    let p = a.profile_to_save().unwrap();
    a.apply_current_profile(p.clone(), Some("prev".to_string()), Ok(()));
    assert!(a.state.pending_confirmation);
    assert_eq!(a.state.previous_config_contents.as_deref(), Some("prev"));
    assert_eq!(a.state.status, "Applied profile 'Home' and restarted kanshi (confirming...)");
    assert_eq!(a.state.profiles.len(), 1);
    assert_eq!(a.state.profiles[0].name, "Home");
    a.apply_current_profile(p, None, Err("boom".to_string()));
    assert_eq!(a.state.status, "Profile saved but failed to restart kanshi: boom");
    assert!(a.state.pending_confirmation);
    assert_eq!(a.state.profiles.len(), 1);
}

#[test]
fn confirmation_accept_and_reject() {
    let mut a = app();
    a.state.current_profile_name = " Home".to_string();
    a.state.pending_confirmation = true;
    a.state.previous_config_contents = Some("prev".to_string());
    a.confirm_changes();
    assert!(!a.state.pending_confirmation);
    assert!(a.state.previous_config_contents.is_none());
    assert_eq!(a.state.status, "Profile 'Home' confirmed");

    a.state.pending_confirmation = true;
    a.state.previous_config_contents = Some("prev".to_string());
    let prev = a.reject_changes();
    assert_eq!(prev.as_deref(), Some("prev"));
    assert!(a.state.previous_config_contents.is_none());
    assert!(!a.state.pending_confirmation);
    a.restore_finished(Ok(()), false);
    assert_eq!(a.state.status, "Previous configuration restored");
    a.restore_finished(Ok(()), true);
    assert_eq!(a.state.status, "Confirmation timeout — previous configuration restored");
    a.restore_finished(Err("denied".to_string()), false);
    assert_eq!(a.state.status, "Failed to restore previous config: denied");
}

#[test]
fn identify_toggle() {
    let mut a = app();
    assert!(a.identify_screens());
    a.identify_started(vec![11, 12]);
    assert_eq!(a.state.status, "Screen identification overlays enabled (2 windows)");
    assert_eq!(a.state.identify_overlay_pids, vec![11, 12]);
    assert!(!a.identify_screens());
    a.identify_stopped();
    assert!(a.state.identify_overlay_pids.is_empty());
    assert_eq!(a.state.status, "Screen identification overlays disabled");
    assert!(a.identify_screens());
    a.identify_started(vec![]);
    assert_eq!(a.state.status, "Failed to spawn identify overlays");
}

#[test]
fn align_moves_enabled_minimum_to_origin() {
    let mut a = app();
    assert_eq!(a.align_current_profile(), Err("No profile loaded"));
    let mut p = profile("p", &[]);
    p.screens = vec![screen("A", 100, 50, true), screen("B", 2020, -30, true), screen("C", -500, -900, false)];
    a.state.current_profile = Some(p);
    assert_eq!(a.align_current_profile(), Ok(()));
    let s = &a.state.current_profile.as_ref().unwrap().screens;
    assert_eq!((s[0].pos_x, s[0].pos_y), (0, 80));
    assert_eq!((s[1].pos_x, s[1].pos_y), (1920, 0));
    assert_eq!((s[2].pos_x, s[2].pos_y), (-600, -870));
    // aligning again changes nothing
    assert_eq!(a.align_current_profile(), Ok(()));
    let s2 = &a.state.current_profile.as_ref().unwrap().screens;
    assert_eq!((s2[0].pos_x, s2[1].pos_x, s2[2].pos_x), (0, 1920, -600));
}

#[test]
fn default_profile_skips_outputs_without_modes() {
    let mut a = app();
    let mut bare = output("HDMI-A-1", None, None, None);
    bare.available_modes = vec![];
    a.state.connected_outputs = vec![bare, output("eDP-1", None, None, None)];
    let p = a.default_profile("n".to_string());
    assert_eq!(p.screens.len(), 1);
    assert_eq!(p.screens[0].id, "eDP-1");
    assert_eq!(p.screens[0].pos_x, 2560);
    assert_eq!(p.screens[0].scale_milli, 1000);
}

#[test]
fn confirmation_times_out_at_the_deadline() {
    assert!(!confirmation_timed_out(9_999_999_999, Some(10_000_000_000)));
    assert!(confirmation_timed_out(10_000_000_000, Some(10_000_000_000)));
    assert!(confirmation_timed_out(10_000_000_001, Some(10_000_000_000)));
    assert!(confirmation_timed_out(0, None));
}
