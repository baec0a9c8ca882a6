use kanshiui::generate::{backup_name, generate_profile, upserted_config};
use kanshiui::model::{best_mode, canonical_display_id, trim_float, OutputMode, Profile, ScreenConfig};
use kanshiui::parse::{
    find_matching_brace, parse_output_aliases, parse_profile_body, parse_profiles,
    resolve_alias,
};
use kanshiui::restart::{kanshi_service_unit, restart_kanshi, RestartAction, RestartStage};

fn mode(w: u32, h: u32, r: i64) -> OutputMode {
    OutputMode { width: w, height: h, refresh_mhz: r }
}

fn screen(id: &str, enabled: bool, m: OutputMode, x: i32, y: i32, scale: i64) -> ScreenConfig {
    ScreenConfig {
        id: id.to_string(),
        connector_name: "ignored".to_string(),
        enabled,
        selected_mode: m,
        available_modes: vec![],
        scale_milli: scale,
        pos_x: x,
        pos_y: y,
        mirror: false,
        mirror_target: None,
    }
}

#[test]
fn generated_block_reads_back() {
    let p = Profile {
        name: "Office MA 2".to_string(),
        screens: vec![
            screen("eDP-1", true, mode(3840, 2400, 59_994), 0, 600, 2000),
            screen("Dell Inc. DELL P2723D HJPV1L3", false, mode(2560, 1440, 60_000), -4480, -7, 1250),
        ],
        raw_range: None,
    };
    let text = generate_profile(&p);
    let back = parse_profiles(&text).expect("profiles read");
    assert_eq!(back.len(), 1);
    let q = &back[0];
    assert_eq!(q.name, "Office MA 2");
    assert_eq!(q.raw_range, Some((0, text.chars().count() - 1)));
    assert_eq!(q.screens.len(), 2);
    for (a, b) in p.screens.iter().zip(q.screens.iter()) {
        assert_eq!(a.id, b.id);
        assert_eq!(b.connector_name, a.id);
        assert_eq!(a.enabled, b.enabled);
        assert_eq!(a.selected_mode, b.selected_mode);
        assert_eq!(b.available_modes, vec![a.selected_mode]);
        assert_eq!((a.pos_x, a.pos_y, a.scale_milli), (b.pos_x, b.pos_y, b.scale_milli));
        assert!(!b.mirror);
    }
}

#[test]
fn generated_text_is_inline() {
    let p = Profile {
        name: "Office MA 2".to_string(),
        screens: vec![
            screen("eDP-1", true, mode(3840, 2400, 59_994), 0, 600, 2000),
            screen("Dell Inc. DELL P2723D HJPV1L3", true, mode(2560, 1440, 60_000), 4480, 0, 1000),
        ],
        raw_range: None,
    };
    assert_eq!(
        generate_profile(&p),
        "profile \"Office MA 2\"{\n  output eDP-1 enable mode 3840x2400@59.994Hz position 0,600 scale 2\n  output 'Dell Inc. DELL P2723D HJPV1L3' enable mode 2560x1440@60Hz position 4480,0 scale 1\n  exec notify-send \"Office MA 2\"\n}\n"
    );
}

#[test]
fn mirrored_screen_is_fitted_to_its_target() {
    let target = screen("eDP-1", true, mode(1920, 1080, 60_000), 100, 200, 1000);
    let mut m = screen("HDMI-A-1", true, mode(1280, 720, 60_000), 0, 0, 1000);
    m.mirror = true;
    m.mirror_target = Some("eDP-1".to_string());
    let p = Profile { name: "M".to_string(), screens: vec![target, m], raw_range: None };
    let text = generate_profile(&p);
    assert!(text.contains("  # kanshiui: mirror id='HDMI-A-1' target='eDP-1'\n"));
    // 1280/1920 = 0.667 of the target; the 1920x1080 it covers is centred
    assert!(text.contains("output HDMI-A-1 enable mode 1280x720@60Hz position 100,200 scale 0.667"));
    let back = parse_profiles(&text).expect("profiles read");
    assert!(back[0].screens[1].mirror);
    assert_eq!(back[0].screens[1].mirror_target.as_deref(), Some("eDP-1"));
}

#[test]
fn mirrored_block_reads_back_fitted() {
    let target = screen("eDP-1", true, mode(1920, 1080, 60_000), 100, 200, 1000);
    let mut m = screen("HDMI-A-1", true, mode(1280, 720, 60_000), 0, 0, 1000);
    m.mirror = true;
    m.mirror_target = Some("eDP-1".to_string());
    let p = Profile { name: "M".to_string(), screens: vec![target, m], raw_range: None };
    let text = generate_profile(&p);
    let back = parse_profiles(&text).expect("profiles read");
    assert_eq!(back.len(), 1);
    assert_eq!(back[0].name, "M");
    assert_eq!(back[0].raw_range, Some((0, text.len() - 1)));
    let t = &back[0].screens[0];
    assert_eq!(t.id, "eDP-1");
    assert!(!t.mirror);
    assert_eq!((t.pos_x, t.pos_y, t.scale_milli), (100, 200, 1000));
    let s = &back[0].screens[1];
    assert_eq!(s.id, "HDMI-A-1");
    assert_eq!(s.selected_mode, mode(1280, 720, 60_000));
    assert_eq!((s.pos_x, s.pos_y, s.scale_milli), (100, 200, 667));
    assert!(s.mirror);
    assert_eq!(s.mirror_target.as_deref(), Some("eDP-1"));
}

#[test]
fn writing_into_empty_config_reads_back() {
    let p = Profile {
        name: "Desk".to_string(),
        screens: vec![
            screen("eDP-1", false, mode(2560, 1600, 59_994), 0, 0, 1500),
            screen("Dell Inc. DELL P2723D HJPV1L3", true, mode(2560, 1440, 60_000), 1707, -20, 1000),
        ],
        raw_range: None,
    };
    let text = upserted_config("", &p).expect("config read");
    assert_eq!(text, generate_profile(&p));
    let back = parse_profiles(&text).expect("profiles read");
    assert_eq!(back.len(), 1);
    assert_eq!(back[0].name, "Desk");
    assert_eq!(back[0].screens.len(), 2);
    let a = &back[0].screens[0];
    assert_eq!(a.id, "eDP-1");
    assert!(!a.enabled);
    assert_eq!(a.selected_mode, mode(2560, 1600, 59_994));
    assert_eq!((a.pos_x, a.pos_y, a.scale_milli), (0, 0, 1500));
    let b = &back[0].screens[1];
    assert_eq!(b.id, "Dell Inc. DELL P2723D HJPV1L3");
    assert!(b.enabled);
    assert_eq!((b.pos_x, b.pos_y, b.scale_milli), (1707, -20, 1000));
}

#[test]
fn writing_into_a_written_config_reads_back() {
    let a = Profile {
        name: "A".to_string(),
        screens: vec![screen("eDP-1", true, mode(1920, 1080, 60_000), 0, 0, 1000)],
        raw_range: None,
    };
    let b = Profile {
        name: "B".to_string(),
        screens: vec![screen("DP-2", true, mode(2560, 1440, 60_000), 0, 0, 1250)],
        raw_range: None,
    };
    let existing = format!("{}{}", generate_profile(&a), generate_profile(&b));
    // replacing the first block keeps the newline that ended it
    let a2 = Profile {
        name: "A".to_string(),
        screens: vec![screen("eDP-1", false, mode(1280, 800, 60_000), 10, 20, 2000)],
        raw_range: None,
    };
    let replaced = upserted_config(&existing, &a2).expect("config read");
    assert_eq!(replaced, format!("{}\n{}", generate_profile(&a2), generate_profile(&b)));
    let back = parse_profiles(&replaced).expect("profiles read");
    assert_eq!(back.len(), 2);
    assert_eq!(back[0].name, "A");
    assert!(!back[0].screens[0].enabled);
    assert_eq!((back[0].screens[0].pos_x, back[0].screens[0].pos_y, back[0].screens[0].scale_milli), (10, 20, 2000));
    let first_len = generate_profile(&a2).chars().count();
    assert_eq!(back[0].raw_range, Some((0, first_len - 1)));
    // the second profile's text starts at its header line, after the blank line
    assert_eq!(back[1].name, "B");
    assert_eq!(back[1].raw_range, Some((first_len + 1, replaced.chars().count() - 1)));
    // replacing it keeps that blank line
    let b2 = Profile { name: "B".to_string(), screens: vec![], raw_range: None };
    let again = upserted_config(&replaced, &b2).expect("config read");
    assert_eq!(again, format!("{}\n{}\n", generate_profile(&a2), generate_profile(&b2)));
    assert_eq!(back[1].screens[0].scale_milli, 1250);
    // a new name is appended
    let c = Profile {
        name: "C".to_string(),
        screens: vec![screen("HDMI-A-1", true, mode(1920, 1080, 50_000), -1920, 0, 1000)],
        raw_range: None,
    };
    let appended = upserted_config(&replaced, &c).expect("config read");
    assert_eq!(appended, format!("{}{}", replaced, generate_profile(&c)));
    let back = parse_profiles(&appended).expect("profiles read");
    assert_eq!(back.len(), 3);
    assert_eq!(back[2].name, "C");
    assert_eq!(back[2].screens[0].pos_x, -1920);
}

#[test]
fn ranges_are_byte_offsets() {
    // "é" takes two bytes: the profile starts at byte 9, character 8
    let text = "# café\n\nprofile \"Büro\" {\n  output eDP-1 enable\n}\n";
    let ps = parse_profiles(text).expect("profiles read");
    assert_eq!(ps.len(), 1);
    assert_eq!(ps[0].name, "Büro");
    let start = text.find("profile").unwrap();
    let end = text.rfind('}').unwrap() + 1;
    assert_eq!(start, 9);
    assert_eq!(ps[0].raw_range, Some((start, end)));
    assert_eq!(&text[start..end], "profile \"Büro\" {\n  output eDP-1 enable\n}");
    // replacing the profile keeps what comes before its header line
    let p = Profile {
        name: "Büro".to_string(),
        screens: vec![screen("DP-1", true, mode(1920, 1080, 60_000), 0, 0, 1000)],
        raw_range: None,
    };
    let out = upserted_config(text, &p).expect("config read");
    assert_eq!(out, format!("# café\n\n{}\n", generate_profile(&p)));
}

#[test]
fn block_style_and_defaults() {
    let input = "profile \"B\" {\n  output DP-3 {\n    disable\n    mode 1280x1024\n    pos -10 20\n    scale 1.5\n  }\n  output HDMI-A-1 enable\n}\n";
    let ps = parse_profiles(input).expect("profiles read");
    assert_eq!(ps.len(), 1);
    let s = &ps[0].screens;
    assert_eq!(s.len(), 2);
    assert!(!s[0].enabled);
    assert_eq!(s[0].selected_mode, mode(1280, 1024, 60_000));
    assert_eq!((s[0].pos_x, s[0].pos_y, s[0].scale_milli), (-10, 20, 1500));
    // missing fields take their defaults
    assert!(s[1].enabled);
    assert_eq!(s[1].selected_mode, mode(1920, 1080, 60_000));
    assert_eq!((s[1].pos_x, s[1].pos_y, s[1].scale_milli), (0, 0, 1000));
}

#[test]
fn lone_quote_token_is_refused() {
    assert!(parse_profiles("profile \"P\" {\n  output ' enable\n}\n").is_none());
    assert!(parse_profiles("profile \"P\" {\n}\n").is_some());
}

#[test]
fn upsert_replaces_or_appends() {
    let p = Profile {
        name: "A".to_string(),
        screens: vec![screen("eDP-1", true, mode(1920, 1080, 60_000), 0, 0, 1000)],
        raw_range: None,
    };
    let block = generate_profile(&p);
    let existing = "# head\nprofile \"A\" {\n  output X enable\n}\n# tail\n";
    let r = upserted_config(existing, &p).expect("config read");
    assert_eq!(r, format!("# head\n{}\n# tail\n", block));
    let appended = upserted_config("# only", &p).expect("config read");
    assert_eq!(appended, format!("# only\n{}", block));
    assert_eq!(upserted_config("", &p).expect("config read"), block);
    // a text that cannot be read is not written into
    assert!(upserted_config("profile \"A\" {\n  output ' enable\n}\n", &p).is_none());
}

#[test]
fn numbers_and_ids() {
    assert_eq!(trim_float(59_994), "59.994");
    assert_eq!(trim_float(60_000), "60");
    assert_eq!(trim_float(1_250), "1.25");
    assert_eq!(trim_float(-500), "-0.5");
    assert_eq!(canonical_display_id(Some(" Dell Inc. "), Some("P2723D"), None, "DP-1"), "Dell Inc. P2723D");
    assert_eq!(canonical_display_id(Some("  "), None, Some(""), "DP-1"), "DP-1");
    // make and model are both needed; a serial alone, or a make alone, gives the connector
    assert_eq!(canonical_display_id(None, None, Some("HJPV1L3"), "DP-1"), "DP-1");
    assert_eq!(canonical_display_id(Some("Dell Inc."), None, Some("HJPV1L3"), "DP-1"), "DP-1");
    assert_eq!(
        canonical_display_id(Some("Dell Inc."), Some("DELL P2723D"), Some("HJPV1L3"), "DP-1"),
        "Dell Inc. DELL P2723D HJPV1L3"
    );
    assert_eq!(mode(2560, 1440, 59_951).as_kanshi_mode(), "2560x1440@59.951Hz");
}

#[test]
fn best_mode_prefers_area_then_refresh() {
    let modes = vec![mode(1920, 1080, 144_000), mode(2560, 1440, 59_951), mode(2560, 1440, 74_971), mode(1440, 2560, 60_000)];
    assert_eq!(best_mode(&modes), Some(mode(2560, 1440, 74_971)));
    assert_eq!(best_mode(&[]), None);
}

#[test]
fn restart_sequence() {
    let (s1, a1) = restart_kanshi(RestartStage::Begin, true);
    assert_eq!(a1, RestartAction::RestartServiceUnit);
    let (_, done) = restart_kanshi(s1, true);
    assert_eq!(done, RestartAction::Finish(true));
    let (s2, a2) = restart_kanshi(s1, false);
    assert_eq!(a2, RestartAction::EnsureUserService);
    let (s3, a3) = restart_kanshi(s2, false);
    assert_eq!(a3, RestartAction::RestartKanshiUnit);
    let (s4, a4) = restart_kanshi(s3, false);
    assert_eq!(a4, RestartAction::RestartServiceUnit);
    let (s5, a5) = restart_kanshi(s4, false);
    assert_eq!(a5, RestartAction::Fallback);
    let (_, a6) = restart_kanshi(s5, false);
    assert_eq!(a6, RestartAction::Finish(false));
}

#[test]
fn service_unit_and_backup_names() {
    let unit = kanshi_service_unit("/home/u/.config/kanshiui");
    assert!(unit.contains("ExecStart=kanshi --config /home/u/.config/kanshiui\n"));
    assert!(unit.starts_with("[Unit]\n"));
    assert_eq!(backup_name("/home/u/.config/kanshiui", 1700000000), "/home/u/.config/kanshiui.bak.1700000000");
}

#[test]
fn quoted_identifier_with_double_quotes_reads_back() {
    let p = Profile {
        name: "Home".to_string(),
        screens: vec![screen("Acme \"Pro\" 27", true, mode(2560, 1440, 144_000), 12, -3, 1000)],
        raw_range: None,
    };
    let text = generate_profile(&p);
    assert!(text.contains("output 'Acme \"Pro\" 27' enable"));
    let back = parse_profiles(&text).expect("profiles read");
    assert_eq!(back[0].screens[0].id, "Acme \"Pro\" 27");
    assert_eq!((back[0].screens[0].pos_x, back[0].screens[0].pos_y), (12, -3));
}

fn chars(s: &str) -> Vec<char> {
    s.chars().collect()
}

#[test]
fn matching_brace_counts_nesting() {
    assert_eq!(find_matching_brace(&chars("a{b{c}d}e"), 1), Some(7));
    assert_eq!(find_matching_brace(&chars("a{b{c}d}e"), 3), Some(5));
    assert_eq!(find_matching_brace(&chars("{ {"), 0), None);
    assert_eq!(find_matching_brace(&chars("{{}"), 0), None);
    assert_eq!(find_matching_brace(&chars("{}"), 2), None);
    assert_eq!(find_matching_brace(&chars("{}"), 7), None);
    assert_eq!(find_matching_brace(&chars("{a{b}c}d}"), 0), Some(6));
}

#[test]
fn aliases_are_read_in_order() {
    let text = "output eDP-1 alias $lap\noutput \"Dell Inc. X\" {\n  alias $desk\n}\nprofile \"P\" {\n  output $lap enable\n}\n";
    let aliases = parse_output_aliases(&chars(text)).expect("aliases read");
    assert_eq!(aliases, vec![(chars("$lap"), chars("eDP-1")), (chars("$desk"), chars("Dell Inc. X"))]);
    assert_eq!(resolve_alias(chars("$desk"), &aliases), chars("Dell Inc. X"));
    assert_eq!(resolve_alias(chars("HDMI-A-1"), &aliases), chars("HDMI-A-1"));
}

#[test]
fn profile_body_declares_screens() {
    let aliases = vec![(chars("$lap"), chars("eDP-1"))];
    let body = chars("\n  output $lap disable\n  output DP-2 {\n    mode 1280x1024@75Hz\n  }\n");
    let screens = parse_profile_body(&body, &aliases).expect("body read");
    assert_eq!(screens.len(), 2);
    assert_eq!(screens[0].id, "eDP-1");
    assert!(!screens[0].enabled);
    assert_eq!(screens[1].id, "DP-2");
    assert_eq!(screens[1].selected_mode, mode(1280, 1024, 75_000));
    assert!(parse_profile_body(&chars("  output ' enable\n"), &aliases).is_none());
}
