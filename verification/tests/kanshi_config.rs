use kanshiui::generate::generate_profile;
use kanshiui::model::{OutputMode, Profile, ScreenConfig};
use kanshiui::parse::parse_profiles;

#[test]
fn parses_inline_profile() {
    let input = r#"profile "Office"{
  output eDP-1 enable mode 3840x2400@59.994Hz position 0,600 scale 2
  output 'Dell Inc. DELL P2723D HJPV1L3' enable mode 2560x1440@60Hz position 4480,0 scale 1
  exec notify-send "Office"
}"#;
    let profiles = parse_profiles(input).expect("profiles parsed");
    assert_eq!(profiles.len(), 1);
    assert_eq!(profiles[0].screens.len(), 2);
    assert_eq!(profiles[0].screens[0].selected_mode.width, 3840);
}

#[test]
fn parses_global_inline_alias_in_profile() {
    let input = r#"output eDP-1 alias $input
profile "Office"{
  output $input enable mode 1920x1080@60Hz position 0,0 scale 1
}"#;
    let profiles = parse_profiles(input).expect("profiles parsed");
    assert_eq!(profiles.len(), 1);
    assert_eq!(profiles[0].screens[0].id, "eDP-1");
}

#[test]
fn parses_global_block_alias_in_profile() {
    let input = r#"output "Dell Inc. DELL P2723D HJPV1L3" {
  alias $desk
}
profile "Office"{
  output $desk enable mode 2560x1440@60Hz position 0,0 scale 1
}"#;
    let profiles = parse_profiles(input).expect("profiles parsed");
    assert_eq!(profiles.len(), 1);
    assert_eq!(profiles[0].screens[0].id, "Dell Inc. DELL P2723D HJPV1L3");
}

#[test]
fn generates_inline_profile() {
    let profile = Profile {
        name: "Office".to_string(),
        screens: vec![ScreenConfig {
            id: "eDP-1".to_string(),
            connector_name: "eDP-1".to_string(),
            enabled: true,
            selected_mode: OutputMode {
                width: 1920,
                height: 1080,
                refresh_mhz: 60_000,
            },
            available_modes: vec![],
            scale_milli: 1000,
            pos_x: 0,
            pos_y: 0,
            mirror: false,
            mirror_target: None,
        }],
        raw_range: None,
    };
    let out = generate_profile(&profile);
    assert!(out.contains("exec notify-send \"Office\""));
    assert!(out.contains("output eDP-1 enable mode 1920x1080@60Hz position 0,0 scale 1"));
}
