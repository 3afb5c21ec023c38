use wano::config::{
    config_base, enabled_default, is_internal, profile_from_snapshot, suggested_name, Config, ConfigBase, Output,
    Profile,
};
use wano::scale::Scale;
use wano::wl::{Head, HeadId, Mode, SettingError, Snapshot, Transform, UNKNOWN};

fn scale(x: f64) -> Scale {
    Scale { bits: x.to_bits() }
}

fn head(connector: &str, make: &str, model: &str, serial: &str) -> Head {
    Head {
        id: HeadId { connector: connector.into(), make: make.into(), model: model.into(), serial: serial.into() },
        description: String::new(),
        modes: vec![Mode { width: 1920, height: 1080, refresh: 60_000, preferred: true }],
        enabled: true,
        current_mode: Some(Mode { width: 1920, height: 1080, refresh: 60_000, preferred: true }),
        position: (0, 0),
        scale: scale(1.0),
        transform: Transform::Normal,
    }
}

fn names(config: &Config) -> Vec<String> {
    config.profiles.iter().map(|p| p.name.clone()).collect()
}

#[test]
fn internal_panels_match_by_connector() {
    let out = Output::from_head(&head("eDP-1", "Some Vendor", "Panel", "0x1234"), true);
    assert_eq!(out.connector.as_deref(), Some("eDP-1"));
    assert!(out.make.is_none() && out.serial.is_none());
}

#[test]
fn external_monitors_match_by_model_and_optional_serial() {
    let h = head("DP-2", "Dell Inc.", "DELL P2723QE", "7HD1XY3");
    let with = Output::from_head(&h, true);
    assert_eq!(with.model.as_deref(), Some("DELL P2723QE"));
    assert_eq!(with.serial.as_deref(), Some("7HD1XY3"));
    assert!(with.connector.is_none());

    let without = Output::from_head(&h, false);
    assert!(without.serial.is_none());
    assert_eq!(without.model.as_deref(), Some("DELL P2723QE"));
}

#[test]
fn unknown_edid_fields_are_dropped() {
    let out = Output::from_head(&head("DP-1", UNKNOWN, "PHL 241B7Q", UNKNOWN), true);
    assert!(out.make.is_none());
    assert!(out.serial.is_none());
    assert_eq!(out.model.as_deref(), Some("PHL 241B7Q"));
}

#[test]
fn an_output_without_edid_falls_back_to_its_connector() {
    let out = Output::from_head(&head("WL-1", UNKNOWN, UNKNOWN, UNKNOWN), true);
    assert_eq!(out.connector.as_deref(), Some("WL-1"));
    assert!(out.make.is_none() && out.model.is_none() && out.serial.is_none());
}

#[test]
fn upsert_replaces_in_place() {
    let mut config = Config {
        profiles: vec![
            Profile { name: "a".into(), outputs: vec![] },
            Profile { name: "b".into(), outputs: vec![] },
        ],
    };
    config.upsert(Profile { name: "a".into(), outputs: vec![Output::default()] });
    assert_eq!(config.profiles.len(), 2);
    assert_eq!(config.profiles[0].name, "a");
    assert_eq!(config.profiles[0].outputs.len(), 1);
}

#[test]
fn suggested_name_is_stable_and_slugged() {
    let snapshot = Snapshot {
        serial: 1,
        heads: vec![head("eDP-1", "x", "y", "z"), head("DP-2", "Dell Inc.", "DELL P2723QE", "7HD1XY3")],
    };
    assert_eq!(suggested_name(&snapshot), "dell-p2723qe_edp-1");
}

#[test]
fn the_suggested_name_does_not_depend_on_the_order_of_the_outputs() {
    let snapshot = Snapshot {
        serial: 2,
        heads: vec![head("DP-2", "Dell Inc.", "DELL P2723QE", "7HD1XY3"), head("eDP-1", "x", "y", "z")],
    };
    assert_eq!(suggested_name(&snapshot), "dell-p2723qe_edp-1");
}

#[test]
fn outputs_with_nothing_to_call_them_by_are_just_a_profile() {
    assert_eq!(suggested_name(&Snapshot { serial: 1, heads: vec![] }), "profile");
    assert_eq!(suggested_name(&Snapshot { serial: 1, heads: vec![head("DP-1", "x", "--", "z")] }), "profile");
    assert_eq!(suggested_name(&Snapshot { serial: 1, heads: vec![head("DP-1", "x", " LG  (27\") ", "z")] }), "lg-27");
    assert_eq!(suggested_name(&Snapshot { serial: 1, heads: vec![head("HDMI-A-1", "x", UNKNOWN, "z")] }), "hdmi-a-1");
    assert_eq!(suggested_name(&Snapshot { serial: 1, heads: vec![head("DP-1", "x", "Écran", "z")] }), "cran");
}

#[test]
fn built_in_panels_are_told_by_their_connector() {
    for connector in ["eDP-1", "EDP-2", "lvds-1", "LVDS", "DSI-1"] {
        assert!(is_internal(connector));
    }
    for connector in ["DP-1", "HDMI-A-1", "", "e", "WL-1", "DVI-D-1"] {
        assert!(!is_internal(connector));
    }
}

#[test]
fn an_entry_keeps_the_state_of_its_head() {
    let mut h = head("DP-2", "Dell Inc.", "DELL P2723QE", "7HD1XY3");
    h.scale = scale(1.6015625);
    h.position = (-10, 20);
    h.transform = Transform::Flipped90;
    h.enabled = false;
    let out = Output::from_head(&h, true);
    assert_eq!(out.scale, Some(scale(1.6)));
    assert_eq!(out.position, Some([-10, 20]));
    assert_eq!(out.mode.as_deref(), Some("1920x1080@60.000"));
    assert_eq!(out.transform.as_deref(), Some("flipped-90"));
    assert!(!out.enabled);

    let setting = out.to_setting(&h.id).unwrap();
    assert_eq!(setting.id, h.id);
    assert_eq!(setting.position, Some((-10, 20)));
    assert_eq!(setting.transform, Some(Transform::Flipped90));
    assert_eq!(setting.mode.unwrap().refresh, Some(60_000));
    assert_eq!(setting.scale, Some(scale(1.6)));
    assert!(!setting.enabled);
}

#[test]
fn an_absent_field_is_left_as_it_is() {
    let h = head("DP-2", "a", "b", "c");
    let setting = Output { enabled: true, ..Output::default() }.to_setting(&h.id).unwrap();
    assert!(setting.position.is_none() && setting.scale.is_none());
    assert!(setting.mode.is_none() && setting.transform.is_none());
    let mut idle = head("DP-2", "a", "b", "c");
    idle.current_mode = None;
    assert!(Output::from_head(&idle, true).mode.is_none());
}

#[test]
fn a_setting_that_cannot_be_read_is_an_error() {
    let id = head("DP-2", "a", "b", "c").id;
    let of = |mode: Option<&str>, transform: Option<&str>| {
        Output { mode: mode.map(str::to_string), transform: transform.map(str::to_string), ..Output::default() }
            .to_setting(&id)
            .unwrap_err()
    };
    assert_eq!(of(Some("1x1@"), None), SettingError::BadRate("".into()));
    assert_eq!(of(Some("1080"), None), SettingError::BadMode("1080".into()));
    assert_eq!(of(Some("ax2"), None), SettingError::BadWidth("ax2".into()));
    assert_eq!(of(Some("1xb"), None), SettingError::BadHeight("1xb".into()));
    assert_eq!(of(None, Some("left")), SettingError::UnknownTransform("left".into()));
    // Of two errors the one in the mode is reported.
    assert_eq!(of(Some("1080"), Some("left")), SettingError::BadMode("1080".into()));
}

#[test]
fn labels_name_the_keys() {
    let h = head("DP-2", "Dell Inc.", "DELL P2723QE", "7HD1XY3");
    assert_eq!(Output::from_head(&h, true).label(), "Dell Inc. DELL P2723QE 7HD1XY3");
    assert_eq!(Output::from_head(&h, false).label(), "Dell Inc. DELL P2723QE");
    assert_eq!(Output::from_head(&head("eDP-1", "x", "y", "z"), true).label(), "eDP-1");
    assert_eq!(Output::default().label(), "<matches nothing>");
}

#[test]
fn a_profile_is_found_once_it_is_put_in() {
    let mut config = Config::default();
    assert!(config.profile("desk").is_none());
    assert_eq!(config.position("desk"), None);
    config.upsert(Profile { name: "desk".into(), outputs: vec![] });
    config.upsert(Profile { name: "sofa".into(), outputs: vec![] });
    config.upsert(Profile { name: "desk".into(), outputs: vec![Output::default()] });
    assert_eq!(names(&config), ["desk", "sofa"]);
    assert_eq!(config.profile("desk").unwrap().outputs.len(), 1);
    assert_eq!(config.position("sofa"), Some(1));
}

#[test]
fn a_removed_profile_is_gone_and_the_others_are_not() {
    let mut config = Config::default();
    for name in ["a", "b", "c"] {
        config.upsert(Profile { name: name.into(), outputs: vec![] });
    }
    config.profiles.push(Profile { name: "b".into(), outputs: vec![] });
    config.remove("b");
    assert_eq!(names(&config), ["a", "c"]);
    config.remove("nowhere");
    assert_eq!(names(&config), ["a", "c"]);
}

#[test]
fn a_copy_says_the_same() {
    let snapshot = Snapshot { serial: 1, heads: vec![head("DP-2", "a", "b", "c"), head("eDP-1", "x", "y", "z")] };
    let profile = profile_from_snapshot("desk", &snapshot, false);
    let config = Config { profiles: vec![profile] };
    let copy = config.clone();
    assert_eq!(format!("{config:?}"), format!("{copy:?}"));
    assert_eq!(copy.profiles[0].outputs.len(), 2);
    assert_eq!(copy.profiles[0].outputs[0].model.as_deref(), Some("b"));
}

#[test]
fn the_file_is_kept_where_the_environment_says() {
    assert_eq!(config_base(Some(true), true), ConfigBase::Given);
    assert_eq!(config_base(Some(true), false), ConfigBase::Given);
    assert_eq!(config_base(Some(false), true), ConfigBase::Home);
    assert_eq!(config_base(None, true), ConfigBase::Home);
    assert_eq!(config_base(Some(false), false), ConfigBase::Current);
    assert_eq!(config_base(None, false), ConfigBase::Current);
}

#[test]
fn an_entry_is_enabled_unless_it_says_otherwise() {
    assert!(enabled_default());
    assert!(!Output::default().enabled);
}

#[test]
fn a_suggested_name_is_made_from_connectors_and_models_alone() {
    let name = |heads: Vec<Head>| suggested_name(&Snapshot { serial: 0, heads });
    let one = name(vec![head("DP-1", "Acme", "Big / Screen", "1"), head("eDP-1", "B", "x", "2")]);
    let other = name(vec![head("eDP-1", "C", "x", "3"), head("DP-1", "D", "Big / Screen", "4")]);
    assert_eq!(one, "big-screen_edp-1");
    assert_eq!(other, one);
    for model in ["", "--", "ÄÖÜ", "A B", "a_b", "Z9!", "ſ"] {
        let name = name(vec![head("DP-1", "x", model, "z")]);
        assert!(!name.is_empty());
        assert!(name.chars().all(|c| matches!(c, 'a'..='z' | '0'..='9' | '-' | '_')), "{name}");
    }
}
