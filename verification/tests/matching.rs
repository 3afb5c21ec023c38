use wano::config::{Config, Output, Profile};
use wano::matching::{
    best_match, describes, fingerprint, match_profile, profile_settings, score, search, ApplyError, SCORE_EXACT, SCORE_MODEL,
};
use wano::scale::Scale;
use wano::wl::{Head, HeadId, Mode, SettingError, Transform};

const PHILIPS: &str = "Philips Consumer Electronics Company";

fn head(connector: &str, model: &str, serial: &str) -> Head {
    Head {
        id: HeadId {
            connector: connector.into(),
            make: PHILIPS.into(),
            model: model.into(),
            serial: serial.into(),
        },
        description: String::new(),
        modes: vec![Mode { width: 1920, height: 1080, refresh: 60_000, preferred: true }],
        enabled: true,
        current_mode: None,
        position: (0, 0),
        scale: Scale { bits: 1.0f64.to_bits() },
        transform: Transform::Normal,
    }
}

fn internal() -> Head {
    let mut h = head("eDP-1", "Internal", "");
    h.id.make = "Unknown".into();
    h
}

fn external(model: &str, serial: Option<&str>) -> Output {
    Output {
        make: Some(PHILIPS.into()),
        model: Some(model.into()),
        serial: serial.map(str::to_string),
        position: Some([0, 0]),
        enabled: true,
        ..Output::default()
    }
}

fn edp() -> Output {
    Output { connector: Some("eDP-1".into()), enabled: true, ..Output::default() }
}

/// One desk-specific profile, and one for every desk with the same models.
fn hot_desk_config() -> Config {
    Config {
        profiles: vec![
            Profile {
                name: "hnz".into(),
                outputs: vec![
                    external("PHL 241B7Q", Some("UHB2115009288")),
                    external("PHL 241B8Q", Some("ZV02017006149")),
                    edp(),
                ],
            },
            Profile {
                name: "hnz_any".into(),
                outputs: vec![external("PHL 241B7Q", None), external("PHL 241B8Q", None), edp()],
            },
        ],
    }
}

#[test]
fn exact_serials_win_over_the_generic_profile() {
    let heads =
        vec![head("DP-1", "PHL 241B7Q", "UHB2115009288"), head("DP-2", "PHL 241B8Q", "ZV02017006149"), internal()];
    let config = hot_desk_config();
    let m = best_match(&config, &heads).unwrap();
    assert_eq!(m.profile.name, "hnz");
    assert_eq!(m.score, SCORE_EXACT * 3);
}

#[test]
fn another_desk_with_the_same_models_falls_back_to_the_generic_profile() {
    let heads =
        vec![head("DP-1", "PHL 241B7Q", "UHB2035003322"), head("DP-2", "PHL 241B8Q", "ZV02028008653"), internal()];
    let config = hot_desk_config();
    let m = best_match(&config, &heads).unwrap();
    assert_eq!(m.profile.name, "hnz_any");
}

#[test]
fn entries_are_assigned_regardless_of_connector_order() {
    // Same monitors, swapped connectors: the assignment follows the models.
    let heads =
        vec![head("DP-5", "PHL 241B8Q", "ZV02017006149"), head("DP-3", "PHL 241B7Q", "UHB2115009288"), internal()];
    let config = hot_desk_config();
    let m = best_match(&config, &heads).unwrap();
    assert_eq!(m.profile.name, "hnz");
    assert_eq!(m.assignment, vec![1, 0, 2]);
    let settings = m.settings(&heads).unwrap();
    assert_eq!(settings[0].id.connector, "DP-3");
    assert_eq!(settings[1].id.connector, "DP-5");
}

#[test]
fn an_unplugged_monitor_means_no_match() {
    let heads = vec![head("DP-1", "PHL 241B7Q", "UHB2115009288"), internal()];
    assert!(best_match(&hot_desk_config(), &heads).is_none());
}

#[test]
fn an_extra_monitor_means_no_match() {
    let heads = vec![
        head("DP-1", "PHL 241B7Q", "UHB2115009288"),
        head("DP-2", "PHL 241B8Q", "ZV02017006149"),
        head("DP-4", "PHL 346B1C", "1322131231233"),
        internal(),
    ];
    assert!(best_match(&hot_desk_config(), &heads).is_none());
}

#[test]
fn two_identical_models_are_both_assigned() {
    let config = Config {
        profiles: vec![Profile {
            name: "pair".into(),
            outputs: vec![external("PHL 241B7Q", Some("A")), external("PHL 241B7Q", Some("B"))],
        }],
    };
    let heads = vec![head("DP-1", "PHL 241B7Q", "B"), head("DP-2", "PHL 241B7Q", "A")];
    let m = best_match(&config, &heads).unwrap();
    assert_eq!(m.assignment, vec![1, 0]);
}

#[test]
fn fingerprint_ignores_ordering() {
    let a = vec![head("DP-1", "M", "1"), head("DP-2", "M", "2")];
    let b = vec![head("DP-2", "M", "2"), head("DP-1", "M", "1")];
    assert_eq!(fingerprint(&a), fingerprint(&b));
}

#[test]
fn an_entry_that_names_nothing_never_matches() {
    let config = Config { profiles: vec![Profile { name: "empty".into(), outputs: vec![Output::default()] }] };
    assert!(best_match(&config, &vec![internal()]).is_none());
}

#[test]
fn fingerprint_is_in_order_and_tells_outputs_apart() {
    let heads = vec![head("DP-2", "M", "2"), head("DP-10", "M", "1"), head("DP-1", "N", "1")];
    let connectors: Vec<String> = fingerprint(&heads).iter().map(|id| id.connector.clone()).collect();
    assert_eq!(connectors, ["DP-1", "DP-10", "DP-2"]);
    assert_ne!(fingerprint(&vec![head("DP-1", "M", "1")]), fingerprint(&vec![head("DP-1", "M", "2")]));
}

#[test]
fn a_serial_or_a_connector_counts_double() {
    let h = head("DP-1", "PHL 241B7Q", "A");
    assert_eq!(score(&external("PHL 241B7Q", None), &h), Some(SCORE_MODEL));
    assert_eq!(score(&external("PHL 241B7Q", Some("A")), &h), Some(SCORE_EXACT));
    assert_eq!(score(&Output { connector: Some("DP-1".into()), ..Output::default() }, &h), Some(SCORE_EXACT));
    assert_eq!(score(&external("PHL 241B7Q", Some("B")), &h), None);
    assert_eq!(score(&external("PHL 241B8Q", None), &h), None);
    assert_eq!(score(&Output::default(), &h), None);
    assert!(describes(&external("PHL 241B7Q", None), &h));
    assert!(!describes(&Output::default(), &h));
}

#[test]
fn ties_go_to_the_profile_earlier_in_the_file() {
    let config = Config {
        profiles: vec![
            Profile { name: "first".into(), outputs: vec![external("M", None)] },
            Profile { name: "second".into(), outputs: vec![external("M", None)] },
        ],
    };
    let heads = vec![head("DP-1", "M", "A")];
    let m = best_match(&config, &heads).unwrap();
    assert_eq!(m.profile.name, "first");
    assert_eq!(m.score, 1);
}

#[test]
fn of_two_assignments_the_first_is_taken() {
    let profile = Profile { name: "pair".into(), outputs: vec![external("M", None), external("M", None)] };
    let heads = vec![head("DP-1", "M", "A"), head("DP-2", "M", "B")];
    assert_eq!(match_profile(&profile, &heads).unwrap().assignment, vec![0, 1]);
}

#[test]
fn a_greedy_assignment_is_taken_back_where_it_leads_nowhere() {
    let profile = Profile { name: "pair".into(), outputs: vec![external("M", None), external("M", Some("A"))] };
    let heads = vec![head("DP-1", "M", "A"), head("DP-2", "M", "B")];
    let m = match_profile(&profile, &heads).unwrap();
    assert_eq!(m.assignment, vec![1, 0]);
    assert_eq!(m.score, SCORE_MODEL + SCORE_EXACT);
}

#[test]
fn matching_does_not_depend_on_the_order_of_the_heads() {
    let config = hot_desk_config();
    let a = vec![head("DP-1", "PHL 241B7Q", "X"), head("DP-2", "PHL 241B8Q", "Y"), internal()];
    let b = vec![internal(), head("DP-2", "PHL 241B8Q", "Y"), head("DP-1", "PHL 241B7Q", "X")];
    assert_eq!(best_match(&config, &a).unwrap().profile.name, "hnz_any");
    assert_eq!(best_match(&config, &b).unwrap().profile.name, "hnz_any");
    assert_eq!(best_match(&config, &b).unwrap().assignment, vec![2, 1, 0]);
}

#[test]
fn without_outputs_nothing_matches() {
    let profile = Profile { name: "none".into(), outputs: vec![] };
    assert!(match_profile(&profile, &vec![]).is_none());
    assert!(match_profile(&profile, &vec![internal()]).is_none());
    assert_eq!(profile_settings(&profile, &vec![]).unwrap_err(), ApplyError::NoMatch);
}

#[test]
fn a_profile_says_why_it_cannot_be_applied() {
    let heads = vec![internal()];
    let bad = |mode: Option<&str>, transform: Option<&str>| Profile {
        name: "bad".into(),
        outputs: vec![Output {
            mode: mode.map(str::to_string),
            transform: transform.map(str::to_string),
            ..edp()
        }],
    };
    assert_eq!(
        profile_settings(&bad(Some("1x1@fast"), Some("sideways")), &heads).unwrap_err(),
        ApplyError::Invalid(SettingError::BadRate("fast".into()))
    );
    assert_eq!(
        profile_settings(&bad(None, Some("sideways")), &heads).unwrap_err(),
        ApplyError::Invalid(SettingError::UnknownTransform("sideways".into()))
    );
    let other = Profile { name: "other".into(), outputs: vec![external("M", None)] };
    assert_eq!(profile_settings(&other, &heads).unwrap_err(), ApplyError::NoMatch);
    let good = profile_settings(&bad(Some("1x1"), Some("90")), &heads).unwrap();
    assert_eq!(good.len(), 1);
    assert_eq!(good[0].transform, Some(Transform::_90));
}

#[test]
fn the_first_thing_that_cannot_be_read_is_reported() {
    let heads = vec![head("DP-1", "M", "A"), internal()];
    let profile = Profile {
        name: "bad".into(),
        outputs: vec![
            Output { mode: Some("wide".into()), ..external("M", None) },
            Output { transform: Some("up".into()), ..edp() },
        ],
    };
    assert_eq!(
        match_profile(&profile, &heads).unwrap().settings(&heads).unwrap_err(),
        SettingError::BadMode("wide".into())
    );
}

#[test]
fn a_search_goes_on_from_what_is_chosen_already() {
    let scores = vec![vec![Some(1)], vec![Some(2), Some(3)]];
    let found = |index: usize, total: u32, marks: [bool; 3], chosen: [usize; 2], best: Option<(u32, Vec<usize>)>| {
        let mut used = marks.to_vec();
        let mut current = chosen.to_vec();
        let mut best = best;
        search(index, total, &scores, &mut used, &mut current, &mut best);
        assert_eq!(used, marks);
        assert_eq!(current.len(), 2);
        assert_eq!(current[..index], chosen[..index]);
        best
    };
    let free = [false, false, true];
    assert_eq!(found(0, 5, free, [9, 9], None), Some((9, vec![0, 1])));
    assert_eq!(found(0, u32::MAX - 4, free, [9, 9], None), Some((u32::MAX, vec![0, 1])));
    assert_eq!(found(1, 10, free, [7, 0], None), Some((13, vec![7, 1])));
    assert_eq!(found(2, 4, free, [7, 8], None), Some((4, vec![7, 8])));
    // What is marked is not taken.
    assert_eq!(found(1, 10, [false, true, false], [7, 0], None), Some((12, vec![7, 0])));
    assert_eq!(found(0, 5, [false, true, false], [9, 9], None), None);
    // What was found before stays unless it is beaten.
    let before = || Some((9, vec![4, 4]));
    assert_eq!(found(0, 5, free, [9, 9], before()), before());
    assert_eq!(found(0, 6, free, [9, 9], before()), Some((10, vec![0, 1])));
    assert_eq!(found(0, 6, [true; 3], [9, 9], before()), before());
}
