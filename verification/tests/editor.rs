use wano::arrange::REACH;
use wano::command::{apply, describe_head, mode_label, save, save_name, status, Refusal};
use wano::config::{profile_from_snapshot, Config, Output, Profile};
use wano::editor::{live_name, news, to_pixel, Change, Draft, Editor};
use wano::matching::ApplyError;
use wano::scale::Scale;
use wano::state::{ManagerEvent, OutputState};
use wano::wl::{ApplyOutcome, Head, HeadId, Mode, ModeSpec, SettingError, Snapshot, Transform};

fn scale(x: f64) -> Scale {
    Scale { bits: x.to_bits() }
}

fn head(connector: &str, model: &str, serial: &str) -> Head {
    Head {
        id: HeadId {
            connector: connector.into(),
            make: "Dell Inc.".into(),
            model: model.into(),
            serial: serial.into(),
        },
        description: String::new(),
        modes: vec![],
        enabled: true,
        current_mode: Some(Mode { width: 3840, height: 2160, refresh: 59_997, preferred: true }),
        position: (0, 0),
        scale: scale(1.6),
        transform: Transform::Normal,
    }
}

fn heads() -> Vec<Head> {
    let mut right = head("DP-2", "DELL P2723QE", "Y");
    right.position = (2400, 0);
    vec![head("DP-1", "DELL P2723QE", "X"), right]
}

fn names(config: &Config) -> Vec<&str> {
    config.profiles.iter().map(|p| p.name.as_str()).collect()
}

fn texts(lines: &[String]) -> Vec<&str> {
    lines.iter().map(String::as_str).collect()
}

#[test]
fn saving_an_unedited_layout_is_saving_the_live_outputs() {
    let editor = Editor::new(heads(), Config::default());
    let snapshot = Snapshot { serial: 0, heads: heads() };
    let by_name = profile_from_snapshot(&editor.name, &snapshot, true);
    assert_eq!(format!("{:?}", editor.profile()), format!("{by_name:?}"));
    assert_eq!(editor.name, "dell-p2723qe_dell-p2723qe");
}

#[test]
fn a_new_profile_is_listed_once_saved() {
    let mut editor = Editor::new(heads(), Config::default());
    editor.name = "  desk ".into();
    let mut config = Config::default();
    assert!(editor.write_profile(&mut config));
    assert_eq!(names(&config), ["desk"]);
    assert_eq!(config.profiles[0].outputs[0].scale, Some(scale(1.6)));
    assert_eq!(config.profiles[0].outputs[1].position, Some([2400, 0]));
    assert!(editor.editing.is_none());
}

#[test]
fn a_profile_needs_a_name() {
    let mut editor = Editor::new(heads(), Config::default());
    editor.name = " \u{2003}\t".into();
    let mut config = Config::default();
    assert!(!editor.is_named());
    assert!(!editor.write_profile(&mut config));
    assert!(config.profiles.is_empty());
}

#[test]
fn saving_under_a_new_name_renames() {
    let mut saved = Config::default();
    for name in ["a", "b", "c"] {
        saved.upsert(profile_from_snapshot(name, &Snapshot { serial: 0, heads: heads() }, true));
    }
    let mut editor = Editor::new(heads(), saved.clone());
    editor.edit("b");
    assert_eq!((editor.name.as_str(), editor.editing.as_deref()), ("b", Some("b")));
    editor.name = "sofa".into();
    let mut config = saved.clone();
    assert!(editor.write_profile(&mut config));
    assert_eq!(names(&config), ["a", "c", "sofa"]);
    assert_eq!(editor.editing.as_deref(), Some("sofa"));
    // Under its own name it keeps its place.
    editor.edit("a");
    let mut config = saved.clone();
    assert!(editor.write_profile(&mut config));
    assert_eq!(names(&config), ["a", "b", "c"]);
}

#[test]
fn editing_a_profile_keeps_its_keys() {
    let entry = Output {
        make: Some("Dell Inc.".into()),
        model: Some("DELL P2723QE".into()),
        enabled: true,
        mode: Some("what".into()),
        transform: Some("ever".into()),
        ..Output::default()
    };
    let config = Config { profiles: vec![Profile { name: "any".into(), outputs: vec![entry] }] };
    let mut editor = Editor::new(heads(), config);
    editor.edit("any");
    assert!(!editor.with_serial);
    let draft = &editor.drafts[0];
    assert_eq!((draft.mode, draft.transform, draft.scale), (None, Transform::Normal, scale(1.0)));
    assert_eq!((draft.x, draft.y), (0, 0));
    assert_eq!(draft.name(), "DELL P2723QE");
    assert_eq!(draft.short_name(), "DELL P2723QE");
    assert_eq!(draft.label(), "Dell Inc. DELL P2723QE");
    assert_eq!(draft.head(&editor.heads).unwrap().id.connector, "DP-1");
    let back = editor.profile();
    assert_eq!(back.outputs[0].make.as_deref(), Some("Dell Inc."));
    assert!(back.outputs[0].connector.is_none() && back.outputs[0].mode.is_none());
    assert_eq!(back.outputs[0].transform.as_deref(), Some("normal"));
    // A profile that is not there is not opened.
    editor.edit("none");
    assert_eq!(editor.editing.as_deref(), Some("any"));
}

#[test]
fn a_live_draft_stands_for_its_output() {
    let drafts: Vec<Draft> = heads().iter().map(Draft::from_head).collect();
    assert_eq!(drafts[1].head(&heads()).unwrap().id.serial, "Y");
    assert!(drafts[1].head(&vec![head("DP-1", "DELL P2723QE", "X")]).is_none());
    assert_eq!(drafts[0].name(), "DP-1 — DELL P2723QE");
    assert_eq!(drafts[0].short_name(), "DP-1");
    assert_eq!(drafts[0].label(), "DP-1 (Dell Inc. DELL P2723QE X)");
    assert_eq!(drafts[0].size(), (2400, 1350));
    let setting = drafts[1].setting();
    assert_eq!((setting.position, setting.scale), (Some((2400, 0)), Some(scale(1.6))));
    assert_eq!(setting.mode, Some(ModeSpec { width: 3840, height: 2160, refresh: Some(59_997) }));
    // An output that is not connected has no keys to be saved with.
    assert_eq!(drafts[1].to_output(&vec![], true).label(), "<matches nothing>");
    assert_eq!(drafts[1].to_output(&heads(), false).label(), "Dell Inc. DELL P2723QE");
}

#[test]
fn edits_are_kept_unless_the_outputs_are_others() {
    let mut editor = Editor::new(heads(), Config::default());
    editor.drafts[0].x = 5;
    editor.selected = 1;
    let mut moved = heads();
    moved.reverse();
    editor.update_heads(moved);
    assert_eq!((editor.drafts[0].x, editor.selected), (5, 1));
    editor.update_heads(vec![head("DP-1", "DELL P2723QE", "X")]);
    assert_eq!((editor.drafts.len(), editor.drafts[0].x, editor.selected), (1, 0, 0));
    // While a profile is edited the live outputs do not matter.
    editor.config.upsert(profile_from_snapshot("two", &Snapshot { serial: 0, heads: heads() }, true));
    editor.edit("two");
    editor.update_heads(vec![]);
    assert_eq!((editor.drafts.len(), editor.heads.len()), (2, 0));
}

#[test]
fn revert_undoes_the_edits() {
    let mut editor = Editor::new(heads(), Config::default());
    editor.drafts[0].x = 5;
    editor.drafts[1].enabled = false;
    editor.revert();
    assert_eq!(editor.drafts[0].x, 0);
    assert!(editor.drafts[1].enabled);
}

#[test]
fn revert_puts_back_the_layout_from_launch() {
    let mut config = Config::default();
    config.upsert(profile_from_snapshot("one", &Snapshot { serial: 0, heads: vec![heads().remove(1)] }, true));
    let mut editor = Editor::new(heads(), config);
    let mut moved = heads();
    moved[1].position = (2400, 77);
    editor.update_heads(moved.clone());
    editor.edit("one");
    editor.update_heads(moved);
    editor.edit_live();
    assert_eq!(editor.drafts[1].y, 77 * 256);
    editor.revert();
    assert_eq!((editor.drafts[1].x, editor.drafts[1].y), (2400 * 256, 0));
    // It is applied as a live layout, also out of a profile.
    editor.edit("one");
    editor.drag(0, 1, 1);
    editor.selected = 5;
    editor.revert();
    assert!(editor.editing.is_none() && editor.with_serial);
    assert_eq!((editor.drafts.len(), editor.selected), (2, 0));
    assert_eq!(editor.name, "dell-p2723qe_dell-p2723qe");
    let settings = editor.settings().unwrap();
    assert_eq!((settings[0].position, settings[1].position), (Some((0, 0)), Some((2400, 0))));
    // While a profile is edited, outputs may go and come back.
    editor.edit("one");
    editor.update_heads(vec![heads().remove(0)]);
    let mut back = heads();
    back[0].position = (9, 9);
    editor.update_heads(back);
    editor.edit_live();
    assert_eq!(editor.drafts[0].x, 9 * 256);
    editor.revert();
    assert_eq!((editor.drafts[0].x, editor.drafts[1].x), (0, 2400 * 256));
    // With other outputs there is another layout to go back to, also while a
    // profile is edited.
    editor.edit("one");
    editor.update_heads(vec![head("DP-7", "M", "Z")]);
    assert_eq!(editor.drafts[0].name(), "DELL P2723QE");
    editor.revert();
    assert_eq!((editor.drafts.len(), editor.drafts[0].id.connector.as_str()), (1, "DP-7"));
    let mut placed = head("DP-8", "M", "Z");
    placed.position = (3, 0);
    editor.update_heads(vec![placed]);
    editor.drag(0, 256, 0);
    editor.revert();
    assert_eq!((editor.drafts[0].id.connector.as_str(), editor.drafts[0].x), ("DP-8", 3 * 256));
}

#[test]
fn a_profile_applies_only_where_it_fits() {
    let mut editor = Editor::new(heads(), Config::default());
    assert_eq!(editor.settings().unwrap().len(), 2);
    editor.config.upsert(profile_from_snapshot("one", &Snapshot { serial: 0, heads: vec![heads().remove(1)] }, true));
    editor.edit("one");
    assert_eq!(editor.settings().unwrap_err(), ApplyError::NoMatch);
    editor.update_heads(vec![heads().remove(1)]);
    let settings = editor.settings().unwrap();
    assert_eq!(settings[0].id.connector, "DP-2");
    assert_eq!(settings[0].position, Some((2400, 0)));
}

#[test]
fn outcomes_are_reported() {
    let mut editor = Editor::new(heads(), Config::default());
    assert_eq!(editor.status, "");
    for (outcome, says) in [
        (ApplyOutcome::Succeeded, "applied"),
        (ApplyOutcome::Failed, "the compositor rejected it"),
        (ApplyOutcome::Cancelled, "cancelled, outputs changed"),
    ] {
        editor.report(outcome);
        assert_eq!(editor.status, says);
    }
}

#[test]
fn deleting_the_profile_being_edited_goes_back_to_the_live_outputs() {
    let mut config = Config::default();
    config.upsert(profile_from_snapshot("two", &Snapshot { serial: 0, heads: heads() }, false));
    config.upsert(profile_from_snapshot("other", &Snapshot { serial: 0, heads: vec![] }, false));
    let mut editor = Editor::new(heads(), config);
    assert_eq!(editor.name, "two");
    editor.edit("two");
    assert_eq!(names(&editor.without("two")), ["other"]);
    editor.close("other");
    assert_eq!(editor.editing.as_deref(), Some("two"));
    editor.config = editor.without("two");
    editor.close("two");
    assert!(editor.editing.is_none() && editor.with_serial);
    assert_eq!(editor.name, "dell-p2723qe_dell-p2723qe");
}

#[test]
fn the_live_name_is_that_of_the_best_match() {
    let mut config = Config::default();
    config.upsert(profile_from_snapshot("any", &Snapshot { serial: 0, heads: heads() }, false));
    config.upsert(profile_from_snapshot("exact", &Snapshot { serial: 0, heads: heads() }, true));
    assert_eq!(live_name(&config, &heads()), "exact");
    assert_eq!(live_name(&Config::default(), &vec![]), "profile");
}

#[test]
fn settling_the_drafts_closes_gaps() {
    let mut editor = Editor::new(heads(), Config::default());
    editor.drafts[1].x += 30 * 256;
    assert!(editor.can_settle(1, 16 * 256));
    let (target, lines) = editor.preview(1, 16 * 256);
    assert_eq!((target.left, target.top), (2400 * 256, 0));
    assert!(!lines.is_empty());
    editor.settle_from(1, 16 * 256);
    assert_eq!((editor.drafts[1].x, editor.drafts[1].y), (2400 * 256, 0));
    let bounds = editor.bounds().unwrap();
    assert_eq!((bounds.left, bounds.top, bounds.right, bounds.bottom), (0, 0, 4800 * 256, 1350 * 256));
    editor.drafts[0].enabled = false;
    assert_eq!(editor.bounds().unwrap().left, 2400 * 256);
    editor.drafts[1].enabled = false;
    assert!(editor.bounds().is_none());
}

#[test]
fn a_change_is_to_the_output_that_is_selected() {
    let mut editor = Editor::new(heads(), Config::default());
    editor.selected = 1;
    let mode = ModeSpec { width: 800, height: 600, refresh: None };
    for change in [
        Change::Enabled(false),
        Change::Scale(scale(2.0)),
        Change::Mode(Some(mode)),
        Change::Transform(Transform::_90),
        Change::X(7),
        Change::Y(-9),
    ] {
        assert!(editor.change(change));
    }
    let draft = &editor.drafts[1];
    assert_eq!((draft.enabled, draft.scale, draft.mode), (false, scale(2.0), Some(mode)));
    assert_eq!((draft.transform, draft.x, draft.y), (Transform::_90, 7, -9));
    assert_eq!((editor.drafts[0].enabled, editor.drafts[0].x), (true, 0));
    editor.selected = 2;
    assert!(!editor.change(Change::X(1)));
}

#[test]
fn a_drag_moves_one_output_freely() {
    let mut editor = Editor::new(heads(), Config::default());
    editor.drag(0, 100, -3);
    editor.drag(0, 1, 1);
    assert_eq!((editor.drafts[0].x, editor.drafts[0].y), (101, -2));
    editor.drag(0, i64::MAX, i64::MIN);
    assert_eq!((editor.drafts[0].x, editor.drafts[0].y), (REACH, -REACH));
    editor.change(Change::X(-REACH - 1));
    editor.change(Change::Y(REACH - 1));
    assert_eq!((editor.drafts[0].x, editor.drafts[0].y), (-REACH, REACH - 1));
    assert_eq!(editor.drafts[1].x, 2400 * 256);
}

#[test]
fn a_draft_offers_the_modes_of_its_head() {
    let mut with_modes = heads();
    with_modes[1].modes = vec![
        Mode { width: 3840, height: 2160, refresh: 59_997, preferred: true },
        Mode { width: 1920, height: 1080, refresh: 60_000, preferred: false },
    ];
    let editor = Editor::new(with_modes, Config::default());
    let offered: Vec<(i32, String)> =
        editor.drafts[1].choices(&editor.heads).into_iter().map(|c| (c.mode.width, c.label)).collect();
    assert_eq!(offered, [(3840, "3840x2160@59.997 *".to_string()), (1920, "1920x1080@60.000".to_string())]);
    assert!(editor.drafts[0].choices(&editor.heads).is_empty());
    assert!(editor.drafts[1].choices(&vec![]).is_empty());
    assert_eq!(editor.drafts[0].caption("1.6"), "DP-1\n2400×1350 @ 1.6");
}

#[test]
fn the_profiles_that_match_are_marked() {
    let mut config = Config::default();
    config.upsert(profile_from_snapshot("two", &Snapshot { serial: 0, heads: heads() }, true));
    config.upsert(profile_from_snapshot("one", &Snapshot { serial: 0, heads: vec![heads().remove(0)] }, true));
    assert_eq!(Editor::new(heads(), config).matching_profiles(), [true, false]);
}

#[test]
fn news_is_told_once() {
    let mut state = OutputState::default();
    let mut seen = state.generation();
    state.manager_event(ManagerEvent::Head(1));
    assert!(news(&mut state, &mut seen).heads.is_none());
    state.manager_event(ManagerEvent::Done(1));
    state.configuration_event(ApplyOutcome::Succeeded);
    let first = news(&mut state, &mut seen);
    assert_eq!((first.heads.unwrap().len(), first.outcome), (1, Some(ApplyOutcome::Succeeded)));
    let second = news(&mut state, &mut seen);
    assert!(second.heads.is_none() && second.outcome.is_none());
}

#[test]
fn coordinates_round_to_pixels() {
    for (v, p) in [(0, 0), (127, 0), (128, 1), (-127, 0), (-128, -1), (256, 1), (i64::MAX, i32::MAX), (i64::MIN, i32::MIN)] {
        assert_eq!(to_pixel(v), p);
    }
}

#[test]
fn a_head_is_listed_with_all_its_settings() {
    let mut h = head("DP-1", "DELL P2723QE", "X");
    assert_eq!(
        texts(&describe_head(&h, "1.6")),
        [
            "DP-1  Dell Inc. DELL P2723QE X",
            "      enabled  3840x2160@59.997  pos 0,0  scale 1.6  transform normal  logical 2400x1350",
        ]
    );
    h.description = "A screen".into();
    h.enabled = false;
    h.current_mode = None;
    h.position = (-5, 7);
    h.transform = Transform::_90;
    h.modes = vec![
        Mode { width: 1920, height: 1080, refresh: 60_000, preferred: true },
        Mode { width: 800, height: 600, refresh: 75_000, preferred: false },
    ];
    assert_eq!(
        texts(&describe_head(&h, "1.6")),
        [
            "DP-1  Dell Inc. DELL P2723QE X",
            "      A screen",
            "      disabled  pos -5,7  scale 1.6  transform 90  logical 675x1200",
            "      modes: 1920x1080@60.000*  800x600@75.000",
        ]
    );
    h.description = "DP-1".into();
    assert_eq!(describe_head(&h, "1.6").len(), 3);
    assert_eq!(mode_label(&h.modes[0], " *"), "1920x1080@60.000 *");
    assert_eq!(mode_label(&h.modes[1], " *"), "800x600@75.000");
}

#[test]
fn the_status_says_what_matches_and_how() {
    let mut config = Config::default();
    assert_eq!(
        texts(&status(&config, &heads())),
        [
            "no profile matches the connected outputs:",
            "  DP-1 (Dell Inc. DELL P2723QE X)",
            "  DP-2 (Dell Inc. DELL P2723QE Y)",
            "run `wano save <name>` to remember the current arrangement",
        ]
    );
    config.upsert(profile_from_snapshot("desk", &Snapshot { serial: 0, heads: heads() }, true));
    let mut swapped = heads();
    swapped.reverse();
    assert_eq!(
        texts(&status(&config, &swapped)),
        [
            "profile desk (score 4)",
            "  Dell Inc. DELL P2723QE X -> DP-1 (Dell Inc. DELL P2723QE X)",
            "  Dell Inc. DELL P2723QE Y -> DP-2 (Dell Inc. DELL P2723QE Y)",
        ]
    );
}

#[test]
fn saving_says_whether_it_replaced_a_profile() {
    let snapshot = Snapshot { serial: 0, heads: heads() };
    let mut config = Config::default();
    let lines = save(&mut config, "desk", &snapshot, false, "/tmp/config.toml");
    assert_eq!(
        texts(&lines),
        [
            "saved profile desk in /tmp/config.toml",
            "  Dell Inc. DELL P2723QE",
            "  Dell Inc. DELL P2723QE",
        ]
    );
    let lines = save(&mut config, "desk", &snapshot, true, "/tmp/config.toml");
    assert_eq!(lines[0], "replaced profile desk in /tmp/config.toml");
    assert_eq!(lines[2], "  Dell Inc. DELL P2723QE Y");
    assert_eq!(names(&config), ["desk"]);
    assert_eq!(save_name(&snapshot, Some("desk".into())).as_deref(), Some("desk"));
    assert_eq!(save_name(&snapshot, None).as_deref(), Some("dell-p2723qe_dell-p2723qe"));
    assert_eq!(save_name(&Snapshot { serial: 0, heads: vec![] }, Some("desk".into())), None);
}

#[test]
fn a_saved_profile_is_applied_by_name() {
    let mut config = Config::default();
    config.upsert(profile_from_snapshot("desk", &Snapshot { serial: 0, heads: heads() }, true));
    assert_eq!(apply(&config, "sofa", &heads()).unwrap_err(), Refusal::NoProfile);
    assert_eq!(apply(&config, "desk", &vec![]).unwrap_err(), Refusal::NoMatch);
    let settings = apply(&config, "desk", &heads()).unwrap();
    assert_eq!(settings[1].position, Some((2400, 0)));
    config.profiles[0].outputs[1].mode = Some("4k".into());
    assert_eq!(
        apply(&config, "desk", &heads()).unwrap_err(),
        Refusal::Invalid(SettingError::BadMode("4k".into()))
    );
}
