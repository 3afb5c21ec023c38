use wano::config::{Config, Output, Profile};
use wano::daemon::{apply_matching, Daemon, Decision};
use wano::scale::Scale;
use wano::state::{
    apply_step, ApplyStep, ConfigureError, HeadEvent, HeadRequest, ManagerEvent, ModeEvent, ModeRequest, OutputState,
    MANAGER_VERSION,
};
use wano::wl::{ApplyOutcome, HeadId, ModeSpec, OutputSetting, Transform};

fn scale(x: f64) -> Scale {
    Scale { bits: x.to_bits() }
}

fn add_mode(state: &mut OutputState, head: u64, mode: u64, size: (i32, i32), refresh: i32, preferred: bool) {
    state.head_event(head, HeadEvent::Mode(mode));
    state.mode_event(mode, ModeEvent::Size(size.0, size.1));
    state.mode_event(mode, ModeEvent::Refresh(refresh));
    if preferred {
        state.mode_event(mode, ModeEvent::Preferred);
    }
}

fn add_head(state: &mut OutputState, head: u64, connector: &str, model: &str, serial: &str) {
    state.manager_event(ManagerEvent::Head(head));
    state.head_event(head, HeadEvent::Name(connector.into()));
    state.head_event(head, HeadEvent::Make("Acme".into()));
    state.head_event(head, HeadEvent::Model(model.into()));
    state.head_event(head, HeadEvent::SerialNumber(serial.into()));
    state.head_event(head, HeadEvent::Enabled(1));
}

fn done(state: &mut OutputState, serial: u32) {
    state.manager_event(ManagerEvent::Done(serial));
}

fn two_heads() -> OutputState {
    let mut state = OutputState::default();
    assert_eq!(state.registry_event(true, 9), Some(MANAGER_VERSION));
    add_head(&mut state, 10, "DP-1", "M1", "A");
    add_mode(&mut state, 10, 100, (1920, 1080), 60_000, true);
    add_mode(&mut state, 10, 101, (1920, 1080), 144_000, false);
    add_mode(&mut state, 10, 102, (1280, 720), 60_000, false);
    state.head_event(10, HeadEvent::CurrentMode(100));
    add_head(&mut state, 20, "eDP-1", "M2", "B");
    state.head_event(20, HeadEvent::Position(1920, 5));
    state.head_event(20, HeadEvent::Scale(scale(2.0)));
    state.head_event(20, HeadEvent::Transform(Transform::_180));
    done(&mut state, 7);
    state
}

fn id(connector: &str, model: &str, serial: &str) -> HeadId {
    HeadId { connector: connector.into(), make: "Acme".into(), model: model.into(), serial: serial.into() }
}

fn setting(id: HeadId) -> OutputSetting {
    OutputSetting { id, enabled: true, position: None, scale: None, mode: None, transform: None }
}

fn mode(width: i32, height: i32, refresh: Option<i32>) -> Option<ModeSpec> {
    Some(ModeSpec { width, height, refresh })
}

fn asked(state: &OutputState, spec: Option<ModeSpec>) -> ModeRequest {
    let mut state_settings = setting(id("DP-1", "M1", "A"));
    state_settings.mode = spec;
    let mut copy = two_heads();
    assert_eq!(copy.serial(), state.serial());
    match copy.configure(&vec![state_settings]).unwrap()[0] {
        HeadRequest::Enable { mode, .. } => mode,
        HeadRequest::Disable(_) => unreachable!(),
    }
}

#[test]
fn the_manager_is_bound_once_in_a_version_that_is_known() {
    let mut state = OutputState::default();
    assert!(!state.has_manager());
    assert_eq!(state.registry_event(false, 3), None);
    assert!(!state.has_manager());
    assert_eq!(state.registry_event(true, 2), Some(2));
    assert!(state.has_manager());
    assert_eq!(state.registry_event(true, 4), None);
    state.manager_event(ManagerEvent::Finished);
    assert!(!state.has_manager());
    assert_eq!(state.registry_event(true, 4), Some(4));
}

#[test]
fn events_build_up_the_snapshot() {
    let state = two_heads();
    assert_eq!((state.serial(), state.generation(), state.generation), (7, 1, 1));
    let snapshot = state.snapshot();
    assert_eq!(snapshot.serial, 7);
    assert_eq!(snapshot.heads.len(), 2);
    let first = &snapshot.heads[0];
    assert_eq!(first.id, id("DP-1", "M1", "A"));
    assert_eq!(first.modes.len(), 3);
    assert_eq!(first.current_mode.unwrap().refresh, 60_000);
    assert!(first.modes[0].preferred && !first.modes[1].preferred);
    let second = &snapshot.heads[1];
    assert_eq!((second.position, second.scale, second.transform), ((1920, 5), scale(2.0), Transform::_180));
    assert!(second.enabled && second.current_mode.is_none());
}

#[test]
fn a_head_says_unknown_until_it_is_told() {
    let mut state = OutputState::default();
    state.manager_event(ManagerEvent::Head(1));
    let head = &state.snapshot().heads[0];
    assert_eq!((head.id.connector.as_str(), head.id.make.as_str()), ("", "Unknown"));
    assert_eq!((head.id.model.as_str(), head.id.serial.as_str()), ("Unknown", "Unknown"));
    assert_eq!((head.scale, head.transform, head.enabled), (scale(1.0), Transform::Normal, false));
    state.head_event(1, HeadEvent::Description("A screen".into()));
    state.head_event(1, HeadEvent::Enabled(2));
    state.head_event(1, HeadEvent::CurrentMode(5));
    let head = &state.snapshot().heads[0];
    assert_eq!(head.description, "A screen");
    assert!(head.enabled && head.current_mode.is_none());
    state.head_event(1, HeadEvent::Enabled(0));
    assert!(!state.snapshot().heads[0].enabled);
}

#[test]
fn a_gone_head_is_forgotten_with_its_modes() {
    let mut state = two_heads();
    assert_eq!(state.head_event(10, HeadEvent::Finished), Some(vec![100, 101, 102]));
    let heads = state.snapshot().heads;
    assert_eq!(heads.len(), 1);
    assert_eq!(heads[0].id.connector, "eDP-1");
    assert_eq!(state.head_event(10, HeadEvent::Finished), None);
    // What is said of it or of its modes from then on changes nothing.
    state.head_event(10, HeadEvent::Name("DP-9".into()));
    state.mode_event(100, ModeEvent::Preferred);
    assert_eq!(state.snapshot().heads.len(), 1);
}

#[test]
fn an_advertised_rate_is_preferred_and_else_the_highest() {
    let state = two_heads();
    assert_eq!(asked(&state, mode(1920, 1080, Some(60_000))), ModeRequest::Advertised(100));
    assert_eq!(asked(&state, mode(1920, 1080, Some(60_001))), ModeRequest::Advertised(100));
    assert_eq!(asked(&state, mode(1920, 1080, Some(60_002))), ModeRequest::Advertised(101));
    assert_eq!(asked(&state, mode(1920, 1080, None)), ModeRequest::Advertised(101));
    assert_eq!(asked(&state, mode(1280, 720, Some(i32::MIN))), ModeRequest::Advertised(102));
    assert_eq!(asked(&state, mode(800, 600, Some(75_000))), ModeRequest::Custom(800, 600, 75_000));
    assert_eq!(asked(&state, mode(800, 600, None)), ModeRequest::Custom(800, 600, 0));
    assert_eq!(asked(&state, None), ModeRequest::Keep);
}

#[test]
fn the_rate_that_is_asked_for_comes_before_one_next_to_it() {
    let choice = |rates: &[i32], size: (i32, i32), refresh: Option<i32>| {
        let mut state = OutputState::default();
        state.registry_event(true, 9);
        add_head(&mut state, 10, "DP-1", "M1", "A");
        for (i, &rate) in rates.iter().enumerate() {
            add_mode(&mut state, 10, i as u64, (1920, 1080), rate, false);
        }
        done(&mut state, 1);
        let mut wanted = setting(id("DP-1", "M1", "A"));
        wanted.mode = mode(size.0, size.1, refresh);
        match state.configure(&vec![wanted]).unwrap()[0] {
            HeadRequest::Enable { mode, .. } => mode,
            HeadRequest::Disable(_) => unreachable!(),
        }
    };
    let rates = [60_000, 60_001, 144_000];
    assert_eq!(choice(&rates, (1920, 1080), Some(60_001)), ModeRequest::Advertised(1));
    assert_eq!(choice(&rates, (1920, 1080), Some(60_000)), ModeRequest::Advertised(0));
    assert_eq!(choice(&rates, (1920, 1080), Some(144_000)), ModeRequest::Advertised(2));
    // Next to two of them, the first.
    assert_eq!(choice(&[59_999, 60_001, 144_000], (1920, 1080), Some(60_000)), ModeRequest::Advertised(0));
    assert_eq!(choice(&rates, (1920, 1080), None), ModeRequest::Advertised(2));
    assert_eq!(choice(&rates, (1920, 1080), Some(75_000)), ModeRequest::Advertised(2));
    assert_eq!(choice(&rates, (1280, 720), Some(60_001)), ModeRequest::Custom(1280, 720, 60_001));
}

#[test]
fn outputs_that_are_not_named_keep_their_configuration() {
    let mut state = two_heads();
    let mut want = setting(id("DP-1", "M1", "A"));
    want.position = Some((10, 20));
    let requests = state.configure(&vec![want]).unwrap();
    assert_eq!(
        requests,
        vec![
            HeadRequest::Enable {
                head: 10,
                mode: ModeRequest::Keep,
                position: Some((10, 20)),
                scale: None,
                transform: None,
            },
            HeadRequest::Enable {
                head: 20,
                mode: ModeRequest::Keep,
                position: Some((1920, 5)),
                scale: Some(scale(2.0)),
                transform: Some(Transform::_180),
            },
        ]
    );
}

#[test]
fn the_last_setting_for_an_output_holds() {
    let mut state = two_heads();
    let mut off = setting(id("DP-1", "M1", "A"));
    off.enabled = false;
    let on = setting(id("DP-1", "M1", "A"));
    let requests = state.configure(&vec![on.clone(), off.clone()]).unwrap();
    assert_eq!(requests[0], HeadRequest::Disable(10));
    let requests = state.configure(&vec![off, on]).unwrap();
    assert!(matches!(requests[0], HeadRequest::Enable { head: 10, .. }));
}

#[test]
fn an_output_that_is_not_connected_cannot_be_configured() {
    let mut state = two_heads();
    let gone = id("DP-7", "M1", "A");
    match state.configure(&vec![setting(id("DP-1", "M1", "A")), setting(gone.clone())]) {
        Err(ConfigureError::NotConnected(which)) => assert_eq!(which, gone),
        _ => panic!("configured what is not there"),
    }
    state.manager_event(ManagerEvent::Finished);
    assert!(matches!(state.configure(&vec![]), Err(ConfigureError::ManagerGone)));
}

#[test]
fn an_outcome_is_taken_once_and_dropped_by_the_next_configuration() {
    let mut state = two_heads();
    assert_eq!(state.take_outcome(), None);
    state.configure(&vec![]).unwrap();
    state.configuration_event(ApplyOutcome::Failed);
    assert_eq!(state.take_outcome(), Some(ApplyOutcome::Failed));
    assert_eq!(state.take_outcome(), None);
    state.configuration_event(ApplyOutcome::Succeeded);
    state.configure(&vec![]).unwrap();
    assert_eq!(state.take_outcome(), None);
}

#[test]
fn a_stale_configuration_is_tried_twice() {
    assert_eq!(apply_step(0, ApplyOutcome::Succeeded), ApplyStep::Done);
    assert_eq!(apply_step(1, ApplyOutcome::Succeeded), ApplyStep::Done);
    assert_eq!(apply_step(0, ApplyOutcome::Failed), ApplyStep::Rejected);
    assert_eq!(apply_step(0, ApplyOutcome::Cancelled), ApplyStep::RefreshAndRetry);
    assert_eq!(apply_step(1, ApplyOutcome::Cancelled), ApplyStep::RefreshAndGiveUp);
}

fn entry(connector: &str) -> Output {
    Output { connector: Some(connector.into()), enabled: true, ..Output::default() }
}

fn desk() -> Config {
    Config { profiles: vec![Profile { name: "desk".into(), outputs: vec![entry("eDP-1"), entry("DP-1")] }] }
}

fn name_of(decision: &Decision) -> &str {
    match decision {
        Decision::Idle => "idle",
        Decision::Configure { .. } => "configure",
        Decision::CannotConfigure { .. } => "cannot configure",
        Decision::Invalid { .. } => "invalid",
        Decision::NoMatch { .. } => "no match",
    }
}

#[test]
fn the_daemon_acts_on_a_set_of_outputs_once() {
    let mut state = two_heads();
    let mut daemon = Daemon::new("a".into(), desk(), state.generation());
    let turn = daemon.turn(&mut state);
    match &turn.decision {
        Decision::Configure { profile, requests } => {
            assert_eq!(profile, "desk");
            assert_eq!(requests.len(), 2);
        }
        other => panic!("{other:?}"),
    }
    // Nothing happened.
    assert_eq!(name_of(&daemon.turn(&mut state).decision), "idle");
    // The layout changed, the set of outputs did not.
    state.head_event(10, HeadEvent::Position(77, 0));
    done(&mut state, 8);
    assert_eq!(name_of(&daemon.turn(&mut state).decision), "idle");
    // A screen is gone, and another set is there.
    state.head_event(10, HeadEvent::Finished);
    done(&mut state, 9);
    match daemon.turn(&mut state).decision {
        Decision::NoMatch { outputs } => assert_eq!(outputs, ["eDP-1 (Acme M2 B)"]),
        other => panic!("{other:?}"),
    }
    done(&mut state, 10);
    assert_eq!(name_of(&daemon.turn(&mut state).decision), "idle");
    // It comes back.
    add_head(&mut state, 30, "DP-1", "M1", "A");
    done(&mut state, 11);
    assert_eq!(name_of(&daemon.turn(&mut state).decision), "configure");
}

#[test]
fn a_stale_configuration_is_sent_again() {
    let mut state = two_heads();
    let mut daemon = Daemon::new("a".into(), desk(), state.generation());
    daemon.turn(&mut state);
    state.configuration_event(ApplyOutcome::Cancelled);
    let turn = daemon.turn(&mut state);
    assert_eq!(turn.outcome, Some(ApplyOutcome::Cancelled));
    assert_eq!(name_of(&turn.decision), "configure");
    state.configuration_event(ApplyOutcome::Failed);
    let turn = daemon.turn(&mut state);
    assert_eq!((turn.outcome, name_of(&turn.decision)), (Some(ApplyOutcome::Failed), "idle"));
}

#[test]
fn a_file_is_loaded_when_its_contents_changed_and_can_be_parsed() {
    let mut state = two_heads();
    let mut daemon = Daemon::new("a".into(), Config::default(), state.generation());
    assert_eq!(name_of(&daemon.turn(&mut state).decision), "no match");
    assert!(!daemon.is_new("a") && daemon.is_new("b"));
    assert!(!daemon.reload("a".into(), Some(desk())));
    assert_eq!(name_of(&daemon.turn(&mut state).decision), "idle");
    assert!(!daemon.reload("b".into(), None));
    assert_eq!(name_of(&daemon.turn(&mut state).decision), "idle");
    assert!(daemon.reload("c".into(), Some(desk())));
    assert_eq!(name_of(&daemon.turn(&mut state).decision), "configure");
    assert!(!daemon.is_new("c"));
}

#[test]
fn a_configuration_that_was_not_sent_is_decided_on_again() {
    let mut state = two_heads();
    let mut daemon = Daemon::new("a".into(), desk(), state.generation());
    assert_eq!(name_of(&daemon.turn(&mut state).decision), "configure");
    daemon.unsent();
    assert_eq!(name_of(&daemon.turn(&mut state).decision), "idle");
    done(&mut state, 8);
    assert_eq!(name_of(&daemon.turn(&mut state).decision), "configure");
    done(&mut state, 9);
    assert_eq!(name_of(&daemon.turn(&mut state).decision), "idle");
    // The set that was acted on before is still the one acted on.
    add_head(&mut state, 30, "DP-9", "M3", "C");
    done(&mut state, 10);
    assert_eq!(name_of(&daemon.turn(&mut state).decision), "no match");
    daemon.unsent();
    state.head_event(30, HeadEvent::Finished);
    done(&mut state, 11);
    assert_eq!(name_of(&daemon.turn(&mut state).decision), "idle");
}

#[test]
fn a_profile_that_cannot_be_applied_is_reconsidered() {
    let mut config = desk();
    config.profiles[0].outputs[0].transform = Some("sideways".into());
    let mut state = two_heads();
    let mut applied = None;
    match apply_matching(&mut state, &config, &mut applied) {
        Decision::Invalid { profile, .. } => assert_eq!(profile, "desk"),
        other => panic!("{other:?}"),
    }
    assert!(applied.is_none());
    state.manager_event(ManagerEvent::Finished);
    assert_eq!(name_of(&apply_matching(&mut state, &desk(), &mut applied)), "cannot configure");
    assert!(applied.is_none());
}

#[test]
fn without_outputs_there_is_nothing_to_do() {
    let mut state = OutputState::default();
    state.registry_event(true, 4);
    let mut applied = None;
    assert_eq!(name_of(&apply_matching(&mut state, &desk(), &mut applied)), "idle");
    assert!(applied.is_none());
}
