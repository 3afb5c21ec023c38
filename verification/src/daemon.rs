//! Reapply the matching profile when the set of connected outputs changes. The
//! decisions stand here; the event loop around them reads the file, talks to the
//! compositor and writes the log.

use vstd::prelude::*;

use crate::config;
use crate::config::Config;
use crate::matching;
use crate::matching::{best_match, fingerprint};
use crate::state;
use crate::state::{ConfigureError, HeadRequest, OutputState};
use crate::text;
use crate::wl;
use crate::wl::{ApplyOutcome, Head, HeadId, SettingError};

verus! {

/// What the daemon carries from one turn of the event loop to the next.
#[derive(Debug)]
pub struct Daemon {
    /// The contents of the profile file as last loaded.
    text: String,
    config: Config,
    /// The set of outputs last acted on.
    applied: Option<Vec<HeadId>>,
    /// The set that was last acted on before the last decision.
    previous: Option<Vec<HeadId>>,
    /// The state of the outputs last looked at.
    generation: u64,
    evaluate: bool,
}

/// What a `Daemon` says.
#[verifier::ext_equal]
pub struct DaemonView {
    pub text: Seq<char>,
    pub config: Seq<config::ProfileView>,
    pub applied: Option<Seq<wl::IdView>>,
    pub previous: Option<Seq<wl::IdView>>,
    pub generation: u64,
    pub evaluate: bool,
}

/// What an optional fingerprint says.
pub open spec fn opt_ids(v: Option<Vec<HeadId>>) -> Option<Seq<wl::IdView>> {
    match v {
        Some(v) => Some(matching::id_views(v@)),
        None => None,
    }
}

impl View for Daemon {
    type V = DaemonView;

    closed spec fn view(&self) -> DaemonView {
        DaemonView {
            text: self.text@,
            config: self.config@,
            applied: opt_ids(self.applied),
            previous: opt_ids(self.previous),
            generation: self.generation,
            evaluate: self.evaluate,
        }
    }
}

/// What the daemon decides about the outputs.
#[derive(Debug)]
pub enum Decision {
    /// Nothing is to be done.
    Idle,
    /// Send this configuration, for the sake of the profile named.
    Configure { profile: String, requests: Vec<HeadRequest> },
    /// The profile cannot be sent as a configuration.
    CannotConfigure { profile: String, error: ConfigureError },
    /// The profile has something in it that cannot be read.
    Invalid { profile: String, reason: SettingError },
    /// No profile describes these outputs.
    NoMatch { outputs: Vec<String> },
}

/// The identities of the connected outputs.
pub open spec fn connected(s: state::StateView) -> Seq<wl::IdView> {
    wl::ids(s.snapshot())
}

/// The set of connected outputs.
pub open spec fn current_set(s: state::StateView) -> Seq<wl::IdView> {
    connected(s).sort_by(matching::id_order())
}

/// Whether the outputs are none, or those last acted on.
pub open spec fn is_settled(applied: Option<Seq<wl::IdView>>, s: state::StateView) -> bool {
    s.snapshot().len() == 0 || applied == Some(current_set(s))
}

/// Whether `a` is the assignment of the best match, the profile at `i`.
pub open spec fn is_chosen(
    ps: Seq<config::ProfileView>,
    ids: Seq<wl::IdView>,
    i: int,
    a: Seq<usize>,
) -> bool {
    matching::is_best(ps, ids, i) && matching::is_first_assignment(ps[i].outputs, ids, a)
}

/// Whether a decision is right for outputs that are not settled.
pub open spec fn is_right(
    ps: Seq<config::ProfileView>,
    s: state::StateView,
    d: Decision,
) -> bool {
    let ids = connected(s);
    match d {
        Decision::Idle => false,
        Decision::NoMatch { outputs } => {
            &&& forall|i: int| 0 <= i < ps.len() ==> !matching::matches_heads(#[trigger] ps[i], ids)
            &&& text::texts(outputs@) == ids.map_values(|id: wl::IdView| id.text())
        },
        Decision::Invalid { profile, reason } => exists|i: int, a: Seq<usize>|
            #[trigger] is_chosen(ps, ids, i, a) && profile@ == ps[i].name && matching::is_first_error(
                ps[i].outputs,
                ids,
                a,
                reason@,
            ),
        Decision::CannotConfigure { profile, error } => exists|
            i: int,
            a: Seq<usize>,
            settings: Seq<wl::SettingView>,
        | #[trigger]
            is_chosen(ps, ids, i, a) && profile@ == ps[i].name && #[trigger] matching::are_settings(
                ps[i].outputs,
                ids,
                a,
                settings,
            ) && match error {
                ConfigureError::ManagerGone => !s.manager,
                ConfigureError::NotConnected(id) => s.manager && state::planned(
                    state::current_plan(s.snapshot()),
                    settings,
                ) == Err::<Seq<wl::SettingView>, wl::IdView>(id@),
            },
        Decision::Configure { profile, requests } => exists|
            i: int,
            a: Seq<usize>,
            settings: Seq<wl::SettingView>,
        | #[trigger]
            is_chosen(ps, ids, i, a) && profile@ == ps[i].name && #[trigger] matching::are_settings(
                ps[i].outputs,
                ids,
                a,
                settings,
            ) && s.manager && are_requests(s, settings, requests@),
    }
}

/// Whether the requests ask for the settings, and for every other output to stay.
pub open spec fn are_requests(
    s: state::StateView,
    settings: Seq<wl::SettingView>,
    requests: Seq<HeadRequest>,
) -> bool {
    let plan = state::planned(state::current_plan(s.snapshot()), settings);
    &&& plan is Ok
    &&& requests.len() == plan->Ok_0.len()
    &&& forall|i: int|
        0 <= i < requests.len() ==> state::is_request(s, plan->Ok_0[i], #[trigger] requests[i])
}

/// Whether two fingerprints are the same.
fn same_set(a: &Vec<HeadId>, b: &Vec<HeadId>) -> (r: bool)
    ensures
        r == (matching::id_views(a@) == matching::id_views(b@)),
{
    if a.len() != b.len() {
        assert(matching::id_views(a@).len() != matching::id_views(b@).len());
        return false;
    }
    for i in 0..a.len()
        invariant
            a@.len() == b@.len(),
            forall|j: int| 0 <= j < i ==> matching::id_views(a@)[j] == matching::id_views(b@)[j],
    {
        if !a[i].same(&b[i]) {
            assert(matching::id_views(a@)[i as int] != matching::id_views(b@)[i as int]);
            return false;
        }
    }
    assert(matching::id_views(a@) =~= matching::id_views(b@));
    true
}

/// A copy of a fingerprint.
fn copy_set(v: &Option<Vec<HeadId>>) -> (r: Option<Vec<HeadId>>)
    ensures
        opt_ids(r) == opt_ids(*v),
{
    let ids = match v {
        Some(ids) => ids,
        None => {
            return None;
        },
    };
    let ghost all = matching::id_views(ids@);
    let mut r: Vec<HeadId> = Vec::new();
    let n = ids.len();
    for i in 0..n
        invariant
            n == ids@.len(),
            all == matching::id_views(ids@),
            matching::id_views(r@) == all.take(i as int),
    {
        let id = ids[i].clone();
        let ghost before = matching::id_views(r@);
        r.push(id);
        assert(matching::id_views(r@) == before.push(id@));
        assert(all.take(i + 1) == before.push(all[i as int]));
    }
    assert(all.take(n as int) == all);
    Some(r)
}

/// How the outputs read in logs.
fn output_names(heads: &Vec<Head>) -> (r: Vec<String>)
    ensures
        text::texts(r@) == wl::ids(wl::head_views(heads@)).map_values(|id: wl::IdView| id.text()),
{
    let ghost all = wl::ids(wl::head_views(heads@)).map_values(|id: wl::IdView| id.text());
    let mut r: Vec<String> = Vec::new();
    for i in 0..heads.len()
        invariant
            all == wl::ids(wl::head_views(heads@)).map_values(|id: wl::IdView| id.text()),
            text::texts(r@) == all.take(i as int),
    {
        let name = heads[i].id.to_string();
        let ghost before = text::texts(r@);
        r.push(name);
        assert(text::texts(r@) == before.push(name@));
        assert(all.take(i + 1) == before.push(all[i as int]));
    }
    assert(all.take(heads@.len() as int) == all);
    r
}

/// Apply the best-matching profile, but only when the set of connected outputs
/// differs from the last one acted on. Layout changes that leave the set intact
/// are left alone. A set is acted on, and not reconsidered, once its profile is
/// sent or no profile is found to match it.
pub fn apply_matching(
    state: &mut OutputState,
    config: &Config,
    applied: &mut Option<Vec<HeadId>>,
) -> (r: Decision)
    requires
        old(state)@.snapshot().len() <= 0x7fff_ffff,
    ensures
        if is_settled(opt_ids(*old(applied)), old(state)@) {
            r is Idle
        } else {
            is_right(config@, old(state)@, r)
        },
        opt_ids(*final(applied)) == (if r is Configure || r is NoMatch {
            Some(current_set(old(state)@))
        } else {
            opt_ids(*old(applied))
        }),
        final(state)@ == (if r is Configure {
            state::StateView { pending: true, outcome: None, ..old(state)@ }
        } else {
            old(state)@
        }),
{
    let ghost s = state@;
    let snapshot = state.snapshot();
    if snapshot.heads.len() == 0 {
        assert(s.snapshot().len() == 0);
        return Decision::Idle;
    }
    assert(s.snapshot().len() > 0);
    let current = fingerprint(&snapshot.heads);
    let same = match applied {
        Some(ids) => same_set(ids, &current),
        None => false,
    };
    if same {
        return Decision::Idle;
    }
    let ghost ids = connected(s);
    let decision = match best_match(config, &snapshot.heads) {
        Some(m) => {
            let ghost i = choose|i: int|
                #[trigger] matching::is_best(config@, ids, i) && *m.profile == config.profiles@[i];
            let ghost a = m.assignment@;
            assert(config@[i] == m.profile@);
            assert(is_chosen(config@, ids, i, a));
            let profile = m.profile.name.clone();
            match m.settings(&snapshot.heads) {
                Ok(settings) => {
                    let ghost views = wl::setting_views(settings@);
                    assert(matching::are_settings(config@[i].outputs, ids, a, views));
                    match state.configure(&settings) {
                        Ok(requests) => {
                            assert(are_requests(s, views, requests@));
                            Decision::Configure { profile, requests }
                        },
                        Err(error) => {
                            return Decision::CannotConfigure { profile, error };
                        },
                    }
                },
                Err(reason) => {
                    assert(matching::is_first_error(config@[i].outputs, ids, a, reason@));
                    return Decision::Invalid { profile, reason };
                },
            }
        },
        None => Decision::NoMatch { outputs: output_names(&snapshot.heads) },
    };
    *applied = Some(current);
    decision
}

/// What happened in one turn of the event loop.
#[derive(Debug)]
pub struct Turn {
    /// What the compositor made of the last configuration, if it answered.
    pub outcome: Option<ApplyOutcome>,
    pub decision: Decision,
}

/// What the daemon knows before it decides: a new state of the outputs, and a
/// configuration that went stale, are reasons to look at the outputs again.
pub open spec fn before_decision(d: DaemonView, s: state::StateView) -> DaemonView {
    let stale = s.outcome == Some(ApplyOutcome::Cancelled);
    DaemonView {
        applied: if stale {
            None
        } else {
            d.applied
        },
        generation: s.generation,
        evaluate: d.evaluate || stale || d.generation != s.generation,
        ..d
    }
}

/// Whether there is reason to look at the outputs, and they are not those last acted
/// on.
pub open spec fn is_due(d: DaemonView, s: state::StateView) -> bool {
    let now = before_decision(d, s);
    now.evaluate && !is_settled(now.applied, state::outcome_taken(s))
}

/// What the daemon knows after a turn: the outputs are acted on once a profile is sent to
/// them, or none is found to match them.
pub open spec fn after_turn(d: DaemonView, s: state::StateView, decision: Decision) -> DaemonView {
    let now = before_decision(d, s);
    DaemonView {
        evaluate: false,
        applied: if decision is Configure || decision is NoMatch {
            Some(current_set(state::outcome_taken(s)))
        } else {
            now.applied
        },
        previous: if is_due(d, s) {
            now.applied
        } else {
            now.previous
        },
        ..now
    }
}

/// What the daemon knows once the file was read again: its contents, and the
/// profiles in them if they could be parsed.
pub open spec fn reloaded(
    d: DaemonView,
    text: Seq<char>,
    parsed: Option<Seq<config::ProfileView>>,
) -> DaemonView {
    match parsed {
        Some(config) if text != d.text => DaemonView {
            text,
            config,
            applied: None,
            evaluate: true,
            ..d
        },
        _ => d,
    }
}

/// What the profiles that were parsed say.
pub open spec fn opt_config(c: Option<Config>) -> Option<Seq<config::ProfileView>> {
    match c {
        Some(c) => Some(c@),
        None => None,
    }
}

impl Daemon {
    /// A daemon that has looked at nothing yet.
    pub fn new(text: String, config: Config, generation: u64) -> (r: Daemon)
        ensures
            r@ == (DaemonView {
                text: text@,
                config: config@,
                applied: None,
                previous: None,
                generation,
                evaluate: true,
            }),
    {
        Daemon { text, config, applied: None, previous: None, generation, evaluate: true }
    }

    /// Whether the file has other contents than those loaded.
    pub fn is_new(&self, text: &str) -> (r: bool)
        ensures
            r == (text@ != self@.text),
    {
        !text::same_text(self.text.as_str(), text)
    }

    /// The file was touched and read again. It is loaded only when its contents
    /// really changed and could be parsed; then the profiles may describe the
    /// current outputs differently.
    pub fn reload(&mut self, text: String, parsed: Option<Config>) -> (r: bool)
        ensures
            r == (text@ != old(self)@.text && parsed is Some),
            final(self)@ == reloaded(old(self)@, text@, opt_config(parsed)),
    {
        if !self.is_new(text.as_str()) {
            return false;
        }
        match parsed {
            Some(config) => {
                self.text = text;
                self.config = config;
                self.applied = None;
                self.evaluate = true;
                true
            },
            None => false,
        }
    }

    /// One turn of the event loop: take what the compositor answered, and look at
    /// the outputs if there is reason to.
    pub fn turn(&mut self, state: &mut OutputState) -> (r: Turn)
        requires
            old(state)@.snapshot().len() <= 0x7fff_ffff,
        ensures
            ({
                let d = before_decision(old(self)@, old(state)@);
                let s = state::outcome_taken(old(state)@);
                &&& r.outcome == old(state)@.outcome
                &&& if is_due(old(self)@, old(state)@) {
                    is_right(d.config, s, r.decision)
                } else {
                    r.decision is Idle
                }
                &&& final(self)@ == after_turn(old(self)@, old(state)@, r.decision)
                &&& final(state)@ == (if r.decision is Configure {
                    state::StateView { pending: true, outcome: None, ..s }
                } else {
                    s
                })
            }),
    {
        let ghost s = state::outcome_taken(state@);
        if state.generation() != self.generation {
            self.generation = state.generation();
            self.evaluate = true;
        }
        let outcome = state.take_outcome();
        if let Some(ApplyOutcome::Cancelled) = outcome {
            self.applied = None;
            self.evaluate = true;
        }
        assert(state@.snapshot() == s.snapshot());
        let decision = if self.evaluate {
            self.evaluate = false;
            let before = copy_set(&self.applied);
            let decision = apply_matching(state, &self.config, &mut self.applied);
            if !matches!(decision, Decision::Idle) {
                self.previous = before;
            }
            decision
        } else {
            Decision::Idle
        };
        Turn { outcome, decision }
    }

    /// The configuration that was decided on could not be sent: its outputs were not
    /// acted on after all.
    pub fn unsent(&mut self)
        ensures
            final(self)@ == (DaemonView { applied: old(self)@.previous, ..old(self)@ }),
    {
        self.applied = copy_set(&self.previous);
    }
}

/// A file with the contents that were loaded, or with contents that cannot be parsed,
/// changes nothing: the profiles are kept, and nothing is applied on its account.
pub proof fn law_an_unchanged_file_is_not_reapplied(
    d: DaemonView,
    s: state::StateView,
    text: Seq<char>,
    parsed: Option<Seq<config::ProfileView>>,
)
    requires
        text == d.text || parsed is None,
    ensures
        reloaded(d, text, parsed) == d,
        is_due(reloaded(d, text, parsed), s) == is_due(d, s),
        !d.evaluate && d.generation == s.generation && s.outcome != Some(ApplyOutcome::Cancelled)
            ==> !is_due(reloaded(d, text, parsed), s),
{
}

/// A file with other profiles in it is applied at once: the next turn decides by its
/// profiles, although the outputs are those that were acted on already.
pub proof fn law_a_changed_file_is_applied(
    d: DaemonView,
    s: state::StateView,
    text: Seq<char>,
    parsed: Option<Seq<config::ProfileView>>,
)
    requires
        text != d.text,
        parsed is Some,
        s.snapshot().len() > 0,
    ensures
        is_due(reloaded(d, text, parsed), s),
        before_decision(reloaded(d, text, parsed), s).config == parsed->0,
        reloaded(d, text, parsed).text == text,
{
    assert(state::outcome_taken(s).snapshot() == s.snapshot());
}

/// Outputs that were acted on are left alone as long as the set of them is the
/// same, however the layout changes and in whatever order they are listed.
pub proof fn law_same_outputs_are_left_alone(s: state::StateView, t: state::StateView)
    requires
        connected(s).to_multiset() == connected(t).to_multiset(),
    ensures
        is_settled(Some(current_set(s)), t),
{
    matching::law_fingerprint_ignores_order(connected(s), connected(t));
}

/// A change in the set of outputs is looked at again, unless none is left.
pub proof fn law_other_outputs_are_acted_on(s: state::StateView, t: state::StateView)
    requires
        connected(s).to_multiset() != connected(t).to_multiset(),
        t.snapshot().len() > 0,
    ensures
        !is_settled(Some(current_set(s)), t),
{
    matching::law_fingerprint_ignores_order(connected(s), connected(t));
}

/// A configuration that went stale is decided on anew, although its outputs were acted
/// on, as long as any output is connected.
pub proof fn law_a_stale_configuration_is_decided_on_anew(d: DaemonView, s: state::StateView)
    requires
        s.outcome == Some(ApplyOutcome::Cancelled),
        s.snapshot().len() > 0,
    ensures
        is_due(d, s),
{
    state::law_an_answer_is_taken_once(s);
}

/// Nothing is decided while the outputs connected are those last acted on, however often
/// they are reported, in whatever order and however they are set, unless a configuration
/// went stale; nor while none is connected, nor while nothing is new.
pub proof fn law_nothing_is_done_twice(d: DaemonView, t: state::StateView, s: state::StateView)
    ensures
        d.applied == Some(current_set(t)) && connected(s).to_multiset() == connected(
            t,
        ).to_multiset() && s.outcome != Some(ApplyOutcome::Cancelled) ==> !is_due(d, s),
        s.snapshot().len() == 0 ==> !is_due(d, s),
        !d.evaluate && s.generation == d.generation && s.outcome != Some(
            ApplyOutcome::Cancelled,
        ) ==> !is_due(d, s),
{
    state::law_an_answer_is_taken_once(s);
    matching::law_fingerprint_ignores_order(connected(s), connected(t));
}

/// Outputs that are others than those last acted on are decided on as soon as they are
/// reported, and so are the first ones.
pub proof fn law_other_outputs_are_decided_on(
    d: DaemonView,
    t: state::StateView,
    s: state::StateView,
)
    requires
        s.snapshot().len() > 0,
        d.evaluate || s.generation != d.generation,
        d.applied is None || (d.applied == Some(current_set(t)) && connected(s).to_multiset()
            != connected(t).to_multiset()),
    ensures
        is_due(d, s),
{
    state::law_an_answer_is_taken_once(s);
    matching::law_fingerprint_ignores_order(connected(s), connected(t));
}

/// Whether a request asks a head for what an entry says.
pub open spec fn asks_for(o: config::OutputView, head: u64, r: HeadRequest) -> bool {
    match r {
        HeadRequest::Disable(h) => h == head && !o.enabled,
        HeadRequest::Enable { head: h, mode, position, scale, transform } => {
            &&& h == head
            &&& o.enabled
            &&& position == o.position
            &&& scale == o.scale
            &&& o.transform is None ==> transform is None
            &&& o.transform matches Some(t) ==> transform is Some && wl::transform_named(t)
                == transform
            &&& o.mode is None <==> mode is Keep
        },
    }
}

/// What is sent is the best profile on the outputs that it describes: every connected
/// output is asked, in its turn, for what an entry of that profile says whose keys are
/// all its own.
pub proof fn law_the_best_profile_is_sent(
    ps: Seq<config::ProfileView>,
    s: state::StateView,
    profile: String,
    requests: Vec<HeadRequest>,
    k: int,
)
    requires
        is_right(ps, s, Decision::Configure { profile, requests }),
        s.snapshot().len() <= usize::MAX,
        forall|a: int, b: int|
            0 <= a < b < s.snapshot().len() ==> (#[trigger] s.snapshot()[a]).id != (
            #[trigger] s.snapshot()[b]).id,
        0 <= k < s.snapshot().len(),
    ensures
        requests@.len() == s.snapshot().len(),
        exists|i: int, j: int| #[trigger]
            matching::is_best(ps, connected(s), i) && profile@ == ps[i].name && 0 <= j
                < ps[i].outputs.len() && matching::keys_agree(
                #[trigger] ps[i].outputs[j],
                s.snapshot()[k].id,
            ) && asks_for(ps[i].outputs[j], s.live()[k], requests@[k]),
{
    let ids = connected(s);
    let heads = s.snapshot();
    let (i, a, settings) = choose|i: int, a: Seq<usize>, settings: Seq<wl::SettingView>| #[trigger]
        is_chosen(ps, ids, i, a) && profile@ == ps[i].name && #[trigger] matching::are_settings(
            ps[i].outputs,
            ids,
            a,
            settings,
        ) && s.manager && are_requests(s, settings, requests@);
    let outputs = ps[i].outputs;
    let plan = state::planned(state::current_plan(heads), settings)->Ok_0;
    matching::law_every_head_is_used(outputs, ids, a);
    matching::law_the_first_assignment_is_taken(outputs, ids, a, a, 0);
    assert(a.contains(k as usize));
    let j = choose|j: int| 0 <= j < a.len() && a[j] == k as usize;
    assert(ids[k] == heads[k].id);
    assert forall|m: int| 0 <= m < settings.len() implies (#[trigger] settings[m]).id
        == ids[a[m] as int] && a[m] < ids.len() by {
        assert(matching::setting_at(outputs, ids, a, m) == Ok::<
            wl::SettingView,
            wl::SettingErrorView,
        >(settings[m]));
        config::law_a_setting_carries_every_field(outputs[m], ids[a[m] as int]);
    }
    assert(settings[j].id == heads[k].id);
    assert forall|m: int| 0 <= m < settings.len() && m != j implies (#[trigger] settings[m]).id
        != settings[j].id by {
        assert(a[m] != a[j]);
        let (x, y) = (a[m] as int, a[j] as int);
        assert(ids[x] == heads[x].id && ids[y] == heads[y].id);
        if x < y {
            assert(heads[x].id != heads[y].id);
        } else {
            assert(heads[y].id != heads[x].id);
        }
    }
    assert(state::is_last_word(settings, j));
    state::law_named_outputs_get_their_setting(heads, settings, j);
    wl::lemma_head_at(wl::ids(heads), heads[k].id);
    let at = wl::head_at(wl::ids(heads), heads[k].id)->0;
    assert(at == k) by {
        assert(wl::ids(heads)[at] == heads[at].id);
        assert(wl::ids(heads)[k] == heads[k].id);
    }
    assert(plan[k] == settings[j]);
    assert(state::is_request(s, plan[k], requests@[k]));
    state::law_a_request_asks_for_the_setting(s, plan[k], requests@[k]);
    assert(matching::setting_at(outputs, ids, a, j) == Ok::<wl::SettingView, wl::SettingErrorView>(
        settings[j],
    ));
    config::law_a_setting_carries_every_field(outputs[j], ids[k]);
    assert(matching::keys_agree(outputs[j], ids[a[j] as int]));
    assert(asks_for(ps[i].outputs[j], s.live()[k], requests@[k]));
}

/// That no profile matches is said only where none does, and is said of every connected
/// output.
pub proof fn law_no_match_is_said_of_every_output(
    ps: Seq<config::ProfileView>,
    s: state::StateView,
    outputs: Vec<String>,
    i: int,
    k: int,
)
    requires
        is_right(ps, s, Decision::NoMatch { outputs }),
        0 <= k < s.snapshot().len(),
    ensures
        0 <= i < ps.len() ==> !matching::matches_heads(ps[i], connected(s)),
        outputs@.len() == s.snapshot().len(),
        outputs@[k]@ == s.snapshot()[k].id.text(),
{
    let said = text::texts(outputs@);
    assert(said.len() == outputs@.len());
    assert(said[k] == outputs@[k]@);
    assert(connected(s)[k] == s.snapshot()[k].id);
}

/// Once a profile is sent, or none is found to match, the same outputs are left alone. A
/// profile that could not be sent or read leaves them to be decided on with the next
/// report. The profiles and the text of the file stay as they are.
pub proof fn law_what_was_decided_is_remembered(
    d: DaemonView,
    s: state::StateView,
    t: state::StateView,
    decision: Decision,
)
    requires
        is_due(d, s),
        connected(t).to_multiset() == connected(s).to_multiset(),
    ensures
        (decision is Configure || decision is NoMatch) && t.outcome != Some(
            ApplyOutcome::Cancelled,
        ) ==> !is_due(after_turn(d, s, decision), t),
        !(decision is Configure || decision is NoMatch) && t.generation != s.generation
            && t.snapshot().len() > 0 ==> is_due(after_turn(d, s, decision), t),
        after_turn(d, s, decision).config == d.config,
        after_turn(d, s, decision).text == d.text,
        after_turn(d, s, decision).generation == s.generation,
        after_turn(d, s, decision).previous == before_decision(d, s).applied,
{
    let u = state::outcome_taken(s);
    state::law_an_answer_is_taken_once(s);
    state::law_an_answer_is_taken_once(t);
    matching::law_fingerprint_ignores_order(connected(s), connected(t));
    assert(connected(u) == connected(s));
}

/// What is decided for outputs that are to be acted on. Where no profile matches, that is
/// said. Where one does, the best is sent, if all of it can be read and the output
/// manager is there; only what cannot be read, and only the end of the manager, keep it
/// from being sent.
pub proof fn law_what_is_decided(
    ps: Seq<config::ProfileView>,
    s: state::StateView,
    d: Decision,
    i: int,
)
    requires
        is_right(ps, s, d),
    ensures
        !(d is Idle),
        (forall|j: int|
            0 <= j < ps.len() ==> !matching::matches_heads(#[trigger] ps[j], connected(s))) <==> d
            is NoMatch,
        matching::is_best(ps, connected(s), i) ==> {
            &&& d is Invalid <==> !matching::is_readable(ps[i].outputs)
            &&& d is CannotConfigure <==> matching::is_readable(ps[i].outputs) && !s.manager
            &&& d is Configure <==> matching::is_readable(ps[i].outputs) && s.manager
        },
{
    let ids = connected(s);
    matching::law_there_is_one_best_match(ps, ids);
    match d {
        Decision::Idle => {},
        Decision::NoMatch { outputs } => {},
        Decision::Invalid { profile, reason } => {
            let (b, a) = choose|b: int, a: Seq<usize>|
                #[trigger] is_chosen(ps, ids, b, a) && profile@ == ps[b].name
                    && matching::is_first_error(ps[b].outputs, ids, a, reason@);
            assert(matching::is_best(ps, ids, b));
            matching::lemma_unreadable(ps[b].outputs, ids, a, reason@);
        },
        Decision::CannotConfigure { profile, error } => {
            let (b, a, settings) = choose|b: int, a: Seq<usize>, settings: Seq<wl::SettingView>|
                #[trigger]
                is_chosen(ps, ids, b, a) && profile@ == ps[b].name && #[trigger]
                    matching::are_settings(ps[b].outputs, ids, a, settings) && match error {
                    ConfigureError::ManagerGone => !s.manager,
                    ConfigureError::NotConnected(id) => s.manager && state::planned(
                        state::current_plan(s.snapshot()),
                        settings,
                    ) == Err::<Seq<wl::SettingView>, wl::IdView>(id@),
                };
            assert(matching::is_best(ps, ids, b));
            matching::lemma_readable(ps[b].outputs, ids, a, settings);
            lemma_settings_are_for_connected(ps[b].outputs, ids, a, settings);
            state::law_only_connected_outputs_are_configured(s.snapshot(), settings);
        },
        Decision::Configure { profile, requests } => {
            let (b, a, settings) = choose|b: int, a: Seq<usize>, settings: Seq<wl::SettingView>|
                #[trigger]
                is_chosen(ps, ids, b, a) && profile@ == ps[b].name && #[trigger]
                    matching::are_settings(ps[b].outputs, ids, a, settings) && s.manager
                    && are_requests(s, settings, requests@);
            assert(matching::is_best(ps, ids, b));
            matching::lemma_readable(ps[b].outputs, ids, a, settings);
        },
    }
}

/// The settings of a profile that matches are for connected outputs.
proof fn lemma_settings_are_for_connected(
    outputs: Seq<config::OutputView>,
    ids: Seq<wl::IdView>,
    a: Seq<usize>,
    settings: Seq<wl::SettingView>,
)
    requires
        matching::is_first_assignment(outputs, ids, a),
        matching::are_settings(outputs, ids, a, settings),
    ensures
        forall|k: int| 0 <= k < settings.len() ==> ids.contains((#[trigger] settings[k]).id),
{
    assert forall|k: int| 0 <= k < settings.len() implies ids.contains(
        (#[trigger] settings[k]).id,
    ) by {
        assert(matching::setting_at(outputs, ids, a, k) == Ok::<
            wl::SettingView,
            wl::SettingErrorView,
        >(settings[k]));
        config::law_a_setting_carries_every_field(outputs[k], ids[a[k] as int]);
        assert(a[k] < ids.len());
    }
}

}
