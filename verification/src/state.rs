//! The output manager's state, built up from the compositor's events, and the
//! configuration to send back. Heads and modes go by the numbers under which the
//! connection keeps their objects.

use std::collections::HashMap;

use vstd::prelude::*;

use crate::scale;
use crate::scale::Scale;
use crate::wl;
use crate::wl::{ApplyOutcome, Head, HeadId, Mode, ModeSpec, OutputSetting, Snapshot, Transform, UNKNOWN};

verus! {

broadcast use vstd::std_specs::hash::group_hash_axioms;

/// The newest version of the output manager that is asked for.
pub const MANAGER_VERSION: u32 = 4;

/// A mode as far as its events have told.
#[derive(Clone, Copy, Debug, PartialEq, Eq)]
pub struct RawMode {
    pub width: i32,
    pub height: i32,
    pub refresh: i32,
    pub preferred: bool,
}

/// A head as far as its events have told.
#[derive(Debug)]
pub struct RawHead {
    pub name: String,
    pub description: String,
    pub make: String,
    pub model: String,
    pub serial: String,
    pub enabled: bool,
    pub current_mode: Option<u64>,
    pub position: (i32, i32),
    pub scale: Scale,
    pub transform: Transform,
    pub modes: Vec<u64>,
}

/// What a `RawHead` says.
#[verifier::ext_equal]
pub struct RawHeadView {
    pub id: wl::IdView,
    pub description: Seq<char>,
    pub enabled: bool,
    pub current_mode: Option<u64>,
    pub position: (i32, i32),
    pub scale: Scale,
    pub transform: Transform,
    pub modes: Seq<u64>,
}

impl View for RawHead {
    type V = RawHeadView;

    open spec fn view(&self) -> RawHeadView {
        RawHeadView {
            id: wl::IdView {
                connector: self.name@,
                make: self.make@,
                model: self.model@,
                serial: self.serial@,
            },
            description: self.description@,
            enabled: self.enabled,
            current_mode: self.current_mode,
            position: self.position,
            scale: self.scale,
            transform: self.transform,
            modes: self.modes@,
        }
    }
}

/// A mode of which nothing is known yet.
pub open spec fn blank_mode() -> RawMode {
    RawMode { width: 0, height: 0, refresh: 0, preferred: false }
}

/// A head of which nothing is known yet.
pub open spec fn blank_head() -> RawHeadView {
    RawHeadView {
        id: wl::IdView {
            connector: Seq::empty(),
            make: "Unknown"@,
            model: "Unknown"@,
            serial: "Unknown"@,
        },
        description: Seq::empty(),
        enabled: false,
        current_mode: None,
        position: (0, 0),
        scale: Scale { bits: scale::ONE },
        transform: Transform::Normal,
        modes: Seq::empty(),
    }
}

impl RawHead {
    /// A head of which nothing is known yet.
    pub fn new() -> (r: RawHead)
        ensures
            r@ == blank_head(),
    {
        RawHead {
            name: String::new(),
            description: String::new(),
            make: UNKNOWN.to_owned(),
            model: UNKNOWN.to_owned(),
            serial: UNKNOWN.to_owned(),
            enabled: false,
            current_mode: None,
            position: (0, 0),
            scale: Scale { bits: scale::ONE },
            transform: Transform::Normal,
            modes: Vec::new(),
        }
    }
}

/// What the compositor says of the output manager.
#[derive(Debug)]
pub enum ManagerEvent {
    /// A head appeared.
    Head(u64),
    /// A complete update of the output state ends here.
    Done(u32),
    /// The manager is gone.
    Finished,
}

/// What the compositor says of a head.
#[derive(Debug)]
pub enum HeadEvent {
    Name(String),
    Description(String),
    Make(String),
    Model(String),
    SerialNumber(String),
    Enabled(i32),
    CurrentMode(u64),
    Position(i32, i32),
    Scale(Scale),
    Transform(Transform),
    /// The head has another mode.
    Mode(u64),
    /// The head is gone.
    Finished,
}

/// What the compositor says of a mode.
#[derive(Debug)]
pub enum ModeEvent {
    Size(i32, i32),
    Refresh(i32),
    Preferred,
}

/// Accumulated output-manager state.
#[derive(Debug)]
pub struct OutputState {
    manager: bool,
    head_order: Vec<u64>,
    heads: HashMap<u64, RawHead>,
    modes: HashMap<u64, RawMode>,
    serial: u32,
    /// Bumped on every `done` event, i.e. once per complete output-state update.
    pub generation: u64,
    pending: bool,
    outcome: Option<ApplyOutcome>,
}

/// What an `OutputState` says.
#[verifier::ext_equal]
pub struct StateView {
    /// Whether the output manager is there.
    pub manager: bool,
    /// The heads, in the order of their appearance.
    pub head_order: Seq<u64>,
    pub heads: Map<u64, RawHeadView>,
    pub modes: Map<u64, RawMode>,
    pub serial: u32,
    pub generation: u64,
    /// Whether a configuration was sent and its result not taken.
    pub pending: bool,
    pub outcome: Option<ApplyOutcome>,
}

impl View for OutputState {
    type V = StateView;

    closed spec fn view(&self) -> StateView {
        StateView {
            manager: self.manager,
            head_order: self.head_order@,
            heads: self.heads@.map_values(|h: RawHead| h@),
            modes: self.modes@,
            serial: self.serial,
            generation: self.generation,
            pending: self.pending,
            outcome: self.outcome,
        }
    }
}

/// A mode that the compositor advertises under a number.
pub open spec fn mode_at(modes: Map<u64, RawMode>, id: u64) -> Option<Mode> {
    if modes.contains_key(id) {
        let m = modes[id];
        Some(
            Mode {
                width: m.width,
                height: m.height,
                refresh: m.refresh,
                preferred: m.preferred,
            },
        )
    } else {
        None
    }
}

/// The modes advertised under the given numbers.
pub open spec fn modes_at(modes: Map<u64, RawMode>, ids: Seq<u64>) -> Seq<Mode>
    decreases ids.len(),
{
    if ids.len() == 0 {
        Seq::empty()
    } else {
        let before = modes_at(modes, ids.drop_last());
        match mode_at(modes, ids.last()) {
            Some(m) => before.push(m),
            None => before,
        }
    }
}

/// A head with its modes looked up.
pub open spec fn head_of(modes: Map<u64, RawMode>, h: RawHeadView) -> wl::HeadView {
    wl::HeadView {
        id: h.id,
        description: h.description,
        modes: modes_at(modes, h.modes),
        enabled: h.enabled,
        current_mode: match h.current_mode {
            Some(m) => mode_at(modes, m),
            None => None,
        },
        position: h.position,
        scale: h.scale,
        transform: h.transform,
    }
}

/// The numbers of the heads that are there, in order.
pub open spec fn live(order: Seq<u64>, heads: Map<u64, RawHeadView>) -> Seq<u64> {
    order.filter(|id: u64| heads.contains_key(id))
}

impl StateView {
    /// The state before anything was heard.
    pub open spec fn blank() -> StateView {
        StateView {
            manager: false,
            head_order: Seq::empty(),
            heads: Map::empty(),
            modes: Map::empty(),
            serial: 0,
            generation: 0,
            pending: false,
            outcome: None,
        }
    }

    /// The numbers of the heads that are there, in order.
    pub open spec fn live(self) -> Seq<u64> {
        live(self.head_order, self.heads)
    }

    /// The heads that are there, in order.
    pub open spec fn snapshot(self) -> Seq<wl::HeadView> {
        self.live().map_values(|id: u64| head_of(self.modes, self.heads[id]))
    }
}

impl Default for OutputState {
    fn default() -> (r: OutputState)
        ensures
            r@ == StateView::blank(),
    {
        let r = OutputState {
            manager: false,
            head_order: Vec::new(),
            heads: HashMap::new(),
            modes: HashMap::new(),
            serial: 0,
            generation: 0,
            pending: false,
            outcome: None,
        };
        assert(r@.heads =~= Map::empty());
        r
    }
}

impl OutputState {
    /// Whether the output manager is there.
    pub fn has_manager(&self) -> (r: bool)
        ensures
            r == self@.manager,
    {
        self.manager
    }

    /// The serial that a configuration goes with.
    pub fn serial(&self) -> (r: u32)
        ensures
            r == self@.serial,
    {
        self.serial
    }

    /// How many complete updates of the output state there were.
    pub fn generation(&self) -> (r: u64)
        ensures
            r == self@.generation,
    {
        self.generation
    }

    fn mode(&self, id: u64) -> (r: Option<Mode>)
        ensures
            r == mode_at(self@.modes, id),
    {
        match self.modes.get(&id) {
            Some(m) => Some(
                Mode {
                    width: m.width,
                    height: m.height,
                    refresh: m.refresh,
                    preferred: m.preferred,
                },
            ),
            None => None,
        }
    }

    fn modes_of(&self, ids: &Vec<u64>) -> (r: Vec<Mode>)
        ensures
            r@ == modes_at(self@.modes, ids@),
    {
        let mut r: Vec<Mode> = Vec::new();
        for i in 0..ids.len()
            invariant
                r@ == modes_at(self@.modes, ids@.take(i as int)),
        {
            assert(ids@.take(i + 1).drop_last() == ids@.take(i as int));
            if let Some(m) = self.mode(ids[i]) {
                r.push(m);
            }
        }
        assert(ids@.take(ids@.len() as int) == ids@);
        r
    }

    fn head(&self, h: &RawHead) -> (r: Head)
        ensures
            r@ == head_of(self@.modes, h@),
    {
        Head {
            id: HeadId {
                connector: h.name.clone(),
                make: h.make.clone(),
                model: h.model.clone(),
                serial: h.serial.clone(),
            },
            description: h.description.clone(),
            modes: self.modes_of(&h.modes),
            enabled: h.enabled,
            current_mode: match h.current_mode {
                Some(m) => self.mode(m),
                None => None,
            },
            position: h.position,
            scale: h.scale,
            transform: h.transform,
        }
    }

    /// The numbers of the heads that are there, in order.
    fn live_heads(&self) -> (r: Vec<u64>)
        ensures
            r@ == self@.live(),
    {
        let mut r: Vec<u64> = Vec::new();
        let ghost keep = |id: u64| self@.heads.contains_key(id);
        assert(self.head_order@.take(0).filter(keep) == Seq::<u64>::empty()) by {
            reveal(Seq::filter);
        }
        for i in 0..self.head_order.len()
            invariant
                keep == (|id: u64| self@.heads.contains_key(id)),
                r@ == self.head_order@.take(i as int).filter(keep),
        {
            let id = self.head_order[i];
            proof {
                reveal(Seq::filter);
                assert(self.head_order@.take(i + 1).drop_last() == self.head_order@.take(i as int));
                assert(self.head_order@.take(i + 1).last() == id);
            }
            if self.heads.contains_key(&id) {
                r.push(id);
            }
        }
        assert(self.head_order@.take(self.head_order@.len() as int) == self.head_order@);
        r
    }

    /// The outputs as they are.
    pub fn snapshot(&self) -> (r: Snapshot)
        ensures
            r.serial == self@.serial,
            wl::head_views(r.heads@) == self@.snapshot(),
    {
        let ids = self.live_heads();
        let mut heads: Vec<Head> = Vec::new();
        for i in 0..ids.len()
            invariant
                ids@ == self@.live(),
                wl::head_views(heads@) == self@.snapshot().take(i as int),
        {
            let id = ids[i];
            let ghost before = wl::head_views(heads@);
            proof {
                broadcast use vstd::seq_lib::group_filter_ensures;

                assert(self@.heads.contains_key(self@.live()[i as int]));
            }
            match self.heads.get(&id) {
                Some(h) => {
                    let head = self.head(h);
                    heads.push(head);
                    assert(wl::head_views(heads@) == before.push(head@));
                },
                None => {},
            }
            assert(self@.snapshot().take(i + 1) == before.push(self@.snapshot()[i as int]));
        }
        assert(self@.snapshot().take(ids@.len() as int) == self@.snapshot());
        Snapshot { serial: self.serial, heads }
    }
}


/// What a manager event makes of the state.
pub open spec fn after_manager(s: StateView, e: ManagerEvent) -> StateView {
    match e {
        ManagerEvent::Head(id) => StateView {
            head_order: s.head_order.push(id),
            heads: s.heads.insert(id, blank_head()),
            ..s
        },
        ManagerEvent::Done(serial) => StateView {
            serial,
            generation: (s.generation + 1) as u64,
            ..s
        },
        ManagerEvent::Finished => StateView { manager: false, ..s },
    }
}

/// What a head event makes of a head. Its end, and its modes, concern more than
/// the head.
pub open spec fn told(h: RawHeadView, e: HeadEvent) -> RawHeadView {
    match e {
        HeadEvent::Name(x) => RawHeadView { id: wl::IdView { connector: x@, ..h.id }, ..h },
        HeadEvent::Description(x) => RawHeadView { description: x@, ..h },
        HeadEvent::Make(x) => RawHeadView { id: wl::IdView { make: x@, ..h.id }, ..h },
        HeadEvent::Model(x) => RawHeadView { id: wl::IdView { model: x@, ..h.id }, ..h },
        HeadEvent::SerialNumber(x) => RawHeadView { id: wl::IdView { serial: x@, ..h.id }, ..h },
        HeadEvent::Enabled(x) => RawHeadView { enabled: x != 0, ..h },
        HeadEvent::CurrentMode(x) => RawHeadView { current_mode: Some(x), ..h },
        HeadEvent::Position(x, y) => RawHeadView { position: (x, y), ..h },
        HeadEvent::Scale(x) => RawHeadView { scale: x, ..h },
        HeadEvent::Transform(x) => RawHeadView { transform: x, ..h },
        HeadEvent::Mode(x) => RawHeadView { modes: h.modes.push(x), ..h },
        HeadEvent::Finished => h,
    }
}

/// Every number but one.
pub open spec fn other_than(id: u64) -> spec_fn(u64) -> bool {
    |h: u64| h != id
}

/// The state without a head and its modes.
pub open spec fn without_head(s: StateView, id: u64) -> StateView {
    StateView {
        head_order: s.head_order.filter(other_than(id)),
        heads: s.heads.remove(id),
        modes: if s.heads.contains_key(id) {
            s.modes.remove_keys(s.heads[id].modes.to_set())
        } else {
            s.modes
        },
        ..s
    }
}

/// What a head event makes of the state. Events of a head that is not there
/// change nothing, but a mode is known from then on.
pub open spec fn after_head(s: StateView, id: u64, e: HeadEvent) -> StateView {
    if e is Finished {
        without_head(s, id)
    } else {
        StateView {
            modes: match e {
                HeadEvent::Mode(m) => s.modes.insert(m, blank_mode()),
                _ => s.modes,
            },
            heads: if s.heads.contains_key(id) {
                s.heads.insert(id, told(s.heads[id], e))
            } else {
                s.heads
            },
            ..s
        }
    }
}

/// What a mode event makes of a mode.
pub open spec fn told_mode(m: RawMode, e: ModeEvent) -> RawMode {
    match e {
        ModeEvent::Size(width, height) => RawMode { width, height, ..m },
        ModeEvent::Refresh(refresh) => RawMode { refresh, ..m },
        ModeEvent::Preferred => RawMode { preferred: true, ..m },
    }
}

/// What a mode event makes of the state.
pub open spec fn after_mode(s: StateView, id: u64, e: ModeEvent) -> StateView {
    if s.modes.contains_key(id) {
        StateView { modes: s.modes.insert(id, told_mode(s.modes[id], e)), ..s }
    } else {
        s
    }
}

/// The state once the result of the last configuration is taken.
pub open spec fn outcome_taken(s: StateView) -> StateView {
    if s.outcome is Some {
        StateView { outcome: None, pending: false, ..s }
    } else {
        s
    }
}

/// The version in which to bind an object that the registry offers, if it is to be
/// bound.
pub open spec fn version_to_bind(s: StateView, is_manager: bool, version: u32) -> Option<u32> {
    if is_manager && !s.manager {
        Some(
            if version < MANAGER_VERSION {
                version
            } else {
                MANAGER_VERSION
            },
        )
    } else {
        None
    }
}

/// What an offer of the registry makes of the state.
pub open spec fn after_offer(s: StateView, is_manager: bool) -> StateView {
    StateView { manager: s.manager || is_manager, ..s }
}

impl OutputState {
    /// The registry offers an object: the version to bind it in, if it is an output
    /// manager and there is none yet. From then on there is one.
    pub fn registry_event(&mut self, is_manager: bool, version: u32) -> (r: Option<u32>)
        ensures
            r == version_to_bind(old(self)@, is_manager, version),
            final(self)@ == after_offer(old(self)@, is_manager),
    {
        if is_manager && !self.manager {
            self.manager = true;
            Some(
                if version < MANAGER_VERSION {
                    version
                } else {
                    MANAGER_VERSION
                },
            )
        } else {
            None
        }
    }

    /// The compositor says something of the output manager.
    pub fn manager_event(&mut self, event: ManagerEvent)
        requires
            event is Done ==> old(self)@.generation < u64::MAX,
        ensures
            final(self)@ == after_manager(old(self)@, event),
    {
        match event {
            ManagerEvent::Head(id) => {
                self.head_order.push(id);
                let h = RawHead::new();
                self.heads.insert(id, h);
                assert(self@.heads =~= old(self)@.heads.insert(id, blank_head()));
            },
            ManagerEvent::Done(serial) => {
                self.serial = serial;
                self.generation = self.generation + 1;
            },
            ManagerEvent::Finished => {
                self.manager = false;
            },
        }
    }

    /// Forget a head and its modes: the modes whose objects are to be released, if
    /// the head was there.
    fn forget_head(&mut self, id: u64) -> (r: Option<Vec<u64>>)
        ensures
            final(self)@ == without_head(old(self)@, id),
            match r {
                Some(v) => old(self)@.heads.contains_key(id) && v@ == old(self)@.heads[id].modes,
                None => !old(self)@.heads.contains_key(id),
            },
    {
        let ghost before = self@;
        let released = match self.heads.remove(&id) {
            Some(head) => {
                assert(self@.heads =~= before.heads.remove(id));
                for i in 0..head.modes.len()
                    invariant
                        before.heads.contains_key(id),
                        head@ == before.heads[id],
                        self@ == (StateView {
                            heads: before.heads.remove(id),
                            modes: before.modes.remove_keys(head.modes@.take(i as int).to_set()),
                            ..before
                        }),
                {
                    let m = head.modes[i];
                    let ghost gone = head.modes@.take(i as int);
                    self.modes.remove(&m);
                    proof {
                        assert(head.modes@.take(i + 1) == gone.push(m));
                        assert forall|x: u64| gone.push(m).contains(x) <==> gone.contains(x) || x
                            == m by {
                            if gone.contains(x) {
                                let k = choose|k: int| 0 <= k < gone.len() && gone[k] == x;
                                assert(gone.push(m)[k] == x);
                            }
                            assert(gone.push(m)[gone.len() as int] == m);
                            if gone.push(m).contains(x) && x != m {
                                let k = choose|k: int|
                                    0 <= k < gone.push(m).len() && gone.push(m)[k] == x;
                                assert(gone[k] == x);
                            }
                        }
                        assert(self@.modes =~= before.modes.remove_keys(gone.push(m).to_set()));
                    }
                }
                assert(head.modes@.take(head.modes@.len() as int) == head.modes@);
                Some(head.modes)
            },
            None => {
                assert(self@.heads =~= before.heads.remove(id));
                None
            },
        };
        let ghost keep = other_than(id);
        let ghost mid = self@;
        let mut order: Vec<u64> = Vec::new();
        assert(before.head_order.take(0).filter(keep) == Seq::<u64>::empty()) by {
            reveal(Seq::filter);
        }
        let n = self.head_order.len();
        for i in 0..n
            invariant
                keep == other_than(id),
                n == before.head_order.len(),
                self@ == mid,
                self.head_order@ == before.head_order,
                order@ == before.head_order.take(i as int).filter(keep),
        {
            let h = self.head_order[i];
            proof {
                reveal(Seq::filter);
                assert(before.head_order.take(i + 1).drop_last() == before.head_order.take(
                    i as int,
                ));
                assert(before.head_order.take(i + 1).last() == h);
            }
            if h != id {
                order.push(h);
            }
        }
        assert(before.head_order.take(before.head_order.len() as int) == before.head_order);
        self.head_order = order;
        released
    }

    /// The compositor says something of a head. When the head is gone, the modes
    /// whose objects are to be released with it, if the head was there.
    pub fn head_event(&mut self, id: u64, event: HeadEvent) -> (r: Option<Vec<u64>>)
        ensures
            final(self)@ == after_head(old(self)@, id, event),
            match r {
                Some(v) => event is Finished && old(self)@.heads.contains_key(id) && v@ == old(
                    self,
                )@.heads[id].modes,
                None => !(event is Finished && old(self)@.heads.contains_key(id)),
            },
    {
        let ghost before = self@;
        let event = match event {
            HeadEvent::Finished => {
                return self.forget_head(id);
            },
            HeadEvent::Mode(m) => {
                self.modes.insert(
                    m,
                    RawMode { width: 0, height: 0, refresh: 0, preferred: false },
                );
                HeadEvent::Mode(m)
            },
            e => e,
        };
        match self.heads.remove(&id) {
            Some(mut head) => {
                match event {
                    HeadEvent::Name(x) => {
                        head.name = x;
                    },
                    HeadEvent::Description(x) => {
                        head.description = x;
                    },
                    HeadEvent::Make(x) => {
                        head.make = x;
                    },
                    HeadEvent::Model(x) => {
                        head.model = x;
                    },
                    HeadEvent::SerialNumber(x) => {
                        head.serial = x;
                    },
                    HeadEvent::Enabled(x) => {
                        head.enabled = x != 0;
                    },
                    HeadEvent::CurrentMode(x) => {
                        head.current_mode = Some(x);
                    },
                    HeadEvent::Position(x, y) => {
                        head.position = (x, y);
                    },
                    HeadEvent::Scale(x) => {
                        head.scale = x;
                    },
                    HeadEvent::Transform(x) => {
                        head.transform = x;
                    },
                    HeadEvent::Mode(x) => {
                        head.modes.push(x);
                    },
                    HeadEvent::Finished => {},
                }
                assert(head@ == told(before.heads[id], event));
                self.heads.insert(id, head);
                assert(self@.heads =~= before.heads.insert(id, head@));
            },
            None => {
                assert(self@.heads =~= before.heads);
            },
        }
        None
    }

    /// The compositor says something of a mode.
    pub fn mode_event(&mut self, id: u64, event: ModeEvent)
        ensures
            final(self)@ == after_mode(old(self)@, id, event),
    {
        let ghost before = self@;
        match self.modes.remove(&id) {
            Some(mut mode) => {
                match event {
                    ModeEvent::Size(width, height) => {
                        mode.width = width;
                        mode.height = height;
                    },
                    ModeEvent::Refresh(refresh) => {
                        mode.refresh = refresh;
                    },
                    ModeEvent::Preferred => {
                        mode.preferred = true;
                    },
                }
                self.modes.insert(id, mode);
                assert(self@.modes =~= before.modes.insert(id, mode));
            },
            None => {
                assert(self@.modes =~= before.modes);
            },
        }
    }

    /// The compositor says what it made of the configuration.
    pub fn configuration_event(&mut self, outcome: ApplyOutcome)
        ensures
            final(self)@ == (StateView { outcome: Some(outcome), ..old(self)@ }),
    {
        self.outcome = Some(outcome);
    }

    /// The result of the configuration sent last, once the compositor has
    /// answered. The configuration is then done with.
    pub fn take_outcome(&mut self) -> (r: Option<ApplyOutcome>)
        ensures
            r == old(self)@.outcome,
            final(self)@ == outcome_taken(old(self)@),
    {
        match self.outcome {
            Some(outcome) => {
                self.outcome = None;
                self.pending = false;
                Some(outcome)
            },
            None => None,
        }
    }
}


/// Whether a mode has the size that is asked for.
pub open spec fn fits_size(modes: Map<u64, RawMode>, id: u64, spec: ModeSpec) -> bool {
    modes.contains_key(id) && modes[id].width == spec.width && modes[id].height == spec.height
}

/// Whether a mode has the size and exactly the refresh rate that are asked for.
pub open spec fn has_rate(modes: Map<u64, RawMode>, id: u64, spec: ModeSpec) -> bool {
    &&& fits_size(modes, id, spec)
    &&& spec.refresh == Some(modes[id].refresh)
}

/// Whether a mode has the size and about the refresh rate that are asked for.
/// Rates round-trip through a text with three decimals, so one mHz more or less
/// may stand for the same rate.
pub open spec fn fits_rate(modes: Map<u64, RawMode>, id: u64, spec: ModeSpec) -> bool {
    &&& fits_size(modes, id, spec)
    &&& spec.refresh is Some
    &&& -1 <= modes[id].refresh - spec.refresh->0 <= 1
}

/// Whether the mode at `i` is the one to ask for: the first of exactly the rate; or,
/// where there is none, the first that fits the rate; or, where there is none
/// either, the first of those with the highest rate at that size.
pub open spec fn is_choice_at(
    modes: Map<u64, RawMode>,
    ids: Seq<u64>,
    spec: ModeSpec,
    i: int,
) -> bool {
    &&& 0 <= i < ids.len()
    &&& fits_size(modes, ids[i], spec)
    &&& if has_rate(modes, ids[i], spec) {
        forall|j: int| 0 <= j < i ==> !has_rate(modes, #[trigger] ids[j], spec)
    } else if fits_rate(modes, ids[i], spec) {
        &&& forall|j: int| 0 <= j < ids.len() ==> !has_rate(modes, #[trigger] ids[j], spec)
        &&& forall|j: int| 0 <= j < i ==> !fits_rate(modes, #[trigger] ids[j], spec)
    } else {
        &&& forall|j: int| 0 <= j < ids.len() ==> !fits_rate(modes, #[trigger] ids[j], spec)
        &&& forall|j: int|
            0 <= j < ids.len() && fits_size(modes, #[trigger] ids[j], spec) ==> modes[ids[j]].refresh
                <= modes[ids[i]].refresh
        &&& forall|j: int|
            0 <= j < i && fits_size(modes, #[trigger] ids[j], spec) ==> modes[ids[j]].refresh
                < modes[ids[i]].refresh
    }
}

/// Whether `r` is the mode to ask for; there is none if none fits in size.
pub open spec fn is_choice(
    modes: Map<u64, RawMode>,
    ids: Seq<u64>,
    spec: ModeSpec,
    r: Option<u64>,
) -> bool {
    match r {
        Some(id) => exists|i: int| #[trigger] is_choice_at(modes, ids, spec, i) && ids[i] == id,
        None => forall|i: int| 0 <= i < ids.len() ==> !fits_size(modes, #[trigger] ids[i], spec),
    }
}

/// Which mode to ask for.
#[derive(Clone, Copy, Debug, PartialEq, Eq)]
pub enum ModeRequest {
    /// Leave the mode as it is.
    Keep,
    /// A mode that the head advertises.
    Advertised(u64),
    /// A mode by width, height and refresh rate.
    Custom(i32, i32, i32),
}

/// What to ask of one head.
#[derive(Clone, Copy, Debug, PartialEq, Eq)]
pub enum HeadRequest {
    Disable(u64),
    Enable {
        head: u64,
        mode: ModeRequest,
        position: Option<(i32, i32)>,
        scale: Option<Scale>,
        transform: Option<Transform>,
    },
}

/// Why no configuration can be sent.
#[derive(Debug)]
pub enum ConfigureError {
    /// The output manager is gone.
    ManagerGone,
    /// An output that a setting is for is not connected.
    NotConnected(HeadId),
}

/// The identities that settings are for.
pub open spec fn setting_ids(plan: Seq<wl::SettingView>) -> Seq<wl::IdView> {
    plan.map_values(|s: wl::SettingView| s.id)
}

/// The settings in `base`, each replaced by the last of the `settings` for the
/// same output; or the first output in `settings` that is not in `base`.
pub open spec fn planned(
    base: Seq<wl::SettingView>,
    settings: Seq<wl::SettingView>,
) -> Result<Seq<wl::SettingView>, wl::IdView>
    decreases settings.len(),
{
    if settings.len() == 0 {
        Ok(base)
    } else {
        match planned(base, settings.drop_last()) {
            Err(id) => Err(id),
            Ok(plan) => match wl::head_at(setting_ids(plan), settings.last().id) {
                Some(i) => Ok(plan.update(i, settings.last())),
                None => Err(settings.last().id),
            },
        }
    }
}

/// The settings that leave every head as it is.
pub open spec fn current_plan(heads: Seq<wl::HeadView>) -> Seq<wl::SettingView> {
    heads.map_values(|h: wl::HeadView| wl::current_setting(h))
}

/// Whether a mode request asks for the mode of a setting.
pub open spec fn is_mode_request(
    modes: Map<u64, RawMode>,
    ids: Seq<u64>,
    mode: Option<ModeSpec>,
    r: ModeRequest,
) -> bool {
    match mode {
        None => r == ModeRequest::Keep,
        Some(spec) => match r {
            ModeRequest::Keep => false,
            ModeRequest::Advertised(id) => is_choice(modes, ids, spec, Some(id)),
            ModeRequest::Custom(width, height, refresh) => {
                &&& is_choice(modes, ids, spec, None)
                &&& width == spec.width
                &&& height == spec.height
                &&& refresh == (match spec.refresh {
                    Some(mhz) => mhz,
                    None => 0,
                })
            },
        },
    }
}

/// Whether `r` asks for a setting on the head with its identity.
pub open spec fn is_request(s: StateView, want: wl::SettingView, r: HeadRequest) -> bool {
    let at = wl::head_at(wl::ids(s.snapshot()), want.id);
    &&& at is Some
    &&& match r {
        HeadRequest::Disable(head) => !want.enabled && head == s.live()[at->0],
        HeadRequest::Enable { head, mode, position, scale, transform } => {
            &&& want.enabled
            &&& head == s.live()[at->0]
            &&& is_mode_request(s.modes, s.heads[head].modes, want.mode, mode)
            &&& position == want.position
            &&& scale == want.scale
            &&& transform == want.transform
        },
    }
}

/// Planning changes no identity.
proof fn lemma_planned_ids(base: Seq<wl::SettingView>, settings: Seq<wl::SettingView>)
    ensures
        planned(base, settings) matches Ok(plan) ==> setting_ids(plan) == setting_ids(base)
            && plan.len() == base.len(),
    decreases settings.len(),
{
    if settings.len() > 0 {
        lemma_planned_ids(base, settings.drop_last());
        match planned(base, settings.drop_last()) {
            Ok(plan) => {
                wl::lemma_head_at(setting_ids(plan), settings.last().id);
                match wl::head_at(setting_ids(plan), settings.last().id) {
                    Some(i) => {
                        assert(setting_ids(plan.update(i, settings.last())) =~= setting_ids(plan));
                    },
                    None => {},
                }
            },
            Err(_) => {},
        }
    }
}

/// Outputs that no setting is for keep their current configuration.
pub proof fn law_unnamed_outputs_are_kept(
    heads: Seq<wl::HeadView>,
    settings: Seq<wl::SettingView>,
    i: int,
)
    requires
        0 <= i < heads.len(),
        forall|k: int| 0 <= k < settings.len() ==> (#[trigger] settings[k]).id != heads[i].id,
    ensures
        planned(current_plan(heads), settings) matches Ok(plan) ==> plan.len() == heads.len()
            && plan[i] == wl::current_setting(heads[i]),
    decreases settings.len(),
{
    let base = current_plan(heads);
    lemma_planned_ids(base, settings);
    if settings.len() > 0 {
        let before = settings.drop_last();
        assert forall|k: int| 0 <= k < before.len() implies (#[trigger] before[k]).id
            != heads[i].id by {
            assert(before[k] == settings[k]);
        }
        law_unnamed_outputs_are_kept(heads, before, i);
        lemma_planned_ids(base, before);
        if planned(base, before) is Ok {
            let plan = planned(base, before)->Ok_0;
            wl::lemma_head_at(setting_ids(plan), settings.last().id);
            assert(setting_ids(plan)[i] == heads[i].id) by {
                assert(setting_ids(base)[i] == base[i].id);
            }
            assert(settings[settings.len() - 1].id != heads[i].id);
        }
    }
}

/// Whether a setting is the last for its output.
pub open spec fn is_last_word(settings: Seq<wl::SettingView>, k: int) -> bool {
    &&& 0 <= k < settings.len()
    &&& forall|j: int| k < j < settings.len() ==> (#[trigger] settings[j]).id != settings[k].id
}

/// A configuration covers every head, and an output that settings are for gets
/// the last of them.
pub proof fn law_named_outputs_get_their_setting(
    heads: Seq<wl::HeadView>,
    settings: Seq<wl::SettingView>,
    k: int,
)
    requires
        is_last_word(settings, k),
    ensures
        planned(current_plan(heads), settings) matches Ok(plan) ==> plan.len() == heads.len()
            && wl::head_at(wl::ids(heads), settings[k].id) is Some && plan[wl::head_at(
            wl::ids(heads),
            settings[k].id,
        )->0] == settings[k],
    decreases settings.len(),
{
    let base = current_plan(heads);
    let before = settings.drop_last();
    lemma_planned_ids(base, settings);
    lemma_planned_ids(base, before);
    assert(setting_ids(base) =~= wl::ids(heads));
    if planned(base, before) is Ok {
        let plan = planned(base, before)->Ok_0;
        let last = settings.last();
        wl::lemma_head_at(wl::ids(heads), last.id);
        wl::lemma_head_at(wl::ids(heads), settings[k].id);
        if k < settings.len() - 1 {
            assert(before[k] == settings[k]);
            assert forall|j: int| k < j < before.len() implies (#[trigger] before[j]).id
                != before[k].id by {
                assert(before[j] == settings[j]);
            }
            law_named_outputs_get_their_setting(heads, before, k);
            assert(settings[settings.len() - 1].id != settings[k].id);
        }
    }
}

/// A configuration can be sent exactly if every output that a setting is for is
/// connected.
pub proof fn law_only_connected_outputs_are_configured(
    heads: Seq<wl::HeadView>,
    settings: Seq<wl::SettingView>,
)
    ensures
        planned(current_plan(heads), settings) is Ok <==> forall|k: int|
            0 <= k < settings.len() ==> wl::ids(heads).contains((#[trigger] settings[k]).id),
    decreases settings.len(),
{
    let base = current_plan(heads);
    if settings.len() > 0 {
        let before = settings.drop_last();
        law_only_connected_outputs_are_configured(heads, before);
        lemma_planned_ids(base, before);
        assert(setting_ids(base) =~= wl::ids(heads));
        wl::lemma_head_at(wl::ids(heads), settings.last().id);
        assert(settings.last() == settings[settings.len() - 1]);
        if planned(base, before) is Ok {
            assert forall|k: int| 0 <= k < settings.len() - 1 implies wl::ids(heads).contains(
                (#[trigger] settings[k]).id,
            ) by {
                assert(before[k] == settings[k]);
            }
        } else {
            let k = choose|k: int|
                0 <= k < before.len() && !wl::ids(heads).contains((#[trigger] before[k]).id);
            assert(settings[k] == before[k]);
        }
    }
}

/// Where a head advertises exactly the rate that is asked for, at the size that is
/// asked for, a mode of that rate is chosen; where it advertises one that fits the
/// rate, one that does is chosen.
pub proof fn law_an_advertised_rate_is_chosen(
    modes: Map<u64, RawMode>,
    ids: Seq<u64>,
    spec: ModeSpec,
    r: Option<u64>,
    i: int,
)
    requires
        is_choice(modes, ids, spec, r),
        0 <= i < ids.len(),
        fits_rate(modes, ids[i], spec),
    ensures
        r is Some,
        fits_rate(modes, r->0, spec),
        has_rate(modes, ids[i], spec) ==> has_rate(modes, r->0, spec),
{
    if let Some(id) = r {
        let k = choose|k: int| #[trigger] is_choice_at(modes, ids, spec, k) && ids[k] == id;
        assert(is_choice_at(modes, ids, spec, k));
    }
}

/// There is one mode to ask for, and no other.
pub proof fn law_the_choice_is_unique(
    modes: Map<u64, RawMode>,
    ids: Seq<u64>,
    spec: ModeSpec,
    a: Option<u64>,
    b: Option<u64>,
)
    requires
        is_choice(modes, ids, spec, a),
        is_choice(modes, ids, spec, b),
    ensures
        a == b,
{
    match (a, b) {
        (Some(x), Some(y)) => {
            let i = choose|i: int| #[trigger] is_choice_at(modes, ids, spec, i) && ids[i] == x;
            let j = choose|j: int| #[trigger] is_choice_at(modes, ids, spec, j) && ids[j] == y;
            assert(is_choice_at(modes, ids, spec, i) && is_choice_at(modes, ids, spec, j));
            if i < j {
                assert(fits_size(modes, ids[i], spec));
            } else if j < i {
                assert(fits_size(modes, ids[j], spec));
            }
        },
        (Some(x), None) => {
            let i = choose|i: int| #[trigger] is_choice_at(modes, ids, spec, i) && ids[i] == x;
            assert(fits_size(modes, ids[i], spec));
        },
        (None, Some(y)) => {
            let j = choose|j: int| #[trigger] is_choice_at(modes, ids, spec, j) && ids[j] == y;
            assert(fits_size(modes, ids[j], spec));
        },
        (None, None) => {},
    }
}

/// Once a head is gone it is in no snapshot; the other heads are, in the same
/// order.
pub proof fn law_a_gone_head_is_forgotten(s: StateView, id: u64)
    ensures
        without_head(s, id).live() == s.live().filter(other_than(id)),
{
    lemma_live_without(s.head_order, s.heads, id);
}

proof fn lemma_live_without(order: Seq<u64>, heads: Map<u64, RawHeadView>, id: u64)
    ensures
        live(order.filter(other_than(id)), heads.remove(id)) == live(order, heads).filter(
            other_than(id),
        ),
    decreases order.len(),
{
    reveal(Seq::filter);
    let here = |x: u64| heads.contains_key(x);
    let there = |x: u64| heads.remove(id).contains_key(x);
    let other = other_than(id);
    if order.len() > 0 {
        let t = order.drop_last();
        let x = order.last();
        lemma_live_without(t, heads, id);
        assert(t.filter(other).push(x).drop_last() == t.filter(other));
        assert(t.filter(here).push(x).drop_last() == t.filter(here));
    }
}

impl OutputState {
    /// The number of the first head with an identity.
    fn head_by_id(&self, id: &HeadId) -> (r: Option<u64>)
        ensures
            match wl::head_at(wl::ids(self@.snapshot()), id@) {
                Some(i) => r == Some(self@.live()[i]) && self@.heads.contains_key(r->0),
                None => r is None,
            },
    {
        let order = self.live_heads();
        let ghost all = wl::ids(self@.snapshot());
        for i in 0..order.len()
            invariant
                order@ == self@.live(),
                all == wl::ids(self@.snapshot()),
                forall|j: int| 0 <= j < i ==> all[j] != id@,
        {
            let number = order[i];
            proof {
                broadcast use vstd::seq_lib::group_filter_ensures;

                assert(self@.heads.contains_key(self@.live()[i as int]));
                assert(all[i as int] == self@.heads[number].id);
            }
            if let Some(h) = self.heads.get(&number) {
                if h.name == id.connector && h.make == id.make && h.model == id.model && h.serial
                    == id.serial {
                    proof {
                        assert(all[i as int] =~= id@);
                        wl::lemma_head_at(all, id@);
                    }
                    return Some(number);
                }
                assert(all[i as int] != id@);
            }
        }
        proof {
            wl::lemma_head_at(all, id@);
        }
        None
    }

    /// The advertised mode matching a spec, preferring an exact refresh match and
    /// otherwise the highest refresh at that resolution.
    fn choose_mode(&self, head: u64, spec: &ModeSpec) -> (r: Option<u64>)
        requires
            self@.heads.contains_key(head),
        ensures
            is_choice(self@.modes, self@.heads[head].modes, *spec, r),
    {
        let ids = match self.heads.get(&head) {
            Some(h) => &h.modes,
            None => {
                return None;
            },
        };
        let ghost modes = self@.modes;
        let mut near: Option<u64> = None;
        let mut best: Option<(u64, i32)> = None;
        let ghost mut near_at: int = 0;
        let ghost mut at: int = 0;
        let n = ids.len();
        for i in 0..n
            invariant
                modes == self@.modes,
                modes == self.modes@,
                ids@ == self@.heads[head].modes,
                n == ids@.len(),
                forall|j: int| 0 <= j < i ==> !has_rate(modes, #[trigger] ids@[j], *spec),
                match near {
                    Some(id) => {
                        &&& 0 <= near_at < i
                        &&& id == ids@[near_at]
                        &&& fits_rate(modes, id, *spec)
                        &&& forall|j: int|
                            0 <= j < near_at ==> !fits_rate(modes, #[trigger] ids@[j], *spec)
                    },
                    None => forall|j: int|
                        0 <= j < i ==> !fits_rate(modes, #[trigger] ids@[j], *spec),
                },
                match best {
                    Some(b) => {
                        &&& 0 <= at < i
                        &&& b.0 == ids@[at]
                        &&& fits_size(modes, ids@[at], *spec)
                        &&& b.1 == modes[ids@[at]].refresh
                        &&& forall|j: int|
                            0 <= j < i && fits_size(
                                modes,
                                #[trigger] ids@[j],
                                *spec,
                            ) ==> modes[ids@[j]].refresh <= b.1
                        &&& forall|j: int|
                            0 <= j < at && fits_size(
                                modes,
                                #[trigger] ids@[j],
                                *spec,
                            ) ==> modes[ids@[j]].refresh < b.1
                    },
                    None => forall|j: int|
                        0 <= j < i ==> !fits_size(modes, #[trigger] ids@[j], *spec),
                },
        {
            let id = ids[i];
            if let Some(m) = self.modes.get(&id) {
                if m.width == spec.width && m.height == spec.height {
                    if let Some(refresh) = spec.refresh {
                        if m.refresh == refresh {
                            assert(is_choice_at(modes, ids@, *spec, i as int));
                            return Some(id);
                        }
                        let apart = m.refresh as i64 - refresh as i64;
                        if near.is_none() && -1 <= apart && apart <= 1 {
                            near = Some(id);
                            proof {
                                near_at = i as int;
                            }
                        }
                    }
                    let better = match best {
                        Some(b) => m.refresh > b.1,
                        None => true,
                    };
                    if better {
                        best = Some((id, m.refresh));
                        proof {
                            at = i as int;
                        }
                    }
                }
            }
        }
        match near {
            Some(id) => {
                assert(is_choice_at(modes, ids@, *spec, near_at));
                return Some(id);
            },
            None => {},
        }
        match best {
            Some(b) => {
                assert(is_choice_at(modes, ids@, *spec, at));
                Some(b.0)
            },
            None => None,
        }
    }

    /// What to ask of a head for a setting.
    fn request(&self, head: u64, want: &OutputSetting) -> (r: HeadRequest)
        requires
            wl::head_at(wl::ids(self@.snapshot()), want@.id) is Some,
            self@.heads.contains_key(head),
            head == self@.live()[wl::head_at(wl::ids(self@.snapshot()), want@.id)->0],
        ensures
            is_request(self@, want@, r),
    {
        if !want.enabled {
            return HeadRequest::Disable(head);
        }
        let mode = match want.mode {
            Some(spec) => match self.choose_mode(head, &spec) {
                Some(id) => ModeRequest::Advertised(id),
                None => ModeRequest::Custom(
                    spec.width,
                    spec.height,
                    match spec.refresh {
                        Some(mhz) => mhz,
                        None => 0,
                    },
                ),
            },
            None => ModeRequest::Keep,
        };
        HeadRequest::Enable {
            head,
            mode,
            position: want.position,
            scale: want.scale,
            transform: want.transform,
        }
    }

    /// The current configuration with the settings put in.
    fn plan(&self, settings: &Vec<OutputSetting>) -> (r: Result<Vec<OutputSetting>, HeadId>)
        ensures
            match r {
                Ok(v) => planned(current_plan(self@.snapshot()), wl::setting_views(settings@))
                    == Ok::<Seq<wl::SettingView>, wl::IdView>(wl::setting_views(v@)),
                Err(id) => planned(current_plan(self@.snapshot()), wl::setting_views(settings@))
                    == Err::<Seq<wl::SettingView>, wl::IdView>(id@),
            },
    {
        let snapshot = self.snapshot();
        let ghost base = current_plan(self@.snapshot());
        let mut plan: Vec<OutputSetting> = Vec::new();
        for i in 0..snapshot.heads.len()
            invariant
                base == current_plan(wl::head_views(snapshot.heads@)),
                wl::setting_views(plan@) == base.take(i as int),
        {
            let s = OutputSetting::from_head(&snapshot.heads[i]);
            let ghost before = wl::setting_views(plan@);
            plan.push(s);
            assert(wl::setting_views(plan@) == before.push(s@));
            assert(base.take(i + 1) == before.push(base[i as int]));
        }
        assert(base.take(base.len() as int) == base);
        let ghost all = wl::setting_views(settings@);
        assert(all.take(0) == Seq::<wl::SettingView>::empty());
        for k in 0..settings.len()
            invariant
                base == current_plan(self@.snapshot()),
                all == wl::setting_views(settings@),
                planned(base, all.take(k as int)) == Ok::<Seq<wl::SettingView>, wl::IdView>(
                    wl::setting_views(plan@),
                ),
        {
            let want = &settings[k];
            let ghost now = wl::setting_views(plan@);
            proof {
                assert(all.take(k + 1).drop_last() == all.take(k as int));
                assert(all.take(k + 1).last() == want@);
            }
            match find_setting(&plan, &want.id) {
                Some(i) => {
                    let s = want.clone();
                    plan.set(i, s);
                    assert(wl::setting_views(plan@) == now.update(i as int, want@));
                },
                None => {
                    proof {
                        lemma_planned_stays(base, all, k + 1);
                    }
                    return Err(want.id.clone());
                },
            }
        }
        assert(all.take(settings@.len() as int) == all);
        Ok(plan)
    }

    /// What to ask of every head, in order, so that the settings hold. Outputs not
    /// named in `settings` keep their current configuration: the protocol requires
    /// every head to be part of a configuration, so the current state is the
    /// starting point. From then on a result is awaited.
    pub fn configure(&mut self, settings: &Vec<OutputSetting>) -> (r: Result<
        Vec<HeadRequest>,
        ConfigureError,
    >)
        ensures
            ({
                let s = old(self)@;
                let plan = planned(current_plan(s.snapshot()), wl::setting_views(settings@));
                match r {
                    Ok(v) => {
                        &&& s.manager
                        &&& plan is Ok
                        &&& v@.len() == plan->Ok_0.len()
                        &&& forall|i: int|
                            0 <= i < v@.len() ==> is_request(s, plan->Ok_0[i], #[trigger] v@[i])
                        &&& final(self)@ == (StateView { pending: true, outcome: None, ..s })
                    },
                    Err(ConfigureError::ManagerGone) => !s.manager && final(self)@ == s,
                    Err(ConfigureError::NotConnected(id)) => {
                        &&& s.manager
                        &&& plan == Err::<Seq<wl::SettingView>, wl::IdView>(id@)
                        &&& final(self)@ == s
                    },
                }
            }),
    {
        if !self.manager {
            return Err(ConfigureError::ManagerGone);
        }
        let plan = match self.plan(settings) {
            Ok(plan) => plan,
            Err(id) => {
                return Err(ConfigureError::NotConnected(id));
            },
        };
        let ghost s = self@;
        let ghost base = current_plan(s.snapshot());
        proof {
            lemma_planned_ids(base, wl::setting_views(settings@));
            assert(setting_ids(base) =~= wl::ids(s.snapshot()));
        }
        let mut requests: Vec<HeadRequest> = Vec::new();
        for i in 0..plan.len()
            invariant
                self@ == s,
                setting_ids(wl::setting_views(plan@)) == wl::ids(s.snapshot()),
                requests@.len() == i,
                forall|k: int| 0 <= k < i ==> is_request(s, plan@[k]@, #[trigger] requests@[k]),
        {
            proof {
                let id = plan@[i as int]@.id;
                wl::lemma_head_at(wl::ids(s.snapshot()), id);
                assert(setting_ids(wl::setting_views(plan@))[i as int] == id);
            }
            if let Some(head) = self.head_by_id(&plan[i].id) {
                requests.push(self.request(head, &plan[i]));
            }
        }
        self.pending = true;
        self.outcome = None;
        Ok(requests)
    }
}

/// Where planning fails it fails however many settings follow.
proof fn lemma_planned_stays(
    base: Seq<wl::SettingView>,
    settings: Seq<wl::SettingView>,
    k: int,
)
    requires
        0 <= k <= settings.len(),
        planned(base, settings.take(k)) is Err,
    ensures
        planned(base, settings) == planned(base, settings.take(k)),
    decreases settings.len(),
{
    if k == settings.len() {
        assert(settings.take(k) == settings);
    } else {
        assert(settings.drop_last().take(k) == settings.take(k));
        lemma_planned_stays(base, settings.drop_last(), k);
    }
}

/// Finds the first setting for an output.
fn find_setting(plan: &Vec<OutputSetting>, id: &HeadId) -> (r: Option<usize>)
    ensures
        match r {
            Some(i) => i < plan@.len() && wl::head_at(
                setting_ids(wl::setting_views(plan@)),
                id@,
            ) == Some(i as int),
            None => wl::head_at(setting_ids(wl::setting_views(plan@)), id@) is None,
        },
{
    let ghost all = setting_ids(wl::setting_views(plan@));
    for i in 0..plan.len()
        invariant
            all == setting_ids(wl::setting_views(plan@)),
            forall|j: int| 0 <= j < i ==> all[j] != id@,
    {
        assert(all[i as int] == plan@[i as int]@.id);
        if plan[i].id.same(id) {
            proof {
                wl::lemma_head_at(all, id@);
            }
            return Some(i);
        }
    }
    proof {
        wl::lemma_head_at(all, id@);
    }
    None
}

/// What to do once the compositor has answered a configuration that is waited for.
#[derive(Clone, Copy, Debug, PartialEq, Eq, Structural)]
pub enum ApplyStep {
    /// It is applied.
    Done,
    /// The compositor rejected it.
    Rejected,
    /// The output state changed: wait for the new one, then try once more.
    RefreshAndRetry,
    /// The output state changed again: wait for the new one, then give up.
    RefreshAndGiveUp,
}

/// How often a configuration is tried.
pub const ATTEMPTS: u32 = 2;

/// What to do once the compositor has answered; `attempt` counts from nought.
pub open spec fn next_step(attempt: u32, outcome: ApplyOutcome) -> ApplyStep {
    match outcome {
        ApplyOutcome::Succeeded => ApplyStep::Done,
        ApplyOutcome::Failed => ApplyStep::Rejected,
        ApplyOutcome::Cancelled => if attempt + 1 < ATTEMPTS {
            ApplyStep::RefreshAndRetry
        } else {
            ApplyStep::RefreshAndGiveUp
        },
    }
}

/// What to do once the compositor has answered; `attempt` counts from nought.
pub fn apply_step(attempt: u32, outcome: ApplyOutcome) -> (r: ApplyStep)
    ensures
        r == next_step(attempt, outcome),
{
    match outcome {
        ApplyOutcome::Succeeded => ApplyStep::Done,
        ApplyOutcome::Failed => ApplyStep::Rejected,
        ApplyOutcome::Cancelled => if attempt < ATTEMPTS - 1 {
            ApplyStep::RefreshAndRetry
        } else {
            ApplyStep::RefreshAndGiveUp
        },
    }
}

/// The heads in a snapshot are those that are there.
proof fn lemma_live(s: StateView, k: int)
    requires
        0 <= k < s.live().len(),
    ensures
        s.heads.contains_key(s.live()[k]),
        s.head_order.contains(s.live()[k]),
{
    let keep = |id: u64| s.heads.contains_key(id);
    s.head_order.lemma_filter_pred(keep, k);
    assert(s.live().contains(s.live()[k]));
    s.head_order.lemma_filter_contains_rev(keep, s.live()[k]);
}

/// Which heads are there depends on which are known, and on nothing that they tell.
proof fn lemma_same_live(order: Seq<u64>, a: Map<u64, RawHeadView>, b: Map<u64, RawHeadView>)
    requires
        forall|id: u64| a.contains_key(id) <==> b.contains_key(id),
    ensures
        live(order, a) == live(order, b),
    decreases order.len(),
{
    reveal(Seq::filter);
    if order.len() > 0 {
        lemma_same_live(order.drop_last(), a, b);
    }
}

/// The compositor's last word on a head holds, whatever was heard before: in the
/// snapshot, what the event tells is as the event tells it, and everything else of the
/// head, and every other head, is as it was. The current mode is the one known under
/// the number that was told last.
pub proof fn law_the_last_word_on_a_head_holds(s: StateView, id: u64, e: HeadEvent, k: int)
    requires
        !(e is Finished),
        !(e is Mode),
        0 <= k < s.snapshot().len(),
    ensures
        after_head(s, id, e).live() == s.live(),
        after_head(s, id, e).snapshot().len() == s.snapshot().len(),
        ({
            let old = s.snapshot()[k];
            let new = after_head(s, id, e).snapshot()[k];
            if s.live()[k] != id {
                new == old
            } else {
                match e {
                    HeadEvent::Name(x) => new == (wl::HeadView {
                        id: wl::IdView { connector: x@, ..old.id },
                        ..old
                    }),
                    HeadEvent::Description(x) => new == (wl::HeadView { description: x@, ..old }),
                    HeadEvent::Make(x) => new == (wl::HeadView {
                        id: wl::IdView { make: x@, ..old.id },
                        ..old
                    }),
                    HeadEvent::Model(x) => new == (wl::HeadView {
                        id: wl::IdView { model: x@, ..old.id },
                        ..old
                    }),
                    HeadEvent::SerialNumber(x) => new == (wl::HeadView {
                        id: wl::IdView { serial: x@, ..old.id },
                        ..old
                    }),
                    HeadEvent::Enabled(x) => new == (wl::HeadView { enabled: x != 0, ..old }),
                    HeadEvent::CurrentMode(m) => {
                        &&& new == (wl::HeadView { current_mode: new.current_mode, ..old })
                        &&& !s.modes.contains_key(m) ==> new.current_mode is None
                        &&& s.modes.contains_key(m) ==> (new.current_mode matches Some(mode) && {
                            &&& mode.width == s.modes[m].width
                            &&& mode.height == s.modes[m].height
                            &&& mode.refresh == s.modes[m].refresh
                            &&& mode.preferred == s.modes[m].preferred
                        })
                    },
                    HeadEvent::Position(x, y) => new == (wl::HeadView { position: (x, y), ..old }),
                    HeadEvent::Scale(x) => new == (wl::HeadView { scale: x, ..old }),
                    HeadEvent::Transform(x) => new == (wl::HeadView { transform: x, ..old }),
                    HeadEvent::Mode(_) => true,
                    HeadEvent::Finished => true,
                }
            }
        }),
{
    let t = after_head(s, id, e);
    lemma_same_live(s.head_order, s.heads, t.heads);
    lemma_live(s, k);
    assert(t.snapshot()[k] == head_of(t.modes, t.heads[t.live()[k]]));
}

/// Whether no head refers to a mode.
pub open spec fn is_new_mode(s: StateView, m: u64) -> bool {
    &&& !s.modes.contains_key(m)
    &&& forall|id: u64|
        s.heads.contains_key(id) ==> !(#[trigger] s.heads[id]).modes.contains(m)
            && s.heads[id].current_mode != Some(m)
}

/// A mode that a head has from now on is listed behind those it has already, blank until
/// more is told of it. Every other head is as it was.
pub proof fn law_a_new_mode_is_listed_last(s: StateView, id: u64, m: u64, k: int)
    requires
        is_new_mode(s, m),
        0 <= k < s.snapshot().len(),
    ensures
        after_head(s, id, HeadEvent::Mode(m)).live() == s.live(),
        ({
            let old = s.snapshot()[k];
            let new = after_head(s, id, HeadEvent::Mode(m)).snapshot()[k];
            if s.live()[k] != id {
                new == old
            } else {
                new == (wl::HeadView {
                    modes: old.modes.push(
                        Mode { width: 0, height: 0, refresh: 0, preferred: false },
                    ),
                    ..old
                })
            }
        }),
{
    let t = after_head(s, id, HeadEvent::Mode(m));
    lemma_same_live(s.head_order, s.heads, t.heads);
    lemma_live(s, k);
    let n = s.live()[k];
    let h = s.heads[n];
    assert(t.snapshot()[k] == head_of(t.modes, t.heads[n]));
    lemma_modes_ignore(s.modes, m, blank_mode(), h.modes);
    if n == id {
        assert(h.modes.push(m).drop_last() == h.modes);
    }
}

/// A mode that is not listed has no bearing on the modes that are.
proof fn lemma_modes_ignore(modes: Map<u64, RawMode>, m: u64, x: RawMode, ids: Seq<u64>)
    requires
        !ids.contains(m),
    ensures
        modes_at(modes.insert(m, x), ids) == modes_at(modes, ids),
    decreases ids.len(),
{
    if ids.len() > 0 {
        let t = ids.drop_last();
        assert(!t.contains(m)) by {
            if t.contains(m) {
                let k = choose|k: int| 0 <= k < t.len() && t[k] == m;
                assert(ids[k] == m);
            }
        }
        lemma_modes_ignore(modes, m, x, t);
        assert(ids[ids.len() - 1] != m);
    }
}

/// The modes of a head are listed in the order in which it told of them, each with the
/// size, the rate and the preference last told.
pub proof fn law_modes_are_listed_in_order(modes: Map<u64, RawMode>, ids: Seq<u64>, m: u64)
    ensures
        modes_at(modes, Seq::empty()).len() == 0,
        !modes.contains_key(m) ==> modes_at(modes, ids.push(m)) == modes_at(modes, ids),
        modes.contains_key(m) ==> modes_at(modes, ids.push(m)) == modes_at(modes, ids).push(
            Mode {
                width: modes[m].width,
                height: modes[m].height,
                refresh: modes[m].refresh,
                preferred: modes[m].preferred,
            },
        ),
{
    assert(ids.push(m).drop_last() == ids);
}

/// The compositor's last word on a mode holds: the size, the rate or the preference is
/// as told, the rest of the mode, every other mode and everything else are as they
/// were. Of a mode that is not known nothing is kept.
pub proof fn law_the_last_word_on_a_mode_holds(s: StateView, m: u64, e: ModeEvent, other: u64)
    ensures
        ({
            let t = after_mode(s, m, e);
            &&& t.modes.contains_key(other) <==> s.modes.contains_key(other)
            &&& other != m && s.modes.contains_key(other) ==> t.modes[other] == s.modes[other]
            &&& s.modes.contains_key(m) ==> match e {
                ModeEvent::Size(w, h) => {
                    &&& t.modes[m].width == w
                    &&& t.modes[m].height == h
                    &&& t.modes[m].refresh == s.modes[m].refresh
                    &&& t.modes[m].preferred == s.modes[m].preferred
                },
                ModeEvent::Refresh(r) => {
                    &&& t.modes[m].width == s.modes[m].width
                    &&& t.modes[m].height == s.modes[m].height
                    &&& t.modes[m].refresh == r
                    &&& t.modes[m].preferred == s.modes[m].preferred
                },
                ModeEvent::Preferred => {
                    &&& t.modes[m].width == s.modes[m].width
                    &&& t.modes[m].height == s.modes[m].height
                    &&& t.modes[m].refresh == s.modes[m].refresh
                    &&& t.modes[m].preferred
                },
            }
            &&& t.heads == s.heads
            &&& t.head_order == s.head_order
            &&& t.serial == s.serial
            &&& t.generation == s.generation
            &&& t.manager == s.manager
            &&& t.pending == s.pending
            &&& t.outcome == s.outcome
        }),
{
}

/// In a snapshot a head is in the mode that is known under the number it told last, if
/// it told one, and has the modes known under the numbers it told of.
pub proof fn law_a_snapshot_shows_what_was_told(s: StateView, k: int)
    requires
        0 <= k < s.snapshot().len(),
    ensures
        s.snapshot().len() == s.live().len(),
        ({
            let raw = s.heads[s.live()[k]];
            let h = s.snapshot()[k];
            &&& s.heads.contains_key(s.live()[k])
            &&& h.id == raw.id
            &&& h.description == raw.description
            &&& h.enabled == raw.enabled
            &&& h.position == raw.position
            &&& h.scale == raw.scale
            &&& h.transform == raw.transform
            &&& h.modes == modes_at(s.modes, raw.modes)
            &&& raw.current_mode is None ==> h.current_mode is None
            &&& raw.current_mode matches Some(m) ==> if s.modes.contains_key(m) {
                h.current_mode == Some(
                    Mode {
                        width: s.modes[m].width,
                        height: s.modes[m].height,
                        refresh: s.modes[m].refresh,
                        preferred: s.modes[m].preferred,
                    },
                )
            } else {
                h.current_mode is None
            }
        }),
{
    lemma_live(s, k);
}

/// A head that appears comes last in the snapshot. Until it tells more it has no
/// connector, its make, model and serial are unknown, and it is off, at the origin, at
/// scale one and upright, with no modes. Every other head is as it was.
pub proof fn law_a_new_head_is_listed_last(s: StateView, id: u64, k: int)
    requires
        !s.heads.contains_key(id),
        !s.head_order.contains(id),
    ensures
        ({
            let t = after_manager(s, ManagerEvent::Head(id)).snapshot();
            let new = t[t.len() - 1];
            &&& t.len() == s.snapshot().len() + 1
            &&& 0 <= k < s.snapshot().len() ==> t[k] == s.snapshot()[k]
            &&& new.id.connector.len() == 0
            &&& new.id.make == "Unknown"@
            &&& new.id.model == "Unknown"@
            &&& new.id.serial == "Unknown"@
            &&& new.description.len() == 0
            &&& !new.enabled
            &&& new.current_mode is None
            &&& new.modes.len() == 0
            &&& new.position == (0i32, 0i32)
            &&& new.scale.bits == scale::ONE
            &&& new.transform == Transform::Normal
        }),
{
    let t = after_manager(s, ManagerEvent::Head(id));
    lemma_live_added(s.head_order, s.heads, id, blank_head());
    assert(s.head_order.push(id).drop_last() == s.head_order);
    assert(t.live() == s.live().push(id)) by {
        reveal(Seq::filter);
    }
    if 0 <= k < s.snapshot().len() {
        lemma_live(s, k);
        assert(t.snapshot()[k] == head_of(t.modes, t.heads[t.live()[k]]));
    }
}

/// A head that is not listed makes no difference to those that are.
proof fn lemma_live_added(
    order: Seq<u64>,
    heads: Map<u64, RawHeadView>,
    id: u64,
    h: RawHeadView,
)
    requires
        !order.contains(id),
    ensures
        live(order, heads.insert(id, h)) == live(order, heads),
    decreases order.len(),
{
    reveal(Seq::filter);
    if order.len() > 0 {
        let t = order.drop_last();
        assert(!t.contains(id)) by {
            if t.contains(id) {
                let k = choose|k: int| 0 <= k < t.len() && t[k] == id;
                assert(order[k] == id);
            }
        }
        assert(order[order.len() - 1] != id);
        lemma_live_added(t, heads, id, h);
    }
}

/// The end of an update gives the serial to answer with and counts one more, and tells
/// nothing of the outputs. The end of the manager tells nothing of them either.
pub proof fn law_an_update_is_counted(s: StateView, serial: u32)
    requires
        s.generation < u64::MAX,
    ensures
        after_manager(s, ManagerEvent::Done(serial)).serial == serial,
        after_manager(s, ManagerEvent::Done(serial)).generation == s.generation + 1,
        after_manager(s, ManagerEvent::Done(serial)).snapshot() == s.snapshot(),
        after_manager(s, ManagerEvent::Done(serial)).manager == s.manager,
        after_manager(s, ManagerEvent::Done(serial)).outcome == s.outcome,
        !after_manager(s, ManagerEvent::Finished).manager,
        after_manager(s, ManagerEvent::Finished).snapshot() == s.snapshot(),
        after_manager(s, ManagerEvent::Finished).generation == s.generation,
{
    assert(after_manager(s, ManagerEvent::Done(serial)).snapshot() =~= s.snapshot());
    assert(after_manager(s, ManagerEvent::Finished).snapshot() =~= s.snapshot());
}

/// Once a head is gone it is listed no more, and its modes are forgotten. Every other
/// head is as it was, if it has modes of its own.
pub proof fn law_a_gone_head_takes_its_modes(s: StateView, id: u64, k: int)
    requires
        s.heads.contains_key(id),
        forall|a: u64, m: u64|
            a != id && s.heads.contains_key(a) && #[trigger] s.heads[id].modes.contains(m)
                ==> !(#[trigger] s.heads[a]).modes.contains(m) && s.heads[a].current_mode != Some(
                m,
            ),
    ensures
        ({
            let t = after_head(s, id, HeadEvent::Finished);
            &&& !t.live().contains(id)
            &&& forall|m: u64| s.heads[id].modes.contains(m) ==> !t.modes.contains_key(m)
            &&& 0 <= k < s.live().len() && s.live()[k] != id ==> t.live().contains(s.live()[k])
            &&& 0 <= k < t.live().len() ==> t.snapshot()[k] == head_of(
                s.modes,
                s.heads[t.live()[k]],
            )
        }),
{
    let t = after_head(s, id, HeadEvent::Finished);
    law_a_gone_head_is_forgotten(s, id);
    let other = other_than(id);
    if t.live().contains(id) {
        let j = choose|j: int| 0 <= j < t.live().len() && t.live()[j] == id;
        s.live().lemma_filter_pred(other, j);
    }
    if 0 <= k < s.live().len() && s.live()[k] != id {
        s.live().lemma_filter_contains(other, k);
    }
    if 0 <= k < t.live().len() {
        lemma_live(t, k);
        let a = t.live()[k];
        let gone = s.heads[id].modes;
        assert forall|m: u64| #[trigger] s.heads[a].modes.contains(m) implies (
        t.modes.contains_key(m) <==> s.modes.contains_key(m)) && (s.modes.contains_key(m)
            ==> t.modes[m] == s.modes[m]) by {
            assert(!gone.contains(m));
        }
        lemma_modes_agree(s.modes, t.modes, s.heads[a].modes);
        match s.heads[a].current_mode {
            Some(m) => {
                assert(!gone.contains(m));
            },
            None => {},
        }
        assert(t.snapshot()[k] == head_of(t.modes, t.heads[a]));
    }
}

/// Where the modes listed are the same, the list is.
proof fn lemma_modes_agree(a: Map<u64, RawMode>, b: Map<u64, RawMode>, ids: Seq<u64>)
    requires
        forall|m: u64| #[trigger]
            ids.contains(m) ==> (b.contains_key(m) <==> a.contains_key(m)) && (a.contains_key(m)
                ==> b[m] == a[m]),
    ensures
        modes_at(a, ids) == modes_at(b, ids),
    decreases ids.len(),
{
    if ids.len() > 0 {
        let t = ids.drop_last();
        assert forall|m: u64| #[trigger] t.contains(m) implies ids.contains(m) by {
            let k = choose|k: int| 0 <= k < t.len() && t[k] == m;
            assert(ids[k] == m);
        }
        lemma_modes_agree(a, b, t);
        assert(ids.contains(ids[ids.len() - 1]));
    }
}

/// An answer is taken once: then there is none, and no configuration is waited for. The
/// outputs are as they were.
pub proof fn law_an_answer_is_taken_once(s: StateView)
    ensures
        outcome_taken(s).outcome is None,
        s.outcome is Some ==> !outcome_taken(s).pending,
        s.outcome is None ==> outcome_taken(s) == s,
        outcome_taken(s).snapshot() == s.snapshot(),
        outcome_taken(s).generation == s.generation,
        outcome_taken(s).serial == s.serial,
        outcome_taken(s).manager == s.manager,
{
    assert(outcome_taken(s).snapshot() =~= s.snapshot());
}

/// The mode that is chosen is one that the head advertises, of exactly the size that is
/// asked for. One of the rate asked for is taken if there is one, else one that is off
/// by one mHz, else one of the highest rate at that size. One is chosen wherever one has
/// the size.
pub proof fn law_the_chosen_mode(
    modes: Map<u64, RawMode>,
    ids: Seq<u64>,
    spec: ModeSpec,
    r: Option<u64>,
    other: u64,
)
    requires
        is_choice(modes, ids, spec, r),
        ids.contains(other),
        modes.contains_key(other),
        modes[other].width == spec.width,
        modes[other].height == spec.height,
    ensures
        r matches Some(id) && {
            &&& ids.contains(id)
            &&& modes.contains_key(id)
            &&& modes[id].width == spec.width
            &&& modes[id].height == spec.height
            &&& spec.refresh == Some(modes[other].refresh) ==> spec.refresh == Some(
                modes[id].refresh,
            )
            &&& spec.refresh matches Some(rate) ==> -1 <= modes[other].refresh - rate <= 1 ==> -1
                <= modes[id].refresh - rate <= 1
            &&& !(spec.refresh matches Some(rate) && -1 <= modes[id].refresh - rate <= 1)
                ==> modes[other].refresh <= modes[id].refresh
        },
{
    let j = choose|j: int| 0 <= j < ids.len() && ids[j] == other;
    assert(fits_size(modes, ids[j], spec));
    if let Some(id) = r {
        let i = choose|i: int| #[trigger] is_choice_at(modes, ids, spec, i) && ids[i] == id;
        assert(is_choice_at(modes, ids, spec, i));
        assert(fits_size(modes, ids[i], spec));
        assert(has_rate(modes, ids[j], spec) == (spec.refresh == Some(modes[other].refresh)));
    }
}

/// What is asked of a head for a setting. One that is to be off is asked to be off, and
/// nothing else. One that is to be on is asked for the position, the scale and the
/// transform of the setting, each left as it is where the setting has none; for its
/// mode, an advertised one of that size where there is one, else a mode of its own, and
/// no other mode where the setting has none.
pub proof fn law_a_request_asks_for_the_setting(
    s: StateView,
    want: wl::SettingView,
    r: HeadRequest,
)
    requires
        is_request(s, want, r),
    ensures
        match r {
            HeadRequest::Disable(_) => !want.enabled,
            HeadRequest::Enable { head, mode, position, scale, transform } => {
                &&& want.enabled
                &&& position == want.position
                &&& scale == want.scale
                &&& transform == want.transform
                &&& want.mode is None <==> mode is Keep
                &&& (mode matches ModeRequest::Advertised(m) ==> (want.mode matches Some(w) && {
                    &&& s.heads[head].modes.contains(m)
                    &&& s.modes.contains_key(m)
                    &&& s.modes[m].width == w.width
                    &&& s.modes[m].height == w.height
                }))
                &&& (mode matches ModeRequest::Custom(width, height, refresh) ==> (
                want.mode matches Some(w) && {
                    &&& width == w.width
                    &&& height == w.height
                    &&& w.refresh is Some ==> w.refresh == Some(refresh)
                    &&& w.refresh is None ==> refresh == 0
                    &&& forall|m: u64| #[trigger]
                        s.heads[head].modes.contains(m) && s.modes.contains_key(m)
                            ==> s.modes[m].width != w.width || s.modes[m].height != w.height
                }))
            },
        },
        ({
            let number = match r {
                HeadRequest::Disable(head) => head,
                HeadRequest::Enable { head, .. } => head,
            };
            exists|k: int|
                #![trigger s.snapshot()[k]]
                0 <= k < s.snapshot().len() && s.snapshot()[k].id == want.id && s.live()[k]
                    == number
        }),
{
    let ids = wl::ids(s.snapshot());
    wl::lemma_head_at(ids, want.id);
    let k = wl::head_at(ids, want.id)->0;
    assert(ids[k] == s.snapshot()[k].id);
    match r {
        HeadRequest::Enable { head, mode, .. } => {
            let numbers = s.heads[head].modes;
            match mode {
                ModeRequest::Advertised(m) => {
                    let w = want.mode->0;
                    let i = choose|i: int| #[trigger]
                        is_choice_at(s.modes, numbers, w, i) && numbers[i] == m;
                    assert(is_choice_at(s.modes, numbers, w, i));
                },
                ModeRequest::Custom(width, height, refresh) => {
                    let w = want.mode->0;
                    assert forall|m: u64| #[trigger]
                        numbers.contains(m) && s.modes.contains_key(m) implies s.modes[m].width
                        != w.width || s.modes[m].height != w.height by {
                        let i = choose|i: int| 0 <= i < numbers.len() && numbers[i] == m;
                        assert(!fits_size(s.modes, numbers[i], w));
                    }
                },
                ModeRequest::Keep => {},
            }
        },
        HeadRequest::Disable(_) => {},
    }
}

/// A configuration names every connected output, in order: the one that a setting is for
/// gets the last setting for it, and any other gets what it has.
pub proof fn law_a_configuration_covers_every_output(
    s: StateView,
    settings: Seq<wl::SettingView>,
    plan: Seq<wl::SettingView>,
    i: int,
)
    requires
        planned(current_plan(s.snapshot()), settings) == Ok::<Seq<wl::SettingView>, wl::IdView>(
            plan,
        ),
        0 <= i < s.snapshot().len(),
        forall|a: int, b: int|
            0 <= a < b < s.snapshot().len() ==> (#[trigger] s.snapshot()[a]).id != (
            #[trigger] s.snapshot()[b]).id,
    ensures
        plan.len() == s.snapshot().len(),
        plan[i].id == s.snapshot()[i].id,
        (exists|k: int| #[trigger]
            is_last_word(settings, k) && settings[k].id == s.snapshot()[i].id && plan[i]
                == settings[k]) || ((forall|k: int|
            0 <= k < settings.len() ==> (#[trigger] settings[k]).id != s.snapshot()[i].id)
            && plan[i].enabled == s.snapshot()[i].enabled && plan[i].position == Some(
            s.snapshot()[i].position,
        ) && plan[i].scale == Some(s.snapshot()[i].scale) && plan[i].transform == Some(
            s.snapshot()[i].transform,
        ) && (match s.snapshot()[i].current_mode {
            Some(m) => plan[i].mode == Some(
                ModeSpec { width: m.width, height: m.height, refresh: Some(m.refresh) },
            ),
            None => plan[i].mode is None,
        })),
{
    let heads = s.snapshot();
    let base = current_plan(heads);
    lemma_planned_ids(base, settings);
    assert(setting_ids(plan)[i] == setting_ids(base)[i]);
    if exists|k: int| 0 <= k < settings.len() && (#[trigger] settings[k]).id == heads[i].id {
        let k = lemma_last_word(settings, heads[i].id);
        law_named_outputs_get_their_setting(heads, settings, k);
        wl::lemma_head_at(wl::ids(heads), heads[i].id);
        let at = wl::head_at(wl::ids(heads), heads[i].id)->0;
        assert(wl::ids(heads)[at] == heads[at].id);
        assert(at == i) by {
            assert(wl::ids(heads)[i] == heads[i].id);
        }
    } else {
        law_unnamed_outputs_are_kept(heads, settings, i);
    }
}

/// Where there is a setting for an output, there is a last one.
proof fn lemma_last_word(settings: Seq<wl::SettingView>, id: wl::IdView) -> (k: int)
    requires
        exists|k: int| 0 <= k < settings.len() && (#[trigger] settings[k]).id == id,
    ensures
        is_last_word(settings, k),
        settings[k].id == id,
    decreases settings.len(),
{
    let n = settings.len() - 1;
    if settings[n].id == id {
        n
    } else {
        let before = settings.drop_last();
        let j = choose|k: int| 0 <= k < settings.len() && (#[trigger] settings[k]).id == id;
        assert(before[j].id == id);
        let k = lemma_last_word(before, id);
        assert forall|j: int| k < j < settings.len() implies (#[trigger] settings[j]).id
            != settings[k].id by {
            if j < n {
                assert(before[j].id != before[k].id);
            }
        }
        k
    }
}

/// The output manager is bound once, in the version offered but none later than the
/// fourth, and nothing else is bound. Offers tell nothing of the outputs.
pub proof fn law_the_manager_is_bound_once(s: StateView, is_manager: bool, version: u32)
    ensures
        version_to_bind(s, is_manager, version) is Some <==> is_manager && !s.manager,
        version_to_bind(s, is_manager, version) matches Some(v) ==> v <= version && v <= 4 && (v
            == version || v == 4),
        version_to_bind(after_offer(s, true), is_manager, version) is None,
        is_manager ==> after_offer(s, is_manager).manager,
        !is_manager ==> after_offer(s, is_manager) == s,
        after_offer(s, is_manager).snapshot() == s.snapshot(),
{
    assert(after_offer(s, is_manager).snapshot() =~= s.snapshot());
}

/// A configuration that went stale is tried once more, and no more than that. One that was
/// applied or rejected is not tried again.
pub proof fn law_a_stale_configuration_is_tried_once_more(attempt: u32)
    ensures
        next_step(0, ApplyOutcome::Cancelled) == ApplyStep::RefreshAndRetry,
        attempt > 0 ==> next_step(attempt, ApplyOutcome::Cancelled)
            == ApplyStep::RefreshAndGiveUp,
        next_step(attempt, ApplyOutcome::Succeeded) == ApplyStep::Done,
        next_step(attempt, ApplyOutcome::Failed) == ApplyStep::Rejected,
{
}

}
