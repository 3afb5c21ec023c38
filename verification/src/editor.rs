//! The arranger's state: drafts of the outputs, live or of a saved profile, and
//! what applying, saving and deleting make of them.

use vstd::prelude::*;

use crate::arrange;
use crate::arrange::{Line, Rect, Tile};
use crate::command;
use crate::command::mode_label;
use crate::config;
use crate::config::{suggested_name, Config, Output, Profile};
use crate::matching;
use crate::matching::{best_match, describes, match_profile, profile_settings, ApplyError};
use crate::number;
use crate::scale;
use crate::scale::Scale;
use crate::state;
use crate::state::OutputState;
use crate::text;
use crate::wl;
use crate::wl::{ApplyOutcome, Head, HeadId, ModeSpec, OutputSetting, Snapshot, Transform};

verus! {

/// The editable state of one output. Positions are in 256ths of a pixel, so a drag
/// does not accumulate rounding error.
#[derive(Debug)]
pub struct Draft {
    pub id: HeadId,
    /// The profile entry this came from, when editing a saved profile rather than
    /// the live outputs: its match keys are kept as they were written.
    pub keys: Option<Output>,
    pub enabled: bool,
    pub x: i64,
    pub y: i64,
    pub scale: Scale,
    pub mode: Option<ModeSpec>,
    pub transform: Transform,
}

/// What a `Draft` says.
#[verifier::ext_equal]
pub struct DraftView {
    pub id: wl::IdView,
    pub keys: Option<config::OutputView>,
    pub enabled: bool,
    pub x: int,
    pub y: int,
    pub scale: Scale,
    pub mode: Option<ModeSpec>,
    pub transform: Transform,
}

/// What an optional entry says.
pub open spec fn opt_entry(o: Option<Output>) -> Option<config::OutputView> {
    match o {
        Some(o) => Some(o@),
        None => None,
    }
}

impl View for Draft {
    type V = DraftView;

    open spec fn view(&self) -> DraftView {
        DraftView {
            id: self.id@,
            keys: opt_entry(self.keys),
            enabled: self.enabled,
            x: self.x as int,
            y: self.y as int,
            scale: self.scale,
            mode: self.mode,
            transform: self.transform,
        }
    }
}

impl Clone for Draft {
    fn clone(&self) -> (r: Draft)
        ensures
            r@ == self@,
    {
        Draft {
            id: self.id.clone(),
            keys: match &self.keys {
                Some(k) => Some(k.clone()),
                None => None,
            },
            enabled: self.enabled,
            x: self.x,
            y: self.y,
            scale: self.scale,
            mode: self.mode,
            transform: self.transform,
        }
    }
}

/// What a list of drafts says.
pub open spec fn draft_views(v: Seq<Draft>) -> Seq<DraftView> {
    v.map_values(|d: Draft| d@)
}

/// A copy of a list of drafts.
pub fn copy_drafts(v: &Vec<Draft>) -> (r: Vec<Draft>)
    ensures
        draft_views(r@) == draft_views(v@),
{
    let mut r: Vec<Draft> = Vec::new();
    let n = v.len();
    for i in 0..n
        invariant
            n == v@.len(),
            draft_views(r@) == draft_views(v@).take(i as int),
    {
        let d = v[i].clone();
        let ghost before = draft_views(r@);
        r.push(d);
        assert(draft_views(r@) == before.push(d@));
        assert(draft_views(v@).take(i + 1) == before.push(draft_views(v@)[i as int]));
    }
    assert(draft_views(v@).take(n as int) == draft_views(v@));
    r
}

/// The draft of a live output.
pub open spec fn draft_of_head(h: wl::HeadView) -> DraftView {
    DraftView {
        id: h.id,
        keys: None,
        enabled: h.enabled,
        x: h.position.0 * arrange::PIXEL,
        y: h.position.1 * arrange::PIXEL,
        scale: Scale::of_steps(h.scale.steps()),
        mode: wl::mode_spec(h.mode()),
        transform: h.transform,
    }
}

/// A text, or the empty one.
pub open spec fn or_empty(s: Option<Seq<char>>) -> Seq<char> {
    match s {
        Some(s) => s,
        None => Seq::empty(),
    }
}

/// The draft of an entry of a profile. What cannot be read is as if it were not
/// there.
pub open spec fn draft_of_entry(o: config::OutputView) -> DraftView {
    let at = match o.position {
        Some(p) => p,
        None => (0i32, 0i32),
    };
    DraftView {
        id: wl::IdView {
            connector: or_empty(o.connector),
            make: or_empty(o.make),
            model: or_empty(o.model),
            serial: or_empty(o.serial),
        },
        keys: Some(o),
        enabled: o.enabled,
        x: at.0 * arrange::PIXEL,
        y: at.1 * arrange::PIXEL,
        scale: match o.scale {
            Some(s) => s,
            None => Scale { bits: scale::ONE },
        },
        mode: match o.mode {
            Some(m) => match wl::parse_mode(m) {
                Ok(m) => Some(m),
                Err(_) => None,
            },
            None => None,
        },
        transform: match o.transform {
            Some(t) => match wl::transform_named(t) {
                Some(t) => t,
                None => Transform::Normal,
            },
            None => Transform::Normal,
        },
    }
}

/// The nearest pixel to a coordinate.
pub open spec fn pixel_of(v: int) -> i32 {
    let p = arrange::whole(v) / (arrange::PIXEL as int);
    if p < i32::MIN {
        i32::MIN
    } else if p > i32::MAX {
        i32::MAX
    } else {
        p as i32
    }
}

/// The match keys that a draft is saved with.
pub open spec fn draft_keys(
    d: DraftView,
    ids: Seq<wl::IdView>,
    with_serial: bool,
) -> config::OutputView {
    match d.keys {
        Some(k) => config::OutputView {
            serial: if with_serial {
                k.serial
            } else {
                None
            },
            ..k
        },
        None => if ids.contains(d.id) {
            config::keys_of(d.id, with_serial)
        } else {
            config::OutputView::empty()
        },
    }
}

/// The entry that a draft is saved as.
pub open spec fn draft_entry(
    d: DraftView,
    ids: Seq<wl::IdView>,
    with_serial: bool,
) -> config::OutputView {
    config::OutputView {
        enabled: d.enabled,
        position: Some((pixel_of(d.x), pixel_of(d.y))),
        scale: Some(d.scale.thousandths()),
        mode: match d.mode {
            Some(m) => Some(wl::mode_text(m)),
            None => None,
        },
        transform: Some(wl::name_of(d.transform)),
        ..draft_keys(d, ids, with_serial)
    }
}

/// What a live draft asks for.
pub open spec fn draft_setting(d: DraftView) -> wl::SettingView {
    wl::SettingView {
        id: d.id,
        enabled: d.enabled,
        position: Some((pixel_of(d.x), pixel_of(d.y))),
        scale: Some(d.scale),
        mode: d.mode,
        transform: Some(d.transform),
    }
}

/// Whether a head is the one that a draft stands for.
pub open spec fn stands_for(d: DraftView, id: wl::IdView) -> bool {
    match d.keys {
        Some(k) => matching::applies(k, id),
        None => d.id == id,
    }
}

/// Whether the head at `i` is the first that a draft stands for.
pub open spec fn is_head_of(d: DraftView, heads: Seq<wl::HeadView>, i: int) -> bool {
    &&& 0 <= i < heads.len()
    &&& stands_for(d, heads[i].id)
    &&& forall|j: int| 0 <= j < i ==> !stands_for(d, (#[trigger] heads[j]).id)
}

/// The pixels of a draft's mode, or of a plain screen where there is none, with
/// the axes swapped for a quarter turn.
pub open spec fn draft_pixels(d: DraftView) -> (i32, i32) {
    let (w, h) = match d.mode {
        Some(m) => (m.width, m.height),
        None => (1920i32, 1080i32),
    };
    if wl::is_rotated(d.transform) {
        (h, w)
    } else {
        (w, h)
    }
}

/// The size that a draft takes up.
pub open spec fn draft_size(d: DraftView) -> (i32, i32) {
    (
        wl::logical(draft_pixels(d).0, d.scale.steps()),
        wl::logical(draft_pixels(d).1, d.scale.steps()),
    )
}

/// A draft in the layout.
pub open spec fn draft_spot(d: DraftView) -> arrange::Spot {
    arrange::Spot {
        x: d.x,
        y: d.y,
        width: draft_size(d).0 * arrange::PIXEL,
        height: draft_size(d).1 * arrange::PIXEL,
        enabled: d.enabled,
    }
}

/// The drafts as a layout.
pub open spec fn layout(ds: Seq<DraftView>) -> Seq<arrange::Spot> {
    ds.map_values(|d: DraftView| draft_spot(d))
}

/// A text as a list: of one, or of none where it is empty.
pub open spec fn unless_empty(s: Seq<char>) -> Seq<Seq<char>> {
    if s.len() == 0 {
        Seq::empty()
    } else {
        seq![s]
    }
}

/// What a draft is called in the list of outputs.
pub open spec fn draft_name(d: DraftView) -> Seq<char> {
    text::join(unless_empty(d.id.connector) + unless_empty(d.id.model), " — "@)
}

/// What a draft is called in the layout.
pub open spec fn draft_short_name(d: DraftView) -> Seq<char> {
    if d.id.connector.len() == 0 {
        d.id.model
    } else {
        d.id.connector
    }
}

/// How a draft reads in full.
pub open spec fn draft_label(d: DraftView) -> Seq<char> {
    match d.keys {
        Some(k) => config::label_of(k),
        None => d.id.text(),
    }
}

fn copy_or_empty(s: &Option<String>) -> (r: String)
    ensures
        r@ == or_empty(config::opt_text(*s)),
{
    match s {
        Some(s) => s.clone(),
        None => {
            let r = String::new();
            assert(r@ =~= Seq::<char>::empty());
            r
        },
    }
}

/// The nearest pixel to a coordinate.
pub fn to_pixel(v: i64) -> (r: i32)
    ensures
        r == pixel_of(v as int),
{
    let wide: i128 = v as i128;
    let p: i128 = if wide < 0 {
        -((-wide + 128) / 256)
    } else {
        (wide + 128) / 256
    };
    assert(p == arrange::whole(v as int) / 256);
    if p < -0x8000_0000 {
        i32::MIN
    } else if p > 0x7fff_ffff {
        i32::MAX
    } else {
        p as i32
    }
}

fn push_unless_empty(parts: &mut Vec<String>, s: &String)
    ensures
        text::texts(final(parts)@) == text::texts(old(parts)@) + unless_empty(s@),
{
    if !s.as_str().is_empty() {
        parts.push(s.clone());
    }
    assert(text::texts(parts@) =~= text::texts(old(parts)@) + unless_empty(s@));
}

impl Draft {
    /// The draft of a live output.
    pub fn from_head(head: &Head) -> (r: Draft)
        ensures
            r@ == draft_of_head(head@),
    {
        Draft {
            id: head.id.clone(),
            keys: None,
            enabled: head.enabled,
            x: head.position.0 as i64 * 256,
            y: head.position.1 as i64 * 256,
            scale: wl::quantized_scale(head.scale),
            mode: wl::to_mode_spec(head.best_mode()),
            transform: head.transform,
        }
    }

    /// The draft of an entry of a profile.
    pub fn from_output(output: &Output) -> (r: Draft)
        ensures
            r@ == draft_of_entry(output@),
    {
        let (x, y) = match output.position {
            Some(p) => (p[0], p[1]),
            None => (0i32, 0i32),
        };
        let r = Draft {
            id: HeadId {
                connector: copy_or_empty(&output.connector),
                make: copy_or_empty(&output.make),
                model: copy_or_empty(&output.model),
                serial: copy_or_empty(&output.serial),
            },
            keys: Some(output.clone()),
            enabled: output.enabled,
            x: x as i64 * 256,
            y: y as i64 * 256,
            scale: match output.scale {
                Some(s) => s,
                None => Scale { bits: scale::ONE },
            },
            mode: match &output.mode {
                Some(m) => match ModeSpec::from_str(m.as_str()) {
                    Ok(m) => Some(m),
                    Err(_) => None,
                },
                None => None,
            },
            transform: match &output.transform {
                Some(t) => match wl::transform_from_name(t.as_str()) {
                    Ok(t) => t,
                    Err(_) => Transform::Normal,
                },
                None => Transform::Normal,
            },
        };
        r
    }

    /// The entry that the draft is saved as: the entry it came from keeps its
    /// match keys, a live output gets them from its identity.
    pub fn to_output(&self, heads: &Vec<Head>, with_serial: bool) -> (r: Output)
        ensures
            r@ == draft_entry(self@, wl::ids(wl::head_views(heads@)), with_serial),
    {
        let ghost ids = wl::ids(wl::head_views(heads@));
        let keys = match &self.keys {
            Some(k) => {
                let mut keys = k.clone();
                if !with_serial {
                    keys.serial = None;
                }
                keys
            },
            None => {
                proof {
                    wl::lemma_head_at(ids, self.id@);
                }
                match wl::find_head(heads, &self.id) {
                    Some(i) => Output::keys(&heads[i].id, with_serial),
                    None => Output::default(),
                }
            },
        };
        assert(keys@ == draft_keys(self@, ids, with_serial));
        Output {
            connector: keys.connector,
            make: keys.make,
            model: keys.model,
            serial: keys.serial,
            enabled: self.enabled,
            position: Some([to_pixel(self.x), to_pixel(self.y)]),
            scale: Some(self.scale.to_thousandths()),
            mode: match self.mode {
                Some(m) => Some(m.to_string()),
                None => None,
            },
            transform: Some(wl::transform_name(self.transform).to_owned()),
        }
    }

    /// The live head this draft stands for, if one is connected: the first that
    /// its entry describes, or the one of its identity.
    pub fn head<'a>(&self, heads: &'a Vec<Head>) -> (r: Option<&'a Head>)
        ensures
            match r {
                Some(h) => exists|i: int| #[trigger]
                    is_head_of(self@, wl::head_views(heads@), i) && *h == heads@[i],
                None => forall|i: int|
                    0 <= i < heads@.len() ==> !stands_for(self@, (#[trigger] heads@[i])@.id),
            },
    {
        let n = heads.len();
        for i in 0..n
            invariant
                n == heads@.len(),
                forall|j: int| 0 <= j < i ==> !stands_for(self@, (#[trigger] heads@[j])@.id),
        {
            let found = match &self.keys {
                Some(k) => describes(k, &heads[i]),
                None => heads[i].id.same(&self.id),
            };
            assert(found == stands_for(self@, heads@[i as int]@.id));
            if found {
                assert(is_head_of(self@, wl::head_views(heads@), i as int));
                return Some(&heads[i]);
            }
        }
        None
    }

    /// What the draft is called in the layout.
    pub fn short_name(&self) -> (r: &str)
        ensures
            r@ == draft_short_name(self@),
    {
        if self.id.connector.as_str().is_empty() {
            self.id.model.as_str()
        } else {
            self.id.connector.as_str()
        }
    }

    /// What the draft is called in the list of outputs.
    pub fn name(&self) -> (r: String)
        ensures
            r@ == draft_name(self@),
    {
        let mut parts: Vec<String> = Vec::new();
        push_unless_empty(&mut parts, &self.id.connector);
        push_unless_empty(&mut parts, &self.id.model);
        assert(text::texts(parts@) =~= unless_empty(self.id.connector@) + unless_empty(
            self.id.model@,
        ));
        text::joined(&parts, " — ")
    }

    /// How the draft reads in full.
    pub fn label(&self) -> (r: String)
        ensures
            r@ == draft_label(self@),
    {
        match &self.keys {
            Some(k) => k.label(),
            None => self.id.to_string(),
        }
    }

    /// The size that the draft takes up: exactly the compositor's own logical
    /// size, so outputs placed edge to edge really are edge to edge.
    pub fn size(&self) -> (r: (i32, i32))
        ensures
            r == draft_size(self@),
    {
        let (w, h) = match self.mode {
            Some(m) => (m.width, m.height),
            None => (1920i32, 1080i32),
        };
        if wl::rotated(self.transform) {
            wl::logical_size(h, w, self.scale)
        } else {
            wl::logical_size(w, h, self.scale)
        }
    }

    /// What the draft asks for.
    pub fn setting(&self) -> (r: OutputSetting)
        ensures
            r@ == draft_setting(self@),
    {
        OutputSetting {
            id: self.id.clone(),
            enabled: self.enabled,
            position: Some((to_pixel(self.x), to_pixel(self.y))),
            scale: Some(self.scale),
            mode: self.mode,
            transform: Some(self.transform),
        }
    }

    /// The draft in the layout.
    pub fn tile(&self) -> (r: Tile)
        ensures
            r@ == draft_spot(self@),
    {
        let (w, h) = self.size();
        Tile {
            x: self.x,
            y: self.y,
            width: w as i64 * 256,
            height: h as i64 * 256,
            enabled: self.enabled,
        }
    }
}

/// What the arranger holds.
#[derive(Debug)]
pub struct Editor {
    pub heads: Vec<Head>,
    /// State at launch, for Revert.
    pub base: Vec<Draft>,
    pub drafts: Vec<Draft>,
    pub selected: usize,
    pub name: String,
    pub with_serial: bool,
    pub status: String,
    pub config: Config,
    /// Name of the saved profile being edited, when the drafts are not the live
    /// outputs.
    pub editing: Option<String>,
}

/// What an `Editor` says.
#[verifier::ext_equal]
pub struct EditorView {
    pub heads: Seq<wl::HeadView>,
    pub base: Seq<DraftView>,
    pub drafts: Seq<DraftView>,
    pub selected: usize,
    pub name: Seq<char>,
    pub with_serial: bool,
    pub status: Seq<char>,
    pub config: Seq<config::ProfileView>,
    pub editing: Option<Seq<char>>,
}

impl View for Editor {
    type V = EditorView;

    open spec fn view(&self) -> EditorView {
        EditorView {
            heads: wl::head_views(self.heads@),
            base: draft_views(self.base@),
            drafts: draft_views(self.drafts@),
            selected: self.selected,
            name: self.name@,
            with_serial: self.with_serial,
            status: self.status@,
            config: self.config@,
            editing: config::opt_text(self.editing),
        }
    }
}

/// Whether a name is the one for a live layout: that of the profile which matches
/// best, or one made up from the outputs where none does.
pub open spec fn is_live_name(
    ps: Seq<config::ProfileView>,
    ids: Seq<wl::IdView>,
    name: Seq<char>,
) -> bool {
    ||| exists|i: int| #[trigger] matching::is_best(ps, ids, i) && name == ps[i].name
    ||| (forall|i: int| 0 <= i < ps.len() ==> !matching::matches_heads(#[trigger] ps[i], ids))
        && name == config::suggested(ids)
}

/// The drafts of live outputs.
pub open spec fn drafts_of_heads(heads: Seq<wl::HeadView>) -> Seq<DraftView> {
    heads.map_values(|h: wl::HeadView| draft_of_head(h))
}

/// The drafts of the entries of a profile.
pub open spec fn drafts_of_entries(outputs: Seq<config::OutputView>) -> Seq<DraftView> {
    outputs.map_values(|o: config::OutputView| draft_of_entry(o))
}

/// Whether an entry asks for an exact monitor.
pub open spec fn names_serial(outputs: Seq<config::OutputView>) -> bool {
    exists|i: int| 0 <= i < outputs.len() && (#[trigger] outputs[i]).serial is Some
}

/// Whether the drafts are of these outputs.
pub open spec fn are_drafts_of(ds: Seq<DraftView>, ids: Seq<wl::IdView>) -> bool {
    &&& ds.len() == ids.len()
    &&& forall|i: int| 0 <= i < ds.len() ==> ids.contains((#[trigger] ds[i]).id)
}

impl EditorView {
    /// With other drafts to edit, from the start.
    pub open spec fn loaded(self, drafts: Seq<DraftView>) -> EditorView {
        EditorView { drafts, selected: 0, ..self }
    }

    /// With a profile to edit in place of the live outputs.
    pub open spec fn opened(self, p: config::ProfileView) -> EditorView {
        EditorView {
            name: p.name,
            with_serial: names_serial(p.outputs),
            editing: Some(p.name),
            ..self.loaded(drafts_of_entries(p.outputs))
        }
    }

    /// The state to revert to on the live outputs: that at launch, or their own state
    /// where they are no longer the outputs of launch.
    pub open spec fn live_base(self) -> Seq<DraftView> {
        if are_drafts_of(self.base, wl::ids(self.heads)) {
            self.base
        } else {
            drafts_of_heads(self.heads)
        }
    }

    /// Back on the live outputs, under a name for them.
    pub open spec fn live(self, name: Seq<char>) -> EditorView {
        EditorView {
            base: self.live_base(),
            name,
            with_serial: true,
            editing: None,
            ..self.loaded(drafts_of_heads(self.heads))
        }
    }

    /// Once the live outputs have changed: the edits in progress and the state at
    /// launch are kept unless the outputs themselves are others. While a profile is
    /// edited they are kept in any case.
    pub open spec fn with_heads(self, heads: Seq<wl::HeadView>) -> EditorView {
        let kept = EditorView { heads, ..self };
        if self.editing is Some || are_drafts_of(self.drafts, wl::ids(heads)) {
            kept
        } else {
            EditorView { base: drafts_of_heads(heads), ..kept.loaded(drafts_of_heads(heads)) }
        }
    }

    /// With the layout from launch put back, as a live one; `name` is the one for
    /// the live outputs, if a profile was being edited.
    pub open spec fn reverted(self, name: Seq<char>) -> EditorView {
        if self.editing is Some {
            EditorView { drafts: self.live_base(), ..self.live(name) }
        } else {
            EditorView { drafts: self.base, ..self }
        }
    }

    /// The profile that is saved.
    pub open spec fn profile(self) -> config::ProfileView {
        config::ProfileView {
            name: text::trim(self.name),
            outputs: self.drafts.map_values(
                |d: DraftView| draft_entry(d, wl::ids(self.heads), self.with_serial),
            ),
        }
    }

    /// Once the profile is saved: one that was being edited still is, under the name that
    /// it has now.
    pub open spec fn saved(self) -> EditorView {
        EditorView {
            editing: match self.editing {
                Some(_) => Some(self.profile().name),
                None => None,
            },
            ..self
        }
    }

    /// The profiles once this one is saved among them. Saving an edited profile
    /// under a new name renames it.
    pub open spec fn saved_in(self, ps: Seq<config::ProfileView>) -> Seq<config::ProfileView> {
        let p = self.profile();
        let kept = match self.editing {
            Some(old) => if old != p.name {
                config::without(ps, old)
            } else {
                ps
            },
            None => ps,
        };
        config::upserted(kept, p)
    }
}

/// The drafts of live outputs.
fn live_drafts(heads: &Vec<Head>) -> (r: Vec<Draft>)
    ensures
        draft_views(r@) == drafts_of_heads(wl::head_views(heads@)),
{
    let mut r: Vec<Draft> = Vec::new();
    let ghost all = drafts_of_heads(wl::head_views(heads@));
    let n = heads.len();
    for i in 0..n
        invariant
            n == heads@.len(),
            all == drafts_of_heads(wl::head_views(heads@)),
            draft_views(r@) == all.take(i as int),
    {
        let d = Draft::from_head(&heads[i]);
        let ghost before = draft_views(r@);
        r.push(d);
        assert(draft_views(r@) == before.push(d@));
        assert(all.take(i + 1) == before.push(all[i as int]));
    }
    assert(all.take(n as int) == all);
    r
}

/// The drafts of the entries of a profile.
fn entry_drafts(outputs: &Vec<Output>) -> (r: Vec<Draft>)
    ensures
        draft_views(r@) == drafts_of_entries(config::output_views(outputs@)),
{
    let mut r: Vec<Draft> = Vec::new();
    let ghost all = drafts_of_entries(config::output_views(outputs@));
    let n = outputs.len();
    for i in 0..n
        invariant
            n == outputs@.len(),
            all == drafts_of_entries(config::output_views(outputs@)),
            draft_views(r@) == all.take(i as int),
    {
        let d = Draft::from_output(&outputs[i]);
        let ghost before = draft_views(r@);
        r.push(d);
        assert(draft_views(r@) == before.push(d@));
        assert(all.take(i + 1) == before.push(all[i as int]));
    }
    assert(all.take(n as int) == all);
    r
}

/// The name for a live layout.
pub fn live_name(config: &Config, heads: &Vec<Head>) -> (r: String)
    requires
        heads@.len() <= 0x7fff_ffff,
    ensures
        is_live_name(config@, wl::ids(wl::head_views(heads@)), r@),
{
    let ghost ids = wl::ids(wl::head_views(heads@));
    match best_match(config, heads) {
        Some(m) => {
            let r = m.profile.name.clone();
            proof {
                let i = choose|i: int|
                    #[trigger] matching::is_best(config@, ids, i) && *m.profile
                        == config.profiles@[i];
                assert(config@[i] == config.profiles@[i]@);
            }
            r
        },
        None => suggested_name(&Snapshot { serial: 0, heads: wl::copy_heads(heads) }),
    }
}

/// Whether an entry asks for an exact monitor.
fn has_serial(outputs: &Vec<Output>) -> (r: bool)
    ensures
        r == names_serial(config::output_views(outputs@)),
{
    let ghost all = config::output_views(outputs@);
    let n = outputs.len();
    for i in 0..n
        invariant
            n == outputs@.len(),
            all == config::output_views(outputs@),
            forall|j: int| 0 <= j < i ==> (#[trigger] all[j]).serial is None,
    {
        assert(all[i as int] == outputs@[i as int]@);
        if outputs[i].serial.is_some() {
            return true;
        }
    }
    false
}

/// Whether the drafts are of these outputs.
fn same_heads(drafts: &Vec<Draft>, heads: &Vec<Head>) -> (r: bool)
    ensures
        r == are_drafts_of(draft_views(drafts@), wl::ids(wl::head_views(heads@))),
{
    let ghost ds = draft_views(drafts@);
    let ghost ids = wl::ids(wl::head_views(heads@));
    if drafts.len() != heads.len() {
        return false;
    }
    let n = drafts.len();
    for i in 0..n
        invariant
            n == drafts@.len(),
            ds == draft_views(drafts@),
            ids == wl::ids(wl::head_views(heads@)),
            forall|j: int| 0 <= j < i ==> ids.contains((#[trigger] ds[j]).id),
    {
        proof {
            wl::lemma_head_at(ids, drafts@[i as int].id@);
            assert(ds[i as int].id == drafts@[i as int].id@);
        }
        if wl::find_head(heads, &drafts[i].id).is_none() {
            assert(!ids.contains(ds[i as int].id));
            return false;
        }
    }
    true
}

/// What the drafts ask for of the live outputs.
pub open spec fn live_settings(ds: Seq<DraftView>) -> Seq<wl::SettingView> {
    ds.map_values(|d: DraftView| draft_setting(d))
}

impl Editor {
    /// Starts on the live outputs.
    pub fn new(heads: Vec<Head>, config: Config) -> (r: Editor)
        requires
            heads@.len() <= 0x7fff_ffff,
        ensures
            is_live_name(config@, wl::ids(wl::head_views(heads@)), r@.name),
            r@ == (EditorView {
                heads: wl::head_views(heads@),
                base: drafts_of_heads(wl::head_views(heads@)),
                drafts: drafts_of_heads(wl::head_views(heads@)),
                selected: 0,
                name: r@.name,
                with_serial: true,
                status: Seq::empty(),
                config: config@,
                editing: None,
            }),
    {
        let drafts = live_drafts(&heads);
        let name = live_name(&config, &heads);
        let status = String::new();
        assert(status@ =~= Seq::<char>::empty());
        Editor {
            base: copy_drafts(&drafts),
            drafts,
            selected: 0,
            name,
            with_serial: true,
            status,
            config,
            editing: None,
            heads,
        }
    }

    /// Other drafts to edit, from the start.
    pub fn load(&mut self, drafts: Vec<Draft>)
        ensures
            final(self)@ == old(self)@.loaded(draft_views(drafts@)),
    {
        self.drafts = drafts;
        self.selected = 0;
    }

    /// Edit a saved profile in place of the live outputs.
    pub fn edit(&mut self, name: &str)
        ensures
            match config::profile_at(old(self)@.config, name@) {
                Some(i) => final(self)@ == old(self)@.opened(old(self)@.config[i]),
                None => *final(self) == *old(self),
            },
    {
        proof {
            config::lemma_profile_at(self.config@, name@);
        }
        let profile = match self.config.profile(name) {
            Some(p) => p.clone(),
            None => {
                return;
            },
        };
        self.with_serial = has_serial(&profile.outputs);
        self.editing = Some(profile.name.clone());
        self.load(entry_drafts(&profile.outputs));
        self.name = profile.name;
    }

    /// Go back to the live outputs.
    pub fn edit_live(&mut self)
        requires
            old(self).heads@.len() <= 0x7fff_ffff,
        ensures
            is_live_name(old(self)@.config, wl::ids(old(self)@.heads), final(self)@.name),
            final(self)@ == old(self)@.live(final(self)@.name),
    {
        self.editing = None;
        self.name = live_name(&self.config, &self.heads);
        self.with_serial = true;
        if !same_heads(&self.base, &self.heads) {
            self.base = live_drafts(&self.heads);
        }
        let drafts = live_drafts(&self.heads);
        self.load(drafts);
    }

    /// Takes over the live outputs as they are now.
    pub fn update_heads(&mut self, heads: Vec<Head>)
        ensures
            final(self)@ == old(self)@.with_heads(wl::head_views(heads@)),
    {
        if self.editing.is_none() && !same_heads(&self.drafts, &heads) {
            self.base = live_drafts(&heads);
            self.load(live_drafts(&heads));
        }
        self.heads = heads;
    }

    /// Says how applying went.
    pub fn report(&mut self, outcome: ApplyOutcome)
        ensures
            final(self)@ == (EditorView {
                status: match outcome {
                    ApplyOutcome::Succeeded => "applied"@,
                    ApplyOutcome::Failed => "the compositor rejected it"@,
                    ApplyOutcome::Cancelled => "cancelled, outputs changed"@,
                },
                ..old(self)@
            }),
    {
        self.status = match outcome {
            ApplyOutcome::Succeeded => "applied".to_owned(),
            ApplyOutcome::Failed => "the compositor rejected it".to_owned(),
            ApplyOutcome::Cancelled => "cancelled, outputs changed".to_owned(),
        };
    }

    /// The profile that is saved: under the name without the blanks around it.
    pub fn profile(&self) -> (r: Profile)
        ensures
            r@ == self@.profile(),
    {
        let name = text::from_chars(&text::trimmed(&text::to_chars(self.name.as_str())));
        let mut outputs: Vec<Output> = Vec::new();
        let ghost all = self@.profile().outputs;
        let n = self.drafts.len();
        for i in 0..n
            invariant
                n == self.drafts@.len(),
                all == self@.profile().outputs,
                config::output_views(outputs@) == all.take(i as int),
        {
            let o = self.drafts[i].to_output(&self.heads, self.with_serial);
            let ghost before = config::output_views(outputs@);
            assert(all[i as int] == o@);
            outputs.push(o);
            assert(config::output_views(outputs@) == before.push(o@));
            assert(all.take(i + 1) == before.push(all[i as int]));
        }
        assert(all.take(n as int) == all);
        Profile { name, outputs }
    }

    /// What to ask the compositor for. A saved profile reaches the outputs the same
    /// way the daemon applies it: through its match keys, so it only applies where
    /// it fits.
    pub fn settings(&self) -> (r: Result<Vec<OutputSetting>, ApplyError>)
        requires
            self.heads@.len() <= 0x7fff_ffff,
        ensures
            self.editing is None ==> (r matches Ok(v) && wl::setting_views(v@) == live_settings(
                self@.drafts,
            )),
            self.editing is Some ==> matching::is_applied(
                self@.profile(),
                wl::ids(self@.heads),
                r,
            ),
    {
        if self.editing.is_some() {
            profile_settings(&self.profile(), &self.heads)
        } else {
            let mut v: Vec<OutputSetting> = Vec::new();
            let ghost all = live_settings(self@.drafts);
            let n = self.drafts.len();
            for i in 0..n
                invariant
                    n == self.drafts@.len(),
                    all == live_settings(self@.drafts),
                    wl::setting_views(v@) == all.take(i as int),
            {
                let s = self.drafts[i].setting();
                let ghost before = wl::setting_views(v@);
                assert(all[i as int] == s@);
                v.push(s);
                assert(wl::setting_views(v@) == before.push(s@));
                assert(all.take(i + 1) == before.push(all[i as int]));
            }
            assert(all.take(n as int) == all);
            Ok(v)
        }
    }

    /// Whether the profile has a name.
    pub fn is_named(&self) -> (r: bool)
        ensures
            r == (text::trim(self@.name).len() > 0),
    {
        text::trimmed(&text::to_chars(self.name.as_str())).len() > 0
    }

    /// Puts the profile among the saved ones, and says whether it did: a profile
    /// needs a name. Saving an edited profile under a new name renames it.
    pub fn write_profile(&mut self, config: &mut Config) -> (r: bool)
        ensures
            r == (text::trim(old(self)@.name).len() > 0),
            r ==> final(config)@ == old(self)@.saved_in(old(config)@),
            r ==> final(self)@ == old(self)@.saved(),
            !r ==> *final(self) == *old(self) && *final(config) == *old(config),
    {
        if !self.is_named() {
            return false;
        }
        let profile = self.profile();
        if let Some(old) = &self.editing {
            if !text::same_text(old.as_str(), profile.name.as_str()) {
                config.remove(old.as_str());
            }
        }
        if self.editing.is_some() {
            self.editing = Some(profile.name.clone());
        }
        config.upsert(profile);
        true
    }

    /// The saved profiles without those of a name.
    pub fn without(&self, name: &str) -> (r: Config)
        ensures
            r@ == config::without(self@.config, name@),
    {
        let mut config = self.config.clone();
        config.remove(name);
        config
    }

    /// Goes back to the live outputs if the profile that is gone was being edited.
    pub fn close(&mut self, name: &str)
        requires
            old(self).heads@.len() <= 0x7fff_ffff,
        ensures
            old(self)@.editing != Some(name@) ==> *final(self) == *old(self),
            old(self)@.editing == Some(name@) ==> is_live_name(
                old(self)@.config,
                wl::ids(old(self)@.heads),
                final(self)@.name,
            ) && final(self)@ == old(self)@.live(final(self)@.name),
    {
        let gone = match &self.editing {
            Some(editing) => text::same_text(editing.as_str(), name),
            None => false,
        };
        if gone {
            self.edit_live();
        }
    }

    /// Puts back the layout from launch, as that of the live outputs.
    pub fn revert(&mut self)
        requires
            old(self).heads@.len() <= 0x7fff_ffff,
        ensures
            old(self)@.editing is Some ==> is_live_name(
                old(self)@.config,
                wl::ids(old(self)@.heads),
                final(self)@.name,
            ),
            final(self)@ == old(self)@.reverted(final(self)@.name),
    {
        if self.editing.is_some() {
            self.edit_live();
        }
        self.drafts = copy_drafts(&self.base);
    }
}

/// The drafts as a layout.
pub fn tiles(drafts: &Vec<Draft>) -> (r: Vec<Tile>)
    ensures
        arrange::spots(r@) == layout(draft_views(drafts@)),
{
    let mut r: Vec<Tile> = Vec::new();
    let ghost all = layout(draft_views(drafts@));
    let n = drafts.len();
    for i in 0..n
        invariant
            n == drafts@.len(),
            all == layout(draft_views(drafts@)),
            arrange::spots(r@) == all.take(i as int),
    {
        let t = drafts[i].tile();
        let ghost before = arrange::spots(r@);
        assert(all[i as int] == t@);
        r.push(t);
        assert(arrange::spots(r@) == before.push(t@));
        assert(all.take(i + 1) == before.push(all[i as int]));
    }
    assert(all.take(n as int) == all);
    r
}

/// The drafts moved to where the outputs of a layout are.
pub open spec fn moved_to(ds: Seq<DraftView>, l: Seq<arrange::Spot>) -> Seq<DraftView> {
    Seq::new(ds.len(), |i: int| DraftView { x: l[i].x, y: l[i].y, ..ds[i] })
}

/// Pulls the enabled drafts together around the one that was just dropped.
pub fn settle_drafts(drafts: &mut Vec<Draft>, moved: usize, sticky: i64)
    requires
        moved < old(drafts)@.len(),
        arrange::is_settleable(layout(draft_views(old(drafts)@)), moved, sticky as int),
        -0x10_0000_0000_0000 <= sticky <= 0x10_0000_0000_0000,
    ensures
        draft_views(final(drafts)@) == moved_to(
            draft_views(old(drafts)@),
            arrange::settled(layout(draft_views(old(drafts)@)), moved, sticky as int),
        ),
{
    let ghost start = draft_views(drafts@);
    let mut l = tiles(drafts);
    let n = drafts.len();
    assert(n == layout(start).len());
    proof {
        arrange::law_settling_only_moves(layout(start), moved, sticky as int);
    }
    arrange::settle(&mut l, moved, sticky);
    let ghost to = moved_to(start, arrange::spots(l@));
    assert(l@.len() == n) by {
        assert(arrange::spots(l@).len() == n);
    }
    for i in 0..n
        invariant
            n == drafts@.len(),
            n == start.len(),
            n == l@.len(),
            to == moved_to(start, arrange::spots(l@)),
            draft_views(drafts@) == to.take(i as int) + start.skip(i as int),
    {
        let ghost before = draft_views(drafts@);
        assert(before[i as int] == start[i as int]);
        assert(drafts@[i as int]@ == before[i as int]);
        let mut d = drafts[i].clone();
        d.x = l[i].x;
        d.y = l[i].y;
        assert(arrange::spots(l@)[i as int] == l@[i as int]@);
        assert(d@ == to[i as int]);
        drafts.set(i, d);
        assert(draft_views(drafts@) == before.update(i as int, d@));
        assert(before.update(i as int, d@) =~= to.take(i + 1) + start.skip(i + 1));
    }
    assert(to.take(n as int) + start.skip(n as int) =~= to);
}

impl Editor {
    /// Whether the layout can be settled around output `i`.
    pub fn can_settle(&self, i: usize, sticky: i64) -> (r: bool)
        requires
            i < self.drafts@.len(),
            -0x10_0000_0000_0000 <= sticky <= 0x10_0000_0000_0000,
        ensures
            r == arrange::is_settleable(layout(self@.drafts), i, sticky as int),
    {
        let mut l = tiles(&self.drafts);
        assert(l@.len() == arrange::spots(l@).len());
        arrange::try_settle(&mut l, i, sticky)
    }

    /// Settles the layout around output `i`.
    pub fn settle_from(&mut self, i: usize, sticky: i64)
        requires
            i < old(self).drafts@.len(),
            arrange::is_settleable(layout(old(self)@.drafts), i, sticky as int),
            -0x10_0000_0000_0000 <= sticky <= 0x10_0000_0000_0000,
        ensures
            final(self)@ == (EditorView {
                drafts: moved_to(
                    old(self)@.drafts,
                    arrange::settled(layout(old(self)@.drafts), i, sticky as int),
                ),
                ..old(self)@
            }),
    {
        settle_drafts(&mut self.drafts, i, sticky);
    }

    /// Where the output that is being dragged would land, and the alignments it
    /// would land on.
    pub fn preview(&self, i: usize, sticky: i64) -> (r: (Rect, Vec<Line>))
        requires
            i < self.drafts@.len(),
            arrange::is_settleable(layout(self@.drafts), i, sticky as int),
            -0x10_0000_0000_0000 <= sticky <= 0x10_0000_0000_0000,
        ensures
            (r.0)@ == arrange::target(layout(self@.drafts), i, sticky as int),
            arrange::strokes((r.1)@) == arrange::without_repeats(
                arrange::all_alignments(
                    arrange::target(layout(self@.drafts), i, sticky as int),
                    arrange::anchors(
                        arrange::areas_of(
                            layout(self@.drafts),
                            arrange::others(
                                layout(self@.drafts),
                                i as int,
                                self@.drafts.len(),
                            ),
                        ),
                    ),
                ),
            ),
    {
        let l = tiles(&self.drafts);
        assert(l@.len() == arrange::spots(l@).len());
        arrange::preview(&l, i, sticky)
    }

    /// The bounding box of the enabled outputs.
    pub fn bounds(&self) -> (r: Option<Rect>)
        requires
            arrange::all_near(layout(self@.drafts), 0x10_0000_0000_0000),
        ensures
            match r {
                Some(b) => arrange::bounding_box(layout(self@.drafts)) == Some(b@),
                None => arrange::bounding_box(layout(self@.drafts)) is None,
            },
    {
        arrange::bounds(&tiles(&self.drafts))
    }
}

/// A change to one output.
#[derive(Clone, Copy, Debug, PartialEq, Eq)]
pub enum Change {
    Enabled(bool),
    Scale(Scale),
    Mode(Option<ModeSpec>),
    Transform(Transform),
    /// Where it stands from left to right.
    X(i64),
    /// Where it stands from top to bottom.
    Y(i64),
}

/// A draft once it is changed.
pub open spec fn changed(d: DraftView, change: Change) -> DraftView {
    match change {
        Change::Enabled(enabled) => DraftView { enabled, ..d },
        Change::Scale(scale) => DraftView { scale, ..d },
        Change::Mode(mode) => DraftView { mode, ..d },
        Change::Transform(transform) => DraftView { transform, ..d },
        Change::X(x) => DraftView { x: held(x as int), ..d },
        Change::Y(y) => DraftView { y: held(y as int), ..d },
    }
}

/// A draft once it is dragged.
pub open spec fn dragged(d: DraftView, dx: int, dy: int) -> DraftView {
    DraftView { x: held(d.x + dx), y: held(d.y + dy), ..d }
}

/// A coordinate that is within reach: the nearest there is.
pub open spec fn held(v: int) -> int {
    arrange::clamp(v, -arrange::REACH, arrange::REACH as int)
}

/// Whether every draft stands within reach.
pub open spec fn in_reach(ds: Seq<DraftView>) -> bool {
    arrange::all_near(layout(ds), arrange::REACH as int)
}

fn add_held(a: i64, b: i64) -> (r: i64)
    ensures
        r == held(a + b),
{
    let sum: i128 = a as i128 + b as i128;
    if sum < -arrange::REACH as i128 {
        -arrange::REACH
    } else if sum > arrange::REACH as i128 {
        arrange::REACH
    } else {
        sum as i64
    }
}

/// A mode to choose, and how it is offered.
#[derive(Debug)]
pub struct Choice {
    pub mode: ModeSpec,
    pub label: String,
}

/// Whether the choices are these modes, the preferred ones marked.
pub open spec fn are_choices(choices: Seq<Choice>, modes: Seq<wl::Mode>) -> bool {
    &&& choices.len() == modes.len()
    &&& forall|i: int|
        0 <= i < modes.len() ==> Some((#[trigger] choices[i]).mode) == wl::mode_spec(
            Some(modes[i]),
        ) && choices[i].label@ == command::marked(modes[i], " *"@)
}

impl Draft {
    /// The modes to choose from: those of the live head this draft stands for.
    pub fn choices(&self, heads: &Vec<Head>) -> (r: Vec<Choice>)
        ensures
            (exists|i: int| #[trigger]
                is_head_of(self@, wl::head_views(heads@), i) && are_choices(
                    r@,
                    heads@[i].modes@,
                )) || r@.len() == 0 && forall|i: int|
                0 <= i < heads@.len() ==> !stands_for(self@, (#[trigger] heads@[i])@.id),
    {
        let mut r: Vec<Choice> = Vec::new();
        match self.head(heads) {
            Some(head) => {
                let ghost at = choose|i: int| #[trigger]
                    is_head_of(self@, wl::head_views(heads@), i) && *head == heads@[i];
                let n = head.modes.len();
                for i in 0..n
                    invariant
                        n == head.modes@.len(),
                        are_choices(r@, head.modes@.take(i as int)),
                {
                    let mode = head.modes[i];
                    r.push(Choice { mode: ModeSpec::from(mode), label: mode_label(&mode, " *") });
                    let ghost shown = head.modes@.take(i + 1);
                    assert forall|k: int| 0 <= k < shown.len() implies Some(
                        (#[trigger] r@[k]).mode,
                    ) == wl::mode_spec(Some(shown[k])) && r@[k].label@ == command::marked(
                        shown[k],
                        " *"@,
                    ) by {
                        if k < i {
                            assert(shown[k] == head.modes@.take(i as int)[k]);
                        }
                    }
                }
                assert(head.modes@.take(n as int) == head.modes@);
                assert(is_head_of(self@, wl::head_views(heads@), at));
                r
            },
            None => r,
        }
    }

    /// What is written on the output in the layout; `scale` is how its scale is
    /// written.
    pub fn caption(&self, scale: &str) -> (r: String)
        ensures
            r@ == draft_short_name(self@) + "\n"@ + number::show_int(draft_size(self@).0 as int)
                + "×"@ + number::show_int(draft_size(self@).1 as int) + " @ "@ + scale@,
    {
        let (width, height) = self.size();
        let mut r = self.short_name().to_owned();
        r.append("\n");
        r.append(number::int_text(width as i64).as_str());
        r.append("×");
        r.append(number::int_text(height as i64).as_str());
        r.append(" @ ");
        r.append(scale);
        r
    }
}

impl Editor {
    /// Changes the output that is selected, if there is one, and says whether there
    /// was.
    pub fn change(&mut self, change: Change) -> (r: bool)
        ensures
            r == (old(self)@.selected < old(self)@.drafts.len()),
            final(self)@ == (if r {
                EditorView {
                    drafts: old(self)@.drafts.update(
                        old(self)@.selected as int,
                        changed(old(self)@.drafts[old(self)@.selected as int], change),
                    ),
                    ..old(self)@
                }
            } else {
                old(self)@
            }),
    {
        let i = self.selected;
        if i >= self.drafts.len() {
            return false;
        }
        let mut d = self.drafts[i].clone();
        match change {
            Change::Enabled(enabled) => {
                d.enabled = enabled;
            },
            Change::Scale(scale) => {
                d.scale = scale;
            },
            Change::Mode(mode) => {
                d.mode = mode;
            },
            Change::Transform(transform) => {
                d.transform = transform;
            },
            Change::X(x) => {
                d.x = add_held(x, 0);
            },
            Change::Y(y) => {
                d.y = add_held(y, 0);
            },
        }
        self.drafts.set(i, d);
        assert(draft_views(self.drafts@) =~= old(self)@.drafts.update(i as int, d@));
        true
    }

    /// Drags output `i`, freely: gaps and overlaps last until it is dropped.
    pub fn drag(&mut self, i: usize, dx: i64, dy: i64)
        requires
            i < old(self).drafts@.len(),
        ensures
            final(self)@ == (EditorView {
                drafts: old(self)@.drafts.update(
                    i as int,
                    dragged(old(self)@.drafts[i as int], dx as int, dy as int),
                ),
                ..old(self)@
            }),
    {
        let mut d = self.drafts[i].clone();
        d.x = add_held(d.x, dx);
        d.y = add_held(d.y, dy);
        self.drafts.set(i, d);
        assert(draft_views(self.drafts@) =~= old(self)@.drafts.update(i as int, d@));
    }

    /// For each saved profile, whether it matches the connected outputs.
    pub fn matching_profiles(&self) -> (r: Vec<bool>)
        requires
            self.heads@.len() <= 0x7fff_ffff,
        ensures
            r@.len() == self@.config.len(),
            forall|i: int|
                0 <= i < r@.len() ==> #[trigger] r@[i] == matching::matches_heads(
                    self@.config[i],
                    wl::ids(self@.heads),
                ),
    {
        let mut r: Vec<bool> = Vec::new();
        let n = self.config.profiles.len();
        for i in 0..n
            invariant
                n == self.config.profiles@.len(),
                self.heads@.len() <= 0x7fff_ffff,
                r@.len() == i,
                forall|k: int|
                    0 <= k < i ==> #[trigger] r@[k] == matching::matches_heads(
                        self@.config[k],
                        wl::ids(self@.heads),
                    ),
        {
            assert(self@.config[i as int] == self.config.profiles@[i as int]@);
            r.push(match_profile(&self.config.profiles[i], &self.heads).is_some());
        }
        r
    }
}

/// What is new of the outputs since they were last looked at.
#[derive(Debug)]
pub struct News {
    /// The outputs, if their state is another.
    pub heads: Option<Vec<Head>>,
    /// What the compositor made of the last configuration, if it answered.
    pub outcome: Option<ApplyOutcome>,
}

/// What is new of the outputs; `seen` is the state of them last looked at.
pub fn news(state: &mut OutputState, seen: &mut u64) -> (r: News)
    ensures
        *final(seen) == old(state)@.generation,
        final(state)@ == state::outcome_taken(old(state)@),
        r.outcome == old(state)@.outcome,
        match r.heads {
            Some(heads) => old(state)@.generation != *old(seen) && wl::head_views(heads@) == old(
                state,
            )@.snapshot(),
            None => old(state)@.generation == *old(seen),
        },
{
    let heads = if state.generation() != *seen {
        *seen = state.generation();
        Some(state.snapshot().heads)
    } else {
        None
    };
    News { heads, outcome: state.take_outcome() }
}

/// A whole pixel is the nearest pixel to where it is.
proof fn lemma_pixel(p: i32)
    ensures
        pixel_of(p * arrange::PIXEL) == p,
{
    let v = p as int * 256;
    if v < 0 {
        assert((-v + 128) / 256 == -p);
    } else {
        assert((v + 128) / 256 == p);
    }
    assert(arrange::whole(v) == v);
    assert(v / 256 == p);
}

/// A layout is within reach where the corner of every draft is: none is too large.
proof fn lemma_in_reach(ds: Seq<DraftView>)
    requires
        forall|k: int|
            0 <= k < ds.len() ==> held((#[trigger] ds[k]).x) == ds[k].x && held(ds[k].y) == ds[k].y,
    ensures
        in_reach(ds),
{
    assert forall|k: int| 0 <= k < layout(ds).len() implies arrange::is_near(
        #[trigger] layout(ds)[k],
        arrange::REACH as int,
    ) by {
        assert(held(ds[k].x) == ds[k].x);
        assert(layout(ds)[k] == draft_spot(ds[k]));
    }
}

/// Outputs stand within reach wherever they come from.
pub proof fn law_outputs_start_within_reach(
    heads: Seq<wl::HeadView>,
    outputs: Seq<config::OutputView>,
)
    ensures
        in_reach(drafts_of_heads(heads)),
        in_reach(drafts_of_entries(outputs)),
{
    lemma_in_reach(drafts_of_heads(heads));
    lemma_in_reach(drafts_of_entries(outputs));
}

/// An output that is changed or dragged stays within reach.
pub proof fn law_an_edit_stays_within_reach(
    ds: Seq<DraftView>,
    i: int,
    change: Change,
    dx: int,
    dy: int,
)
    requires
        0 <= i < ds.len(),
        in_reach(ds),
    ensures
        in_reach(ds.update(i, changed(ds[i], change))),
        in_reach(ds.update(i, dragged(ds[i], dx, dy))),
{
    assert forall|k: int| 0 <= k < ds.len() implies held((#[trigger] ds[k]).x) == ds[k].x && held(
        ds[k].y,
    ) == ds[k].y by {
        assert(arrange::is_near(layout(ds)[k], arrange::REACH as int));
    }
    lemma_in_reach(ds.update(i, changed(ds[i], change)));
    lemma_in_reach(ds.update(i, dragged(ds[i], dx, dy)));
}

/// Outputs that are settled stay within reach.
pub proof fn law_settling_stays_within_reach(ds: Seq<DraftView>, moved: usize, sticky: int)
    requires
        moved < ds.len() <= usize::MAX,
        arrange::is_settleable(layout(ds), moved, sticky),
    ensures
        in_reach(moved_to(ds, arrange::settled(layout(ds), moved, sticky))),
{
    arrange::law_settling_only_moves(layout(ds), moved, sticky);
    let m = arrange::settled(layout(ds), moved, sticky);
    let to = moved_to(ds, m);
    assert forall|k: int| 0 <= k < to.len() implies held((#[trigger] to[k]).x) == to[k].x && held(
        to[k].y,
    ) == to[k].y by {
        assert(arrange::is_near(m[k], arrange::REACH as int));
    }
    lemma_in_reach(to);
}

/// What can happen in the arranger.
pub enum Event {
    /// The live outputs are reported anew.
    Heads(Seq<wl::HeadView>),
    /// A saved profile is opened.
    Opened(config::ProfileView),
    /// Back to the live outputs, under this name.
    Live(Seq<char>),
    /// The layout from launch is put back, with this name for the live outputs.
    Reverted(Seq<char>),
    /// An output is selected.
    Selected(usize),
    /// The output that is selected is changed.
    Changed(Change),
    /// An output is dragged.
    Dragged(usize, int, int),
    /// The layout is settled around an output.
    Settled(usize, int),
    /// Other profiles are saved.
    Saved(Seq<config::ProfileView>),
    /// Another name and another choice whether to ask for an exact monitor.
    Named(Seq<char>, bool),
    /// Something else to say.
    Said(Seq<char>),
}

impl EditorView {
    /// With another draft in the place of the one at `i`, if there is one.
    pub open spec fn with_draft(self, i: usize, d: DraftView) -> EditorView {
        if i < self.drafts.len() {
            EditorView { drafts: self.drafts.update(i as int, d), ..self }
        } else {
            self
        }
    }

    /// Once one such thing has happened.
    pub open spec fn after(self, event: Event) -> EditorView {
        match event {
            Event::Heads(heads) => self.with_heads(heads),
            Event::Opened(p) => self.opened(p),
            Event::Live(name) => self.live(name),
            Event::Reverted(name) => self.reverted(name),
            Event::Selected(selected) => EditorView { selected, ..self },
            Event::Changed(change) => self.with_draft(
                self.selected,
                changed(self.drafts[self.selected as int], change),
            ),
            Event::Dragged(i, dx, dy) => self.with_draft(i, dragged(self.drafts[i as int], dx, dy)),
            Event::Settled(i, sticky) => EditorView {
                drafts: moved_to(
                    self.drafts,
                    arrange::settled(layout(self.drafts), i, sticky),
                ),
                ..self
            },
            Event::Saved(config) => EditorView { config, ..self },
            Event::Named(name, with_serial) => EditorView { name, with_serial, ..self },
            Event::Said(status) => EditorView { status, ..self },
        }
    }

    /// Once they have all happened, one by one.
    pub open spec fn after_all(self, events: Seq<Event>) -> EditorView
        decreases events.len(),
    {
        if events.len() == 0 {
            self
        } else {
            self.after_all(events.drop_last()).after(events.last())
        }
    }

    /// Whether no other outputs than those of launch are shown live: while a profile
    /// is open any may be reported, but those of launch are back when it is left.
    pub open spec fn stays_with(self, launch: Seq<wl::HeadView>, event: Event) -> bool {
        match event {
            Event::Heads(heads) => self.editing is Some || same_ids(wl::ids(heads), wl::ids(launch)),
            Event::Live(_) | Event::Reverted(_) => self.editing is Some ==> same_ids(
                wl::ids(self.heads),
                wl::ids(launch),
            ),
            _ => true,
        }
    }
}

/// Whether the same outputs are in two lists, in whatever order.
pub open spec fn same_ids(a: Seq<wl::IdView>, b: Seq<wl::IdView>) -> bool {
    &&& a.len() == b.len()
    &&& forall|id: wl::IdView| #[trigger] a.contains(id) <==> b.contains(id)
}

/// The outputs that drafts are of.
pub open spec fn draft_ids(ds: Seq<DraftView>) -> Seq<wl::IdView> {
    ds.map_values(|d: DraftView| d.id)
}

/// Drafts of the same outputs as a list are drafts of the outputs in it.
proof fn lemma_drafts_of_same(ds: Seq<DraftView>, ids: Seq<wl::IdView>)
    requires
        same_ids(draft_ids(ds), ids),
    ensures
        are_drafts_of(ds, ids),
{
    assert forall|i: int| 0 <= i < ds.len() implies ids.contains((#[trigger] ds[i]).id) by {
        assert(draft_ids(ds)[i] == ds[i].id);
        assert(draft_ids(ds).contains(ds[i].id));
    }
}

/// The drafts of live outputs are of those outputs.
proof fn lemma_live_ids(heads: Seq<wl::HeadView>)
    ensures
        draft_ids(drafts_of_heads(heads)) == wl::ids(heads),
{
    assert(draft_ids(drafts_of_heads(heads)) =~= wl::ids(heads));
}

/// An edit changes no output for another.
proof fn lemma_edits_keep_ids(e: EditorView, event: Event)
    requires
        event is Selected || event is Changed || event is Dragged || event is Settled,
    ensures
        draft_ids(e.after(event).drafts) == draft_ids(e.drafts),
{
    assert(draft_ids(e.after(event).drafts) =~= draft_ids(e.drafts));
}

/// What holds on the way from launch: the state to revert to is kept, and the live
/// drafts are of the outputs of launch.
spec fn remembers(e: EditorView, launch: Seq<wl::HeadView>) -> bool {
    &&& e.base == drafts_of_heads(launch)
    &&& e.editing is None ==> same_ids(draft_ids(e.drafts), wl::ids(launch)) && same_ids(
        wl::ids(e.heads),
        wl::ids(launch),
    )
}

/// The way from launch, one step on.
proof fn lemma_remembers(e: EditorView, launch: Seq<wl::HeadView>, event: Event)
    requires
        remembers(e, launch),
        e.stays_with(launch, event),
    ensures
        remembers(e.after(event), launch),
{
    lemma_live_ids(launch);
    match event {
        Event::Heads(heads) => {
            if e.editing is None {
                assert(same_ids(draft_ids(e.drafts), wl::ids(heads)));
                lemma_drafts_of_same(e.drafts, wl::ids(heads));
            }
        },
        Event::Live(_) | Event::Reverted(_) => {
            assert(same_ids(draft_ids(e.base), wl::ids(e.heads)));
            lemma_drafts_of_same(e.base, wl::ids(e.heads));
            lemma_live_ids(e.heads);
        },
        Event::Selected(_) | Event::Changed(_) | Event::Dragged(_, _, _) | Event::Settled(_, _) => {
            lemma_edits_keep_ids(e, event);
        },
        _ => {},
    }
}

/// The way from launch, to its end.
proof fn lemma_remembers_all(
    e: EditorView,
    launch: Seq<wl::HeadView>,
    events: Seq<Event>,
    n: int,
)
    requires
        0 <= n <= events.len(),
        remembers(e, launch),
        forall|i: int|
            0 <= i < events.len() ==> e.after_all(events.take(i)).stays_with(
                launch,
                #[trigger] events[i],
            ),
    ensures
        remembers(e.after_all(events.take(n)), launch),
    decreases n,
{
    if n > 0 {
        lemma_remembers_all(e, launch, events, n - 1);
        assert(events.take(n).drop_last() == events.take(n - 1));
        assert(events.take(n).last() == events[n - 1]);
        lemma_remembers(e.after_all(events.take(n - 1)), launch, events[n - 1]);
    }
}

/// Revert puts back the layout from launch, as a live one, whatever has been edited,
/// opened, saved or reported since. The outputs of launch have to be connected
/// whenever the live outputs are shown; while a profile is open, they may go and come
/// back.
pub proof fn law_revert_puts_back_the_launch_layout(
    e: EditorView,
    launch: Seq<wl::HeadView>,
    events: Seq<Event>,
    name: Seq<char>,
)
    requires
        e.heads == launch,
        e.base == drafts_of_heads(launch),
        e.drafts == drafts_of_heads(launch),
        e.editing is None,
        forall|i: int|
            0 <= i < events.len() ==> e.after_all(events.take(i)).stays_with(
                launch,
                #[trigger] events[i],
            ),
        e.after_all(events).stays_with(launch, Event::Reverted(name)),
    ensures
        e.after_all(events).reverted(name).drafts == drafts_of_heads(launch),
        e.after_all(events).reverted(name).editing is None,
        live_settings(e.after_all(events).reverted(name).drafts) == live_settings(
            drafts_of_heads(launch),
        ),
{
    lemma_live_ids(launch);
    lemma_remembers_all(e, launch, events, events.len() as int);
    assert(events.take(events.len() as int) == events);
    lemma_remembers(e.after_all(events), launch, Event::Reverted(name));
    let end = e.after_all(events);
    if end.editing is Some {
        assert(same_ids(draft_ids(end.base), wl::ids(end.heads)));
        lemma_drafts_of_same(end.base, wl::ids(end.heads));
    }
}

/// Whether the live outputs are those of the drafts, and those to revert to.
pub open spec fn is_current(e: EditorView) -> bool {
    e.editing is None ==> {
        &&& are_drafts_of(e.base, draft_ids(e.drafts))
        &&& are_drafts_of(e.drafts, wl::ids(e.heads))
    }
}

/// Revert never goes back to outputs that are gone: whatever happens, what it puts
/// back is a layout of the outputs that are connected.
pub proof fn law_revert_is_to_connected_outputs(e: EditorView, event: Event, name: Seq<char>)
    requires
        is_current(e),
    ensures
        is_current(e.after(event)),
        are_drafts_of(e.reverted(name).drafts, wl::ids(e.heads)),
{
    let f = e.after(event);
    match event {
        Event::Heads(heads) => {
            lemma_own_drafts(drafts_of_heads(heads));
            lemma_live_ids(heads);
        },
        Event::Live(_) => {
            lemma_own_drafts(drafts_of_heads(e.heads));
            lemma_live_ids(e.heads);
        },
        Event::Reverted(_) => {
            lemma_own_drafts(f.drafts);
        },
        Event::Selected(_) | Event::Changed(_) | Event::Dragged(_, _, _) | Event::Settled(_, _) => {
            lemma_edits_keep_ids(e, event);
            assert(f.drafts.len() == draft_ids(f.drafts).len());
            assert forall|i: int| 0 <= i < f.drafts.len() implies (#[trigger] f.drafts[i]).id
                == e.drafts[i].id by {
                assert(draft_ids(f.drafts)[i] == draft_ids(e.drafts)[i]);
            }
        },
        _ => {},
    }
    lemma_live_ids(e.heads);
    lemma_own_drafts(drafts_of_heads(e.heads));
    if e.editing is None {
        lemma_among(e.base, e.drafts, wl::ids(e.heads));
    }
}

/// Drafts are drafts of their own outputs.
proof fn lemma_own_drafts(ds: Seq<DraftView>)
    ensures
        are_drafts_of(ds, draft_ids(ds)),
{
    lemma_drafts_of_same(ds, draft_ids(ds));
}

/// What is among the outputs of drafts is among the outputs that these are of.
proof fn lemma_among(ds: Seq<DraftView>, other: Seq<DraftView>, ids: Seq<wl::IdView>)
    requires
        are_drafts_of(ds, draft_ids(other)),
        are_drafts_of(other, ids),
    ensures
        are_drafts_of(ds, ids),
{
    assert forall|i: int| 0 <= i < ds.len() implies ids.contains((#[trigger] ds[i]).id) by {
        assert(draft_ids(other).contains(ds[i].id));
        let k = choose|k: int| 0 <= k < draft_ids(other).len() && draft_ids(other)[k] == ds[i].id;
        assert(ids.contains(other[k].id));
    }
}

/// Saving a layout that nobody has edited saves the live outputs as they are,
/// whether it is asked for by name or in the arranger. An output in no mode at all
/// is the exception: the arranger offers its preferred mode.
pub proof fn law_an_unedited_layout_saves_as_it_is(
    heads: Seq<wl::HeadView>,
    i: int,
    with_serial: bool,
)
    requires
        0 <= i < heads.len(),
        heads[i].current_mode == heads[i].mode(),
    ensures
        draft_entry(draft_of_head(heads[i]), wl::ids(heads), with_serial) == config::entry_of(
            heads[i],
            with_serial,
        ),
{
    assert(wl::ids(heads)[i] == heads[i].id);
    lemma_pixel(heads[i].position.0);
    lemma_pixel(heads[i].position.1);
}

/// Applying a layout that nobody has edited asks for what is there already; the
/// scale is snapped to the steps that the compositor takes.
pub proof fn law_an_unedited_layout_applies_as_it_is(h: wl::HeadView)
    requires
        h.current_mode == h.mode(),
    ensures
        draft_setting(draft_of_head(h)) == (wl::SettingView {
            scale: Some(Scale::of_steps(h.scale.steps())),
            ..wl::current_setting(h)
        }),
{
    lemma_pixel(h.position.0);
    lemma_pixel(h.position.1);
}

/// An entry of a profile round-trips through a draft: every setting that it has is
/// kept, and so are its match keys, but for the serial where the profile is not to
/// ask for an exact monitor.
pub proof fn law_an_entry_round_trips_through_a_draft(
    o: config::OutputView,
    ids: Seq<wl::IdView>,
    m: ModeSpec,
    t: Transform,
)
    requires
        o.position is Some,
        o.scale is Some,
        o.scale->0.thousandths() == o.scale->0,
        o.mode == Some(wl::mode_text(m)) || o.mode is None,
        o.transform == Some(wl::name_of(t)),
    ensures
        draft_entry(draft_of_entry(o), ids, true) == o,
        draft_entry(draft_of_entry(o), ids, false) == (config::OutputView { serial: None, ..o }),
{
    lemma_pixel((o.position->0).0);
    lemma_pixel((o.position->0).1);
    wl::law_mode_text_round_trips(m);
    wl::law_transform_names_round_trip(t);
}

/// Saving puts the profile under its name. Where a saved profile was being edited
/// and has another name now, nothing is left under the old one; every profile of
/// neither name is still there.
pub proof fn law_saving_renames(e: EditorView, ps: Seq<config::ProfileView>)
    ensures
        ({
            let after = e.saved_in(ps);
            let p = e.profile();
            &&& config::profile_at(after, p.name) matches Some(i) && after[i] == p
            &&& e.editing is Some && e.editing->0 != p.name ==> config::profile_at(
                after,
                e.editing->0,
            ) is None
            &&& forall|i: int|
                0 <= i < ps.len() && (#[trigger] ps[i]).name != p.name && e.editing != Some(
                    ps[i].name,
                ) ==> after.contains(ps[i])
        }),
{
    let p = e.profile();
    let renamed = e.editing is Some && e.editing->0 != p.name;
    let kept = if renamed {
        config::without(ps, e.editing->0)
    } else {
        ps
    };
    let after = e.saved_in(ps);
    config::law_upsert_is_found(kept, p);
    config::law_upsert_keeps_the_rest(kept, p);
    if renamed {
        let old = e.editing->0;
        config::law_removed_is_gone(ps, old);
        config::lemma_profile_at(kept, old);
        config::lemma_profile_at(after, old);
        config::lemma_profile_at(kept, p.name);
        if config::profile_at(after, old) is Some {
            let k = config::profile_at(after, old)->0;
            if k < kept.len() {
                assert(after[k].name == kept[k].name);
            }
        }
    }
    assert forall|i: int|
        0 <= i < ps.len() && (#[trigger] ps[i]).name != p.name && e.editing != Some(
            ps[i].name,
        ) implies after.contains(ps[i]) by {
        assert(kept.contains(ps[i]));
        let k = choose|k: int| 0 <= k < kept.len() && kept[k] == ps[i];
        assert(after[k] == ps[i]);
    }
}

/// The footprint of a draft is its mode at its scale, lying down or standing up: a turn
/// by 90 or 270 degrees, mirrored or not, swaps width and height, and no other transform
/// does. Where there is no mode, the screen is taken to be 1920 by 1080.
pub proof fn law_a_quarter_turn_swaps_the_footprint(d: DraftView)
    ensures
        ({
            let width = match d.mode {
                Some(m) => m.width,
                None => 1920i32,
            };
            let height = match d.mode {
                Some(m) => m.height,
                None => 1080i32,
            };
            let lying = (
                wl::logical(width, d.scale.steps()),
                wl::logical(height, d.scale.steps()),
            );
            let standing = (lying.1, lying.0);
            match d.transform {
                Transform::Normal => draft_size(d) == lying,
                Transform::_90 => draft_size(d) == standing,
                Transform::_180 => draft_size(d) == lying,
                Transform::_270 => draft_size(d) == standing,
                Transform::Flipped => draft_size(d) == lying,
                Transform::Flipped90 => draft_size(d) == standing,
                Transform::Flipped180 => draft_size(d) == lying,
                Transform::Flipped270 => draft_size(d) == standing,
            }
        }),
{
}

/// The footprint of a live output in the arranger is the compositor's own: the logical
/// size of the head, whatever its mode, its scale and its transform.
pub proof fn law_the_footprint_is_the_logical_size(h: wl::HeadView)
    requires
        h.scale.is_carried(),
    ensures
        draft_size(draft_of_head(h)).0 == wl::logical(h.pixels().0, h.scale.steps()),
        draft_size(draft_of_head(h)).1 == wl::logical(h.pixels().1, h.scale.steps()),
{
    scale::law_quantized_scale_is_stable(h.scale);
}

/// A draft is laid out where it stands, as large as its footprint, in whole pixels, and
/// takes part if it is enabled.
pub proof fn law_a_draft_is_laid_out_as_it_is(ds: Seq<DraftView>, i: int)
    requires
        0 <= i < ds.len(),
    ensures
        layout(ds).len() == ds.len(),
        layout(ds)[i].x == ds[i].x,
        layout(ds)[i].y == ds[i].y,
        layout(ds)[i].width == draft_size(ds[i]).0 * 256,
        layout(ds)[i].height == draft_size(ds[i]).1 * 256,
        layout(ds)[i].enabled == ds[i].enabled,
{
}

/// The draft of a live output has everything of its head: identity, state, position in
/// pixels, transform, the mode it is in or prefers, and the scale that the compositor
/// makes of it. It has no match keys of its own.
pub proof fn law_a_live_draft_shows_its_head(h: wl::HeadView)
    ensures
        ({
            let d = draft_of_head(h);
            &&& d.id == h.id
            &&& d.keys is None
            &&& d.enabled == h.enabled
            &&& d.x == h.position.0 * 256
            &&& d.y == h.position.1 * 256
            &&& d.transform == h.transform
            &&& d.scale == Scale::of_steps(h.scale.steps())
            &&& h.mode() is None ==> d.mode is None
            &&& h.mode() matches Some(m) ==> (d.mode matches Some(w) && w.width == m.width
                && w.height == m.height && w.refresh == Some(m.refresh))
        }),
{
}

/// The draft of an entry has everything that the entry says, and keeps the entry itself
/// for its match keys. What the entry does not say, or says so that it cannot be read,
/// is plain: the origin, scale one, no mode, upright.
pub proof fn law_a_saved_draft_shows_its_entry(o: config::OutputView)
    ensures
        ({
            let d = draft_of_entry(o);
            &&& d.keys == Some(o)
            &&& d.enabled == o.enabled
            &&& o.connector matches Some(x) ==> d.id.connector == x
            &&& o.make matches Some(x) ==> d.id.make == x
            &&& o.model matches Some(x) ==> d.id.model == x
            &&& o.serial matches Some(x) ==> d.id.serial == x
            &&& o.connector is None ==> d.id.connector.len() == 0
            &&& o.make is None ==> d.id.make.len() == 0
            &&& o.model is None ==> d.id.model.len() == 0
            &&& o.serial is None ==> d.id.serial.len() == 0
            &&& o.position matches Some(p) ==> d.x == p.0 * 256 && d.y == p.1 * 256
            &&& o.position is None ==> d.x == 0 && d.y == 0
            &&& o.scale matches Some(x) ==> d.scale == x
            &&& o.scale is None ==> d.scale.bits == scale::ONE
            &&& o.mode matches Some(x) ==> (d.mode matches Some(m) && wl::parse_mode(x) == Ok::<
                ModeSpec,
                wl::SettingErrorView,
            >(m)) || (d.mode is None && wl::parse_mode(x) is Err)
            &&& o.mode is None ==> d.mode is None
            &&& o.transform matches Some(x) ==> wl::transform_named(x) == Some(d.transform) || (
            wl::transform_named(x) is None && d.transform == Transform::Normal)
            &&& o.transform is None ==> d.transform == Transform::Normal
        }),
{
}

/// A coordinate is saved and applied as the nearest whole pixel; exactly between two, as
/// the one farther from the origin.
pub proof fn law_a_coordinate_goes_to_the_nearest_pixel(v: int)
    requires
        i32::MIN * 256 <= v <= i32::MAX * 256,
    ensures
        -128 <= pixel_of(v) * 256 - v <= 128,
        v >= 0 ==> pixel_of(v) * 256 - v > -128,
        v <= 0 ==> pixel_of(v) * 256 - v < 128,
{
    let p = pixel_of(v) as int;
    if v < 0 {
        let q = (-v + 128) / 256;
        assert(arrange::whole(v) == -(q * 256));
        assert(-(q * 256) / 256 == -q);
        assert(q * 256 <= -v + 128 < q * 256 + 256);
        assert(q <= 0x8000_0000);
    } else {
        let q = (v + 128) / 256;
        assert(arrange::whole(v) == q * 256);
        assert(q * 256 / 256 == q);
        assert(q * 256 <= v + 128 < q * 256 + 256);
        assert(q <= 0x7fff_ffff);
    }
}

/// What a live draft asks for is what it shows: of its own output, to be enabled or not,
/// at the nearest pixel, in its scale, its mode and its transform.
pub proof fn law_a_live_draft_asks_for_what_it_shows(d: DraftView)
    ensures
        ({
            let s = draft_setting(d);
            &&& s.id == d.id
            &&& s.enabled == d.enabled
            &&& s.position == Some((pixel_of(d.x), pixel_of(d.y)))
            &&& s.scale == Some(d.scale)
            &&& s.mode == d.mode
            &&& s.transform == Some(d.transform)
        }),
{
}

/// The settings of a live layout are those of its drafts, each in its place.
pub proof fn law_a_live_layout_asks_for_every_draft(ds: Seq<DraftView>, i: int)
    requires
        0 <= i < ds.len(),
    ensures
        live_settings(ds).len() == ds.len(),
        live_settings(ds)[i] == draft_setting(ds[i]),
{
}

/// What a draft is saved as. It is what the draft shows: enabled or not, at the nearest
/// pixel, in its scale to thousandths, with texts that read back as its mode and its
/// transform. A draft of an entry keeps the match keys of the entry, but for the serial
/// where no exact monitor is asked for; a live one is saved by the keys of its output.
pub proof fn law_a_draft_is_saved_as_it_shows(
    d: DraftView,
    ids: Seq<wl::IdView>,
    with_serial: bool,
)
    ensures
        ({
            let o = draft_entry(d, ids, with_serial);
            &&& o.enabled == d.enabled
            &&& o.position == Some((pixel_of(d.x), pixel_of(d.y)))
            &&& o.scale == Some(d.scale.thousandths())
            &&& d.mode is None ==> o.mode is None
            &&& d.mode matches Some(m) ==> (o.mode matches Some(t) && wl::parse_mode(t) == Ok::<
                ModeSpec,
                wl::SettingErrorView,
            >(m))
            &&& (o.transform matches Some(t) && wl::transform_named(t) == Some(d.transform))
            &&& d.keys matches Some(k) ==> {
                &&& o.connector == k.connector
                &&& o.make == k.make
                &&& o.model == k.model
                &&& with_serial ==> o.serial == k.serial
                &&& !with_serial ==> o.serial is None
            }
            &&& d.keys is None && ids.contains(d.id) ==> {
                let k = config::keys_of(d.id, with_serial);
                &&& o.connector == k.connector
                &&& o.make == k.make
                &&& o.model == k.model
                &&& o.serial == k.serial
                &&& matching::keys_agree(o, d.id)
            }
            &&& d.keys is None && !ids.contains(d.id) ==> o.connector is None && o.make is None
                && o.model is None && o.serial is None
        }),
{
    wl::law_transform_names_round_trip(d.transform);
    match d.mode {
        Some(m) => {
            wl::law_mode_text_round_trips(m);
        },
        None => {},
    }
}

/// The profile that is saved has an entry for every draft, in their order, and the name
/// without the blanks around it.
pub proof fn law_a_profile_has_every_draft(e: EditorView, i: int)
    requires
        0 <= i < e.drafts.len(),
    ensures
        e.profile().name == text::trim(e.name),
        e.profile().outputs.len() == e.drafts.len(),
        e.profile().outputs[i] == draft_entry(e.drafts[i], wl::ids(e.heads), e.with_serial),
{
}

/// A change is to one thing of a draft: that is as asked for, and everything else of the
/// draft is as it was.
pub proof fn law_a_change_is_to_one_thing(d: DraftView, change: Change)
    ensures
        ({
            let c = changed(d, change);
            &&& c.id == d.id
            &&& c.keys == d.keys
            &&& c.enabled == (if let Change::Enabled(on) = change {
                on
            } else {
                d.enabled
            })
            &&& c.scale == (if let Change::Scale(s) = change {
                s
            } else {
                d.scale
            })
            &&& c.mode == (if let Change::Mode(m) = change {
                m
            } else {
                d.mode
            })
            &&& c.transform == (if let Change::Transform(t) = change {
                t
            } else {
                d.transform
            })
            &&& !(change is X) ==> c.x == d.x
            &&& !(change is Y) ==> c.y == d.y
            &&& change matches Change::X(x) ==> -arrange::REACH <= x <= arrange::REACH ==> c.x == x
            &&& change matches Change::Y(y) ==> -arrange::REACH <= y <= arrange::REACH ==> c.y == y
        }),
{
}

/// A drag moves a draft by as much as it is dragged, and changes nothing else of it.
pub proof fn law_a_drag_only_moves(d: DraftView, dx: int, dy: int)
    ensures
        ({
            let c = dragged(d, dx, dy);
            &&& c.id == d.id
            &&& c.keys == d.keys
            &&& c.enabled == d.enabled
            &&& c.scale == d.scale
            &&& c.mode == d.mode
            &&& c.transform == d.transform
            &&& -arrange::REACH <= d.x + dx <= arrange::REACH ==> c.x == d.x + dx
            &&& -arrange::REACH <= d.y + dy <= arrange::REACH ==> c.y == d.y + dy
        }),
{
}

/// Settling moves the drafts to where their outputs have settled, and changes nothing
/// else of them.
pub proof fn law_settling_moves_the_drafts(ds: Seq<DraftView>, l: Seq<arrange::Spot>, i: int)
    requires
        0 <= i < ds.len(),
    ensures
        moved_to(ds, l).len() == ds.len(),
        moved_to(ds, l)[i].x == l[i].x,
        moved_to(ds, l)[i].y == l[i].y,
        moved_to(ds, l)[i].id == ds[i].id,
        moved_to(ds, l)[i].keys == ds[i].keys,
        moved_to(ds, l)[i].enabled == ds[i].enabled,
        moved_to(ds, l)[i].scale == ds[i].scale,
        moved_to(ds, l)[i].mode == ds[i].mode,
        moved_to(ds, l)[i].transform == ds[i].transform,
{
}

/// Opening a profile shows its entries, each in its place, under its name, and asks for
/// exact monitors if one of its entries does. The live outputs and what to revert to
/// stay as they are.
pub proof fn law_an_opened_profile_is_shown(e: EditorView, p: config::ProfileView, i: int)
    requires
        0 <= i < p.outputs.len(),
    ensures
        e.opened(p).name == p.name,
        e.opened(p).editing == Some(p.name),
        e.opened(p).drafts.len() == p.outputs.len(),
        e.opened(p).drafts[i] == draft_of_entry(p.outputs[i]),
        e.opened(p).selected == 0,
        p.outputs[i].serial is Some ==> e.opened(p).with_serial,
        !e.opened(p).with_serial ==> p.outputs[i].serial is None,
        e.opened(p).with_serial ==> exists|j: int|
            0 <= j < p.outputs.len() && (#[trigger] p.outputs[j]).serial is Some,
        e.opened(p).heads == e.heads,
        e.opened(p).base == e.base,
        e.opened(p).config == e.config,
{
}

/// Back on the live outputs, every head has its draft, each in its place, no profile is
/// being edited, and exact monitors are asked for.
pub proof fn law_the_live_outputs_are_shown(e: EditorView, name: Seq<char>, i: int)
    requires
        0 <= i < e.heads.len(),
    ensures
        e.live(name).name == name,
        e.live(name).editing is None,
        e.live(name).with_serial,
        e.live(name).drafts.len() == e.heads.len(),
        e.live(name).drafts[i] == draft_of_head(e.heads[i]),
        e.live(name).selected == 0,
        e.live(name).heads == e.heads,
        e.live(name).config == e.config,
{
}

/// A report of the outputs is taken over. The edits in progress survive it while a
/// profile is open, and while it is of the outputs that the drafts are of, in whatever
/// order and however they are set; else the drafts, and what to revert to, are those of
/// the outputs reported.
pub proof fn law_a_report_keeps_the_edits(e: EditorView, heads: Seq<wl::HeadView>)
    ensures
        ({
            let f = e.with_heads(heads);
            let same = e.drafts.len() == heads.len() && forall|i: int|
                0 <= i < e.drafts.len() ==> exists|j: int|
                    0 <= j < heads.len() && (#[trigger] heads[j]).id == (#[trigger] e.drafts[i]).id;
            &&& f.heads == heads
            &&& f.name == e.name
            &&& f.with_serial == e.with_serial
            &&& f.editing == e.editing
            &&& f.config == e.config
            &&& f.status == e.status
            &&& e.editing is Some || same ==> f.drafts == e.drafts && f.base == e.base
                && f.selected == e.selected
            &&& e.editing is None && !same ==> f.selected == 0 && f.drafts.len() == heads.len()
                && f.base == f.drafts && forall|i: int|
                0 <= i < heads.len() ==> #[trigger] f.drafts[i] == draft_of_head(heads[i])
        }),
{
    let ids = wl::ids(heads);
    assert forall|i: int| 0 <= i < e.drafts.len() implies (ids.contains(
        (#[trigger] e.drafts[i]).id,
    ) <==> exists|j: int| 0 <= j < heads.len() && (#[trigger] heads[j]).id == e.drafts[i].id) by {
        if ids.contains(e.drafts[i].id) {
            let j = choose|j: int| 0 <= j < ids.len() && ids[j] == e.drafts[i].id;
            assert(heads[j].id == e.drafts[i].id);
        }
        if exists|j: int| 0 <= j < heads.len() && (#[trigger] heads[j]).id == e.drafts[i].id {
            let j = choose|j: int|
                0 <= j < heads.len() && (#[trigger] heads[j]).id == e.drafts[i].id;
            assert(ids[j] == e.drafts[i].id);
        }
    }
}

/// A draft of an entry stands for the first output that has every key of the entry; a
/// live one for the output of its own identity, and no other.
pub proof fn law_a_draft_stands_for_its_output(d: DraftView, id: wl::IdView)
    ensures
        d.keys is None ==> (stands_for(d, id) <==> d.id.connector == id.connector && d.id.make
            == id.make && d.id.model == id.model && d.id.serial == id.serial),
        d.keys matches Some(k) ==> (stands_for(d, id) <==> matching::keys_agree(k, id)),
{
    match d.keys {
        Some(k) => {
            matching::law_every_key_counts(k, id);
        },
        None => {
            if d.id.connector == id.connector && d.id.make == id.make && d.id.model == id.model
                && d.id.serial == id.serial {
                assert(d.id =~= id);
            }
        },
    }
}

/// What a draft is called: its connector and its model, with a dash between them where
/// it has both; in the layout its connector, or its model where it has none.
pub proof fn law_a_draft_is_called_by_connector_and_model(d: DraftView)
    ensures
        d.id.connector.len() > 0 && d.id.model.len() > 0 ==> draft_name(d) == d.id.connector
            + " — "@ + d.id.model,
        d.id.model.len() == 0 ==> draft_name(d) == d.id.connector,
        d.id.connector.len() == 0 ==> draft_name(d) == d.id.model,
        d.id.connector.len() > 0 ==> draft_short_name(d) == d.id.connector,
        d.id.connector.len() == 0 ==> draft_short_name(d) == d.id.model,
{
    let a = unless_empty(d.id.connector);
    let b = unless_empty(d.id.model);
    let parts = a + b;
    if d.id.connector.len() > 0 && d.id.model.len() > 0 {
        assert(parts.drop_last() =~= seq![d.id.connector]);
        assert(text::join(parts.drop_last(), " — "@) == d.id.connector);
    } else if d.id.connector.len() > 0 {
        assert(parts =~= seq![d.id.connector]);
    } else if d.id.model.len() > 0 {
        assert(parts =~= seq![d.id.model]);
    } else {
        assert(draft_name(d) =~= d.id.model);
        assert(d.id.connector =~= d.id.model);
    }
    if d.id.model.len() == 0 && d.id.connector.len() == 0 {
        assert(draft_name(d) =~= d.id.connector);
    }
}

/// A live layout goes by the name of the profile that matches best, if one matches, and
/// else by a name made up from the outputs.
pub proof fn law_the_live_name(
    ps: Seq<config::ProfileView>,
    ids: Seq<wl::IdView>,
    name: Seq<char>,
    i: int,
)
    requires
        is_live_name(ps, ids, name),
    ensures
        matching::is_best(ps, ids, i) ==> name == ps[i].name,
        (forall|j: int| 0 <= j < ps.len() ==> !matching::matches_heads(#[trigger] ps[j], ids))
            ==> name == config::suggested(ids),
{
    matching::law_there_is_one_best_match(ps, ids);
}

/// The modes to choose from are all those of a head, in its order, each by its size and
/// rate, and written so, with a star behind the preferred ones.
pub proof fn law_every_mode_can_be_chosen(choices: Seq<Choice>, modes: Seq<wl::Mode>, i: int)
    requires
        are_choices(choices, modes),
        0 <= i < modes.len(),
    ensures
        choices.len() == modes.len(),
        choices[i].mode.width == modes[i].width,
        choices[i].mode.height == modes[i].height,
        choices[i].mode.refresh == Some(modes[i].refresh),
        modes[i].preferred ==> choices[i].label@ == wl::mode_text(choices[i].mode) + " *"@,
        !modes[i].preferred ==> choices[i].label@ == wl::mode_text(choices[i].mode),
{
}

/// In full, a draft of an entry reads as the entry does, and a live one as its identity.
pub proof fn law_how_a_draft_reads(d: DraftView)
    ensures
        d.keys matches Some(k) ==> draft_label(d) == config::label_of(k),
        d.keys is None ==> draft_label(d) == d.id.text(),
{
}

/// Saving without renaming puts the profile in the place that its name has among the
/// saved ones, or behind them.
pub proof fn law_saving_adds_one_profile(e: EditorView, ps: Seq<config::ProfileView>)
    requires
        e.editing is None || e.editing == Some(e.profile().name),
    ensures
        e.saved_in(ps) == config::upserted(ps, e.profile()),
        e.profile().outputs.len() == e.drafts.len(),
{
}

/// Where the output that is dragged would land is where it lands once it is dropped.
pub proof fn law_the_preview_is_where_it_lands(l: Seq<arrange::Spot>, i: usize, sticky: int)
    ensures
        ({
            let s = arrange::settled(l, i, sticky)[i as int];
            let t = arrange::target(l, i, sticky);
            t.left == s.x && t.top == s.y && t.right == s.x + s.width && t.bottom == s.y + s.height
        }),
{
}

/// Once saved, a profile that was being edited is still the one being edited, under the
/// name it was saved by, so that saving again changes the same one; live outputs stay
/// live. What is shown stays as it is.
pub proof fn law_a_saved_profile_stays_open(e: EditorView)
    ensures
        e.editing is Some ==> e.saved().editing == Some(text::trim(e.name)),
        e.editing is None ==> e.saved().editing is None,
        e.saved().drafts == e.drafts,
        e.saved().base == e.base,
        e.saved().name == e.name,
        e.saved().heads == e.heads,
        e.saved().selected == e.selected,
        e.saved().with_serial == e.with_serial,
        e.saved().profile() == e.profile(),
{
    assert(e.saved().profile().outputs =~= e.profile().outputs);
}

/// A draft stands for the first of the connected outputs that it can stand for, and for
/// none where it can stand for none.
pub proof fn law_a_draft_stands_for_the_first_output(
    d: DraftView,
    heads: Seq<wl::HeadView>,
    i: int,
    k: int,
)
    requires
        is_head_of(d, heads, i),
    ensures
        0 <= i < heads.len(),
        stands_for(d, heads[i].id),
        0 <= k < heads.len() && stands_for(d, heads[k].id) ==> i <= k,
{
}

}
