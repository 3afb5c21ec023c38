//! Profiles: what to match, what to set, and how both are derived from the live
//! outputs.

use vstd::prelude::*;

use crate::order;
use crate::scale;
use crate::scale::Scale;
use crate::text;
use crate::wl;
use crate::wl::{transform_from_name, transform_name, Head, HeadId, ModeSpec, OutputSetting, SettingError, Snapshot, UNKNOWN};

verus! {

/// All profiles, in the order of the file.
#[derive(Debug)]
pub struct Config {
    pub profiles: Vec<Profile>,
}

/// A named arrangement.
#[derive(Debug)]
pub struct Profile {
    pub name: String,
    pub outputs: Vec<Output>,
}

/// One output inside a profile. `connector`/`make`/`model`/`serial` are the match
/// keys; every other field is a setting, and `None` means "leave as-is".
#[derive(Debug)]
pub struct Output {
    pub connector: Option<String>,
    pub make: Option<String>,
    pub model: Option<String>,
    pub serial: Option<String>,
    pub enabled: bool,
    pub position: Option<[i32; 2]>,
    pub scale: Option<Scale>,
    pub mode: Option<String>,
    pub transform: Option<String>,
}

/// What an entry is when the file does not say whether it is enabled.
pub fn enabled_default() -> (r: bool)
    ensures
        r,
{
    true
}

/// What an optional string says.
pub open spec fn opt_text(s: Option<String>) -> Option<Seq<char>> {
    match s {
        Some(s) => Some(s@),
        None => None,
    }
}

/// What an `Output` says.
#[verifier::ext_equal]
pub struct OutputView {
    pub connector: Option<Seq<char>>,
    pub make: Option<Seq<char>>,
    pub model: Option<Seq<char>>,
    pub serial: Option<Seq<char>>,
    pub enabled: bool,
    pub position: Option<(i32, i32)>,
    pub scale: Option<Scale>,
    pub mode: Option<Seq<char>>,
    pub transform: Option<Seq<char>>,
}

/// What a position says.
pub open spec fn point(p: Option<[i32; 2]>) -> Option<(i32, i32)> {
    match p {
        Some(a) => Some((a[0], a[1])),
        None => None,
    }
}

impl View for Output {
    type V = OutputView;

    open spec fn view(&self) -> OutputView {
        OutputView {
            connector: opt_text(self.connector),
            make: opt_text(self.make),
            model: opt_text(self.model),
            serial: opt_text(self.serial),
            enabled: self.enabled,
            position: point(self.position),
            scale: self.scale,
            mode: opt_text(self.mode),
            transform: opt_text(self.transform),
        }
    }
}

/// What a `Profile` says.
#[verifier::ext_equal]
pub struct ProfileView {
    pub name: Seq<char>,
    pub outputs: Seq<OutputView>,
}

/// What a list of entries says.
pub open spec fn output_views(v: Seq<Output>) -> Seq<OutputView> {
    v.map_values(|o: Output| o@)
}

impl View for Profile {
    type V = ProfileView;

    open spec fn view(&self) -> ProfileView {
        ProfileView { name: self.name@, outputs: output_views(self.outputs@) }
    }
}

impl View for Config {
    type V = Seq<ProfileView>;

    open spec fn view(&self) -> Seq<ProfileView> {
        self.profiles@.map_values(|p: Profile| p@)
    }
}

/// A copy of an optional string.
pub fn copy_text(s: &Option<String>) -> (r: Option<String>)
    ensures
        opt_text(r) == opt_text(*s),
{
    match s {
        Some(s) => Some(s.clone()),
        None => None,
    }
}

impl Clone for Output {
    fn clone(&self) -> (r: Output)
        ensures
            r@ == self@,
    {
        Output {
            connector: copy_text(&self.connector),
            make: copy_text(&self.make),
            model: copy_text(&self.model),
            serial: copy_text(&self.serial),
            enabled: self.enabled,
            position: self.position,
            scale: self.scale,
            mode: copy_text(&self.mode),
            transform: copy_text(&self.transform),
        }
    }
}

/// A copy of a list of entries.
pub fn copy_outputs(v: &Vec<Output>) -> (r: Vec<Output>)
    ensures
        output_views(r@) == output_views(v@),
{
    let mut r: Vec<Output> = Vec::new();
    for i in 0..v.len()
        invariant
            output_views(r@) == output_views(v@).take(i as int),
    {
        let o = v[i].clone();
        let ghost before = output_views(r@);
        r.push(o);
        assert(output_views(r@) == before.push(o@));
        assert(output_views(v@).take(i + 1) == before.push(output_views(v@)[i as int]));
    }
    assert(output_views(v@).take(v@.len() as int) == output_views(v@));
    r
}

impl Clone for Profile {
    fn clone(&self) -> (r: Profile)
        ensures
            r@ == self@,
    {
        Profile { name: self.name.clone(), outputs: copy_outputs(&self.outputs) }
    }
}

impl Clone for Config {
    fn clone(&self) -> (r: Config)
        ensures
            r@ == self@,
    {
        let mut profiles: Vec<Profile> = Vec::new();
        for i in 0..self.profiles.len()
            invariant
                profiles@.map_values(|p: Profile| p@) == self@.take(i as int),
        {
            let p = self.profiles[i].clone();
            let ghost before = profiles@.map_values(|p: Profile| p@);
            profiles.push(p);
            assert(profiles@.map_values(|p: Profile| p@) == before.push(p@));
            assert(self@.take(i + 1) == before.push(self@[i as int]));
        }
        assert(self@.take(self@.len() as int) == self@);
        Config { profiles }
    }
}

impl Default for Config {
    fn default() -> (r: Config)
        ensures
            r@ == Seq::<ProfileView>::empty(),
    {
        Config { profiles: Vec::new() }
    }
}

impl OutputView {
    /// The entry that matches nothing and sets nothing.
    pub open spec fn empty() -> OutputView {
        OutputView {
            connector: None,
            make: None,
            model: None,
            serial: None,
            enabled: false,
            position: None,
            scale: None,
            mode: None,
            transform: None,
        }
    }
}

impl Default for Output {
    fn default() -> (r: Output)
        ensures
            r@ == OutputView::empty(),
    {
        Output {
            connector: None,
            make: None,
            model: None,
            serial: None,
            enabled: false,
            position: None,
            scale: None,
            mode: None,
            transform: None,
        }
    }
}

/// Where the first profile of a name stands.
pub open spec fn profile_at(ps: Seq<ProfileView>, name: Seq<char>) -> Option<int>
    decreases ps.len(),
{
    if ps.len() == 0 {
        None
    } else if ps[0].name == name {
        Some(0int)
    } else {
        match profile_at(ps.drop_first(), name) {
            Some(i) => Some(i + 1),
            None => None,
        }
    }
}

/// What `profile_at` finds: the place of a profile of the name, with none before
/// it.
pub proof fn lemma_profile_at(ps: Seq<ProfileView>, name: Seq<char>)
    ensures
        match profile_at(ps, name) {
            Some(i) => 0 <= i < ps.len() && ps[i].name == name && forall|j: int|
                0 <= j < i ==> (#[trigger] ps[j]).name != name,
            None => forall|j: int| 0 <= j < ps.len() ==> (#[trigger] ps[j]).name != name,
        },
    decreases ps.len(),
{
    if ps.len() > 0 && ps[0].name != name {
        lemma_profile_at(ps.drop_first(), name);
        assert forall|j: int| 0 < j < ps.len() implies ps[j] == ps.drop_first()[j - 1] by {}
    }
}

/// The profiles with `p` in the place of the first of the same name, or at the
/// end where there is none.
pub open spec fn upserted(ps: Seq<ProfileView>, p: ProfileView) -> Seq<ProfileView> {
    match profile_at(ps, p.name) {
        Some(i) => ps.update(i, p),
        None => ps.push(p),
    }
}

/// The profiles of another name.
pub open spec fn without(ps: Seq<ProfileView>, name: Seq<char>) -> Seq<ProfileView> {
    ps.filter(|p: ProfileView| p.name != name)
}

impl Config {
    /// Where the first profile of a name stands.
    pub fn position(&self, name: &str) -> (r: Option<usize>)
        ensures
            match r {
                Some(i) => i < self.profiles@.len() && profile_at(self@, name@) == Some(i as int),
                None => profile_at(self@, name@) is None,
            },
    {
        for i in 0..self.profiles.len()
            invariant
                forall|j: int| 0 <= j < i ==> (#[trigger] self@[j]).name != name@,
        {
            assert(self@[i as int] == self.profiles@[i as int]@);
            if text::same_text(self.profiles[i].name.as_str(), name) {
                proof {
                    lemma_profile_at(self@, name@);
                }
                return Some(i);
            }
        }
        proof {
            lemma_profile_at(self@, name@);
        }
        None
    }

    /// The first profile of a name.
    pub fn profile(&self, name: &str) -> (r: Option<&Profile>)
        ensures
            match profile_at(self@, name@) {
                Some(i) => r is Some && *(r->0) == self.profiles@[i],
                None => r is None,
            },
    {
        match self.position(name) {
            Some(i) => Some(&self.profiles[i]),
            None => None,
        }
    }

    /// Replace the profile of the same name, keeping its position in the file, or
    /// append it.
    pub fn upsert(&mut self, profile: Profile)
        ensures
            final(self)@ == upserted(old(self)@, profile@),
    {
        match self.position(profile.name.as_str()) {
            Some(i) => {
                self.profiles.set(i, profile);
                assert(self@ == old(self)@.update(i as int, profile@));
            },
            None => {
                self.profiles.push(profile);
                assert(self@ == old(self)@.push(profile@));
            },
        }
    }

    /// Takes away the profiles of a name; the others keep their order.
    pub fn remove(&mut self, name: &str)
        ensures
            final(self)@ == without(old(self)@, name@),
    {
        let ghost keep = |p: ProfileView| p.name != name@;
        let mut profiles: Vec<Profile> = Vec::new();
        assert(old(self)@.take(0) == Seq::<ProfileView>::empty());
        assert(Seq::<ProfileView>::empty().filter(keep) == Seq::<ProfileView>::empty()) by {
            reveal(Seq::filter);
        }
        for i in 0..self.profiles.len()
            invariant
                self == old(self),
                keep == (|p: ProfileView| p.name != name@),
                profiles@.map_values(|p: Profile| p@) == self@.take(i as int).filter(keep),
        {
            let ghost before = profiles@.map_values(|p: Profile| p@);
            proof {
                reveal(Seq::filter);
                assert(self@.take(i + 1).drop_last() == self@.take(i as int));
                assert(self@.take(i + 1).last() == self.profiles@[i as int]@);
            }
            if !text::same_text(self.profiles[i].name.as_str(), name) {
                let p = self.profiles[i].clone();
                profiles.push(p);
                assert(profiles@.map_values(|p: Profile| p@) == before.push(p@));
            }
        }
        assert(self@.take(self@.len() as int) == self@);
        self.profiles = profiles;
    }
}

/// A profile is found under its name once it is put in.
pub proof fn law_upsert_is_found(ps: Seq<ProfileView>, p: ProfileView)
    ensures
        ({
            let after = upserted(ps, p);
            profile_at(after, p.name) is Some && after[profile_at(after, p.name)->0] == p
        }),
{
    let after = upserted(ps, p);
    lemma_profile_at(ps, p.name);
    lemma_profile_at(after, p.name);
    match profile_at(ps, p.name) {
        Some(i) => {
            assert(after[i].name == p.name);
            let k = profile_at(after, p.name)->0;
            if k < i {
                assert(ps[k].name != p.name);
            }
        },
        None => {
            let n = ps.len() as int;
            assert(after[n].name == p.name);
            let k = profile_at(after, p.name)->0;
            if k < n {
                assert(ps[k].name != p.name);
            }
        },
    }
}

/// Putting a profile in leaves every other profile and the order alone: there is
/// at most one more, at the end, and what is not of the name is as it was.
pub proof fn law_upsert_keeps_the_rest(ps: Seq<ProfileView>, p: ProfileView)
    ensures
        ({
            let after = upserted(ps, p);
            &&& ps.len() <= after.len() <= ps.len() + 1
            &&& forall|i: int|
                0 <= i < ps.len() && (#[trigger] ps[i]).name != p.name ==> after[i] == ps[i]
            &&& forall|i: int|
                0 <= i < ps.len() ==> (#[trigger] after[i]).name == ps[i].name
        }),
{
    lemma_profile_at(ps, p.name);
}

/// Putting a profile in twice is putting it in once.
pub proof fn law_upsert_twice(ps: Seq<ProfileView>, p: ProfileView)
    ensures
        upserted(upserted(ps, p), p) == upserted(ps, p),
{
    let after = upserted(ps, p);
    law_upsert_is_found(ps, p);
    lemma_profile_at(after, p.name);
    let i = profile_at(after, p.name)->0;
    assert(after.update(i, p) =~= after);
}


/// Once a name is taken away no profile has it, and every profile of another name
/// is still there.
pub proof fn law_removed_is_gone(ps: Seq<ProfileView>, name: Seq<char>)
    ensures
        profile_at(without(ps, name), name) is None,
        forall|i: int|
            0 <= i < ps.len() && (#[trigger] ps[i]).name != name ==> without(ps, name).contains(
                ps[i],
            ),
        forall|p: ProfileView| #[trigger]
            without(ps, name).contains(p) ==> ps.contains(p) && p.name != name,
{
    let keep = |p: ProfileView| p.name != name;
    let after = without(ps, name);
    broadcast use vstd::seq_lib::group_filter_ensures;

    lemma_profile_at(after, name);
    assert forall|i: int| 0 <= i < ps.len() && (#[trigger] ps[i]).name != name implies after.contains(
        ps[i],
    ) by {
        assert(keep(ps[i]));
    }
    assert forall|p: ProfileView| #[trigger] after.contains(p) implies ps.contains(p) && p.name
        != name by {
        let j = choose|j: int| 0 <= j < after.len() && after[j] == p;
        assert(keep(after[j]));
        ps.lemma_filter_contains_rev(keep, p);
    }
}

/// Whether a connector is that of a built-in panel.
pub open spec fn internal(connector: Seq<char>) -> bool {
    let c = text::lower(connector);
    text::starts_with(c, "edp"@) || text::starts_with(c, "lvds"@) || text::starts_with(c, "dsi"@)
}

/// Whether a connector is that of a built-in panel.
pub fn is_internal(connector: &str) -> (r: bool)
    ensures
        r == internal(connector@),
{
    let c = text::lowered(&text::to_chars(connector));
    text::has_prefix(&c, "edp") || text::has_prefix(&c, "lvds") || text::has_prefix(&c, "dsi")
}

/// Whether the display reported a field.
pub open spec fn is_known(s: Seq<char>) -> bool {
    s.len() > 0 && s != "Unknown"@
}

fn known(s: &String) -> (r: bool)
    ensures
        r == is_known(s@),
{
    let e = String::new();
    let u = UNKNOWN.to_owned();
    assert(e@.len() == 0);
    assert(s@.len() == 0 ==> s@ == e@);
    *s != e && *s != u
}

/// The text, if the display reported it.
pub open spec fn if_known(s: Seq<char>) -> Option<Seq<char>> {
    if is_known(s) {
        Some(s)
    } else {
        None
    }
}

fn copy_known(s: &String) -> (r: Option<String>)
    ensures
        opt_text(r) == if_known(s@),
{
    if known(s) {
        Some(s.clone())
    } else {
        None
    }
}

/// Whether an output is matched by its connector: a built-in panel, or one that
/// reports no model.
pub open spec fn by_connector(id: wl::IdView) -> bool {
    internal(id.connector) || !is_known(id.model)
}

/// The match keys for an output.
pub open spec fn keys_of(id: wl::IdView, with_serial: bool) -> OutputView {
    if by_connector(id) {
        OutputView { connector: Some(id.connector), ..OutputView::empty() }
    } else {
        OutputView {
            make: if_known(id.make),
            model: Some(id.model),
            serial: if with_serial {
                if_known(id.serial)
            } else {
                None
            },
            ..OutputView::empty()
        }
    }
}

/// The scale that a profile keeps for a head: snapped to 120ths, in thousandths.
pub open spec fn kept_scale(scale: Scale) -> Scale {
    Scale::of_steps(scale.steps()).thousandths()
}

/// The entry that matches a head and keeps its state.
pub open spec fn entry_of(h: wl::HeadView, with_serial: bool) -> OutputView {
    OutputView {
        enabled: h.enabled,
        position: Some(h.position),
        scale: Some(kept_scale(h.scale)),
        mode: match wl::mode_spec(h.current_mode) {
            Some(m) => Some(wl::mode_text(m)),
            None => None,
        },
        transform: Some(wl::name_of(h.transform)),
        ..keys_of(h.id, with_serial)
    }
}

/// The setting that an entry asks for on an output. Of two errors the one in the
/// mode comes first.
pub open spec fn setting_of(o: OutputView, id: wl::IdView) -> Result<wl::SettingView, wl::SettingErrorView> {
    if o.mode is Some && wl::parse_mode(o.mode->0) is Err {
        Err(wl::parse_mode(o.mode->0)->Err_0)
    } else if o.transform is Some && wl::transform_named(o.transform->0) is None {
        Err(wl::SettingErrorView::UnknownTransform(o.transform->0))
    } else {
        Ok(
            wl::SettingView {
                id,
                enabled: o.enabled,
                position: o.position,
                scale: o.scale,
                mode: match o.mode {
                    Some(m) => Some(wl::parse_mode(m)->Ok_0),
                    None => None,
                },
                transform: match o.transform {
                    Some(t) => wl::transform_named(t),
                    None => None,
                },
            },
        )
    }
}

/// The texts of the keys that an entry has, connector first.
pub open spec fn label_parts(o: OutputView) -> Seq<Seq<char>> {
    listed(o.connector) + listed(o.make) + listed(o.model) + listed(o.serial)
}

/// A text as a list: of one, or of none.
pub open spec fn listed(s: Option<Seq<char>>) -> Seq<Seq<char>> {
    match s {
        Some(s) => seq![s],
        None => Seq::empty(),
    }
}

/// How an entry reads in logs.
pub open spec fn label_of(o: OutputView) -> Seq<char> {
    if label_parts(o).len() == 0 {
        "<matches nothing>"@
    } else {
        text::join(label_parts(o), " "@)
    }
}

fn push_text(parts: &mut Vec<String>, s: &Option<String>)
    ensures
        text::texts(final(parts)@) == text::texts(old(parts)@) + listed(opt_text(*s)),
{
    if let Some(s) = s {
        parts.push(s.clone());
    }
    assert(text::texts(parts@) == text::texts(old(parts)@) + listed(opt_text(*s)));
}

impl Output {
    /// The match keys for an output. Internal panels are matched by connector:
    /// their EDID serial is often absent or duplicated across machines. So are
    /// outputs that report no model at all, which would otherwise produce an entry
    /// that matches nothing.
    pub fn keys(id: &HeadId, with_serial: bool) -> (r: Output)
        ensures
            r@ == keys_of(id@, with_serial),
    {
        if is_internal(id.connector.as_str()) || !known(&id.model) {
            Output {
                connector: Some(id.connector.clone()),
                make: None,
                model: None,
                serial: None,
                enabled: false,
                position: None,
                scale: None,
                mode: None,
                transform: None,
            }
        } else {
            Output {
                connector: None,
                make: copy_known(&id.make),
                model: Some(id.model.clone()),
                serial: if with_serial {
                    copy_known(&id.serial)
                } else {
                    None
                },
                enabled: false,
                position: None,
                scale: None,
                mode: None,
                transform: None,
            }
        }
    }

    /// Snapshot one live output as a profile entry. The compositor reports the
    /// scale rounded for the wire; snapping it to the 120ths it really uses keeps
    /// the file readable and reapplies as the very same scale.
    pub fn from_head(head: &Head, with_serial: bool) -> (r: Output)
        ensures
            r@ == entry_of(head@, with_serial),
    {
        let keys = Output::keys(&head.id, with_serial);
        Output {
            connector: keys.connector,
            make: keys.make,
            model: keys.model,
            serial: keys.serial,
            enabled: head.enabled,
            position: Some([head.position.0, head.position.1]),
            scale: Some(wl::quantized_scale(head.scale).to_thousandths()),
            mode: match head.current_mode {
                Some(m) => Some(m.to_string()),
                None => None,
            },
            transform: Some(transform_name(head.transform).to_owned()),
        }
    }

    /// The setting that the entry asks for on an output.
    pub fn to_setting(&self, id: &HeadId) -> (r: Result<OutputSetting, SettingError>)
        ensures
            match r {
                Ok(s) => setting_of(self@, id@) == Ok::<wl::SettingView, wl::SettingErrorView>(s@),
                Err(e) => setting_of(self@, id@) == Err::<wl::SettingView, wl::SettingErrorView>(
                    e@,
                ),
            },
    {
        let mode = match &self.mode {
            Some(m) => match ModeSpec::from_str(m.as_str()) {
                Ok(m) => Some(m),
                Err(e) => {
                    return Err(e);
                },
            },
            None => None,
        };
        let transform = match &self.transform {
            Some(t) => match transform_from_name(t.as_str()) {
                Ok(t) => Some(t),
                Err(e) => {
                    return Err(e);
                },
            },
            None => None,
        };
        let position = match self.position {
            Some(p) => Some((p[0], p[1])),
            None => None,
        };
        Ok(
            OutputSetting {
                id: id.clone(),
                enabled: self.enabled,
                position,
                scale: self.scale,
                mode,
                transform,
            },
        )
    }

    /// How the entry reads in logs and in the arranger.
    pub fn label(&self) -> (r: String)
        ensures
            r@ == label_of(self@),
    {
        let mut parts: Vec<String> = Vec::new();
        push_text(&mut parts, &self.connector);
        push_text(&mut parts, &self.make);
        push_text(&mut parts, &self.model);
        push_text(&mut parts, &self.serial);
        assert(text::texts(parts@) == label_parts(self@));
        if parts.len() == 0 {
            "<matches nothing>".to_owned()
        } else {
            text::joined(&parts, " ")
        }
    }
}


/// The entry made from a head asks, on that head, for the state the head was in;
/// the scale is the one that a profile keeps.
pub proof fn law_saved_entry_restores_the_head(h: wl::HeadView, with_serial: bool)
    ensures
        setting_of(entry_of(h, with_serial), h.id) == Ok::<wl::SettingView, wl::SettingErrorView>(
            wl::SettingView { scale: Some(kept_scale(h.scale)), ..wl::current_setting(h) },
        ),
{
    wl::law_transform_names_round_trip(h.transform);
    match wl::mode_spec(h.current_mode) {
        Some(m) => {
            wl::law_mode_text_round_trips(m);
        },
        None => {},
    }
}

/// The scale that a head is saved with has at most three decimals, and applying it
/// makes the compositor use the scale that the head was in.
pub proof fn law_saved_scale_restores_the_scale(h: wl::HeadView, with_serial: bool)
    requires
        h.scale.is_carried(),
    ensures
        entry_of(h, with_serial).scale matches Some(saved) && {
            &&& exists|t: nat| t > 0 && saved.bits == #[trigger] scale::quotient(t, 1000)
            &&& Scale::of_steps(saved.steps()) == Scale::of_steps(h.scale.steps())
        },
{
    scale::law_saved_scale_reapplies(h.scale);
}

/// The entries made from heads.
pub open spec fn entries_of(heads: Seq<wl::HeadView>, with_serial: bool) -> Seq<OutputView> {
    heads.map_values(|h: wl::HeadView| entry_of(h, with_serial))
}

/// Build a profile from the live output state: what saving means, whether asked
/// for by name or in the arranger.
pub fn profile_from_snapshot(name: &str, snapshot: &Snapshot, with_serial: bool) -> (r: Profile)
    ensures
        r@ == (ProfileView {
            name: name@,
            outputs: entries_of(wl::head_views(snapshot.heads@), with_serial),
        }),
{
    let mut outputs: Vec<Output> = Vec::new();
    let ghost all = entries_of(wl::head_views(snapshot.heads@), with_serial);
    for i in 0..snapshot.heads.len()
        invariant
            all == entries_of(wl::head_views(snapshot.heads@), with_serial),
            output_views(outputs@) == all.take(i as int),
    {
        let o = Output::from_head(&snapshot.heads[i], with_serial);
        let ghost before = output_views(outputs@);
        outputs.push(o);
        assert(output_views(outputs@) == before.push(o@));
        assert(all.take(i + 1) == before.push(all[i as int]));
    }
    assert(all.take(snapshot.heads@.len() as int) == all);
    Profile { name: name.to_owned(), outputs }
}

/// Whether a character is an ASCII letter or digit.
pub open spec fn is_alphanumeric(c: char) -> bool {
    'a' <= c <= 'z' || 'A' <= c <= 'Z' || '0' <= c <= '9'
}

/// The pieces of a text between the characters that are neither letter nor digit.
pub open spec fn pieces(s: Seq<char>) -> Seq<Seq<char>>
    decreases s.len(),
{
    if s.len() == 0 {
        seq![Seq::<char>::empty()]
    } else {
        let before = pieces(s.drop_last());
        if is_alphanumeric(s.last()) {
            before.drop_last().push(before.last().push(s.last()))
        } else {
            before.push(Seq::empty())
        }
    }
}

/// The pieces that are not empty.
pub open spec fn words(s: Seq<char>) -> Seq<Seq<char>> {
    pieces(s).filter(|w: Seq<char>| w.len() > 0)
}

/// A text in small letters, its words joined by dashes.
pub open spec fn slug(s: Seq<char>) -> Seq<char> {
    text::join(words(text::lower(s)), "-"@)
}

/// What an output is called: its model, or its connector where it is matched by
/// that.
pub open spec fn called(id: wl::IdView) -> Seq<char> {
    if by_connector(id) {
        slug(id.connector)
    } else {
        slug(id.model)
    }
}

/// What the outputs are called, without the empty names.
pub open spec fn names_in(ids: Seq<wl::IdView>) -> Seq<Seq<char>> {
    ids.map_values(|id: wl::IdView| called(id)).filter(|w: Seq<char>| w.len() > 0)
}

/// What the outputs are called, without the empty names, in order.
pub open spec fn names_of(ids: Seq<wl::IdView>) -> Seq<Seq<char>> {
    names_in(ids).sort_by(order::text_order())
}

/// A name for a set of outputs.
pub open spec fn suggested(ids: Seq<wl::IdView>) -> Seq<char> {
    if names_of(ids).len() == 0 {
        "profile"@
    } else {
        text::join(names_of(ids), "_"@)
    }
}

/// One more element in a filtered sequence.
proof fn lemma_filter_push<A>(s: Seq<A>, x: A, keep: spec_fn(A) -> bool)
    ensures
        s.push(x).filter(keep) == (if keep(x) {
            s.filter(keep).push(x)
        } else {
            s.filter(keep)
        }),
{
    reveal(Seq::filter);
    assert(s.push(x).drop_last() == s);
}

/// The words of a text, joined by dashes.
fn slugged(s: &String) -> (r: String)
    ensures
        r@ == slug(s@),
{
    let v = text::lowered(&text::to_chars(s.as_str()));
    let ghost keep = |w: Seq<char>| w.len() > 0;
    let mut found: Vec<String> = Vec::new();
    let mut word: Vec<char> = Vec::new();
    proof {
        assert(v@.take(0) == Seq::<char>::empty());
        assert(pieces(v@.take(0)) == seq![Seq::<char>::empty()]);
        assert(seq![Seq::<char>::empty()].drop_last() == Seq::<Seq<char>>::empty());
        assert(Seq::<Seq<char>>::empty().filter(keep) == Seq::<Seq<char>>::empty()) by {
            reveal(Seq::filter);
        }
        assert(text::texts(found@) == Seq::<Seq<char>>::empty());
    }
    for i in 0..v.len()
        invariant
            keep == (|w: Seq<char>| w.len() > 0),
            pieces(v@.take(i as int)).len() > 0,
            word@ == pieces(v@.take(i as int)).last(),
            text::texts(found@) == pieces(v@.take(i as int)).drop_last().filter(keep),
    {
        let c = v[i];
        let ghost before = pieces(v@.take(i as int));
        let ghost texts = text::texts(found@);
        proof {
            assert(v@.take(i + 1).drop_last() == v@.take(i as int));
            assert(v@.take(i + 1).last() == c);
            lemma_filter_push(before.drop_last(), before.last(), keep);
            assert(before.drop_last().push(before.last()) == before);
        }
        if ('a' <= c && c <= 'z') || ('A' <= c && c <= 'Z') || ('0' <= c && c <= '9') {
            word.push(c);
            assert(pieces(v@.take(i + 1)).drop_last() == before.drop_last());
        } else {
            if word.len() > 0 {
                let w = text::from_chars(&word);
                found.push(w);
                assert(text::texts(found@) == texts.push(w@));
            }
            word = Vec::new();
            assert(pieces(v@.take(i + 1)).drop_last() == before);
        }
    }
    proof {
        let all = pieces(v@);
        assert(v@.take(v@.len() as int) == v@);
        lemma_filter_push(all.drop_last(), all.last(), keep);
        assert(all.drop_last().push(all.last()) == all);
    }
    let ghost texts = text::texts(found@);
    if word.len() > 0 {
        let w = text::from_chars(&word);
        found.push(w);
        assert(text::texts(found@) == texts.push(w@));
    }
    text::joined(&found, "-")
}

/// A stable, readable name for the current set of outputs, e.g. `p2723qe_edp-1`.
pub fn suggested_name(snapshot: &Snapshot) -> (r: String)
    ensures
        r@ == suggested(wl::ids(wl::head_views(snapshot.heads@))),
{
    let ghost keep = |w: Seq<char>| w.len() > 0;
    let ghost all = wl::ids(wl::head_views(snapshot.heads@)).map_values(
        |id: wl::IdView| called(id),
    );
    let mut parts: Vec<String> = Vec::new();
    proof {
        assert(all.take(0) == Seq::<Seq<char>>::empty());
        assert(Seq::<Seq<char>>::empty().filter(keep) == Seq::<Seq<char>>::empty()) by {
            reveal(Seq::filter);
        }
        assert(text::texts(parts@) == Seq::<Seq<char>>::empty());
    }
    for i in 0..snapshot.heads.len()
        invariant
            keep == (|w: Seq<char>| w.len() > 0),
            all == wl::ids(wl::head_views(snapshot.heads@)).map_values(
                |id: wl::IdView| called(id),
            ),
            text::texts(parts@) == all.take(i as int).filter(keep),
    {
        let id = &snapshot.heads[i].id;
        let name = if is_internal(id.connector.as_str()) || !known(&id.model) {
            slugged(&id.connector)
        } else {
            slugged(&id.model)
        };
        let ghost texts = text::texts(parts@);
        proof {
            assert(all[i as int] == called(id@));
            assert(all.take(i + 1) == all.take(i as int).push(name@));
            lemma_filter_push(all.take(i as int), name@, keep);
        }
        if !name.as_str().is_empty() {
            parts.push(name);
            assert(text::texts(parts@) == texts.push(name@));
        }
    }
    assert(all.take(snapshot.heads@.len() as int) == all);
    let sorted = order::sort_texts(&parts);
    assert(text::texts(sorted@) == names_of(wl::ids(wl::head_views(snapshot.heads@))));
    if sorted.len() == 0 {
        "profile".to_owned()
    } else {
        text::joined(&sorted, "_")
    }
}

/// What one more output adds to the names.
proof fn lemma_name_added(ids: Seq<wl::IdView>, id: wl::IdView)
    ensures
        names_in(ids.push(id)) == (if called(id).len() > 0 {
            names_in(ids).push(called(id))
        } else {
            names_in(ids)
        }),
{
    let f = |id: wl::IdView| called(id);
    assert(ids.push(id).map_values(f) =~= ids.map_values(f).push(called(id)));
    lemma_filter_push(ids.map_values(f), called(id), |w: Seq<char>| w.len() > 0);
}

/// What one output less takes from the names, wherever it stands.
proof fn lemma_name_removed(ids: Seq<wl::IdView>, k: int)
    requires
        0 <= k < ids.len(),
    ensures
        names_in(ids).to_multiset() == (if called(ids[k]).len() > 0 {
            names_in(ids.remove(k)).to_multiset().insert(called(ids[k]))
        } else {
            names_in(ids.remove(k)).to_multiset()
        }),
    decreases ids.len(),
{
    broadcast use vstd::seq_lib::group_to_multiset_ensures;

    let init = ids.drop_last();
    let last = ids.last();
    assert(ids =~= init.push(last));
    lemma_name_added(init, last);
    if k == ids.len() - 1 {
        assert(ids.remove(k) =~= init);
    } else {
        lemma_name_removed(init, k);
        assert(ids.remove(k) =~= init.remove(k).push(last));
        lemma_name_added(init.remove(k), last);
        let rest = names_in(init.remove(k)).to_multiset();
        assert(rest.insert(called(last)).insert(called(ids[k])) =~= rest.insert(
            called(ids[k]),
        ).insert(called(last)));
    }
}

/// What the name of an output is made from: its connector and its model.
pub open spec fn named_by(ids: Seq<wl::IdView>) -> Seq<(Seq<char>, Seq<char>)> {
    ids.map_values(|id: wl::IdView| (id.connector, id.model))
}

/// The same connectors and models make the same names.
proof fn lemma_names_ignore_order(a: Seq<wl::IdView>, b: Seq<wl::IdView>)
    requires
        named_by(a).to_multiset() == named_by(b).to_multiset(),
    ensures
        names_in(a).to_multiset() == names_in(b).to_multiset(),
    decreases a.len(),
{
    broadcast use vstd::seq_lib::group_to_multiset_ensures;

    let (p, q) = (named_by(a), named_by(b));
    assert(p.to_multiset().len() == a.len());
    assert(q.to_multiset().len() == b.len());
    if a.len() == 0 {
        assert(a =~= b);
    } else {
        let n = a.len() - 1;
        let x = p[n];
        assert(p.contains(x));
        assert(q.to_multiset().count(x) > 0);
        let k = choose|k: int| 0 <= k < q.len() && q[k] == x;
        assert(called(a[n]) == called(b[k]));
        assert(p.remove(n).to_multiset() =~= q.remove(k).to_multiset());
        assert(named_by(a.remove(n)) =~= p.remove(n));
        assert(named_by(b.remove(k)) =~= q.remove(k));
        lemma_names_ignore_order(a.remove(n), b.remove(k));
        lemma_name_removed(a, n);
        lemma_name_removed(b, k);
    }
}

/// The suggested name is stable: it depends on the connectors and models of the
/// outputs alone, whatever their makes and serials, and not on the order in which
/// they are listed.
pub proof fn law_suggested_name_ignores_order(a: Seq<wl::IdView>, b: Seq<wl::IdView>)
    requires
        named_by(a).to_multiset() == named_by(b).to_multiset(),
    ensures
        suggested(a) == suggested(b),
{
    lemma_names_ignore_order(a, b);
    order::lemma_text_order();
    names_in(a).lemma_sort_by_ensures(order::text_order());
    order::lemma_sorted_is(names_in(b), names_of(a), order::text_order());
}

/// Whether a character can stand in a suggested name.
pub open spec fn is_plain(c: char) -> bool {
    'a' <= c <= 'z' || '0' <= c <= '9' || c == '-' || c == '_'
}

/// Whether a text is made of such characters.
pub open spec fn is_plain_text(s: Seq<char>) -> bool {
    forall|k: int| 0 <= k < s.len() ==> is_plain(#[trigger] s[k])
}

/// Whether a text has a letter or a digit.
pub open spec fn has_alphanumeric(s: Seq<char>) -> bool {
    exists|k: int| 0 <= k < s.len() && is_alphanumeric(#[trigger] s[k])
}

/// The text that the name of an output is made from.
pub open spec fn name_source(id: wl::IdView) -> Seq<char> {
    if by_connector(id) {
        id.connector
    } else {
        id.model
    }
}

/// The pieces of a text without capitals are plain, and one of them is not empty
/// where the text has a letter or a digit.
proof fn lemma_pieces(s: Seq<char>)
    requires
        forall|k: int| 0 <= k < s.len() ==> !('A' <= #[trigger] s[k] <= 'Z'),
    ensures
        pieces(s).len() > 0,
        forall|i: int| 0 <= i < pieces(s).len() ==> is_plain_text(#[trigger] pieces(s)[i]),
        has_alphanumeric(s) <==> exists|i: int|
            0 <= i < pieces(s).len() && (#[trigger] pieces(s)[i]).len() > 0,
    decreases s.len(),
{
    let now = pieces(s);
    if s.len() == 0 {
        assert(now[0].len() == 0);
    } else {
        let init = s.drop_last();
        assert forall|k: int| 0 <= k < init.len() implies !('A' <= #[trigger] init[k] <= 'Z') by {
            assert(s[k] == init[k]);
        }
        lemma_pieces(init);
        let before = pieces(init);
        let n = before.len() - 1;
        assert(is_plain_text(before[n]));
        assert(!('A' <= s[s.len() - 1] <= 'Z'));
        assert forall|i: int| 0 <= i < now.len() implies is_plain_text(#[trigger] now[i]) by {
            if i < n {
                assert(now[i] == before[i]);
            } else if i == n && !is_alphanumeric(s.last()) {
                assert(now[i] == before[i]);
            }
        }
        if is_alphanumeric(s.last()) {
            assert(is_alphanumeric(s[s.len() - 1]));
            assert(now[n].len() > 0);
        } else {
            if has_alphanumeric(s) {
                let k = choose|k: int| 0 <= k < s.len() && is_alphanumeric(#[trigger] s[k]);
                assert(is_alphanumeric(init[k]));
                let i = choose|i: int| 0 <= i < before.len() && (#[trigger] before[i]).len() > 0;
                assert(now[i] == before[i]);
            }
            if exists|i: int| 0 <= i < now.len() && (#[trigger] now[i]).len() > 0 {
                let i = choose|i: int| 0 <= i < now.len() && (#[trigger] now[i]).len() > 0;
                assert(now[i] == before[i]);
                let k = choose|k: int| 0 <= k < init.len() && is_alphanumeric(#[trigger] init[k]);
                assert(is_alphanumeric(s[k]));
            }
        }
    }
}

/// Plain texts joined by a plain text are plain, and not empty where none of them
/// is.
proof fn lemma_join_plain(parts: Seq<Seq<char>>, sep: Seq<char>)
    requires
        forall|i: int| 0 <= i < parts.len() ==> is_plain_text(#[trigger] parts[i]),
        forall|i: int| 0 <= i < parts.len() ==> (#[trigger] parts[i]).len() > 0,
        is_plain_text(sep),
    ensures
        is_plain_text(text::join(parts, sep)),
        text::join(parts, sep).len() > 0 <==> parts.len() > 0,
    decreases parts.len(),
{
    if parts.len() > 1 {
        let init = parts.drop_last();
        assert forall|i: int| 0 <= i < init.len() implies is_plain_text(#[trigger] init[i])
            && init[i].len() > 0 by {
            assert(init[i] == parts[i]);
        }
        lemma_join_plain(init, sep);
        assert(is_plain_text(parts[parts.len() - 1]));
    }
}

/// What is made of a text for a name is plain, and not empty where the text has a
/// letter or a digit.
proof fn lemma_slug(s: Seq<char>)
    ensures
        is_plain_text(slug(s)),
        slug(s).len() > 0 <==> has_alphanumeric(s),
{
    let t = text::lower(s);
    let keep = |w: Seq<char>| w.len() > 0;
    assert forall|k: int| 0 <= k < t.len() implies !('A' <= #[trigger] t[k] <= 'Z') && is_alphanumeric(
        t[k],
    ) == is_alphanumeric(s[k]) by {
        assert(t[k] == text::lower_char(s[k]));
    }
    lemma_pieces(t);
    assert(has_alphanumeric(t) == has_alphanumeric(s)) by {
        if has_alphanumeric(s) {
            let k = choose|k: int| 0 <= k < s.len() && is_alphanumeric(#[trigger] s[k]);
            assert(is_alphanumeric(t[k]));
        }
        if has_alphanumeric(t) {
            let k = choose|k: int| 0 <= k < t.len() && is_alphanumeric(#[trigger] t[k]);
            assert(is_alphanumeric(s[k]));
        }
    }
    let all = pieces(t);
    let found = words(t);
    assert forall|i: int| 0 <= i < found.len() implies is_plain_text(#[trigger] found[i])
        && found[i].len() > 0 && all.contains(found[i]) by {
        all.lemma_filter_pred(keep, i);
        assert(found.contains(found[i]));
        all.lemma_filter_contains_rev(keep, found[i]);
    }
    reveal_strlit("-");
    lemma_join_plain(found, "-"@);
    if has_alphanumeric(s) {
        let i = choose|i: int| 0 <= i < all.len() && (#[trigger] all[i]).len() > 0;
        all.lemma_filter_contains(keep, i);
    }
    if found.len() > 0 {
        assert(all.contains(found[0]));
    }
}

/// A suggested name is never empty, and made of small letters, digits, dashes and
/// underscores alone; it is `profile` where no connector or model gives a letter or
/// a digit.
pub proof fn law_suggested_name_is_plain(ids: Seq<wl::IdView>)
    ensures
        suggested(ids).len() > 0,
        is_plain_text(suggested(ids)),
        (forall|i: int| 0 <= i < ids.len() ==> !has_alphanumeric(name_source(#[trigger] ids[i])))
            ==> suggested(ids) == "profile"@,
        (exists|i: int| 0 <= i < ids.len() && has_alphanumeric(name_source(#[trigger] ids[i])))
            ==> suggested(ids) == text::join(names_of(ids), "_"@),
{
    broadcast use vstd::seq_lib::group_to_multiset_ensures;

    let keep = |w: Seq<char>| w.len() > 0;
    let all = ids.map_values(|id: wl::IdView| called(id));
    let names = names_in(ids);
    let sorted = names_of(ids);
    order::lemma_text_order();
    names.lemma_sort_by_ensures(order::text_order());
    assert(sorted.to_multiset().len() == names.to_multiset().len());
    assert forall|i: int| 0 <= i < all.len() implies is_plain_text(#[trigger] all[i]) && (
    all[i].len() > 0 <==> has_alphanumeric(name_source(ids[i]))) by {
        lemma_slug(name_source(ids[i]));
    }
    assert forall|i: int| 0 <= i < sorted.len() implies is_plain_text(#[trigger] sorted[i])
        && sorted[i].len() > 0 by {
        assert(sorted.contains(sorted[i]));
        let j = choose|j: int| 0 <= j < names.len() && names[j] == sorted[i];
        all.lemma_filter_pred(keep, j);
        assert(names.contains(names[j]));
        all.lemma_filter_contains_rev(keep, names[j]);
    }
    reveal_strlit("_");
    reveal_strlit("profile");
    lemma_join_plain(sorted, "_"@);
    if names.len() > 0 {
        all.lemma_filter_pred(keep, 0);
        assert(names.contains(names[0]));
        all.lemma_filter_contains_rev(keep, names[0]);
        let j = choose|j: int| 0 <= j < all.len() && all[j] == names[0];
        assert(has_alphanumeric(name_source(ids[j])));
    }
    if exists|i: int| 0 <= i < ids.len() && has_alphanumeric(name_source(#[trigger] ids[i])) {
        let i = choose|i: int| 0 <= i < ids.len() && has_alphanumeric(name_source(#[trigger] ids[i]));
        assert(all[i].len() > 0);
        all.lemma_filter_contains(keep, i);
        assert(names.contains(all[i]));
    }
}

/// Which base the profile file is kept under.
#[derive(Clone, Copy, Debug, PartialEq, Eq, Structural)]
pub enum ConfigBase {
    /// The directory that the environment names for configuration.
    Given,
    /// `.config` in the home directory.
    Home,
    /// `.config` in the current directory.
    Current,
}

/// Where the profile file is kept: the directory named for configuration, if it is
/// named and absolute, else `.config` in the home directory, if there is one.
pub fn config_base(given_is_absolute: Option<bool>, has_home: bool) -> (r: ConfigBase)
    ensures
        given_is_absolute == Some(true) ==> r == ConfigBase::Given,
        given_is_absolute != Some(true) && has_home ==> r == ConfigBase::Home,
        given_is_absolute != Some(true) && !has_home ==> r == ConfigBase::Current,
{
    match given_is_absolute {
        Some(true) => ConfigBase::Given,
        _ => if has_home {
            ConfigBase::Home
        } else {
            ConfigBase::Current
        },
    }
}

/// Taking a name away goes through the profiles in order: each one of another name is
/// kept where it stands among the others.
pub proof fn law_removal_keeps_the_order(ps: Seq<ProfileView>, p: ProfileView, name: Seq<char>)
    ensures
        without(Seq::empty(), name).len() == 0,
        p.name == name ==> without(ps.push(p), name) == without(ps, name),
        p.name != name ==> without(ps.push(p), name) == without(ps, name).push(p),
{
    reveal(Seq::filter);
    assert(ps.push(p).drop_last() == ps);
}

/// A new profile comes last, behind all that are there; one of a name that is taken
/// takes the place of the first of that name.
pub proof fn law_upsert_keeps_the_place(ps: Seq<ProfileView>, p: ProfileView, i: int)
    requires
        0 <= i <= ps.len(),
        forall|j: int| 0 <= j < i ==> (#[trigger] ps[j]).name != p.name,
        i < ps.len() ==> ps[i].name == p.name,
    ensures
        upserted(ps, p).len() == (if i < ps.len() {
            ps.len()
        } else {
            ps.len() + 1
        }),
        upserted(ps, p)[i] == p,
        forall|j: int| 0 <= j < ps.len() && j != i ==> #[trigger] upserted(ps, p)[j] == ps[j],
{
    lemma_profile_at(ps, p.name);
}

/// What an entry asks for on an output. The setting is for that output; it is enabled,
/// placed and scaled as the entry says, whatever else the entry says; its mode and its
/// transform are there exactly where the entry has them, and are what their texts
/// read as. There is no setting exactly where one of these texts cannot be read.
pub proof fn law_a_setting_carries_every_field(o: OutputView, id: wl::IdView)
    ensures
        setting_of(o, id) is Ok <==> (o.mode matches Some(m) ==> wl::parse_mode(m) is Ok) && (
        o.transform matches Some(t) ==> wl::transform_named(t) is Some),
        setting_of(o, id) matches Ok(s) ==> {
            &&& s.id == id
            &&& s.enabled == o.enabled
            &&& s.position == o.position
            &&& s.scale == o.scale
            &&& o.mode is None ==> s.mode is None
            &&& o.mode matches Some(m) ==> s.mode matches Some(w) && wl::parse_mode(m) == Ok::<
                wl::ModeSpec,
                wl::SettingErrorView,
            >(w)
            &&& o.transform is None ==> s.transform is None
            &&& o.transform matches Some(t) ==> s.transform is Some && wl::transform_named(t)
                == s.transform
        },
        setting_of(o, id) matches Err(e) ==> {
            ||| o.mode matches Some(m) && wl::parse_mode(m) == Err::<
                wl::ModeSpec,
                wl::SettingErrorView,
            >(e)
            ||| (o.mode matches Some(m) ==> wl::parse_mode(m) is Ok) && (o.transform matches Some(t)
                && e == wl::SettingErrorView::UnknownTransform(t))
        },
{
}

/// Two entries that differ in one setting alone ask for settings that differ in it
/// alone: what an entry says of one thing has no bearing on another.
pub proof fn law_settings_do_not_depend_on_each_other(o: OutputView, p: OutputView, id: wl::IdView)
    requires
        setting_of(o, id) is Ok,
        setting_of(p, id) is Ok,
    ensures
        o.enabled == p.enabled <==> setting_of(o, id)->Ok_0.enabled == setting_of(
            p,
            id,
        )->Ok_0.enabled,
        o.position == p.position <==> setting_of(o, id)->Ok_0.position == setting_of(
            p,
            id,
        )->Ok_0.position,
        o.scale == p.scale <==> setting_of(o, id)->Ok_0.scale == setting_of(p, id)->Ok_0.scale,
        o.mode == p.mode ==> setting_of(o, id)->Ok_0.mode == setting_of(p, id)->Ok_0.mode,
        o.transform == p.transform ==> setting_of(o, id)->Ok_0.transform == setting_of(
            p,
            id,
        )->Ok_0.transform,
{
}

/// Whether a text begins with given letters, whatever their case.
pub open spec fn begins_with(s: Seq<char>, letters: Seq<(char, char)>) -> bool {
    s.len() >= letters.len() && forall|k: int|
        0 <= k < letters.len() ==> s[k] == (#[trigger] letters[k]).0 || s[k] == letters[k].1
}

/// A panel is built in exactly where its connector begins with `eDP`, `LVDS` or `DSI`,
/// in whatever case.
pub proof fn law_built_in_panels(connector: Seq<char>)
    ensures
        internal(connector) <==> {
            ||| begins_with(connector, seq![('e', 'E'), ('d', 'D'), ('p', 'P')])
            ||| begins_with(connector, seq![('l', 'L'), ('v', 'V'), ('d', 'D'), ('s', 'S')])
            ||| begins_with(connector, seq![('d', 'D'), ('s', 'S'), ('i', 'I')])
        },
{
    reveal_strlit("edp");
    reveal_strlit("lvds");
    reveal_strlit("dsi");
    lemma_prefix(connector, "edp"@, seq![('e', 'E'), ('d', 'D'), ('p', 'P')]);
    lemma_prefix(connector, "lvds"@, seq![('l', 'L'), ('v', 'V'), ('d', 'D'), ('s', 'S')]);
    lemma_prefix(connector, "dsi"@, seq![('d', 'D'), ('s', 'S'), ('i', 'I')]);
}

/// A prefix in small letters.
proof fn lemma_prefix(s: Seq<char>, prefix: Seq<char>, letters: Seq<(char, char)>)
    requires
        prefix.len() == letters.len(),
        forall|k: int|
            0 <= k < letters.len() ==> {
                &&& prefix[k] == (#[trigger] letters[k]).0
                &&& 'a' <= letters[k].0 <= 'z'
                &&& 'A' <= letters[k].1 <= 'Z'
                &&& text::lower_char(letters[k].1) == letters[k].0
            },
    ensures
        text::starts_with(text::lower(s), prefix) <==> begins_with(s, letters),
{
    let t = text::lower(s);
    if text::starts_with(t, prefix) {
        assert forall|k: int| 0 <= k < letters.len() implies s[k] == (#[trigger] letters[k]).0
            || s[k] == letters[k].1 by {
            assert(t.take(prefix.len() as int)[k] == prefix[k]);
            assert(t[k] == text::lower_char(s[k]));
        }
    }
    if begins_with(s, letters) {
        assert(t.take(prefix.len() as int) =~= prefix) by {
            assert forall|k: int| 0 <= k < prefix.len() implies t[k] == prefix[k] by {
                assert(s[k] == letters[k].0 || s[k] == letters[k].1);
                assert(t[k] == text::lower_char(s[k]));
            }
        }
    }
}

/// What an output is saved by. A built-in panel, and an output that tells no model, go
/// by their connector alone. Any other goes by its model, by its make where it tells
/// one, and by its serial where it tells one and an exact monitor is asked for; never
/// by its connector.
pub proof fn law_an_output_is_saved_by_its_keys(h: wl::HeadView, with_serial: bool)
    ensures
        ({
            let o = entry_of(h, with_serial);
            let tells = |s: Seq<char>| s.len() > 0 && s != "Unknown"@;
            if internal(h.id.connector) || !tells(h.id.model) {
                &&& o.connector == Some(h.id.connector)
                &&& o.make is None
                &&& o.model is None
                &&& o.serial is None
            } else {
                &&& o.connector is None
                &&& o.make == (if tells(h.id.make) {
                    Some(h.id.make)
                } else {
                    None
                })
                &&& o.model == Some(h.id.model)
                &&& o.serial == (if with_serial && tells(h.id.serial) {
                    Some(h.id.serial)
                } else {
                    None
                })
            }
        }),
{
}

/// An entry keeps everything of the head that it was made from: whether it is enabled,
/// where it stands, and texts that read back as its mode and its transform.
pub proof fn law_an_entry_keeps_every_field(h: wl::HeadView, with_serial: bool)
    ensures
        ({
            let o = entry_of(h, with_serial);
            &&& o.enabled == h.enabled
            &&& o.position == Some(h.position)
            &&& o.scale is Some
            &&& h.current_mode is None ==> o.mode is None
            &&& h.current_mode matches Some(m) ==> o.mode matches Some(t) && wl::parse_mode(t)
                == Ok::<wl::ModeSpec, wl::SettingErrorView>(
                wl::ModeSpec { width: m.width, height: m.height, refresh: Some(m.refresh) },
            )
            &&& o.transform matches Some(t) && wl::transform_named(t) == Some(h.transform)
        }),
{
    wl::law_transform_names_round_trip(h.transform);
    match h.current_mode {
        Some(m) => {
            wl::law_mode_text_round_trips(
                wl::ModeSpec { width: m.width, height: m.height, refresh: Some(m.refresh) },
            );
        },
        None => {},
    }
}

/// A text with a blank before it, if it is there.
pub open spec fn with_blank(s: Option<Seq<char>>) -> Seq<char> {
    match s {
        Some(s) => seq![' '] + s,
        None => Seq::empty(),
    }
}

/// An entry reads as its keys, connector, make, model and serial in this order, each
/// that it has, with a blank between them.
pub proof fn law_a_label_names_every_key(o: OutputView)
    requires
        o.connector is Some || o.make is Some || o.model is Some || o.serial is Some,
    ensures
        seq![' '] + label_of(o) == with_blank(o.connector) + with_blank(o.make) + with_blank(
            o.model,
        ) + with_blank(o.serial),
{
    reveal_strlit(" ");
    assert(" "@ =~= seq![' ']);
    let a = listed(o.connector);
    let b = a + listed(o.make);
    let c = b + listed(o.model);
    lemma_blanks(Seq::empty(), o.connector);
    assert(Seq::<Seq<char>>::empty() + listed(o.connector) =~= a);
    lemma_blanks(a, o.make);
    lemma_blanks(b, o.model);
    lemma_blanks(c, o.serial);
    assert(blanked(Seq::empty()) =~= Seq::<char>::empty());
    assert(Seq::<char>::empty() + with_blank(o.connector) =~= with_blank(o.connector));
    assert(label_parts(o).len() > 0);
}

/// Texts joined by blanks, with one in front.
spec fn blanked(parts: Seq<Seq<char>>) -> Seq<char> {
    if parts.len() == 0 {
        Seq::empty()
    } else {
        seq![' '] + text::join(parts, " "@)
    }
}

proof fn lemma_blanks(parts: Seq<Seq<char>>, s: Option<Seq<char>>)
    ensures
        blanked(parts + listed(s)) == blanked(parts) + with_blank(s),
{
    reveal_strlit(" ");
    assert(" "@ =~= seq![' ']);
    match s {
        Some(t) => {
            let all = parts + seq![t];
            assert(all.drop_last() =~= parts);
            assert(all.last() == t);
            if parts.len() == 0 {
                assert(text::join(all, " "@) == t);
            }
            assert(blanked(all) =~= blanked(parts) + with_blank(s));
        },
        None => {
            assert(parts + listed(s) =~= parts);
            assert(blanked(parts) + with_blank(s) =~= blanked(parts));
        },
    }
}

/// What is made of a text for a name has the letters and digits of the text, small, in
/// their order, and nothing else but dashes.
pub proof fn law_a_name_has_the_letters_and_digits(s: Seq<char>)
    ensures
        slug(s).filter(|c: char| c != '-') == text::lower(s).filter(|c: char| is_alphanumeric(c)),
{
    let t = text::lower(s);
    let keep = |w: Seq<char>| w.len() > 0;
    reveal_strlit("-");
    lemma_join_letters(words(t));
    lemma_flat_filter(pieces(t));
    lemma_flat_pieces(t);
    lemma_flat_plain(pieces(t), t);
}

/// The texts one behind the other.
spec fn flat(parts: Seq<Seq<char>>) -> Seq<char>
    decreases parts.len(),
{
    if parts.len() == 0 {
        Seq::empty()
    } else {
        flat(parts.drop_last()) + parts.last()
    }
}

proof fn lemma_join_letters(parts: Seq<Seq<char>>)
    ensures
        text::join(parts, "-"@).filter(|c: char| c != '-') == flat(parts).filter(
            |c: char| c != '-',
        ),
    decreases parts.len(),
{
    let other = |c: char| c != '-';
    reveal_strlit("-");
    assert("-"@ =~= seq!['-']);
    assert(seq!['-'].filter(other) =~= Seq::<char>::empty()) by {
        reveal(Seq::filter);
        let none = Seq::<char>::empty();
        assert(seq!['-'].drop_last() =~= none);
        assert(none.filter(other) =~= none);
        assert(!other(seq!['-'].last()));
    }
    if parts.len() == 1 {
        assert(flat(parts.drop_last()) =~= Seq::<char>::empty());
        assert(flat(parts) =~= parts[0]);
    } else if parts.len() > 1 {
        let init = parts.drop_last();
        lemma_join_letters(init);
        Seq::filter_distributes_over_add(text::join(init, "-"@) + "-"@, parts.last(), other);
        Seq::filter_distributes_over_add(text::join(init, "-"@), "-"@, other);
        Seq::filter_distributes_over_add(flat(init), parts.last(), other);
        assert(text::join(init, "-"@).filter(other) + Seq::<char>::empty() =~= text::join(
            init,
            "-"@,
        ).filter(other));
    }
}

proof fn lemma_flat_filter(parts: Seq<Seq<char>>)
    ensures
        flat(parts.filter(|w: Seq<char>| w.len() > 0)) == flat(parts),
    decreases parts.len(),
{
    let keep = |w: Seq<char>| w.len() > 0;
    reveal(Seq::filter);
    if parts.len() > 0 {
        let init = parts.drop_last();
        lemma_flat_filter(init);
        if keep(parts.last()) {
            assert(init.filter(keep).push(parts.last()).drop_last() =~= init.filter(keep));
        } else {
            assert(flat(init) + parts.last() =~= flat(init));
        }
    }
}

proof fn lemma_flat_pieces(s: Seq<char>)
    ensures
        pieces(s).len() > 0,
        flat(pieces(s)) == s.filter(|c: char| is_alphanumeric(c)),
    decreases s.len(),
{
    let keep = |c: char| is_alphanumeric(c);
    reveal(Seq::filter);
    if s.len() == 0 {
        let one = seq![Seq::<char>::empty()];
        assert(pieces(s) == one);
        assert(one.drop_last() =~= Seq::<Seq<char>>::empty());
        assert(flat(one.drop_last()) =~= Seq::<char>::empty());
        assert(flat(one) == flat(one.drop_last()) + one.last());
        assert(flat(one) =~= Seq::<char>::empty());
    } else {
        let init = s.drop_last();
        let before = pieces(init);
        lemma_flat_pieces(init);
        if keep(s.last()) {
            let last = before.last().push(s.last());
            assert(before.drop_last().push(last).drop_last() =~= before.drop_last());
            assert(flat(before) == flat(before.drop_last()) + before.last());
            assert(flat(pieces(s)) =~= flat(before).push(s.last()));
        } else {
            assert(before.push(Seq::empty()).drop_last() =~= before);
            assert(flat(pieces(s)) =~= flat(before));
        }
    }
}

proof fn lemma_flat_plain(parts: Seq<Seq<char>>, s: Seq<char>)
    requires
        flat(parts) == s.filter(|c: char| is_alphanumeric(c)),
    ensures
        flat(parts).filter(|c: char| c != '-') == flat(parts),
{
    let keep = |c: char| is_alphanumeric(c);
    let other = |c: char| c != '-';
    let f = flat(parts);
    assert forall|i: int| 0 <= i < f.len() implies other(#[trigger] f[i]) by {
        s.lemma_filter_pred(keep, i);
    }
    lemma_filter_all(f, other);
}

/// Where all are kept, the text stays as it is.
proof fn lemma_filter_all(s: Seq<char>, keep: spec_fn(char) -> bool)
    requires
        forall|i: int| 0 <= i < s.len() ==> keep(#[trigger] s[i]),
    ensures
        s.filter(keep) == s,
    decreases s.len(),
{
    reveal(Seq::filter);
    if s.len() > 0 {
        let t = s.drop_last();
        assert forall|i: int| 0 <= i < t.len() implies keep(#[trigger] t[i]) by {
            assert(s[i] == t[i]);
        }
        lemma_filter_all(t, keep);
        assert(keep(s[s.len() - 1]));
        assert(t.push(s.last()) =~= s);
    }
}

/// The name of a set of outputs is the names of the outputs that have one, in the order
/// of texts, with underscores between them; an output has the name that is made of its
/// model, or of its connector if it is saved by that.
pub proof fn law_a_suggested_name_lists_the_outputs(ids: Seq<wl::IdView>, id: wl::IdView)
    ensures
        names_of(ids).to_multiset() == names_in(ids).to_multiset(),
        forall|i: int, j: int|
            0 <= i < j < names_of(ids).len() ==> order::text_le(
                #[trigger] names_of(ids)[i],
                #[trigger] names_of(ids)[j],
            ),
        names_in(Seq::empty()).len() == 0,
        names_in(ids.push(id)) == (if slug(name_source(id)).len() > 0 {
            names_in(ids).push(slug(name_source(id)))
        } else {
            names_in(ids)
        }),
        names_of(ids).len() > 0 ==> suggested(ids) == text::join(names_of(ids), "_"@),
{
    order::lemma_text_order();
    names_in(ids).lemma_sort_by_ensures(order::text_order());
    lemma_name_added(ids, id);
    assert(Seq::<wl::IdView>::empty().map_values(|id: wl::IdView| called(id)) =~= Seq::empty());
    assert(names_in(Seq::empty()).len() == 0) by {
        reveal(Seq::filter);
    }
    let le = order::text_order();
    assert forall|i: int, j: int| 0 <= i < j < names_of(ids).len() implies order::text_le(
        #[trigger] names_of(ids)[i],
        #[trigger] names_of(ids)[j],
    ) by {
        assert(le(names_of(ids)[i], names_of(ids)[j]));
    }
}

/// A snapshot is saved whole: an entry for each head, in their order.
pub proof fn law_a_snapshot_is_saved_whole(heads: Seq<wl::HeadView>, with_serial: bool, i: int)
    requires
        0 <= i < heads.len(),
    ensures
        entries_of(heads, with_serial).len() == heads.len(),
        entries_of(heads, with_serial)[i] == entry_of(heads[i], with_serial),
{
}

/// An entry without any key reads as one that matches nothing.
pub proof fn law_an_entry_without_keys_matches_nothing(o: OutputView)
    requires
        o.connector is None,
        o.make is None,
        o.model is None,
        o.serial is None,
    ensures
        label_of(o) == "<matches nothing>"@,
{
}

}
