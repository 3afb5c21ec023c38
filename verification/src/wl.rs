//! The outputs as the compositor describes them: identities, modes, transforms,
//! heads, and the settings to ask for.

use vstd::prelude::*;

use crate::number;
use crate::order;
use crate::scale::Scale;
use crate::text;

verus! {

/// What stands for an EDID field that the display did not report.
pub const UNKNOWN: &'static str = "Unknown";

/// Identity of a connected output. Unique per head: two identical monitors still
/// differ by connector.
#[derive(Debug, Default, PartialEq, Eq, Hash, PartialOrd, Ord)]
pub struct HeadId {
    pub connector: String,
    pub make: String,
    pub model: String,
    pub serial: String,
}

/// What a `HeadId` says.
#[verifier::ext_equal]
pub struct IdView {
    pub connector: Seq<char>,
    pub make: Seq<char>,
    pub model: Seq<char>,
    pub serial: Seq<char>,
}

impl View for HeadId {
    type V = IdView;

    open spec fn view(&self) -> IdView {
        IdView {
            connector: self.connector@,
            make: self.make@,
            model: self.model@,
            serial: self.serial@,
        }
    }
}

impl Clone for HeadId {
    fn clone(&self) -> (r: HeadId)
        ensures
            r@ == self@,
    {
        HeadId {
            connector: self.connector.clone(),
            make: self.make.clone(),
            model: self.model.clone(),
            serial: self.serial.clone(),
        }
    }
}

impl IdView {
    /// How an identity reads in logs.
    pub open spec fn text(self) -> Seq<char> {
        self.connector + " ("@ + self.make + " "@ + self.model + " "@ + self.serial + ")"@
    }

    /// Whether the identity stands before `other` or is the same: by connector,
    /// then make, then model, then serial.
    pub open spec fn le(self, other: IdView) -> bool {
        if self.connector != other.connector {
            order::text_le(self.connector, other.connector)
        } else if self.make != other.make {
            order::text_le(self.make, other.make)
        } else if self.model != other.model {
            order::text_le(self.model, other.model)
        } else {
            order::text_le(self.serial, other.serial)
        }
    }
}

impl HeadId {
    /// Whether two identities are the same in every field.
    pub fn same(&self, other: &HeadId) -> (r: bool)
        ensures
            r == (self@ == other@),
    {
        self.connector == other.connector && self.make == other.make && self.model == other.model
            && self.serial == other.serial
    }

    /// Whether the identity stands before `other` or is the same.
    pub fn not_after(&self, other: &HeadId) -> (r: bool)
        ensures
            r == self@.le(other@),
    {
        if self.connector != other.connector {
            order::not_after(self.connector.as_str(), other.connector.as_str())
        } else if self.make != other.make {
            order::not_after(self.make.as_str(), other.make.as_str())
        } else if self.model != other.model {
            order::not_after(self.model.as_str(), other.model.as_str())
        } else {
            order::not_after(self.serial.as_str(), other.serial.as_str())
        }
    }

    /// How the identity reads in logs.
    pub fn to_string(&self) -> (r: String)
        ensures
            r@ == self@.text(),
    {
        let mut r = self.connector.clone();
        r.append(" (");
        r.append(self.make.as_str());
        r.append(" ");
        r.append(self.model.as_str());
        r.append(" ");
        r.append(self.serial.as_str());
        r.append(")");
        r
    }
}

/// A mode that an output advertises.
#[derive(Clone, Copy, Debug, Default, PartialEq, Eq)]
pub struct Mode {
    pub width: i32,
    pub height: i32,
    /// mHz, as the protocol reports it.
    pub refresh: i32,
    pub preferred: bool,
}

/// A mode as written in the config: refresh is optional.
#[derive(Clone, Copy, Debug, PartialEq, Eq)]
pub struct ModeSpec {
    pub width: i32,
    pub height: i32,
    pub refresh: Option<i32>,
}

impl From<Mode> for ModeSpec {
    fn from(m: Mode) -> (r: ModeSpec) {
        ModeSpec { width: m.width, height: m.height, refresh: Some(m.refresh) }
    }
}

impl vstd::std_specs::convert::FromSpecImpl<Mode> for ModeSpec {
    open spec fn obeys_from_spec() -> bool {
        true
    }

    open spec fn from_spec(m: Mode) -> ModeSpec {
        ModeSpec { width: m.width, height: m.height, refresh: Some(m.refresh) }
    }
}

/// Why an entry of a profile cannot be applied: the text that cannot be read.
#[derive(Debug, PartialEq, Eq)]
pub enum SettingError {
    /// The refresh rate is no number.
    BadRate(String),
    /// The mode has no `x` in it.
    BadMode(String),
    /// What stands before the `x` of the mode is no width.
    BadWidth(String),
    /// What stands behind the `x` of the mode is no height.
    BadHeight(String),
    /// No transform has this name.
    UnknownTransform(String),
}

/// What a `SettingError` says.
pub enum SettingErrorView {
    BadRate(Seq<char>),
    BadMode(Seq<char>),
    BadWidth(Seq<char>),
    BadHeight(Seq<char>),
    UnknownTransform(Seq<char>),
}

impl View for SettingError {
    type V = SettingErrorView;

    open spec fn view(&self) -> SettingErrorView {
        match self {
            SettingError::BadRate(s) => SettingErrorView::BadRate(s@),
            SettingError::BadMode(s) => SettingErrorView::BadMode(s@),
            SettingError::BadWidth(s) => SettingErrorView::BadWidth(s@),
            SettingError::BadHeight(s) => SettingErrorView::BadHeight(s@),
            SettingError::UnknownTransform(s) => SettingErrorView::UnknownTransform(s@),
        }
    }
}

/// How a mode is written: `WIDTHxHEIGHT`, and the refresh rate in Hz with three
/// decimals behind an `@` where there is one.
pub open spec fn mode_text(m: ModeSpec) -> Seq<char> {
    let size = number::show_int(m.width as int) + seq!['x'] + number::show_int(m.height as int);
    match m.refresh {
        Some(mhz) => size + seq!['@'] + number::show_thousandths(mhz as int),
        None => size,
    }
}

/// The refresh rate behind an `@`, without its unit and white space.
pub open spec fn rate_text(s: Seq<char>) -> Seq<char> {
    text::trim(text::strip_suffixes(text::strip_suffixes(s, "Hz"@), "hz"@))
}

/// The mode that a text writes.
pub open spec fn parse_mode(s: Seq<char>) -> Result<ModeSpec, SettingErrorView> {
    let (size, rate) = match text::first_at(s, '@') {
        Some(i) => (s.take(i), Some(rate_text(s.skip(i + 1)))),
        None => (s, None),
    };
    if rate is Some && number::thousandths_spec(rate->0) is None {
        Err(SettingErrorView::BadRate(rate->0))
    } else {
        match text::first_at(size, 'x') {
            None => Err(SettingErrorView::BadMode(s)),
            Some(i) => {
                let width = number::parse_i32_spec(text::trim(size.take(i)));
                let height = number::parse_i32_spec(text::trim(size.skip(i + 1)));
                if width is None {
                    Err(SettingErrorView::BadWidth(s))
                } else if height is None {
                    Err(SettingErrorView::BadHeight(s))
                } else {
                    Ok(
                        ModeSpec {
                            width: width->0,
                            height: height->0,
                            refresh: match rate {
                                Some(r) => number::thousandths_spec(r),
                                None => None,
                            },
                        },
                    )
                }
            },
        }
    }
}

impl Mode {
    /// How the mode is written.
    pub fn to_string(&self) -> (r: String)
        ensures
            r@ == mode_text(ModeSpec { width: self.width, height: self.height, refresh: Some(self.refresh) }),
    {
        ModeSpec::from(*self).to_string()
    }
}

impl ModeSpec {
    /// How the mode is written.
    pub fn to_string(&self) -> (r: String)
        ensures
            r@ == mode_text(*self),
    {
        let mut v: Vec<char> = Vec::new();
        number::push_int(&mut v, self.width as i64);
        v.push('x');
        number::push_int(&mut v, self.height as i64);
        let ghost size = v@;
        assert(size == number::show_int(self.width as int) + seq!['x'] + number::show_int(
            self.height as int,
        ));
        if let Some(mhz) = self.refresh {
            v.push('@');
            number::push_thousandths(&mut v, mhz);
            assert(v@ == size + seq!['@'] + number::show_thousandths(mhz as int));
        }
        text::from_chars(&v)
    }

    /// Reads a mode. The rate is read as a decimal fraction of Hz, with or without
    /// the unit behind it: the nearest double, rounded to mHz.
    pub fn from_str(s: &str) -> (r: Result<ModeSpec, SettingError>)
        ensures
            match r {
                Ok(m) => parse_mode(s@) == Ok::<ModeSpec, SettingErrorView>(m),
                Err(e) => parse_mode(s@) == Err::<ModeSpec, SettingErrorView>(e@),
            },
    {
        let v = text::to_chars(s);
        let n = v.len();
        let (size, refresh): (Vec<char>, Option<i32>) = match text::find_char(&v, '@') {
            Some(i) => {
                let head = text::part(&v, 0, i);
                let tail = text::part(&v, i + 1, n);
                assert(head@ == v@.take(i as int));
                assert(tail@ == v@.skip(i + 1));
                let rate = text::trimmed(
                    &text::without_suffixes(&text::without_suffixes(&tail, "Hz"), "hz"),
                );
                match number::thousandths(&rate) {
                    Some(mhz) => (head, Some(mhz)),
                    None => {
                        return Err(SettingError::BadRate(text::from_chars(&rate)));
                    },
                }
            },
            None => (v, None),
        };
        let m = size.len();
        match text::find_char(&size, 'x') {
            None => Err(SettingError::BadMode(s.to_owned())),
            Some(i) => {
                let head = text::part(&size, 0, i);
                let tail = text::part(&size, i + 1, m);
                assert(head@ == size@.take(i as int));
                assert(tail@ == size@.skip(i + 1));
                match number::parse_i32(&text::trimmed(&head)) {
                    None => Err(SettingError::BadWidth(s.to_owned())),
                    Some(width) => match number::parse_i32(&text::trimmed(&tail)) {
                        None => Err(SettingError::BadHeight(s.to_owned())),
                        Some(height) => Ok(ModeSpec { width, height, refresh }),
                    },
                }
            },
        }
    }
}


/// A text that neither starts nor ends with white space is trimmed already.
proof fn lemma_trim_nothing(s: Seq<char>)
    requires
        s.len() > 0,
        !text::is_space(s[0]),
        !text::is_space(s.last()),
    ensures
        text::trim(s) == s,
{
}

proof fn lemma_strip_nothing(s: Seq<char>, suffix: Seq<char>)
    requires
        s.len() > 0,
        suffix.len() > 0,
        s.last() != suffix.last(),
    ensures
        text::strip_suffixes(s, suffix) == s,
{
    if suffix.len() <= s.len() && s.skip(s.len() - suffix.len()) == suffix {
        assert(s.skip(s.len() - suffix.len()).last() == s.last());
    }
}

proof fn lemma_show_int_chars(n: int)
    ensures
        number::show_int(n).len() > 0,
        number::is_digit(number::show_int(n).last()),
        forall|i: int|
            0 <= i < number::show_int(n).len() ==> number::is_digit(#[trigger] number::show_int(n)[i])
                || number::show_int(n)[i] == '-',
{
    if n < 0 {
        let t = number::show_nat((-n) as nat);
        let s = number::show_int(n);
        number::lemma_show_nat((-n) as nat);
        assert forall|i: int| 0 <= i < s.len() implies number::is_digit(#[trigger] s[i]) || s[i]
            == '-' by {
            if i > 0 {
                assert(number::is_digit(t[i - 1]));
            }
        }
        assert(number::is_digit(t.last()));
        assert(s.last() == t.last());
    } else {
        number::lemma_show_nat(n as nat);
        assert(number::is_digit(number::show_nat(n as nat).last()));
    }
}

/// How a size is written.
spec fn size_text(width: i32, height: i32) -> Seq<char> {
    number::show_int(width as int) + seq!['x'] + number::show_int(height as int)
}

/// A size reads back from its own text, in which there is no `@`.
proof fn lemma_size_text(width: i32, height: i32)
    ensures
        ({
            let s = size_text(width, height);
            &&& forall|i: int| 0 <= i < s.len() ==> #[trigger] s[i] != '@'
            &&& text::first_at(s, 'x') matches Some(i) && number::parse_i32_spec(
                text::trim(s.take(i)),
            ) == Some(width) && number::parse_i32_spec(text::trim(s.skip(i + 1))) == Some(height)
        }),
{
    let w = number::show_int(width as int);
    let h = number::show_int(height as int);
    let size = size_text(width, height);
    lemma_show_int_chars(width as int);
    lemma_show_int_chars(height as int);
    number::law_int_text_round_trips(width);
    number::law_int_text_round_trips(height);
    assert forall|i: int| 0 <= i < size.len() implies #[trigger] size[i] != '@' by {
        if i < w.len() {
            assert(size[i] == w[i]);
        } else if i > w.len() {
            assert(size[i] == h[i - w.len() - 1]);
        }
    }
    assert forall|i: int| 0 <= i < w.len() implies #[trigger] size[i] != 'x' by {
        assert(size[i] == w[i]);
    }
    assert(size[w.len() as int] == 'x');
    text::lemma_first_at_is(size, 'x', w.len() as int);
    assert(size.take(w.len() as int) == w);
    assert(size.skip(w.len() + 1int) == h);
    lemma_trim_nothing(w);
    lemma_trim_nothing(h);
}

/// A rate reads back from its own text.
proof fn lemma_rate_text(mhz: i32)
    ensures
        number::thousandths_spec(rate_text(number::show_thousandths(mhz as int))) == Some(mhz),
{
    let r = number::show_thousandths(mhz as int);
    number::law_thousandths_text_round_trips(mhz);
    reveal_strlit("Hz");
    reveal_strlit("hz");
    lemma_thousandths_chars(mhz as int);
    lemma_strip_nothing(r, "Hz"@);
    lemma_strip_nothing(r, "hz"@);
    lemma_trim_nothing(r);
}

/// Every mode reads back from its own text.
pub proof fn law_mode_text_round_trips(m: ModeSpec)
    ensures
        parse_mode(mode_text(m)) == Ok::<ModeSpec, SettingErrorView>(m),
{
    let size = size_text(m.width, m.height);
    let s = mode_text(m);
    lemma_size_text(m.width, m.height);
    match m.refresh {
        Some(mhz) => {
            let r = number::show_thousandths(mhz as int);
            lemma_rate_text(mhz);
            assert(s == size + seq!['@'] + r);
            assert forall|i: int| 0 <= i < size.len() implies #[trigger] s[i] != '@' by {
                assert(s[i] == size[i]);
            }
            assert(s[size.len() as int] == '@');
            text::lemma_first_at_is(s, '@', size.len() as int);
            assert(s.take(size.len() as int) == size);
            assert(s.skip(size.len() + 1int) == r);
        },
        None => {
            assert(s == size);
            text::lemma_first_at(s, '@');
        },
    }
}

proof fn lemma_thousandths_chars(n: int)
    ensures
        number::show_thousandths(n).len() > 0,
        number::is_digit(number::show_thousandths(n).last()),
        number::is_digit(number::show_thousandths(n)[0]) || number::show_thousandths(n)[0] == '-',
{
    let size = if n < 0 {
        (-n) as nat
    } else {
        n as nat
    };
    number::lemma_show_nat(size / 1000);
    assert(number::is_digit(number::show_nat(size / 1000)[0]));
    let s = number::show_thousandths(n);
    assert(s.last() == number::digit(size % 1000 % 10));
    if n >= 0 {
        assert(s[0] == number::show_nat(size / 1000)[0]);
    }
}

/// How an output is turned and mirrored.
#[derive(Clone, Copy, Debug, PartialEq, Eq, Structural)]
pub enum Transform {
    Normal,
    _90,
    _180,
    _270,
    Flipped,
    Flipped90,
    Flipped180,
    Flipped270,
}

/// All transforms, in the order in which they are offered.
pub const TRANSFORMS: [Transform; 8] = [
    Transform::Normal,
    Transform::_90,
    Transform::_180,
    Transform::_270,
    Transform::Flipped,
    Transform::Flipped90,
    Transform::Flipped180,
    Transform::Flipped270,
];

/// Whether the transform is a quarter turn, mirrored or not.
pub open spec fn is_rotated(t: Transform) -> bool {
    t == Transform::_90 || t == Transform::_270 || t == Transform::Flipped90 || t
        == Transform::Flipped270
}

/// Whether the transform is a quarter turn, mirrored or not.
pub fn rotated(transform: Transform) -> (r: bool)
    ensures
        r == is_rotated(transform),
{
    matches!(transform, Transform::_90 | Transform::_270 | Transform::Flipped90 | Transform::Flipped270)
}

/// The name of a transform in a profile.
pub open spec fn name_of(t: Transform) -> Seq<char> {
    match t {
        Transform::Normal => "normal"@,
        Transform::_90 => "90"@,
        Transform::_180 => "180"@,
        Transform::_270 => "270"@,
        Transform::Flipped => "flipped"@,
        Transform::Flipped90 => "flipped-90"@,
        Transform::Flipped180 => "flipped-180"@,
        Transform::Flipped270 => "flipped-270"@,
    }
}

/// The name of a transform in a profile.
pub fn transform_name(t: Transform) -> (r: &'static str)
    ensures
        r@ == name_of(t),
{
    match t {
        Transform::_90 => "90",
        Transform::_180 => "180",
        Transform::_270 => "270",
        Transform::Flipped => "flipped",
        Transform::Flipped90 => "flipped-90",
        Transform::Flipped180 => "flipped-180",
        Transform::Flipped270 => "flipped-270",
        Transform::Normal => "normal",
    }
}

/// The transform that a profile names; `0` is another name for `normal`.
pub open spec fn transform_named(s: Seq<char>) -> Option<Transform> {
    if s == "normal"@ || s == "0"@ {
        Some(Transform::Normal)
    } else if s == "90"@ {
        Some(Transform::_90)
    } else if s == "180"@ {
        Some(Transform::_180)
    } else if s == "270"@ {
        Some(Transform::_270)
    } else if s == "flipped"@ {
        Some(Transform::Flipped)
    } else if s == "flipped-90"@ {
        Some(Transform::Flipped90)
    } else if s == "flipped-180"@ {
        Some(Transform::Flipped180)
    } else if s == "flipped-270"@ {
        Some(Transform::Flipped270)
    } else {
        None
    }
}

/// The transform that a profile names.
pub fn transform_from_name(s: &str) -> (r: Result<Transform, SettingError>)
    ensures
        match r {
            Ok(t) => transform_named(s@) == Some(t),
            Err(e) => transform_named(s@) is None && e@ == SettingErrorView::UnknownTransform(s@),
        },
{
    if text::same_text(s, "normal") || text::same_text(s, "0") {
        Ok(Transform::Normal)
    } else if text::same_text(s, "90") {
        Ok(Transform::_90)
    } else if text::same_text(s, "180") {
        Ok(Transform::_180)
    } else if text::same_text(s, "270") {
        Ok(Transform::_270)
    } else if text::same_text(s, "flipped") {
        Ok(Transform::Flipped)
    } else if text::same_text(s, "flipped-90") {
        Ok(Transform::Flipped90)
    } else if text::same_text(s, "flipped-180") {
        Ok(Transform::Flipped180)
    } else if text::same_text(s, "flipped-270") {
        Ok(Transform::Flipped270)
    } else {
        Err(SettingError::UnknownTransform(s.to_owned()))
    }
}

/// Every transform is the one that its name names.
pub proof fn law_transform_names_round_trip(t: Transform)
    ensures
        transform_named(name_of(t)) == Some(t),
{
    reveal_strlit("normal");
    reveal_strlit("0");
    reveal_strlit("90");
    reveal_strlit("180");
    reveal_strlit("270");
    reveal_strlit("flipped");
    reveal_strlit("flipped-90");
    reveal_strlit("flipped-180");
    reveal_strlit("flipped-270");
    assert("90"@.len() == 2 && "normal"@.len() == 6 && "0"@.len() == 1);
    assert("180"@.len() == 3 && "270"@.len() == 3 && "180"@[0] == '1' && "270"@[0] == '2');
    assert("flipped"@.len() == 7 && "flipped-90"@.len() == 10);
    assert("flipped-180"@.len() == 11 && "flipped-270"@.len() == 11);
    assert("flipped-180"@[8] == '1' && "flipped-270"@[8] == '2');
}


/// The scale the compositor will really use: it snaps the scale to 120ths, the
/// increment the fractional-scale protocol carries. The wire value needs it too:
/// a configured 1.6 is reported back as 1.6015625.
pub fn quantized_scale(scale: Scale) -> (r: Scale)
    ensures
        r == Scale::of_steps(scale.steps()),
{
    scale.quantized()
}

/// `a / b` without the fraction.
pub open spec fn truncated(a: int, b: nat) -> int {
    if a < 0 {
        -((-a) / (b as int))
    } else {
        a / (b as int)
    }
}

/// The logical length of so many pixels at a scale of so many 120ths.
pub open spec fn logical(px: i32, steps: Option<nat>) -> i32 {
    match steps {
        Some(n) => truncated(px * 120, n) as i32,
        None => 0,
    }
}

fn logical_length(px: i32, scale: Scale) -> (r: i32)
    ensures
        r == logical(px, scale.steps()),
{
    let steps = scale.step_count();
    let size: u64 = if px < 0 {
        (-(px as i64)) as u64 * 120
    } else {
        px as u64 * 120
    };
    let q: u64 = size / steps;
    proof {
        match scale.steps() {
            Some(n) => {
                if n >= 0x20_0000_0000_0000 {
                    assert(q == 0);
                    vstd::arithmetic::div_mod::lemma_fundamental_div_mod_converse(
                        size as int,
                        n as int,
                        0,
                        size as int,
                    );
                }
            },
            None => {
                assert(q == 0);
            },
        }
    }
    if px < 0 {
        (-(q as i64)) as i32
    } else {
        q as i64 as i32
    }
}

/// The logical size that the compositor derives from a mode and a scale: the
/// pixels divided by the 120ths of the scale, truncated. Derived any other way it
/// comes out a pixel or three off, and outputs placed edge to edge really
/// overlap.
pub fn logical_size(width: i32, height: i32, scale: Scale) -> (r: (i32, i32))
    ensures
        r.0 == logical(width, scale.steps()),
        r.1 == logical(height, scale.steps()),
{
    (logical_length(width, scale), logical_length(height, scale))
}

/// A connected output.
#[derive(Debug)]
pub struct Head {
    pub id: HeadId,
    pub description: String,
    pub modes: Vec<Mode>,
    pub enabled: bool,
    pub current_mode: Option<Mode>,
    pub position: (i32, i32),
    pub scale: Scale,
    pub transform: Transform,
}

/// What a `Head` says.
#[verifier::ext_equal]
pub struct HeadView {
    pub id: IdView,
    pub description: Seq<char>,
    pub modes: Seq<Mode>,
    pub enabled: bool,
    pub current_mode: Option<Mode>,
    pub position: (i32, i32),
    pub scale: Scale,
    pub transform: Transform,
}

impl View for Head {
    type V = HeadView;

    open spec fn view(&self) -> HeadView {
        HeadView {
            id: self.id@,
            description: self.description@,
            modes: self.modes@,
            enabled: self.enabled,
            current_mode: self.current_mode,
            position: self.position,
            scale: self.scale,
            transform: self.transform,
        }
    }
}

/// A copy of a list of modes.
pub fn copy_modes(v: &Vec<Mode>) -> (r: Vec<Mode>)
    ensures
        r@ == v@,
{
    let mut r: Vec<Mode> = Vec::new();
    for i in 0..v.len()
        invariant
            r@ == v@.take(i as int),
    {
        r.push(v[i]);
        assert(v@.take(i + 1) == v@.take(i as int).push(v@[i as int]));
    }
    assert(v@.take(v@.len() as int) == v@);
    r
}

impl Clone for Head {
    fn clone(&self) -> (r: Head)
        ensures
            r@ == self@,
    {
        Head {
            id: self.id.clone(),
            description: self.description.clone(),
            modes: copy_modes(&self.modes),
            enabled: self.enabled,
            current_mode: self.current_mode,
            position: self.position,
            scale: self.scale,
            transform: self.transform,
        }
    }
}

/// The first preferred mode of a list.
pub open spec fn preferred_mode(modes: Seq<Mode>) -> Option<Mode>
    decreases modes.len(),
{
    if modes.len() == 0 {
        None
    } else if modes[0].preferred {
        Some(modes[0])
    } else {
        preferred_mode(modes.drop_first())
    }
}

/// The first preferred mode of a list.
pub fn find_preferred(modes: &Vec<Mode>) -> (r: Option<Mode>)
    ensures
        r == preferred_mode(modes@),
{
    assert(modes@.skip(0) == modes@);
    for i in 0..modes.len()
        invariant
            preferred_mode(modes@) == preferred_mode(modes@.skip(i as int)),
    {
        assert(modes@.skip(i as int)[0] == modes@[i as int]);
        if modes[i].preferred {
            return Some(modes[i]);
        }
        assert(modes@.skip(i as int).drop_first() == modes@.skip(i + 1));
    }
    None
}

impl HeadView {
    /// The mode an output is in, or would best be in.
    pub open spec fn mode(self) -> Option<Mode> {
        if self.current_mode is Some {
            self.current_mode
        } else {
            preferred_mode(self.modes)
        }
    }

    /// The pixels of that mode, or of a plain screen where there is none, with the
    /// axes swapped for a quarter turn.
    pub open spec fn pixels(self) -> (i32, i32) {
        let (w, h) = match self.mode() {
            Some(m) => (m.width, m.height),
            None => (1920i32, 1080i32),
        };
        if is_rotated(self.transform) {
            (h, w)
        } else {
            (w, h)
        }
    }
}

impl Head {
    /// The mode the output is in, or its preferred one.
    pub fn best_mode(&self) -> (r: Option<Mode>)
        ensures
            r == self@.mode(),
    {
        match self.current_mode {
            Some(m) => Some(m),
            None => find_preferred(&self.modes),
        }
    }

    /// Size the output occupies in the global coordinate space, i.e. mode divided
    /// by scale, with the axes swapped for a quarter turn.
    pub fn logical_size(&self) -> (r: (i32, i32))
        ensures
            r.0 == logical(self@.pixels().0, self.scale.steps()),
            r.1 == logical(self@.pixels().1, self.scale.steps()),
    {
        let (w, h) = match self.best_mode() {
            Some(m) => (m.width, m.height),
            None => (1920i32, 1080i32),
        };
        if rotated(self.transform) {
            logical_size(h, w, self.scale)
        } else {
            logical_size(w, h, self.scale)
        }
    }
}

/// What a list of heads says.
pub open spec fn head_views(v: Seq<Head>) -> Seq<HeadView> {
    v.map_values(|h: Head| h@)
}

/// The identities of heads.
pub open spec fn ids(heads: Seq<HeadView>) -> Seq<IdView> {
    heads.map_values(|h: HeadView| h.id)
}

/// A copy of a list of heads.
pub fn copy_heads(v: &Vec<Head>) -> (r: Vec<Head>)
    ensures
        head_views(r@) == head_views(v@),
{
    let mut r: Vec<Head> = Vec::new();
    for i in 0..v.len()
        invariant
            head_views(r@) == head_views(v@).take(i as int),
    {
        let h = v[i].clone();
        let ghost before = head_views(r@);
        r.push(h);
        assert(head_views(r@) == before.push(h@));
        assert(head_views(v@).take(i + 1) == before.push(head_views(v@)[i as int]));
    }
    assert(head_views(v@).take(v@.len() as int) == head_views(v@));
    r
}

/// All connected outputs at one moment.
#[derive(Debug)]
pub struct Snapshot {
    pub serial: u32,
    pub heads: Vec<Head>,
}

impl Clone for Snapshot {
    fn clone(&self) -> (r: Snapshot)
        ensures
            r.serial == self.serial,
            head_views(r.heads@) == head_views(self.heads@),
    {
        Snapshot { serial: self.serial, heads: copy_heads(&self.heads) }
    }
}

/// Where the first head with an identity stands.
pub open spec fn head_at(ids: Seq<IdView>, id: IdView) -> Option<int>
    decreases ids.len(),
{
    if ids.len() == 0 {
        None
    } else if ids[0] == id {
        Some(0int)
    } else {
        match head_at(ids.drop_first(), id) {
            Some(i) => Some(i + 1),
            None => None,
        }
    }
}

/// What `head_at` finds: the place of the identity, with none before it.
pub proof fn lemma_head_at(ids: Seq<IdView>, id: IdView)
    ensures
        match head_at(ids, id) {
            Some(i) => 0 <= i < ids.len() && ids[i] == id && forall|j: int|
                0 <= j < i ==> ids[j] != id,
            None => forall|j: int| 0 <= j < ids.len() ==> ids[j] != id,
        },
    decreases ids.len(),
{
    if ids.len() > 0 && ids[0] != id {
        lemma_head_at(ids.drop_first(), id);
        assert forall|j: int| 0 < j < ids.len() implies ids[j] == ids.drop_first()[j - 1] by {}
    }
}

/// Finds the first head with an identity.
pub fn find_head(heads: &Vec<Head>, id: &HeadId) -> (r: Option<usize>)
    ensures
        match r {
            Some(i) => i < heads@.len() && head_at(ids(head_views(heads@)), id@) == Some(i as int),
            None => head_at(ids(head_views(heads@)), id@) is None,
        },
{
    let ghost all = ids(head_views(heads@));
    for i in 0..heads.len()
        invariant
            all == ids(head_views(heads@)),
            forall|j: int| 0 <= j < i ==> all[j] != id@,
    {
        if heads[i].id.same(id) {
            proof {
                lemma_head_at(all, id@);
                assert(all[i as int] == id@);
            }
            return Some(i);
        }
        assert(all[i as int] != id@);
    }
    proof {
        lemma_head_at(all, id@);
    }
    None
}

impl Snapshot {
    /// The head with an identity.
    pub fn head(&self, id: &HeadId) -> (r: Option<&Head>)
        ensures
            match head_at(ids(head_views(self.heads@)), id@) {
                Some(i) => r is Some && *(r->0) == self.heads@[i],
                None => r is None,
            },
    {
        match find_head(&self.heads, id) {
            Some(i) => Some(&self.heads[i]),
            None => None,
        }
    }
}

/// Desired state for one output. A field that is absent is left as the compositor
/// has it.
#[derive(Debug)]
pub struct OutputSetting {
    pub id: HeadId,
    pub enabled: bool,
    pub position: Option<(i32, i32)>,
    pub scale: Option<Scale>,
    pub mode: Option<ModeSpec>,
    pub transform: Option<Transform>,
}

/// What an `OutputSetting` says.
#[verifier::ext_equal]
pub struct SettingView {
    pub id: IdView,
    pub enabled: bool,
    pub position: Option<(i32, i32)>,
    pub scale: Option<Scale>,
    pub mode: Option<ModeSpec>,
    pub transform: Option<Transform>,
}

impl View for OutputSetting {
    type V = SettingView;

    open spec fn view(&self) -> SettingView {
        SettingView {
            id: self.id@,
            enabled: self.enabled,
            position: self.position,
            scale: self.scale,
            mode: self.mode,
            transform: self.transform,
        }
    }
}

impl Clone for OutputSetting {
    fn clone(&self) -> (r: OutputSetting)
        ensures
            r@ == self@,
    {
        OutputSetting {
            id: self.id.clone(),
            enabled: self.enabled,
            position: self.position,
            scale: self.scale,
            mode: self.mode,
            transform: self.transform,
        }
    }
}

/// What a list of settings says.
pub open spec fn setting_views(v: Seq<OutputSetting>) -> Seq<SettingView> {
    v.map_values(|s: OutputSetting| s@)
}

/// A mode as a profile has it.
pub open spec fn mode_spec(m: Option<Mode>) -> Option<ModeSpec> {
    match m {
        Some(m) => Some(
            ModeSpec { width: m.width, height: m.height, refresh: Some(m.refresh) },
        ),
        None => None,
    }
}

/// A mode as a profile has it.
pub fn to_mode_spec(m: Option<Mode>) -> (r: Option<ModeSpec>)
    ensures
        r == mode_spec(m),
{
    match m {
        Some(m) => Some(ModeSpec::from(m)),
        None => None,
    }
}

/// The setting that leaves a head as it is.
pub open spec fn current_setting(h: HeadView) -> SettingView {
    SettingView {
        id: h.id,
        enabled: h.enabled,
        position: Some(h.position),
        scale: Some(h.scale),
        mode: mode_spec(h.current_mode),
        transform: Some(h.transform),
    }
}

impl OutputSetting {
    /// The setting that leaves a head as it is.
    pub fn from_head(head: &Head) -> (r: OutputSetting)
        ensures
            r@ == current_setting(head@),
    {
        OutputSetting {
            id: head.id.clone(),
            enabled: head.enabled,
            position: Some(head.position),
            scale: Some(head.scale),
            mode: to_mode_spec(head.current_mode),
            transform: Some(head.transform),
        }
    }
}

/// What the compositor made of a configuration.
#[derive(Debug, Clone, Copy, PartialEq, Eq, Structural)]
pub enum ApplyOutcome {
    Succeeded,
    Failed,
    /// The serial went stale because the output state changed underneath us.
    Cancelled,
}

/// What an output covers is its mode, lying down or standing up: a turn by 90 or 270
/// degrees, mirrored or not, swaps width and height, and no other transform does.
/// Where there is no mode at all, the screen is taken to be 1920 by 1080.
pub proof fn law_a_quarter_turn_swaps_the_axes(h: HeadView)
    ensures
        ({
            let width = match h.mode() {
                Some(m) => m.width,
                None => 1920i32,
            };
            let height = match h.mode() {
                Some(m) => m.height,
                None => 1080i32,
            };
            match h.transform {
                Transform::Normal => h.pixels() == (width, height),
                Transform::_90 => h.pixels() == (height, width),
                Transform::_180 => h.pixels() == (width, height),
                Transform::_270 => h.pixels() == (height, width),
                Transform::Flipped => h.pixels() == (width, height),
                Transform::Flipped90 => h.pixels() == (height, width),
                Transform::Flipped180 => h.pixels() == (width, height),
                Transform::Flipped270 => h.pixels() == (height, width),
            }
        }),
{
}

/// An output that is in a mode is shown in that mode, whatever it prefers. One that is
/// in none is shown in the first mode that it prefers, and in none where it prefers
/// none.
pub proof fn law_the_mode_is_the_current_or_the_preferred_one(h: HeadView)
    ensures
        h.current_mode is Some ==> h.mode() == h.current_mode,
        h.current_mode is None ==> match h.mode() {
            Some(m) => exists|i: int|
                0 <= i < h.modes.len() && #[trigger] h.modes[i] == m && m.preferred && forall|
                    j: int,
                |
                    0 <= j < i ==> !(#[trigger] h.modes[j]).preferred,
            None => forall|i: int| 0 <= i < h.modes.len() ==> !(#[trigger] h.modes[i]).preferred,
        },
{
    lemma_preferred(h.modes);
}

/// What `preferred_mode` finds.
proof fn lemma_preferred(modes: Seq<Mode>)
    ensures
        match preferred_mode(modes) {
            Some(m) => exists|i: int|
                0 <= i < modes.len() && #[trigger] modes[i] == m && m.preferred && forall|j: int|
                    0 <= j < i ==> !(#[trigger] modes[j]).preferred,
            None => forall|i: int| 0 <= i < modes.len() ==> !(#[trigger] modes[i]).preferred,
        },
    decreases modes.len(),
{
    if modes.len() > 0 {
        if modes[0].preferred {
            assert(modes[0] == preferred_mode(modes)->0);
        } else {
            let t = modes.drop_first();
            lemma_preferred(t);
            assert forall|j: int| 0 < j < modes.len() implies modes[j] == t[j - 1] by {}
            if preferred_mode(t) is Some {
                let i = choose|i: int|
                    0 <= i < t.len() && #[trigger] t[i] == preferred_mode(t)->0 && forall|j: int|
                        0 <= j < i ==> !(#[trigger] t[j]).preferred;
                assert(modes[i + 1] == preferred_mode(modes)->0);
                assert forall|j: int| 0 <= j < i + 1 implies !(#[trigger] modes[j]).preferred by {
                    if j > 0 {
                        assert(modes[j] == t[j - 1]);
                    }
                }
            }
        }
    }
}

/// The logical length is the largest that the pixels suffice for: at a scale of `n`
/// 120ths it takes `n` 120ths of a pixel for each, what is left over is less than one
/// more, and a scale of one leaves the pixels as they are.
pub proof fn law_a_logical_length_fills_the_pixels(px: i32, n: nat)
    requires
        n >= 1,
        0 <= px,
        px * 120 / (n as int) <= i32::MAX,
    ensures
        0 <= logical(px, Some(n)),
        logical(px, Some(n)) * n <= px * 120,
        px * 120 < (logical(px, Some(n)) + 1) * n,
        n == 120 ==> logical(px, Some(n)) == px,
{
    let v = px * 120;
    vstd::arithmetic::div_mod::lemma_fundamental_div_mod(v, n as int);
    vstd::arithmetic::div_mod::lemma_mod_bound(v, n as int);
    let q = v / (n as int);
    assert(0 <= q) by (nonlinear_arith)
        requires
            v >= 0,
            n >= 1,
            q == v / (n as int),
    ;
    assert(q * n <= v && v < (q + 1) * n) by (nonlinear_arith)
        requires
            v == n * q + v % (n as int),
            0 <= v % (n as int),
            v % (n as int) < n,
    ;
}

/// The setting that leaves a head as it is asks for each thing as the head has it.
pub proof fn law_the_current_setting_changes_nothing(h: HeadView)
    ensures
        ({
            let s = current_setting(h);
            &&& s.id == h.id
            &&& s.enabled == h.enabled
            &&& s.position == Some(h.position)
            &&& s.scale == Some(h.scale)
            &&& s.transform == Some(h.transform)
            &&& h.current_mode is None ==> s.mode is None
            &&& h.current_mode matches Some(m) ==> s.mode matches Some(w) && w.width == m.width
                && w.height == m.height && w.refresh == Some(m.refresh)
        }),
{
}

/// Every name of a transform is that of one transform, and no other text names any.
pub proof fn law_only_names_name_transforms(s: Seq<char>)
    ensures
        transform_named(s) matches Some(t) ==> s == name_of(t) || (t == Transform::Normal && s
            == "0"@),
        transform_named("0"@) == Some(Transform::Normal),
{
    reveal_strlit("normal");
    reveal_strlit("0");
}

/// How a mode reads, part by part: the width before the first `x`, the height behind it,
/// each without the blanks around it; and behind an `@` the rate. Without an `@` no rate
/// is asked for. Whatever cannot be read makes it no mode, the rate first.
pub proof fn law_a_mode_is_read_by_its_parts(w: Seq<char>, h: Seq<char>, r: Seq<char>)
    requires
        forall|i: int| 0 <= i < w.len() ==> #[trigger] w[i] != 'x' && w[i] != '@',
        forall|i: int| 0 <= i < h.len() ==> #[trigger] h[i] != '@',
    ensures
        ({
            let width = number::parse_i32_spec(text::trim(w));
            let height = number::parse_i32_spec(text::trim(h));
            let plain = parse_mode(w + seq!['x'] + h);
            let rated = parse_mode(w + seq!['x'] + h + seq!['@'] + r);
            let rate = number::thousandths_spec(rate_text(r));
            &&& plain is Ok <==> width is Some && height is Some
            &&& plain matches Ok(m) ==> Some(m.width) == width && Some(m.height) == height
                && m.refresh is None
            &&& rated is Ok <==> width is Some && height is Some && rate is Some
            &&& rated matches Ok(m) ==> Some(m.width) == width && Some(m.height) == height
                && m.refresh == rate
            &&& rate is None ==> rated == Err::<ModeSpec, SettingErrorView>(
                SettingErrorView::BadRate(rate_text(r)),
            )
            &&& width is None ==> plain == Err::<ModeSpec, SettingErrorView>(
                SettingErrorView::BadWidth(w + seq!['x'] + h),
            )
            &&& width is Some && height is None ==> plain == Err::<ModeSpec, SettingErrorView>(
                SettingErrorView::BadHeight(w + seq!['x'] + h),
            )
        }),
{
    let size = w + seq!['x'] + h;
    let all = size + seq!['@'] + r;
    assert forall|i: int| 0 <= i < size.len() implies #[trigger] size[i] != '@' by {
        if i < w.len() {
            assert(size[i] == w[i]);
        } else if i > w.len() {
            assert(size[i] == h[i - w.len() - 1]);
        }
    }
    assert forall|i: int| 0 <= i < w.len() implies #[trigger] size[i] != 'x' by {
        assert(size[i] == w[i]);
    }
    assert(size[w.len() as int] == 'x');
    text::lemma_first_at_is(size, 'x', w.len() as int);
    text::lemma_first_at(size, '@');
    assert(size.take(w.len() as int) =~= w);
    assert(size.skip(w.len() + 1int) =~= h);
    assert forall|i: int| 0 <= i < size.len() implies #[trigger] all[i] != '@' by {
        assert(all[i] == size[i]);
    }
    assert(all[size.len() as int] == '@');
    text::lemma_first_at_is(all, '@', size.len() as int);
    assert(all.take(size.len() as int) =~= size);
    assert(all.skip(size.len() + 1int) =~= r);
}

/// A text without an `x` before any `@` is no mode.
pub proof fn law_a_mode_has_an_x(s: Seq<char>)
    requires
        forall|i: int|
            0 <= i < s.len() && s[i] == 'x' ==> exists|j: int| 0 <= j < i && #[trigger] s[j] == '@',
    ensures
        parse_mode(s) is Err,
{
    text::lemma_first_at(s, '@');
    let size = match text::first_at(s, '@') {
        Some(i) => s.take(i),
        None => s,
    };
    text::lemma_first_at(size, 'x');
    match text::first_at(size, 'x') {
        Some(i) => {
            assert(s[i] == 'x');
            let j = choose|j: int| 0 <= j < i && #[trigger] s[j] == '@';
        },
        None => {},
    }
}

/// The unit behind a rate makes no difference.
pub proof fn law_a_unit_may_stand_behind_a_rate(r: Seq<char>)
    ensures
        rate_text(r + "Hz"@) == rate_text(r),
        text::strip_suffixes(r, "Hz"@) == r ==> rate_text(r + "hz"@) == rate_text(r),
{
    reveal_strlit("Hz");
    reveal_strlit("hz");
    text::law_suffixes_are_cut_off(r, "Hz"@);
    let t = r + "hz"@;
    assert(t.skip(t.len() - 2) =~= "hz"@);
    assert("hz"@[0] != "Hz"@[0]);
    assert(t.skip(t.len() - 2)[0] == 'h');
    assert(t.skip(t.len() - 2) != "Hz"@);
    text::law_suffixes_are_cut_off(t, "Hz"@);
    text::law_suffixes_are_cut_off(r, "hz"@);
}

/// The names of the transforms.
pub proof fn law_the_names_of_the_transforms()
    ensures
        name_of(Transform::Normal) == "normal"@,
        name_of(Transform::_90) == "90"@,
        name_of(Transform::_180) == "180"@,
        name_of(Transform::_270) == "270"@,
        name_of(Transform::Flipped) == "flipped"@,
        name_of(Transform::Flipped90) == "flipped-90"@,
        name_of(Transform::Flipped180) == "flipped-180"@,
        name_of(Transform::Flipped270) == "flipped-270"@,
{
}

/// A mode is written as width, `x` and height, and behind an `@` the rate in Hz to three
/// decimals, where there is one.
pub proof fn law_how_a_mode_is_written(width: i32, height: i32, mhz: i32)
    ensures
        ({
            let size = number::show_int(width as int) + seq!['x'] + number::show_int(height as int);
            &&& mode_text(ModeSpec { width, height, refresh: None }) == size
            &&& mode_text(ModeSpec { width, height, refresh: Some(mhz) }) == size + seq!['@']
                + number::show_thousandths(mhz as int)
        }),
{
}

/// An identity reads as its connector with make, model and serial in brackets, known or
/// not.
pub proof fn law_how_an_identity_is_written(id: IdView)
    ensures
        id.text() == id.connector + " ("@ + id.make + " "@ + id.model + " "@ + id.serial + ")"@,
{
}

}
