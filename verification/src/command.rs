//! What the command line says and does: the lines that it prints, and what saving
//! and applying come to.

use vstd::prelude::*;

use crate::config;
use crate::config::{profile_from_snapshot, suggested_name, Config};
use crate::matching;
use crate::matching::{best_match, profile_settings, ApplyError};
use crate::number;
use crate::text;
use crate::wl;
use crate::wl::{transform_name, Head, Mode, OutputSetting, SettingError, Snapshot};

verus! {

/// A mode in a list, with `mark` behind it where it is the preferred one.
pub open spec fn marked(m: Mode, mark: Seq<char>) -> Seq<char> {
    let written = wl::mode_text(
        wl::ModeSpec { width: m.width, height: m.height, refresh: Some(m.refresh) },
    );
    if m.preferred {
        written + mark
    } else {
        written
    }
}

/// A mode in a list, with `mark` behind it where it is the preferred one.
pub fn mode_label(mode: &Mode, mark: &str) -> (r: String)
    ensures
        r@ == marked(*mode, mark@),
{
    let mut r = mode.to_string();
    if mode.preferred {
        r.append(mark);
    }
    r
}

/// The modes of a head in a list.
pub open spec fn marked_modes(modes: Seq<Mode>) -> Seq<Seq<char>> {
    modes.map_values(|m: Mode| marked(m, "*"@))
}

/// How a head stands: whether it is enabled, and what it is set to.
pub open spec fn state_line(h: wl::HeadView, scale: Seq<char>) -> Seq<char> {
    "      "@ + (if h.enabled {
        "enabled"@
    } else {
        "disabled"@
    }) + (match wl::mode_spec(h.current_mode) {
        Some(m) => "  "@ + wl::mode_text(m),
        None => Seq::<char>::empty(),
    }) + "  pos "@ + number::show_int(h.position.0 as int) + ","@ + number::show_int(
        h.position.1 as int,
    ) + "  scale "@ + scale + "  transform "@ + wl::name_of(h.transform) + "  logical "@
        + number::show_int(wl::logical(h.pixels().0, h.scale.steps()) as int) + "x"@
        + number::show_int(wl::logical(h.pixels().1, h.scale.steps()) as int)
}

/// A line if there is call for it.
pub open spec fn line_if(wanted: bool, line: Seq<char>) -> Seq<Seq<char>> {
    if wanted {
        seq![line]
    } else {
        Seq::empty()
    }
}

/// What is listed of a head; `scale` is how its scale is written.
pub open spec fn head_lines(h: wl::HeadView, scale: Seq<char>) -> Seq<Seq<char>> {
    seq![
        h.id.connector + "  "@ + h.id.make + " "@ + h.id.model + " "@ + h.id.serial,
    ] + line_if(
        h.description != h.id.connector && h.description.len() > 0,
        "      "@ + h.description,
    ) + seq![state_line(h, scale)] + line_if(
        h.modes.len() > 0,
        "      modes: "@ + text::join(marked_modes(h.modes), "  "@),
    )
}

fn state_text(head: &Head, scale: &str) -> (r: String)
    ensures
        r@ == state_line(head@, scale@),
{
    let (lw, lh) = head.logical_size();
    let mut r = "      ".to_owned();
    r.append(
        if head.enabled {
            "enabled"
        } else {
            "disabled"
        },
    );
    let ghost so_far = r@;
    if let Some(mode) = head.current_mode {
        r.append("  ");
        r.append(mode.to_string().as_str());
        assert(r@ =~= so_far + ("  "@ + wl::mode_text(wl::mode_spec(head@.current_mode)->0)));
    } else {
        assert(r@ =~= so_far + Seq::<char>::empty());
    }
    r.append("  pos ");
    r.append(number::int_text(head.position.0 as i64).as_str());
    r.append(",");
    r.append(number::int_text(head.position.1 as i64).as_str());
    r.append("  scale ");
    r.append(scale);
    r.append("  transform ");
    r.append(transform_name(head.transform));
    r.append("  logical ");
    r.append(number::int_text(lw as i64).as_str());
    r.append("x");
    r.append(number::int_text(lh as i64).as_str());
    r
}

/// The modes of a head in a list.
fn mode_list(modes: &Vec<Mode>) -> (r: String)
    ensures
        r@ == text::join(marked_modes(modes@), "  "@),
{
    let mut parts: Vec<String> = Vec::new();
    let ghost all = marked_modes(modes@);
    let n = modes.len();
    for i in 0..n
        invariant
            n == modes@.len(),
            all == marked_modes(modes@),
            text::texts(parts@) == all.take(i as int),
    {
        let s = mode_label(&modes[i], "*");
        let ghost before = text::texts(parts@);
        parts.push(s);
        assert(text::texts(parts@) == before.push(s@));
        assert(all.take(i + 1) == before.push(all[i as int]));
    }
    assert(all.take(n as int) == all);
    text::joined(&parts, "  ")
}

/// What is listed of a head; `scale` is how its scale is written.
pub fn describe_head(head: &Head, scale: &str) -> (r: Vec<String>)
    ensures
        text::texts(r@) == head_lines(head@, scale@),
{
    let mut first = head.id.connector.clone();
    first.append("  ");
    first.append(head.id.make.as_str());
    first.append(" ");
    first.append(head.id.model.as_str());
    first.append(" ");
    first.append(head.id.serial.as_str());
    let mut lines: Vec<String> = Vec::new();
    lines.push(first);
    if head.description != head.id.connector && !head.description.as_str().is_empty() {
        let mut line = "      ".to_owned();
        line.append(head.description.as_str());
        lines.push(line);
    }
    lines.push(state_text(head, scale));
    if head.modes.len() > 0 {
        let mut line = "      modes: ".to_owned();
        line.append(mode_list(&head.modes).as_str());
        lines.push(line);
    }
    assert(text::texts(lines@) =~= head_lines(head@, scale@));
    lines
}

/// The outputs by name, each in a line of its own.
pub open spec fn named_lines(ids: Seq<wl::IdView>) -> Seq<Seq<char>> {
    ids.map_values(|id: wl::IdView| "  "@ + id.text())
}

/// The entries of a profile, each with the head assigned to it.
pub open spec fn assigned_lines(
    outputs: Seq<config::OutputView>,
    ids: Seq<wl::IdView>,
    a: Seq<usize>,
) -> Seq<Seq<char>> {
    Seq::new(
        outputs.len(),
        |i: int| "  "@ + config::label_of(outputs[i]) + " -> "@ + ids[a[i] as int].text(),
    )
}

/// The entries of a profile, each in a line of its own.
pub open spec fn label_lines(outputs: Seq<config::OutputView>) -> Seq<Seq<char>> {
    outputs.map_values(|o: config::OutputView| "  "@ + config::label_of(o))
}

/// Whether these lines say which profile matches: the best one with its score and
/// the heads assigned to it, or that there is none.
pub open spec fn is_status(
    ps: Seq<config::ProfileView>,
    ids: Seq<wl::IdView>,
    lines: Seq<Seq<char>>,
) -> bool {
    ||| exists|i: int, a: Seq<usize>|
        #![trigger matching::is_best(ps, ids, i), matching::is_first_assignment(ps[i].outputs, ids, a)]
        matching::is_best(ps, ids, i) && matching::is_first_assignment(ps[i].outputs, ids, a)
            && lines == seq![
            "profile "@ + ps[i].name + " (score "@ + number::show_int(
                matching::total_weight(ps[i].outputs) as int,
            ) + ")"@,
        ] + assigned_lines(ps[i].outputs, ids, a)
    ||| (forall|i: int| 0 <= i < ps.len() ==> !matching::matches_heads(#[trigger] ps[i], ids))
        && lines == seq!["no profile matches the connected outputs:"@] + named_lines(ids) + seq![
        "run `wano save <name>` to remember the current arrangement"@,
    ]
}

/// Which profile matches the connected outputs.
pub fn status(config: &Config, heads: &Vec<Head>) -> (r: Vec<String>)
    requires
        heads@.len() <= 0x7fff_ffff,
    ensures
        is_status(config@, wl::ids(wl::head_views(heads@)), text::texts(r@)),
{
    let ghost ids = wl::ids(wl::head_views(heads@));
    let mut lines: Vec<String> = Vec::new();
    match best_match(config, heads) {
        Some(m) => {
            let mut first = "profile ".to_owned();
            first.append(m.profile.name.as_str());
            first.append(" (score ");
            first.append(number::int_text(m.score as i64).as_str());
            first.append(")");
            lines.push(first);
            let ghost outputs = m.profile@.outputs;
            let ghost a = m.assignment@;
            let ghost all = assigned_lines(outputs, ids, a);
            let ghost top = seq![first@];
            let n = m.profile.outputs.len();
            assert(text::texts(lines@) =~= top + all.take(0));
            for i in 0..n
                invariant
                    n == m.profile.outputs@.len(),
                    outputs == m.profile@.outputs,
                    a == m.assignment@,
                    ids == wl::ids(wl::head_views(heads@)),
                    all == assigned_lines(outputs, ids, a),
                    matching::is_first_assignment(outputs, ids, a),
                    text::texts(lines@) == top + all.take(i as int),
            {
                let head = m.assignment[i];
                assert(outputs[i as int] == m.profile.outputs@[i as int]@);
                assert(ids[head as int] == heads@[head as int]@.id);
                let mut line = "  ".to_owned();
                line.append(m.profile.outputs[i].label().as_str());
                line.append(" -> ");
                line.append(heads[head].id.to_string().as_str());
                let ghost before = text::texts(lines@);
                assert(line@ == all[i as int]);
                lines.push(line);
                assert(text::texts(lines@) =~= before.push(line@));
                assert(text::texts(lines@) =~= top + all.take(i + 1));
            }
            assert(all.take(n as int) =~= all);
            proof {
                let i = choose|i: int|
                    #[trigger] matching::is_best(config@, ids, i) && *m.profile
                        == config.profiles@[i];
                assert(config@[i] == m.profile@);
                assert(matching::is_best(config@, ids, i));
                assert(matching::is_first_assignment(config@[i].outputs, ids, a));
            }
        },
        None => {
            lines.push("no profile matches the connected outputs:".to_owned());
            let ghost all = named_lines(ids);
            let ghost top = seq!["no profile matches the connected outputs:"@];
            assert(text::texts(lines@) =~= top + all.take(0));
            let n = heads.len();
            for i in 0..n
                invariant
                    n == heads@.len(),
                    ids == wl::ids(wl::head_views(heads@)),
                    all == named_lines(ids),
                    text::texts(lines@) == top + all.take(i as int),
            {
                assert(ids[i as int] == heads@[i as int]@.id);
                let mut line = "  ".to_owned();
                line.append(heads[i].id.to_string().as_str());
                let ghost before = text::texts(lines@);
                assert(line@ == all[i as int]);
                lines.push(line);
                assert(text::texts(lines@) =~= before.push(line@));
                assert(text::texts(lines@) =~= top + all.take(i + 1));
            }
            assert(all.take(n as int) =~= all);
            let ghost before = text::texts(lines@);
            lines.push("run `wano save <name>` to remember the current arrangement".to_owned());
            assert(text::texts(lines@) =~= before + seq![
                "run `wano save <name>` to remember the current arrangement"@,
            ]);
        },
    }
    lines
}

/// The name to save under, if there is anything to save.
pub open spec fn name_to_save(
    ids: Seq<wl::IdView>,
    given: Option<Seq<char>>,
) -> Option<Seq<char>> {
    if ids.len() == 0 {
        None
    } else {
        match given {
            Some(name) => Some(name),
            None => Some(config::suggested(ids)),
        }
    }
}

/// The name to save under: the one given, or one made up from the outputs. There
/// is nothing to save where no output is connected.
pub fn save_name(snapshot: &Snapshot, name: Option<String>) -> (r: Option<String>)
    ensures
        config::opt_text(r) == name_to_save(
            wl::ids(wl::head_views(snapshot.heads@)),
            config::opt_text(name),
        ),
{
    if snapshot.heads.len() == 0 {
        return None;
    }
    match name {
        Some(n) => Some(n),
        None => Some(suggested_name(snapshot)),
    }
}

/// The profile that the live outputs are saved as.
pub open spec fn saved_profile(
    name: Seq<char>,
    heads: Seq<wl::HeadView>,
    with_serial: bool,
) -> config::ProfileView {
    config::ProfileView { name, outputs: config::entries_of(heads, with_serial) }
}

/// Saves the live outputs as a profile, and says so: whether it replaced one, and
/// what it matches. `path` is where it is kept.
pub fn save(
    config: &mut Config,
    name: &str,
    snapshot: &Snapshot,
    with_serial: bool,
    path: &str,
) -> (r: Vec<String>)
    ensures
        final(config)@ == config::upserted(
            old(config)@,
            saved_profile(name@, wl::head_views(snapshot.heads@), with_serial),
        ),
        text::texts(r@) == seq![
            (if config::profile_at(old(config)@, name@) is Some {
                "replaced"@
            } else {
                "saved"@
            }) + " profile "@ + name@ + " in "@ + path@,
        ] + label_lines(
            saved_profile(name@, wl::head_views(snapshot.heads@), with_serial).outputs,
        ),
{
    let replaced = config.position(name).is_some();
    let profile = profile_from_snapshot(name, snapshot, with_serial);
    let ghost outputs = profile@.outputs;
    let mut first = (if replaced {
        "replaced"
    } else {
        "saved"
    }).to_owned();
    first.append(" profile ");
    first.append(name);
    first.append(" in ");
    first.append(path);
    let mut lines: Vec<String> = Vec::new();
    let ghost top = seq![first@];
    lines.push(first);
    let ghost all = label_lines(outputs);
    let n = profile.outputs.len();
    assert(text::texts(lines@) =~= top + all.take(0));
    for i in 0..n
        invariant
            n == profile.outputs@.len(),
            outputs == profile@.outputs,
            all == label_lines(outputs),
            text::texts(lines@) == top + all.take(i as int),
    {
        assert(outputs[i as int] == profile.outputs@[i as int]@);
        let mut line = "  ".to_owned();
        line.append(profile.outputs[i].label().as_str());
        let ghost before = text::texts(lines@);
        assert(line@ == all[i as int]);
        lines.push(line);
        assert(text::texts(lines@) =~= before.push(line@));
        assert(text::texts(lines@) =~= top + all.take(i + 1));
    }
    assert(all.take(n as int) =~= all);
    config.upsert(profile);
    lines
}

/// Why a saved profile is not applied.
#[derive(Debug, PartialEq, Eq)]
pub enum Refusal {
    /// There is no profile of the name.
    NoProfile,
    /// It does not describe the connected outputs.
    NoMatch,
    /// Something in it cannot be read.
    Invalid(SettingError),
}

/// What applying the profile of a name asks for.
pub fn apply(config: &Config, name: &str, heads: &Vec<Head>) -> (r: Result<
    Vec<OutputSetting>,
    Refusal,
>)
    requires
        heads@.len() <= 0x7fff_ffff,
    ensures
        match config::profile_at(config@, name@) {
            Some(i) => match r {
                Ok(v) => matching::is_applied(
                    config@[i],
                    wl::ids(wl::head_views(heads@)),
                    Ok::<Vec<OutputSetting>, ApplyError>(v),
                ),
                Err(Refusal::NoProfile) => false,
                Err(Refusal::NoMatch) => matching::is_applied(
                    config@[i],
                    wl::ids(wl::head_views(heads@)),
                    Err::<Vec<OutputSetting>, ApplyError>(ApplyError::NoMatch),
                ),
                Err(Refusal::Invalid(e)) => matching::is_applied(
                    config@[i],
                    wl::ids(wl::head_views(heads@)),
                    Err::<Vec<OutputSetting>, ApplyError>(ApplyError::Invalid(e)),
                ),
            },
            None => r == Err::<Vec<OutputSetting>, Refusal>(Refusal::NoProfile),
        },
{
    proof {
        config::lemma_profile_at(config@, name@);
    }
    match config.profile(name) {
        Some(p) => match profile_settings(p, heads) {
            Ok(v) => Ok(v),
            Err(ApplyError::NoMatch) => Err(Refusal::NoMatch),
            Err(ApplyError::Invalid(e)) => Err(Refusal::Invalid(e)),
        },
        None => Err(Refusal::NoProfile),
    }
}

/// A mode in a list is written as modes are, and is marked if it is the preferred one.
pub proof fn law_the_preferred_mode_is_marked(m: Mode, mark: Seq<char>)
    ensures
        ({
            let written = wl::mode_text(
                wl::ModeSpec { width: m.width, height: m.height, refresh: Some(m.refresh) },
            );
            &&& m.preferred ==> marked(m, mark) == written + mark
            &&& !m.preferred ==> marked(m, mark) == written
        }),
{
}

/// What is listed of a head: who it is, what it is described as if that says more than the
/// connector, how it stands, and its modes if it has any, all of them in order.
pub proof fn law_what_is_listed_of_a_head(h: wl::HeadView, scale: Seq<char>)
    ensures
        ({
            let lines = head_lines(h, scale);
            let described = h.description.len() > 0 && h.description != h.id.connector;
            let at = if described {
                2int
            } else {
                1int
            };
            &&& lines[0] == h.id.connector + "  "@ + h.id.make + " "@ + h.id.model + " "@
                + h.id.serial
            &&& described ==> lines[1] == "      "@ + h.description
            &&& lines[at] == state_line(h, scale)
            &&& h.modes.len() > 0 ==> lines.len() == at + 2 && lines[at + 1] == "      modes: "@
                + text::join(marked_modes(h.modes), "  "@)
            &&& h.modes.len() == 0 ==> lines.len() == at + 1
            &&& marked_modes(h.modes).len() == h.modes.len()
            &&& forall|i: int|
                0 <= i < h.modes.len() ==> #[trigger] marked_modes(h.modes)[i] == marked(
                    h.modes[i],
                    "*"@,
                )
        }),
{
}

/// How a head stands, in words: on or off, the mode it is in if it is in one, its
/// position, its scale, its transform and its logical size.
pub proof fn law_how_a_head_stands(h: wl::HeadView, scale: Seq<char>)
    ensures
        ({
            let on = if h.enabled {
                "enabled"@
            } else {
                "disabled"@
            };
            let mode = match h.current_mode {
                Some(m) => "  "@ + wl::mode_text(
                    wl::ModeSpec { width: m.width, height: m.height, refresh: Some(m.refresh) },
                ),
                None => Seq::<char>::empty(),
            };
            state_line(h, scale) == "      "@ + on + mode + "  pos "@ + number::show_int(
                h.position.0 as int,
            ) + ","@ + number::show_int(h.position.1 as int) + "  scale "@ + scale
                + "  transform "@ + wl::name_of(h.transform) + "  logical "@ + number::show_int(
                wl::logical(h.pixels().0, h.scale.steps()) as int,
            ) + "x"@ + number::show_int(wl::logical(h.pixels().1, h.scale.steps()) as int)
        }),
{
}

/// What is said of the profiles. Where one matches, it is the best one, with what it
/// counts, and each of its entries with the output that it is assigned, which has every
/// key of the entry. Where none matches, that is said of every connected output.
pub proof fn law_the_status_names_the_best_profile(
    ps: Seq<config::ProfileView>,
    ids: Seq<wl::IdView>,
    lines: Seq<Seq<char>>,
    i: int,
    k: int,
)
    requires
        is_status(ps, ids, lines),
    ensures
        matching::is_best(ps, ids, i) ==> {
            &&& lines.len() == ps[i].outputs.len() + 1
            &&& lines[0] == "profile "@ + ps[i].name + " (score "@ + number::show_int(
                matching::total_weight(ps[i].outputs) as int,
            ) + ")"@
            &&& 0 <= k < ps[i].outputs.len() ==> exists|j: int|
                #![trigger ids[j]]
                0 <= j < ids.len() && matching::keys_agree(ps[i].outputs[k], ids[j]) && lines[k + 1]
                    == "  "@ + config::label_of(ps[i].outputs[k]) + " -> "@ + ids[j].text()
        },
        (forall|j: int| 0 <= j < ps.len() ==> !matching::matches_heads(#[trigger] ps[j], ids))
            ==> {
            &&& lines.len() == ids.len() + 2
            &&& lines[0] == "no profile matches the connected outputs:"@
            &&& 0 <= k < ids.len() ==> lines[k + 1] == "  "@ + ids[k].text()
            &&& lines.last() == "run `wano save <name>` to remember the current arrangement"@
        },
{
    matching::law_there_is_one_best_match(ps, ids);
    if matching::is_best(ps, ids, i) {
        let (b, a) = choose|b: int, a: Seq<usize>|
            #![trigger matching::is_best(ps, ids, b), matching::is_first_assignment(ps[b].outputs, ids, a)]
            matching::is_best(ps, ids, b) && matching::is_first_assignment(ps[b].outputs, ids, a)
                && lines == seq![
                "profile "@ + ps[b].name + " (score "@ + number::show_int(
                    matching::total_weight(ps[b].outputs) as int,
                ) + ")"@,
            ] + assigned_lines(ps[b].outputs, ids, a);
        assert(b == i);
        matching::law_the_first_assignment_is_taken(ps[i].outputs, ids, a, a, 0);
        if 0 <= k < ps[i].outputs.len() {
            assert(a[k] < ids.len());
            let j = a[k] as int;
            assert(matching::keys_agree(ps[i].outputs[k], ids[j]));
            assert(lines[k + 1] == assigned_lines(ps[i].outputs, ids, a)[k]);
        }
    }
}

/// The profile that outputs are saved as has the name and every output, in order.
pub proof fn law_a_saved_profile_has_every_output(
    name: Seq<char>,
    heads: Seq<wl::HeadView>,
    with_serial: bool,
    i: int,
)
    requires
        0 <= i < heads.len(),
    ensures
        saved_profile(name, heads, with_serial).name == name,
        saved_profile(name, heads, with_serial).outputs.len() == heads.len(),
        saved_profile(name, heads, with_serial).outputs[i] == config::entry_of(
            heads[i],
            with_serial,
        ),
        label_lines(saved_profile(name, heads, with_serial).outputs).len() == heads.len(),
        label_lines(saved_profile(name, heads, with_serial).outputs)[i] == "  "@ + config::label_of(
            config::entry_of(heads[i], with_serial),
        ),
{
}

/// Outputs are saved under the name given, or under one made up from them, which is never
/// empty. Where no output is connected there is nothing to save, whatever name is given.
pub proof fn law_the_name_to_save_under(ids: Seq<wl::IdView>, name: Seq<char>)
    ensures
        ids.len() > 0 ==> name_to_save(ids, Some(name)) == Some(name),
        ids.len() > 0 ==> (name_to_save(ids, None) matches Some(n) && n == config::suggested(ids)
            && n.len() > 0),
        ids.len() == 0 ==> name_to_save(ids, Some(name)) is None && name_to_save(ids, None) is None,
{
    config::law_suggested_name_is_plain(ids);
}

}
