//! One tick's rendering: which sensors to resolve, and how their
//! values become the output text.
//!
//! With a template configured, only sensors whose token occurs in it
//! are resolved — an absent token must not cost a resolution — and
//! every occurrence of each token is substituted with the same tick's
//! value, along with the built-in `{cpu_usage}` and `{timestamp}`
//! tokens. Without a template, every sensor is listed verbosely, one
//! line per sensor in configuration order. Either way the output is
//! trimmed before emission.

use crate::error::{Error, ErrorV};
use crate::fixed::{dec_pad, fixed_wf, format_rounded_spec, format_value_spec, push_dec_pad, Fixed};
use crate::sensor::{
    config_wf, is_absolute_path, resolved_value_spec, sensor_wf, Config, FileEntry, Sensor,
};
use crate::snapshot::SnapshotNode;
use crate::strutil::{append_chars, contains_spec, contains_str, push_char, trim, trim_spec};
use crate::template::{make_token, replace_all, replace_all_spec, token_of};
use vstd::prelude::*;

verus! {

/// How the poll loop runs: one frame, or forever.
#[derive(Clone, Copy, Debug, PartialEq, Eq, Structural)]
pub enum RunMode {
    /// Produce exactly one frame and stop.
    Once,
    /// Produce frames on the poll cadence until killed.
    Repeating,
}

/// The command-line choices the pipeline acts on.
#[derive(Debug, Clone)]
pub struct Cli {
    /// Load the configuration from this file instead of the default
    /// search paths.
    pub config: Option<String>,
    /// Run in the background as a daemon.
    pub daemon: bool,
    /// Enable alarm delivery.
    pub alarm: bool,
    /// Kill an existing daemon process instead of running.
    pub kill: bool,
    /// Print the output once and quit.
    pub once: bool,
}

impl Cli {
    /// The run mode the flags ask for: a single frame with `--once`,
    /// else the repeating loop.
    pub fn mode(&self) -> (r: RunMode)
        ensures
            r == (if self.once {
                RunMode::Once
            } else {
                RunMode::Repeating
            }),
    {
        if self.once {
            RunMode::Once
        } else {
            RunMode::Repeating
        }
    }
}

/// What each frame is prefixed with: the clear-and-home control
/// sequence in the repeating loop, nothing for a single frame.
pub fn frame_prefix(mode: RunMode) -> (r: String)
    ensures
        mode == RunMode::Repeating ==> r@ == "\u{1b}[2J\u{1b}[H"@,
        mode == RunMode::Once ==> r@ == Seq::<char>::empty(),
{
    match mode {
        RunMode::Repeating => "\u{1b}[2J\u{1b}[H".to_owned(),
        RunMode::Once => String::new(),
    }
}

/// A wall-clock time of day.
#[derive(Clone, Copy, Debug, PartialEq, Eq, Structural)]
pub struct ClockTime {
    /// Hours, 0 to 23.
    pub hour: u8,
    /// Minutes, 0 to 59.
    pub minute: u8,
    /// Seconds, 0 to 59.
    pub second: u8,
}

/// A time of day that a clock can show.
pub open spec fn clock_wf(c: ClockTime) -> bool {
    c.hour < 24 && c.minute < 60 && c.second < 60
}

/// The `HH:MM:SS` text of a time of day.
pub open spec fn clock_text_spec(c: ClockTime) -> Seq<char> {
    dec_pad(c.hour as nat, 2) + seq![':'] + dec_pad(c.minute as nat, 2) + seq![':'] + dec_pad(
        c.second as nat,
        2,
    )
}

/// Renders a time of day as `HH:MM:SS`.
pub fn format_timestamp(c: ClockTime) -> (r: String)
    requires
        clock_wf(c),
    ensures
        r@ == clock_text_spec(c),
{
    let mut v: Vec<char> = Vec::new();
    push_dec_pad(c.hour as u64, 2, &mut v);
    v.push(':');
    push_dec_pad(c.minute as u64, 2, &mut v);
    v.push(':');
    push_dec_pad(c.second as u64, 2, &mut v);
    let mut out = String::new();
    append_chars(&mut out, &v);
    proof {
        assert(out@ =~= clock_text_spec(c));
    }
    out
}

/// The text the `{cpu_usage}` token is substituted with: the latest
/// percentage with one decimal place, or the unavailable marker when a
/// single-shot run has no second sample to derive one from.
pub open spec fn cpu_text_spec(cpu: Option<Fixed>) -> Seq<char> {
    match cpu {
        Some(f) => format_rounded_spec(f.raw as int, 1),
        None => "??"@,
    }
}

/// The template's text, when one is configured.
pub open spec fn template_view(c: Config) -> Option<Seq<char>> {
    match c.format {
        Some(t) => Some(t@),
        None => None,
    }
}

/// Whether a sensor takes part in the tick: always when no template is
/// configured, else exactly when its token occurs in the template.
pub open spec fn sensor_active(t: Option<Seq<char>>, s: Sensor) -> bool {
    match t {
        None => true,
        Some(tv) => contains_spec(tv, token_of(s.name@)),
    }
}

/// The absolute paths of the sensors the tick will resolve, in
/// configuration order: what the caller must pre-read from disk.
pub open spec fn needed_paths_spec(sensors: Seq<Sensor>, t: Option<Seq<char>>) -> Seq<Seq<char>>
    decreases sensors.len(),
{
    if sensors.len() == 0 {
        Seq::empty()
    } else {
        let rest = needed_paths_spec(sensors.drop_last(), t);
        if sensor_active(t, sensors.last()) && is_absolute_path(sensors.last().path@) {
            rest.push(sensors.last().path@)
        } else {
            rest
        }
    }
}

/// The file paths this configuration's tick will read: those of the
/// active file-backed sensors, in configuration order. An inactive
/// sensor's file is not read at all.
pub fn needed_file_paths(config: &Config) -> (r: Vec<String>)
    ensures
        crate::strutil::views_of(r@) == needed_paths_spec(config.sensors@, template_view(*config)),
{
    let ghost tv = template_view(*config);
    let mut out: Vec<String> = Vec::new();
    let mut i: usize = 0;
    while i < config.sensors.len()
        invariant
            i <= config.sensors@.len(),
            tv == template_view(*config),
            crate::strutil::views_of(out@) == needed_paths_spec(
                config.sensors@.take(i as int),
                tv,
            ),
        decreases config.sensors@.len() - i,
    {
        let s = &config.sensors[i];
        proof {
            assert(config.sensors@.take(i as int + 1).drop_last() =~= config.sensors@.take(
                i as int,
            ));
            assert(config.sensors@.take(i as int + 1).last() == config.sensors@[i as int]);
        }
        let active: bool = match &config.format {
            None => true,
            Some(t) => {
                let tok = make_token(s.name.as_str());
                contains_str(t.as_str(), tok.as_str())
            },
        };
        let absolute = s.path.as_str().unicode_len() > 0 && s.path.as_str().get_char(0) == '/';
        if active && absolute {
            let ghost before = crate::strutil::views_of(out@);
            out.push(s.path.clone());
            proof {
                assert(crate::strutil::views_of(out@) =~= before.push(
                    config.sensors@[i as int].path@,
                ));
            }
        }
        i = i + 1;
    }
    proof {
        assert(config.sensors@.take(config.sensors@.len() as int) =~= config.sensors@);
    }
    out
}

/// One verbose line: the label (or name), the formatted value, and the
/// unit when there is one.
pub open spec fn line_spec(s: Sensor, val: Seq<char>) -> Seq<char> {
    let head = match s.label {
        Some(l) => l@,
        None => s.name@,
    };
    let base = head + ": "@ + val;
    match s.unit {
        Some(u) => base + " "@ + u@,
        None => base,
    }
}

/// The verbose listing: one line per sensor, in configuration order,
/// each ended by a newline; the first sensor that fails decides the
/// error.
pub open spec fn render_verbose_spec(
    sensors: Seq<Sensor>,
    snap: SnapshotNode,
    files: Seq<FileEntry>,
) -> Result<Seq<char>, ErrorV>
    decreases sensors.len(),
{
    if sensors.len() == 0 {
        Ok(Seq::empty())
    } else {
        match resolved_value_spec(sensors[0], snap, files) {
            Err(e) => Err(e),
            Ok(v) => match render_verbose_spec(sensors.skip(1), snap, files) {
                Err(e) => Err(e),
                Ok(rest) => Ok(
                    line_spec(sensors[0], format_value_spec(v, sensors[0].round)) + seq!['\n']
                        + rest,
                ),
            },
        }
    }
}

/// The views of resolved token–value pairs.
pub open spec fn pair_views(v: Seq<(String, String)>) -> Seq<(Seq<char>, Seq<char>)> {
    v.map_values(|p: (String, String)| (p.0@, p.1@))
}

/// The token–value pairs one tick resolves against a template: in
/// configuration order, one pair per sensor whose token occurs in the
/// template, each valued with this tick's formatted reading; a sensor
/// whose token is absent is not resolved at all, and the first active
/// sensor that fails decides the error.
pub open spec fn resolve_pairs_spec(
    sensors: Seq<Sensor>,
    t: Seq<char>,
    snap: SnapshotNode,
    files: Seq<FileEntry>,
) -> Result<Seq<(Seq<char>, Seq<char>)>, ErrorV>
    decreases sensors.len(),
{
    if sensors.len() == 0 {
        Ok(Seq::empty())
    } else {
        let s0 = sensors[0];
        if !contains_spec(t, token_of(s0.name@)) {
            resolve_pairs_spec(sensors.skip(1), t, snap, files)
        } else {
            match resolved_value_spec(s0, snap, files) {
                Err(e) => Err(e),
                Ok(v) => match resolve_pairs_spec(sensors.skip(1), t, snap, files) {
                    Err(e) => Err(e),
                    Ok(rest) => Ok(
                        seq![(token_of(s0.name@), format_value_spec(v, s0.round))] + rest,
                    ),
                },
            }
        }
    }
}

/// The template after substituting each pair's token with its value,
/// in order.
pub open spec fn apply_pairs_spec(t: Seq<char>, pairs: Seq<(Seq<char>, Seq<char>)>) -> Seq<char>
    decreases pairs.len(),
{
    if pairs.len() == 0 {
        t
    } else {
        apply_pairs_spec(replace_all_spec(t, pairs[0].0, pairs[0].1), pairs.skip(1))
    }
}

/// The templated rendering: the sensors' pairs substituted into the
/// template, then the built-in CPU-usage and timestamp tokens. With no
/// clock given, `{timestamp}` passes through verbatim.
pub open spec fn render_templated_spec(
    t: Seq<char>,
    sensors: Seq<Sensor>,
    snap: SnapshotNode,
    files: Seq<FileEntry>,
    cpu: Option<Fixed>,
    now: Option<ClockTime>,
) -> Result<Seq<char>, ErrorV> {
    match resolve_pairs_spec(sensors, t, snap, files) {
        Err(e) => Err(e),
        Ok(pairs) => {
            let t1 = apply_pairs_spec(t, pairs);
            let t2 = replace_all_spec(t1, "{cpu_usage}"@, cpu_text_spec(cpu));
            let t3 = match now {
                Some(c) => replace_all_spec(t2, "{timestamp}"@, clock_text_spec(c)),
                None => t2,
            };
            Ok(t3)
        },
    }
}

/// One tick's whole output: the templated rendering when a template is
/// configured, else the verbose listing; trimmed either way.
pub open spec fn render_tick_spec(
    config: Config,
    snap: SnapshotNode,
    files: Seq<FileEntry>,
    cpu: Option<Fixed>,
    now: Option<ClockTime>,
) -> Result<Seq<char>, ErrorV> {
    let body = match config.format {
        Some(t) => render_templated_spec(t@, config.sensors@, snap, files, cpu, now),
        None => render_verbose_spec(config.sensors@, snap, files),
    };
    match body {
        Ok(o) => Ok(trim_spec(o)),
        Err(e) => Err(e),
    }
}

/// Produces one tick's output from the snapshot tree, the pre-read
/// files, the latest CPU reading (absent on a single-shot run, shown
/// as the unavailable marker) and the clock.
pub fn render_tick(
    config: &Config,
    snapshot: &SnapshotNode,
    files: &Vec<FileEntry>,
    cpu: Option<Fixed>,
    now: Option<ClockTime>,
) -> (r: Result<String, Error>)
    requires
        config_wf(*config),
        cpu matches Some(f) ==> fixed_wf(f),
        now matches Some(c) ==> clock_wf(c),
    ensures
        match r {
            Ok(o) => render_tick_spec(*config, *snapshot, files@, cpu, now) == Ok::<_, ErrorV>(
                o@,
            ),
            Err(e) => render_tick_spec(*config, *snapshot, files@, cpu, now) == Err::<Seq<char>,
                _,
            >(e@),
        },
{
    let body = match &config.format {
        Some(t) => render_templated(t.as_str(), &config.sensors, snapshot, files, cpu, now),
        None => render_verbose(&config.sensors, snapshot, files),
    };
    match body {
        Ok(o) => Ok(trim(o.as_str()).to_owned()),
        Err(e) => Err(e),
    }
}

/// The verbose listing, one line per sensor in configuration order.
#[verifier::rlimit(60)]
fn render_verbose(sensors: &Vec<Sensor>, snap: &SnapshotNode, files: &Vec<FileEntry>) -> (r:
    Result<String, Error>)
    requires
        forall|i: int| 0 <= i < sensors@.len() ==> sensor_wf(#[trigger] sensors@[i]),
    ensures
        match r {
            Ok(o) => render_verbose_spec(sensors@, *snap, files@) == Ok::<_, ErrorV>(o@),
            Err(e) => render_verbose_spec(sensors@, *snap, files@) == Err::<Seq<char>, _>(e@),
        },
{
    let mut out = String::new();
    let mut i: usize = 0;
    proof {
        assert(sensors@.skip(0) =~= sensors@);
    }
    while i < sensors.len()
        invariant
            i <= sensors@.len(),
            forall|k: int| 0 <= k < sensors@.len() ==> sensor_wf(#[trigger] sensors@[k]),
            render_verbose_spec(sensors@, *snap, files@) == (match render_verbose_spec(
                sensors@.skip(i as int),
                *snap,
                files@,
            ) {
                Ok(rest) => Ok::<_, ErrorV>(out@ + rest),
                Err(e) => Err::<Seq<char>, _>(e),
            }),
        decreases sensors@.len() - i,
    {
        let s = &sensors[i];
        proof {
            assert(sensors@.skip(i as int)[0] == sensors@[i as int]);
            assert(sensors@.skip(i as int).skip(1) =~= sensors@.skip(i as int + 1));
        }
        let v = match s.get_value(snap, files) {
            Ok(v) => v,
            Err(e) => {
                return Err(e);
            },
        };
        let text = s.format_value(v);
        let ghost out0 = out@;
        match &s.label {
            Some(l) => out.append(l.as_str()),
            None => out.append(s.name.as_str()),
        }
        out.append(": ");
        out.append(text.as_str());
        match &s.unit {
            Some(u) => {
                out.append(" ");
                out.append(u.as_str());
            },
            None => {},
        }
        push_char(&mut out, '\n');
        i = i + 1;
        proof {
            let sv = sensors@[i as int - 1];
            let line = line_spec(sv, format_value_spec(v.raw as int, sv.round));
            assert(out@ =~= out0 + line + seq!['\n']);
            match render_verbose_spec(sensors@.skip(i as int), *snap, files@) {
                Ok(rest) => {
                    assert(out@ + rest =~= out0 + (line + seq!['\n'] + rest));
                },
                Err(_) => {},
            }
        }
    }
    proof {
        assert(sensors@.skip(sensors@.len() as int) =~= Seq::<Sensor>::empty());
        assert(out@ + Seq::<char>::empty() =~= out@);
    }
    Ok(out)
}

/// The templated rendering: resolve the active sensors' pairs, then
/// substitute them and the built-in tokens.
fn render_templated(
    t: &str,
    sensors: &Vec<Sensor>,
    snap: &SnapshotNode,
    files: &Vec<FileEntry>,
    cpu: Option<Fixed>,
    now: Option<ClockTime>,
) -> (r: Result<String, Error>)
    requires
        forall|i: int| 0 <= i < sensors@.len() ==> sensor_wf(#[trigger] sensors@[i]),
        cpu matches Some(f) ==> fixed_wf(f),
        now matches Some(c) ==> clock_wf(c),
    ensures
        match r {
            Ok(o) => render_templated_spec(t@, sensors@, *snap, files@, cpu, now) == Ok::<
                _,
                ErrorV,
            >(o@),
            Err(e) => render_templated_spec(t@, sensors@, *snap, files@, cpu, now) == Err::<
                Seq<char>,
                _,
            >(e@),
        },
{
    let mut pairs: Vec<(String, String)> = Vec::new();
    let mut i: usize = 0;
    proof {
        assert(sensors@.skip(0) =~= sensors@);
    }
    while i < sensors.len()
        invariant
            i <= sensors@.len(),
            forall|k: int| 0 <= k < sensors@.len() ==> sensor_wf(#[trigger] sensors@[k]),
            resolve_pairs_spec(sensors@, t@, *snap, files@) == (match resolve_pairs_spec(
                sensors@.skip(i as int),
                t@,
                *snap,
                files@,
            ) {
                Ok(rest) => Ok::<_, ErrorV>(pair_views(pairs@) + rest),
                Err(e) => Err::<Seq<(Seq<char>, Seq<char>)>, _>(e),
            }),
        decreases sensors@.len() - i,
    {
        let s = &sensors[i];
        proof {
            assert(sensors@.skip(i as int)[0] == sensors@[i as int]);
            assert(sensors@.skip(i as int).skip(1) =~= sensors@.skip(i as int + 1));
        }
        let tok = make_token(s.name.as_str());
        if contains_str(t, tok.as_str()) {
            let v = match s.get_value(snap, files) {
                Ok(v) => v,
                Err(e) => {
                    return Err(e);
                },
            };
            let text = s.format_value(v);
            let ghost before = pair_views(pairs@);
            pairs.push((tok, text));
            proof {
                let sv = sensors@[i as int];
                assert(pair_views(pairs@) =~= before.push(
                    (token_of(sv.name@), format_value_spec(v.raw as int, sv.round)),
                ));
                match resolve_pairs_spec(sensors@.skip(i as int + 1), t@, *snap, files@) {
                    Ok(rest) => {
                        assert(pair_views(pairs@) + rest =~= before + (seq![
                            (token_of(sv.name@), format_value_spec(v.raw as int, sv.round)),
                        ] + rest));
                    },
                    Err(_) => {},
                }
            }
        }
        i = i + 1;
    }
    proof {
        assert(sensors@.skip(sensors@.len() as int) =~= Seq::<Sensor>::empty());
        assert(pair_views(pairs@) + Seq::<(Seq<char>, Seq<char>)>::empty() =~= pair_views(
            pairs@,
        ));
    }
    let ghost pv = pair_views(pairs@);
    let mut cur: String = t.to_owned();
    let mut j: usize = 0;
    proof {
        assert(pv.skip(0) =~= pv);
    }
    while j < pairs.len()
        invariant
            j <= pairs@.len(),
            pv == pair_views(pairs@),
            pv.len() == pairs@.len(),
            apply_pairs_spec(t@, pv) == apply_pairs_spec(cur@, pv.skip(j as int)),
        decreases pairs@.len() - j,
    {
        proof {
            assert(pv.skip(j as int)[0] == pv[j as int]);
            assert(pv[j as int] == (pairs@[j as int].0@, pairs@[j as int].1@));
            assert(pv.skip(j as int).skip(1) =~= pv.skip(j as int + 1));
        }
        let next = replace_all(cur.as_str(), pairs[j].0.as_str(), pairs[j].1.as_str());
        cur = next;
        j = j + 1;
    }
    proof {
        assert(pv.skip(pv.len() as int) =~= Seq::<(Seq<char>, Seq<char>)>::empty());
    }
    let cpu_text: String = match cpu {
        Some(f) => crate::fixed::format_fixed(f, Some(1)),
        None => "??".to_owned(),
    };
    let with_cpu = replace_all(cur.as_str(), "{cpu_usage}", cpu_text.as_str());
    let finished: String = match now {
        Some(c) => {
            let ts = format_timestamp(c);
            replace_all(with_cpu.as_str(), "{timestamp}", ts.as_str())
        },
        None => with_cpu,
    };
    Ok(finished)
}

/// A sensor whose token does not occur in the template contributes
/// nothing to the tick: the resolved pairs — and so the rendering and
/// any resolution failure — are those of the configuration without it.
pub proof fn lemma_unreferenced_sensor_ignored(
    sensors: Seq<Sensor>,
    i: int,
    t: Seq<char>,
    snap: SnapshotNode,
    files: Seq<FileEntry>,
)
    requires
        0 <= i < sensors.len(),
        !contains_spec(t, token_of(sensors[i].name@)),
    ensures
        resolve_pairs_spec(sensors.remove(i), t, snap, files) == resolve_pairs_spec(
            sensors,
            t,
            snap,
            files,
        ),
    decreases i,
{
    if i == 0 {
        assert(sensors.remove(0) =~= sensors.skip(1));
    } else {
        let rs = sensors.remove(i);
        assert(rs[0] == sensors[0]);
        assert(rs.skip(1) =~= sensors.skip(1).remove(i - 1));
        assert(sensors.skip(1)[i - 1] == sensors[i]);
        lemma_unreferenced_sensor_ignored(sensors.skip(1), i - 1, t, snap, files);
    }
}

/// The same, at the level of the whole templated rendering.
pub proof fn lemma_unreferenced_sensor_ignored_in_render(
    sensors: Seq<Sensor>,
    i: int,
    t: Seq<char>,
    snap: SnapshotNode,
    files: Seq<FileEntry>,
    cpu: Option<Fixed>,
    now: Option<ClockTime>,
)
    requires
        0 <= i < sensors.len(),
        !contains_spec(t, token_of(sensors[i].name@)),
    ensures
        render_templated_spec(t, sensors.remove(i), snap, files, cpu, now)
            == render_templated_spec(t, sensors, snap, files, cpu, now),
{
    lemma_unreferenced_sensor_ignored(sensors, i, t, snap, files);
}

} // verus!
