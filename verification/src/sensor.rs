//! Configured sensors and their per-tick value resolution.
//!
//! A sensor names its reading either by an absolute file path (the
//! caller reads such files and hands their text in, since the library
//! does no I/O) or by a key path into the per-tick snapshot tree, by
//! convention written with a `@sensors/` prefix. The raw text is
//! trimmed, parsed as a decimal reading, and carried through the
//! sensor's optional range map.

use crate::error::{Error, ErrorV};
use crate::fixed::{
    fixed_wf, format_fixed, format_value_spec, parse_decimal, parse_decimal_spec, Fixed,
};
use crate::range::{map_spec, SensorMap};
use crate::snapshot::{get_by_path, leaf_text, leaf_text_spec, walk_spec, SnapshotNode};
use crate::strutil::{is_match, match_at, split_spec, split_str, str_eq, trim, trim_spec, views_of};
use vstd::prelude::*;

verus! {

/// One configured sensor: where its reading comes from and how it is
/// shown.
#[derive(Debug, Clone)]
pub struct Sensor {
    /// Unique identifier; the template placeholder key and the name
    /// errors carry.
    pub name: String,
    /// Label shown in the verbose listing instead of the name.
    pub label: Option<String>,
    /// Unit appended in the verbose listing.
    pub unit: Option<String>,
    /// Threshold above which an alarm is owed, for the alarm collaborator.
    pub alarm_high: Option<Fixed>,
    /// Threshold below which an alarm is owed, for the alarm collaborator.
    pub alarm_low: Option<Fixed>,
    /// Largest value the sensor should reach: the input range's top.
    pub max: Fixed,
    /// Smallest value the sensor should reach: the input range's bottom.
    pub min: Fixed,
    /// Decimal places to round to for display; absent means natural
    /// precision.
    pub round: Option<u8>,
    /// Optional linear map into another range.
    pub map: Option<SensorMap>,
    /// An absolute file path, or a key path into the snapshot tree.
    pub path: String,
}

impl Default for Sensor {
    /// A blank sensor: empty name and path, no decorations, zero
    /// bounds.
    fn default() -> (r: Sensor)
        ensures
            r.name@ == Seq::<char>::empty(),
            r.label is None,
            r.unit is None,
            r.alarm_high is None,
            r.alarm_low is None,
            r.max.raw == 0,
            r.min.raw == 0,
            r.round is None,
            r.map is None,
            r.path@ == Seq::<char>::empty(),
            sensor_wf(r),
    {
        Sensor {
            name: String::new(),
            label: None,
            unit: None,
            alarm_high: None,
            alarm_low: None,
            max: Fixed { raw: 0 },
            min: Fixed { raw: 0 },
            round: None,
            map: None,
            path: String::new(),
        }
    }
}

/// The bounds a sensor computes with stay in the representable range.
pub open spec fn sensor_wf(s: Sensor) -> bool {
    &&& fixed_wf(s.min)
    &&& fixed_wf(s.max)
    &&& match s.map {
        Some(m) => fixed_wf(m.min) && fixed_wf(m.max),
        None => true,
    }
}

/// The full configuration: an optional output template, the poll
/// cadence, and the sensors in configuration order.
#[derive(Debug, Clone)]
pub struct Config {
    /// Custom output template; absent means the verbose listing.
    pub format: Option<String>,
    /// Poll interval in active mode, milliseconds.
    pub active_poll_rate: u16,
    /// Poll interval in idle mode, milliseconds.
    pub idle_poll_rate: u16,
    /// The configured sensors, in order.
    pub sensors: Vec<Sensor>,
}

/// Every sensor of the configuration is well formed.
pub open spec fn config_wf(c: Config) -> bool {
    forall|i: int| 0 <= i < c.sensors@.len() ==> sensor_wf(#[trigger] c.sensors@[i])
}

/// Whether a sensor path names a file on disk.
pub open spec fn is_absolute_path(p: Seq<char>) -> bool {
    p.len() > 0 && p[0] == '/'
}

/// A relative path with its conventional `@sensors` prefix, if any,
/// stripped.
pub open spec fn tree_path_of(p: Seq<char>) -> Seq<char> {
    if p.len() >= 9 && p.take(9) == "@sensors/"@ {
        p.skip(9)
    } else if p == "@sensors"@ {
        Seq::empty()
    } else {
        p
    }
}

/// The key path a relative sensor path stands for, segment by segment.
pub open spec fn path_segments_spec(p: Seq<char>) -> Seq<Seq<char>> {
    let t = tree_path_of(p);
    if t.len() == 0 {
        Seq::empty()
    } else {
        split_spec(t, '/')
    }
}

/// Cuts a relative sensor path into its key segments.
pub fn tree_segments(p: &str) -> (r: Vec<String>)
    ensures
        views_of(r@) == path_segments_spec(p@),
{
    proof {
        reveal_strlit("@sensors/");
        reveal_strlit("@sensors");
    }
    let n = p.unicode_len();
    let stripped: &str = if match_at(p, 0, "@sensors/") {
        proof {
            assert(p@.subrange(0, 9) == "@sensors/"@);
            assert(p@.take(9) == "@sensors/"@);
        }
        p.substring_char(9, n)
    } else if str_eq(p, "@sensors") {
        proof {
            assert(p@.len() == 8);
        }
        p.substring_char(0, 0)
    } else {
        proof {
            if p@.len() >= 9 && p@.take(9) == "@sensors/"@ {
                assert(is_match(p@, 0, "@sensors/"@)) by {
                    assert(p@.subrange(0, 9) == p@.take(9));
                }
            }
        }
        p
    };
    proof {
        assert(stripped@ == tree_path_of(p@));
    }
    if stripped.unicode_len() == 0 {
        Vec::new()
    } else {
        split_str(stripped, '/')
    }
}

/// One pre-read file: the path a sensor asked for and the text found
/// there, absent when the read failed.
#[derive(Debug, Clone)]
pub struct FileEntry {
    /// The absolute path that was read.
    pub path: String,
    /// The file's text, or nothing when it could not be read.
    pub content: Option<String>,
}

/// The text of the first entry for `path`: `None` when no entry names
/// the path, `Some(None)` when the read failed.
pub open spec fn file_lookup_spec(files: Seq<FileEntry>, path: Seq<char>) -> Option<
    Option<Seq<char>>,
>
    decreases files.len(),
{
    if files.len() == 0 {
        None
    } else if files[0].path@ == path {
        Some(
            match files[0].content {
                Some(c) => Some(c@),
                None => None,
            },
        )
    } else {
        file_lookup_spec(files.skip(1), path)
    }
}

proof fn lemma_file_lookup_skip(files: Seq<FileEntry>, path: Seq<char>, j: int)
    requires
        0 <= j <= files.len(),
        forall|k: int| 0 <= k < j ==> (#[trigger] files[k]).path@ != path,
    ensures
        file_lookup_spec(files, path) == file_lookup_spec(files.skip(j), path),
    decreases j,
{
    if j == 0 {
        assert(files.skip(0) =~= files);
    } else {
        assert(files[0].path@ != path);
        assert(forall|k: int|
            0 <= k < j - 1 ==> (#[trigger] files.skip(1)[k]).path@ == files[k + 1].path@);
        lemma_file_lookup_skip(files.skip(1), path, j - 1);
        assert(files.skip(1).skip(j - 1) =~= files.skip(j));
    }
}

/// The first pre-read entry for `path`, if one exists.
pub fn file_lookup<'a>(files: &'a Vec<FileEntry>, path: &String) -> (r: Option<&'a FileEntry>)
    ensures
        match r {
            Some(e) => file_lookup_spec(files@, path@) == Some(
                match e.content {
                    Some(c) => Some(c@),
                    None => None::<Seq<char>>,
                },
            ),
            None => file_lookup_spec(files@, path@) is None,
        },
{
    let mut j: usize = 0;
    while j < files.len() && !files[j].path.eq(path)
        invariant
            j <= files@.len(),
            forall|k: int| 0 <= k < j ==> (#[trigger] files@[k]).path@ != path@,
        decreases files@.len() - j,
    {
        j = j + 1;
    }
    if j < files.len() {
        proof {
            lemma_file_lookup_skip(files@, path@, j as int);
        }
        Some(&files[j])
    } else {
        proof {
            lemma_file_lookup_skip(files@, path@, files@.len() as int);
            assert(files@.skip(files@.len() as int) =~= Seq::<FileEntry>::empty());
        }
        None
    }
}

/// The raw reading a sensor resolves to, before its range map: for an
/// absolute path, the trimmed text of the pre-read file; for a
/// relative path, the trimmed text of the snapshot leaf its segments
/// lead to; either parsed as a decimal reading. Every failure carries
/// the sensor's context.
pub open spec fn raw_value_spec(s: Sensor, snap: SnapshotNode, files: Seq<FileEntry>) -> Result<
    int,
    ErrorV,
> {
    if is_absolute_path(s.path@) {
        match file_lookup_spec(files, s.path@) {
            Some(Some(text)) => match parse_decimal_spec(trim_spec(text)) {
                Some(v) => Ok(v),
                None => Err(ErrorV::ParseError { raw: trim_spec(text), source: s.name@ }),
            },
            _ => Err(ErrorV::IoError { path: s.path@ }),
        }
    } else {
        match walk_spec(snap, path_segments_spec(s.path@)) {
            None => Err(ErrorV::LookupError { path: s.path@, sensor: s.name@ }),
            Some(node) => match leaf_text_spec(node) {
                None => Err(ErrorV::ParseError { raw: s.path@, source: s.name@ }),
                Some(text) => match parse_decimal_spec(trim_spec(text)) {
                    Some(v) => Ok(v),
                    None => Err(ErrorV::ParseError { raw: trim_spec(text), source: s.name@ }),
                },
            },
        }
    }
}

/// The reading a sensor finally yields: its raw reading carried
/// through its range map, when one is configured, against the sensor's
/// own input bounds.
pub open spec fn resolved_value_spec(s: Sensor, snap: SnapshotNode, files: Seq<FileEntry>) -> Result<
    int,
    ErrorV,
> {
    match raw_value_spec(s, snap, files) {
        Err(e) => Err(e),
        Ok(v) => match s.map {
            None => Ok(v),
            Some(m) => if s.min.raw == s.max.raw {
                Err(ErrorV::InvalidRange)
            } else {
                Ok(map_spec(v, s.min.raw as int, s.max.raw as int, m.min.raw as int,
                    m.max.raw as int))
            },
        },
    }
}

impl Sensor {
    /// Resolves this sensor's reading for one tick, from the snapshot
    /// tree and the pre-read files, and carries it through the range
    /// map when one is configured.
    pub fn get_value(&self, sensors: &SnapshotNode, files: &Vec<FileEntry>) -> (r: Result<
        Fixed,
        Error,
    >)
        requires
            sensor_wf(*self),
        ensures
            match r {
                Ok(f) => resolved_value_spec(*self, *sensors, files@) == Ok::<int, ErrorV>(
                    f.raw as int,
                ) && fixed_wf(f),
                Err(e) => resolved_value_spec(*self, *sensors, files@) == Err::<int, ErrorV>(e@),
            },
    {
        let n0 = self.path.as_str().unicode_len();
        let raw: Fixed;
        if n0 > 0 && self.path.as_str().get_char(0) == '/' {
            match file_lookup(files, &self.path) {
                Some(entry) => match &entry.content {
                    Some(c) => {
                        let t = trim(c.as_str());
                        match parse_decimal(t) {
                            Some(f) => {
                                raw = f;
                            },
                            None => {
                                return Err(
                                    Error::ParseError {
                                        raw: t.to_owned(),
                                        source: self.name.clone(),
                                    },
                                );
                            },
                        }
                    },
                    None => {
                        return Err(Error::IoError { path: self.path.clone() });
                    },
                },
                None => {
                    return Err(Error::IoError { path: self.path.clone() });
                },
            }
        } else {
            let segs = tree_segments(self.path.as_str());
            match get_by_path(sensors, &segs) {
                None => {
                    return Err(
                        Error::LookupError { path: self.path.clone(), sensor: self.name.clone() },
                    );
                },
                Some(node) => match leaf_text(node) {
                    None => {
                        return Err(
                            Error::ParseError { raw: self.path.clone(), source: self.name.clone() },
                        );
                    },
                    Some(text) => {
                        let t = trim(text.as_str());
                        match parse_decimal(t) {
                            Some(f) => {
                                raw = f;
                            },
                            None => {
                                return Err(
                                    Error::ParseError {
                                        raw: t.to_owned(),
                                        source: self.name.clone(),
                                    },
                                );
                            },
                        }
                    },
                },
            }
        }
        match &self.map {
            None => Ok(raw),
            Some(m) => m.map(raw, self.min, self.max),
        }
    }

    /// Renders a reading per this sensor's rounding choice.
    pub fn format_value(&self, value: Fixed) -> (r: String)
        requires
            fixed_wf(value),
        ensures
            r@ == format_value_spec(value.raw as int, self.round),
    {
        format_fixed(value, self.round)
    }
}

} // verus!
