//! Error kinds of the resolution and rendering pipeline.
//!
//! Every failure carries enough context (sensor name, offending raw
//! text, path involved) to diagnose a misconfiguration. The abstract
//! value of an error, with its strings seen as character sequences, is
//! [`ErrorV`]; contracts speak of that view.

use vstd::prelude::*;

verus! {

/// Abstract value of an [`Error`].
pub enum ErrorV {
    /// A file or process could not be accessed; names the path.
    IoError { path: Seq<char> },
    /// A raw text could not be read as a number; names the text and the
    /// sensor or source it came from.
    ParseError { raw: Seq<char>, source: Seq<char> },
    /// A key path is missing from the snapshot; names the path and the
    /// sensor.
    LookupError { path: Seq<char>, sensor: Seq<char> },
    /// A range map was configured with an empty input range.
    InvalidRange,
    /// An external command failed or produced unusable output.
    ExternalToolError { detail: Seq<char> },
}

/// A failure of one tick's resolution, mapping or formatting work.
#[derive(Debug)]
pub enum Error {
    IoError { path: String },
    ParseError { raw: String, source: String },
    LookupError { path: String, sensor: String },
    InvalidRange,
    ExternalToolError { detail: String },
}

impl View for Error {
    type V = ErrorV;

    open spec fn view(&self) -> ErrorV {
        match self {
            Error::IoError { path } => ErrorV::IoError { path: path@ },
            Error::ParseError { raw, source } => ErrorV::ParseError {
                raw: raw@,
                source: source@,
            },
            Error::LookupError { path, sensor } => ErrorV::LookupError {
                path: path@,
                sensor: sensor@,
            },
            Error::InvalidRange => ErrorV::InvalidRange,
            Error::ExternalToolError { detail } => ErrorV::ExternalToolError { detail: detail@ },
        }
    }
}

/// The human-readable description of an error, as a character sequence.
pub open spec fn message_spec(e: ErrorV) -> Seq<char> {
    match e {
        ErrorV::IoError { path } => "failed to read "@ + path,
        ErrorV::ParseError { raw, source } => "could not parse a number from \""@ + raw
            + "\" for "@ + source,
        ErrorV::LookupError { path, sensor } => "no value under \""@ + path + "\" for sensor "@
            + sensor,
        ErrorV::InvalidRange => "range map with an empty input range"@,
        ErrorV::ExternalToolError { detail } => "external tool failed: "@ + detail,
    }
}

impl Error {
    /// The human-readable description of the error.
    pub fn message(&self) -> (r: String)
        ensures
            r@ == message_spec(self@),
    {
        match self {
            Error::IoError { path } => {
                let mut s = "failed to read ".to_owned();
                s.append(path.as_str());
                s
            },
            Error::ParseError { raw, source } => {
                let mut s = "could not parse a number from \"".to_owned();
                s.append(raw.as_str());
                s.append("\" for ");
                s.append(source.as_str());
                s
            },
            Error::LookupError { path, sensor } => {
                let mut s = "no value under \"".to_owned();
                s.append(path.as_str());
                s.append("\" for sensor ");
                s.append(sensor.as_str());
                s
            },
            Error::InvalidRange => "range map with an empty input range".to_owned(),
            Error::ExternalToolError { detail } => {
                let mut s = "external tool failed: ".to_owned();
                s.append(detail.as_str());
                s
            },
        }
    }
}

} // verus!
