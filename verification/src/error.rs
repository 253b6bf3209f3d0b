//! The crate-wide error type.

use vstd::prelude::*;

use crate::format::{format_name, Format};
use crate::strings::{concat_str, push_all, str_chars, string_from_chars};

verus! {

/// Errors returned while encoding or decoding a property list.
#[allow(inconsistent_fields)]
#[derive(Debug)]
pub enum Error {
    /// An underlying reader or writer failed; the payload is its message.
    Io(String),
    /// The input is not recognizable as a property list of `format`; the
    /// only variant that makes the decode ladder fall back from the XML
    /// parser to the text parser.
    InvalidPlist {
        /// The parser that rejected the input: `"XML"`, `"binary"`, or `"text"`.
        format: &'static str,
        /// The underlying cause, when one exists.
        source: Option<String>,
    },
    /// The input was recognized as `format` but failed to parse.
    Parse {
        /// The parser that failed: `"XML"`, `"binary"`, or `"text"`.
        format: &'static str,
        /// The underlying cause, when one exists.
        source: Option<String>,
    },
    /// A value of this type cannot be represented in a property list.
    UnknownType(&'static str),
    /// A property-list value cannot decode into the requested target type.
    TypeMismatch {
        /// A description of the requested target type.
        expected: &'static str,
        /// The property-list type name that was found.
        found: &'static str,
    },
    /// Nesting exceeded the maximum parse depth.
    MaxDepthExceeded,
    /// A scalar literal failed to parse.
    ParseScalar(String),
    /// Encoding produced no root element to write.
    NoRootElement,
    /// A null value reached a position where property lists cannot express it.
    NullNotRepresentable,
    /// A free-form message.
    Message(String),
    /// The requested output format's codec is not part of this build.
    FeatureDisabled {
        /// The format whose codec is missing.
        format: Format,
    },
}

/// The human-readable message of an error: lowercase, without a prefix or
/// a trailing period; a parse failure's cause is not part of it.
pub open spec fn error_text(e: Error) -> Seq<char> {
    match e {
        Error::Io(_) => "i/o error"@,
        Error::InvalidPlist { format, .. } => "invalid "@ + format@ + " property list"@,
        Error::Parse { format, .. } => "error parsing "@ + format@ + " property list"@,
        Error::UnknownType(t) => "can't marshal value of type "@ + t@,
        Error::TypeMismatch { expected, found } => "cannot decode "@ + found@ + " into "@ + expected@,
        Error::MaxDepthExceeded => "maximum nesting depth exceeded"@,
        Error::ParseScalar(m) => m@,
        Error::NoRootElement => "no root element to encode"@,
        Error::NullNotRepresentable => "null is not representable"@,
        Error::Message(m) => m@,
        Error::FeatureDisabled { format } => "support for the "@ + format_name(format) + " format is disabled"@,
    }
}

fn text3(a: &str, b: &str, c: &str) -> (r: String)
    ensures
        r@ == a@ + b@ + c@,
{
    let mut m = str_chars(a);
    push_all(&mut m, &str_chars(b));
    push_all(&mut m, &str_chars(c));
    string_from_chars(m.as_slice())
}

impl Error {
    /// The human-readable message of this error.
    pub fn message(&self) -> (r: String)
        ensures
            r@ == error_text(*self),
    {
        match self {
            Error::Io(_) => "i/o error".to_owned(),
            Error::InvalidPlist { format, .. } => text3("invalid ", format, " property list"),
            Error::Parse { format, .. } => text3("error parsing ", format, " property list"),
            Error::UnknownType(t) => concat_str("can't marshal value of type ", t),
            Error::TypeMismatch { expected, found } => {
                let mut m = str_chars("cannot decode ");
                push_all(&mut m, &str_chars(found));
                push_all(&mut m, &str_chars(" into "));
                push_all(&mut m, &str_chars(expected));
                string_from_chars(m.as_slice())
            },
            Error::MaxDepthExceeded => "maximum nesting depth exceeded".to_owned(),
            Error::ParseScalar(m) => string_from_chars(str_chars(m.as_str()).as_slice()),
            Error::NoRootElement => "no root element to encode".to_owned(),
            Error::NullNotRepresentable => "null is not representable".to_owned(),
            Error::Message(m) => string_from_chars(str_chars(m.as_str()).as_slice()),
            Error::FeatureDisabled { format } => text3("support for the ", format.name(), " format is disabled"),
        }
    }

    /// The `InvalidPlist` verdict for `format`, without a cause.
    pub fn invalid(format: &'static str) -> (r: Error)
        ensures
            r == (Error::InvalidPlist { format, source: None }),
    {
        Error::InvalidPlist { format, source: None }
    }

    /// A `Parse` failure of `format` with the given cause.
    pub fn parse(format: &'static str, source: String) -> (r: Error)
        ensures
            r == (Error::Parse { format, source: Some(source) }),
    {
        Error::Parse { format, source: Some(source) }
    }

    /// True only for [`Error::InvalidPlist`]: the decode ladder's signal to
    /// retry the buffered input with the text parser.
    pub fn is_retry_signal(&self) -> (r: bool)
        ensures
            r == (self is InvalidPlist),
    {
        match self {
            Error::InvalidPlist { .. } => true,
            _ => false,
        }
    }

    /// The cause carried by a parse failure, if any.
    pub fn source_message(&self) -> (r: Option<&String>)
        ensures
            match *self {
                Error::InvalidPlist { source, .. } => match source {
                    Some(m) => r == Some(&m),
                    None => r is None,
                },
                Error::Parse { source, .. } => match source {
                    Some(m) => r == Some(&m),
                    None => r is None,
                },
                _ => r is None,
            },
    {
        match self {
            Error::InvalidPlist { source, .. } => source.as_ref(),
            Error::Parse { source, .. } => source.as_ref(),
            _ => None,
        }
    }
}

} // verus!
