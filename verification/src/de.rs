//! The decoder, the format-detection ladder, and format detection.

use vstd::prelude::*;

use crate::binary::parser::{bplist_magic, decode_binary, fault_matches, header_ok, is_binary_error};
use crate::date::Date;
use crate::error::Error;
use crate::format::Format;
use crate::scalar::FloatCodec;
use crate::strings::{push_all, str_chars, string_from_chars};
use crate::text::grammar::text_outcome;
use crate::text::parser::{is_text_error, outcome_matches};
use crate::value::Value;
use crate::xml::parser::{is_xml_error, is_xml_retry};

verus! {

/// Whether the input starts with the six-byte `bplist` magic.
pub open spec fn has_binary_magic(bytes: Seq<u8>) -> bool {
    bytes.len() >= 6 && bytes.subrange(0, 6) == bplist_magic()
}

/// Whether the binary decoding of `bytes` succeeds whatever instants its
/// date objects read as.
pub open spec fn binary_accepts(bytes: Seq<u8>) -> bool {
    forall|dates: spec_fn(u64) -> Date| #[trigger] decode_binary(bytes, dates) is Ok
}

/// Whether the binary decoding of `bytes` fails whatever instants its date
/// objects read as.
pub open spec fn binary_refuses(bytes: Seq<u8>) -> bool {
    forall|dates: spec_fn(u64) -> Date| #[trigger] decode_binary(bytes, dates) is Err
}

/// The format a ladder outcome reports: the detected format of a parse
/// that succeeded, nothing for one that failed.
pub open spec fn outcome_format(outcome: Result<(Value, Format), Error>) -> Option<Format> {
    match outcome {
        Ok((_, f)) => Some(f),
        Err(_) => None,
    }
}

/// The format a decoder records after a ladder outcome, having recorded
/// `before` until then: a success replaces it, a failure keeps it.
pub open spec fn recorded_after(before: Option<Format>, outcome: Result<(Value, Format), Error>) -> Option<Format> {
    match outcome {
        Ok((_, f)) => Some(f),
        Err(_) => before,
    }
}

/// Whether an error is one the ladder can end with: a binary, XML or text
/// parse failure, or the depth cap.
pub open spec fn is_ladder_error(e: Error) -> bool {
    is_binary_error(e) || is_xml_error(e) || is_text_error(e) || e is MaxDepthExceeded
}

/// Whether an XML rung outcome fails only as the XML parser can: with an
/// XML failure, its "not an XML plist" verdict, or the depth cap.
pub open spec fn xml_rung_kind(xml: Result<Value, Error>) -> bool {
    xml matches Err(e) ==> is_xml_error(e) || is_xml_retry(e) || e is MaxDepthExceeded
}

/// The ladder ends with `r` after its XML rung gave `xml`: an XML value is
/// the result; the "not an XML plist" verdict gives the text parser's
/// outcome, for some answers of its decimal conversion; any other XML
/// failure is final.
pub open spec fn after_xml(bytes: Seq<u8>, xml: Result<Value, Error>, r: Result<(Value, Format), Error>) -> bool {
    match xml {
        Ok(v) => r == Ok::<(Value, Format), Error>((v, Format::Xml)),
        Err(e) => if e is InvalidPlist {
            exists|reals: Map<int, Option<u64>>| #[trigger] outcome_matches(text_outcome(bytes, reals), r)
        } else {
            r == Err::<(Value, Format), Error>(e)
        },
    }
}

/// The binary rung ends with `r`: the binary decoding's value or fault, for
/// some instants of its date objects, with the binary format.
pub open spec fn binary_rung(bytes: Seq<u8>, r: Result<(Value, Format), Error>) -> bool {
    exists|dates: spec_fn(u64) -> Date|
        match #[trigger] decode_binary(bytes, dates) {
            Ok(n) => r matches Ok((v, f)) && v.deep() == n && f == Format::Binary,
            Err(f) => r matches Err(e) && fault_matches(e, f),
        }
}

/// The detection ladder ends with `r` on `bytes`: input with the `bplist`
/// magic gives the binary rung's outcome; other input gives, for an XML
/// rung outcome of the XML parser's kind, what follows it.
pub open spec fn ladder_outcome(bytes: Seq<u8>, r: Result<(Value, Format), Error>) -> bool {
    if has_binary_magic(bytes) {
        binary_rung(bytes, r)
    } else {
        exists|xml: Result<Value, Error>| xml_rung_kind(xml) && #[trigger] after_xml(bytes, xml, r)
    }
}

/// The value or failure of a ladder outcome.
pub open spec fn outcome_value(outcome: Result<(Value, Format), Error>) -> Result<Value, Error> {
    match outcome {
        Ok((v, _)) => Ok(v),
        Err(e) => Err(e),
    }
}

fn starts_with_magic(bytes: &[u8]) -> (r: bool)
    ensures
        r == has_binary_magic(bytes@),
{
    let r = bytes.len() >= 6 && bytes[0] == 0x62 && bytes[1] == 0x70 && bytes[2] == 0x6c && bytes[3] == 0x69
        && bytes[4] == 0x73 && bytes[5] == 0x74;
    proof {
        if bytes@.len() >= 6 {
            if r {
                assert(bytes@.subrange(0, 6) =~= bplist_magic());
            } else {
                if bytes@.subrange(0, 6) == bplist_magic() {
                    assert(bytes@.subrange(0, 6)[0] == bytes@[0]);
                    assert(bytes@.subrange(0, 6)[1] == bytes@[1]);
                    assert(bytes@.subrange(0, 6)[2] == bytes@[2]);
                    assert(bytes@.subrange(0, 6)[3] == bytes@[3]);
                    assert(bytes@.subrange(0, 6)[4] == bytes@[4]);
                    assert(bytes@.subrange(0, 6)[5] == bytes@[5]);
                }
            }
        }
    }
    r
}

/// The ladder after its XML rung, given that rung's outcome: an XML value
/// is the result; the "not an XML plist" verdict falls through to the text
/// parser; any other XML failure is final.
pub fn after_xml_rung<H: FloatCodec>(bytes: &[u8], xml: Result<Value, Error>, hooks: &H) -> (r: Result<
    (Value, Format),
    Error,
>)
    ensures
        after_xml(bytes@, xml, r),
        match xml {
            Ok(v) => r == Ok::<(Value, Format), Error>((v, Format::Xml)),
            Err(e) => if e is InvalidPlist {
                &&& r matches Err(t) ==> is_text_error(t) || t is MaxDepthExceeded
                &&& r matches Ok((_, f)) ==> f == Format::OpenStep || f == Format::GnuStep
            } else {
                r == Err::<(Value, Format), Error>(e)
            },
        },
{
    match xml {
        Ok(v) => Ok((v, Format::Xml)),
        Err(e) => {
            if e.is_retry_signal() {
                crate::text::parser::parse(bytes, hooks)
            } else {
                Err(e)
            }
        },
    }
}

/// The detection ladder: the `bplist` magic commits to the binary parser;
/// otherwise the XML parser runs, and only its "not an XML plist" verdict
/// falls through to the text parser. The ladder never ends with that
/// verdict itself.
pub fn parse_auto<H: FloatCodec>(bytes: &[u8], hooks: &H) -> (r: Result<(Value, Format), Error>)
    ensures
        has_binary_magic(bytes@) ==> (r matches Ok((_, f)) ==> f == Format::Binary),
        has_binary_magic(bytes@) ==> (r matches Err(e) ==> is_binary_error(e) || e is MaxDepthExceeded),
        has_binary_magic(bytes@) && !header_ok(bytes@) ==> (r matches Err(e) && is_binary_error(e)),
        !has_binary_magic(bytes@) ==> (r matches Ok((_, f)) ==> f != Format::Binary),
        !has_binary_magic(bytes@) ==> (r matches Err(e) ==> is_xml_error(e) || is_text_error(e)
            || e is MaxDepthExceeded),
        r matches Err(e) ==> is_ladder_error(e) && !(e is InvalidPlist),
        has_binary_magic(bytes@) && binary_accepts(bytes@) ==> (r matches Ok((_, f)) && f == Format::Binary),
        has_binary_magic(bytes@) && binary_refuses(bytes@) ==> r is Err,
        ladder_outcome(bytes@, r),
{
    if starts_with_magic(bytes) {
        let b = crate::binary::parser::parse(bytes, hooks);
        let r = match b {
            Ok(v) => Ok((v, Format::Binary)),
            Err(e) => Err(e),
        };
        proof {
            let dates = choose|dates: spec_fn(u64) -> Date|
                match #[trigger] decode_binary(bytes@, dates) {
                    Ok(n) => b matches Ok(v) && v.deep() == n,
                    Err(f) => b matches Err(e) && fault_matches(e, f),
                };
            assert(match decode_binary(bytes@, dates) {
                Ok(n) => r matches Ok((v, f)) && v.deep() == n && f == Format::Binary,
                Err(f) => r matches Err(e) && fault_matches(e, f),
            });
        }
        return r;
    }
    let xml = crate::xml::parser::parse(bytes, hooks);
    let r = after_xml_rung(bytes, xml, hooks);
    assert(xml_rung_kind(xml) && after_xml(bytes@, xml, r));
    r
}

/// The format a ladder outcome reports.
pub fn outcome_format_of(outcome: &Result<(Value, Format), Error>) -> (r: Option<Format>)
    ensures
        r == outcome_format(*outcome),
{
    match outcome {
        Ok((_, f)) => Some(*f),
        Err(_) => None,
    }
}

/// Identifies the property-list format of `data`, or `None` when no codec
/// accepts it: the full detection ladder runs and its value is discarded.
pub fn detect<H: FloatCodec>(data: &[u8], hooks: &H) -> (r: Option<Format>)
    ensures
        r == Some(Format::Binary) ==> has_binary_magic(data@),
        has_binary_magic(data@) ==> (r is None || r == Some(Format::Binary)),
        has_binary_magic(data@) && !header_ok(data@) ==> r is None,
        has_binary_magic(data@) && binary_accepts(data@) ==> r == Some(Format::Binary),
        has_binary_magic(data@) && binary_refuses(data@) ==> r is None,
        exists|outcome: Result<(Value, Format), Error>| #[trigger] ladder_outcome(data@, outcome) && r
            == outcome_format(outcome),
{
    let outcome = parse_auto(data, hooks);
    outcome_format_of(&outcome)
}

/// A decoder over one buffered property-list document: it detects the
/// format on every decode and remembers the format of the latest
/// successful one.
pub struct Decoder {
    buffer: Vec<u8>,
    format: Option<Format>,
}

impl Decoder {
    /// The buffered document.
    pub closed spec fn input(&self) -> Seq<u8> {
        self.buffer@
    }

    /// The format recorded by the latest successful decode.
    pub closed spec fn recorded(&self) -> Option<Format> {
        self.format
    }

    /// A decoder over `data`, with no format recorded yet.
    pub fn new(data: &[u8]) -> (r: Decoder)
        ensures
            r.input() == data@,
            r.recorded() is None,
    {
        let mut buffer: Vec<u8> = Vec::new();
        crate::strings::push_bytes(&mut buffer, data);
        assert(buffer@ =~= data@);
        Decoder { buffer, format: None }
    }

    /// The format detected by the most recent successful decode, or `None`
    /// if none has succeeded yet.
    pub fn format(&self) -> (r: Option<Format>)
        ensures
            r == self.recorded(),
    {
        self.format
    }

    /// Records a ladder outcome: a success records its format and yields
    /// its value; a failure is returned and the recorded format stays.
    pub fn record(&mut self, outcome: Result<(Value, Format), Error>) -> (r: Result<Value, Error>)
        ensures
            final(self).input() == old(self).input(),
            final(self).recorded() == recorded_after(old(self).recorded(), outcome),
            match outcome {
                Ok((v, _)) => r == Ok::<Value, Error>(v),
                Err(e) => r == Err::<Value, Error>(e),
            },
    {
        match outcome {
            Ok((v, f)) => {
                self.format = Some(f);
                Ok(v)
            },
            Err(e) => Err(e),
        }
    }

    /// Decodes the buffered document into a value tree; every call re-runs
    /// detection over the same bytes.
    pub fn decode_value<H: FloatCodec>(&mut self, hooks: &H) -> (r: Result<Value, Error>)
        ensures
            final(self).input() == old(self).input(),
            r is Ok ==> final(self).recorded() is Some,
            r is Err ==> final(self).recorded() == old(self).recorded(),
            r is Ok ==> (final(self).recorded() == Some(Format::Binary) <==> has_binary_magic(old(self).input())),
            r matches Err(e) ==> is_ladder_error(e) && !(e is InvalidPlist),
            exists|outcome: Result<(Value, Format), Error>| #[trigger] ladder_outcome(old(self).input(), outcome)
                && r == outcome_value(outcome) && final(self).recorded() == recorded_after(old(self).recorded(),
                outcome),
    {
        let outcome = parse_auto(self.buffer.as_slice(), hooks);
        self.record(outcome)
    }

    /// The debugging rendering: the recorded format, the buffer elided.
    pub fn debug_text(&self) -> (r: String)
        ensures
            r@ == "Decoder { format: "@ + match self.recorded() {
                Some(f) => "Some("@ + format_debug_label(f) + seq![')'],
                None => "None"@,
            } + ", .. }"@,
    {
        let mut m = str_chars("Decoder { format: ");
        let ghost start = m@;
        match self.format {
            Some(f) => {
                push_all(&mut m, &str_chars("Some("));
                push_all(&mut m, &str_chars(format_debug_name(f)));
                m.push(')');
                proof {
                    assert(m@ =~= start + ("Some("@ + format_debug_label(f) + seq![')']));
                }
            },
            None => push_all(&mut m, &str_chars("None")),
        }
        push_all(&mut m, &str_chars(", .. }"));
        string_from_chars(m.as_slice())
    }
}

/// The variant name of a format, as `Debug` prints it.
pub open spec fn format_debug_label(f: Format) -> Seq<char> {
    match f {
        Format::Xml => "Xml"@,
        Format::Binary => "Binary"@,
        Format::OpenStep => "OpenStep"@,
        Format::GnuStep => "GnuStep"@,
    }
}

/// The variant name of a format.
pub fn format_debug_name(f: Format) -> (r: &'static str)
    ensures
        r@ == format_debug_label(f),
{
    match f {
        Format::Xml => "Xml",
        Format::Binary => "Binary",
        Format::OpenStep => "OpenStep",
        Format::GnuStep => "GnuStep",
    }
}

/// Detection reports exactly the format a decoder records for the same
/// ladder outcome, whatever it had recorded before; and a decoder whose
/// decode failed reports what it reported before.
pub proof fn detect_agrees_with_decode(outcome: Result<(Value, Format), Error>, before: Option<Format>)
    ensures
        outcome_format(outcome) is Some ==> recorded_after(before, outcome) == outcome_format(outcome),
        outcome_format(outcome) is None ==> recorded_after(before, outcome) == before,
{
}

} // verus!
