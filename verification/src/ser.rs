//! The encoder: one complete document per call, in the chosen format.

use vstd::prelude::*;

use crate::binary::generator::{depth_within, nan_in_container, no_nan, well_framed};
use crate::binary::parser::{decode_binary, header_ok, trailer_of};
use crate::binary::readback::crc_distinct;
use crate::date::Date;
use crate::error::Error;
use crate::format::Format;
use crate::scalar::FloatCodec;
use crate::strings::{push_all, str_bytes, str_chars, string_from_chars};
use crate::text::generator::{gnustep_of, text_node};
use crate::value::{node_eq, Value};
use crate::xml::generator::xml_document;

verus! {

/// The document bytes an encoder in `format` with `indent` writes for a
/// value, given the texts its reals are written as; `None` for the binary
/// format, which a separate framing contract describes.
pub open spec fn document_text(format: Format, value: Value, indent: Seq<char>, reals: Seq<(u64, Vec<char>)>) -> Option<
    Seq<u8>,
> {
    match format {
        Format::Xml => Some(vstd::utf8::encode_utf8(xml_document(value.deep(), indent, reals))),
        Format::OpenStep | Format::GnuStep => Some(
            vstd::utf8::encode_utf8(text_node(value.deep(), gnustep_of(format), indent, 0, reals)),
        ),
        Format::Binary => None,
    }
}

/// Encodes property-list documents in a chosen format; the indent turns on
/// pretty-printing for the XML and text formats and stays until changed.
pub struct Encoder {
    format: Format,
    indent: String,
}

impl Encoder {
    /// The format this encoder writes.
    pub closed spec fn target(&self) -> Format {
        self.format
    }

    /// The indent this encoder applies.
    pub closed spec fn indentation(&self) -> Seq<char> {
        self.indent@
    }

    /// An encoder for the default format, XML.
    pub fn new() -> (r: Encoder)
        ensures
            r.target() == Format::Xml,
            r.indentation() == Seq::<char>::empty(),
    {
        Encoder::for_format(Format::Xml)
    }

    /// An encoder for an explicit format, without indent.
    pub fn for_format(format: Format) -> (r: Encoder)
        ensures
            r.target() == format,
            r.indentation() == Seq::<char>::empty(),
    {
        Encoder { format, indent: String::new() }
    }

    /// An encoder for the binary format.
    pub fn binary() -> (r: Encoder)
        ensures
            r.target() == Format::Binary,
            r.indentation() == Seq::<char>::empty(),
    {
        Encoder::for_format(Format::Binary)
    }

    /// An encoder that lets the library pick the format: the binary format.
    pub fn automatic() -> (r: Encoder)
        ensures
            r.target() == Format::Binary,
            r.indentation() == Seq::<char>::empty(),
    {
        Encoder::for_format(Format::Binary)
    }

    /// Sets the indent, written verbatim once per nesting depth; the empty
    /// string turns pretty-printing off.
    pub fn set_indent(&mut self, indent: &str)
        ensures
            final(self).target() == old(self).target(),
            final(self).indentation() == indent@,
    {
        self.indent = string_from_chars(str_chars(indent).as_slice());
    }

    /// One complete document holding `value`, in this encoder's format and
    /// with its current indent. Only the binary format can fail: a NaN
    /// real inside a container is refused there.
    pub fn encode_value<H: FloatCodec>(&self, value: &Value, hooks: &H) -> (r: Result<Vec<u8>, Error>)
        ensures
            self.target() != Format::Binary ==> (r matches Ok(b) && exists|reals: Seq<(u64, Vec<char>)>|
                #[trigger] document_text(self.target(), *value, self.indentation(), reals) == Some(b@)),
            self.target() == Format::Binary ==> (r matches Ok(b) ==> well_framed(b@)),
            self.target() == Format::Binary ==> (r matches Ok(b) ==> header_ok(b@) || trailer_of(b@).num_objects
                > 0xFFFF_FFFF),
            self.target() == Format::Binary ==> (r matches Err(e) ==> e is Message),
            self.target() == Format::Binary && no_nan(value.deep()) ==> r is Ok,
            self.target() == Format::Binary && !nan_in_container(value.deep()) ==> r is Ok,
            self.target() == Format::Binary ==> (r matches Ok(doc) ==> (no_nan(value.deep()) && depth_within(
                value.deep(),
                128,
            ) && crc_distinct(value.deep()) && trailer_of(doc@).num_objects <= 0xFFFF_FFFF
                ==> exists|dates: spec_fn(u64) -> Date| #[trigger]
                decode_binary(doc@, dates) matches Ok(n) && node_eq(n, value.deep()))),
    {
        match self.format {
            Format::Xml => {
                let text = crate::xml::generator::generate(value, self.indent.as_str(), hooks);
                let bytes = str_bytes(text.as_str());
                proof {
                    let reals = choose|reals: Seq<(u64, Vec<char>)>|
                        text@ == #[trigger] xml_document(value.deep(), self.indent@, reals);
                    assert(document_text(self.target(), *value, self.indentation(), reals) == Some(bytes@));
                }
                Ok(bytes)
            },
            Format::Binary => crate::binary::generator::generate(value, hooks),
            Format::OpenStep | Format::GnuStep => {
                let text = crate::text::generator::generate(value, self.format, self.indent.as_str(), hooks);
                let bytes = str_bytes(text.as_str());
                proof {
                    let reals = choose|reals: Seq<(u64, Vec<char>)>|
                        text@ == #[trigger] text_node(value.deep(), gnustep_of(self.format), self.indent@, 0, reals);
                    assert(document_text(self.target(), *value, self.indentation(), reals) == Some(bytes@));
                }
                Ok(bytes)
            },
        }
    }

    /// The debugging rendering: the format and the indent, quoted.
    pub fn debug_text(&self) -> (r: String)
        ensures
            r@ == "Encoder { format: "@ + crate::de::format_debug_label(self.target()) + ", indent: \""@
                + debug_quoted(self.indentation()) + "\", .. }"@,
    {
        let mut m = str_chars("Encoder { format: ");
        push_all(&mut m, &str_chars(crate::de::format_debug_name(self.format)));
        push_all(&mut m, &str_chars(", indent: \""));
        let ghost head = m@;
        let indent = str_chars(self.indent.as_str());
        let mut i: usize = 0;
        assert(indent@.subrange(0, 0) =~= Seq::<char>::empty());
        assert(head + debug_quoted(Seq::<char>::empty()) =~= head);
        while i < indent.len()
            invariant
                i <= indent@.len(),
                indent@ == self.indent@,
                m@ == head + debug_quoted(indent@.subrange(0, i as int)),
            decreases indent@.len() - i,
        {
            let c = indent[i];
            let ghost before = m@;
            if c == '\t' {
                push_all(&mut m, &['\\', 't']);
            } else if c == '\n' {
                push_all(&mut m, &['\\', 'n']);
            } else if c == '\r' {
                push_all(&mut m, &['\\', 'r']);
            } else if c == '"' || c == '\\' {
                m.push('\\');
                m.push(c);
            } else {
                m.push(c);
            }
            proof {
                let w = indent@.subrange(0, i + 1);
                assert(w.drop_last() =~= indent@.subrange(0, i as int));
                assert(w.last() == c);
                assert(m@ =~= before + debug_char(c));
            }
            i = i + 1;
        }
        assert(indent@.subrange(0, indent@.len() as int) =~= indent@);
        push_all(&mut m, &str_chars("\", .. }"));
        string_from_chars(m.as_slice())
    }
}

/// One character of a string as `Debug` quotes it: tab, newline, carriage
/// return, quote and backslash escaped, anything else as is.
pub open spec fn debug_char(c: char) -> Seq<char> {
    if c == '\t' {
        seq!['\\', 't']
    } else if c == '\n' {
        seq!['\\', 'n']
    } else if c == '\r' {
        seq!['\\', 'r']
    } else if c == '"' || c == '\\' {
        seq!['\\', c]
    } else {
        seq![c]
    }
}

/// A string's characters as `Debug` quotes them.
pub open spec fn debug_quoted(t: Seq<char>) -> Seq<char>
    decreases t.len(),
{
    if t.len() == 0 {
        Seq::empty()
    } else {
        debug_quoted(t.drop_last()) + debug_char(t.last())
    }
}

} // verus!
