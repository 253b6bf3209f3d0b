//! The four property-list serialization formats.

use vstd::prelude::*;

use crate::error::Error;
use crate::strings::ascii_eq_ignore_case;

verus! {

/// A property-list serialization format: one constant per wire format.
#[derive(Debug, Clone, Copy, PartialEq, Eq, Hash, Structural)]
pub enum Format {
    /// Apple XML property list.
    Xml,
    /// Apple binary property list (`bplist00`).
    Binary,
    /// OpenStep ASCII property list.
    OpenStep,
    /// GNUStep ASCII property list: OpenStep with typed `<*...>` literals.
    GnuStep,
}

/// The canonical spelling of each format.
pub open spec fn format_name(f: Format) -> Seq<char> {
    match f {
        Format::Xml => seq!['X', 'M', 'L'],
        Format::Binary => seq!['B', 'i', 'n', 'a', 'r', 'y'],
        Format::OpenStep => seq!['O', 'p', 'e', 'n', 'S', 't', 'e', 'p'],
        Format::GnuStep => seq!['G', 'N', 'U', 'S', 't', 'e', 'p'],
    }
}

/// ASCII lower-casing of one character.
pub open spec fn ascii_lower(c: char) -> char {
    if 'A' <= c && c <= 'Z' {
        ((c as u32) + 32) as char
    } else {
        c
    }
}

/// Equality of two character sequences up to ASCII case.
pub open spec fn eq_ignore_ascii_case(a: Seq<char>, b: Seq<char>) -> bool {
    &&& a.len() == b.len()
    &&& forall|i: int| 0 <= i < a.len() ==> ascii_lower(#[trigger] a[i]) == ascii_lower(b[i])
}

impl Format {
    /// The human-readable name of this format.
    pub fn name(self) -> (r: &'static str)
        ensures
            r@ == format_name(self),
    {
        match self {
            Format::Xml => {
                proof {
                    reveal_strlit("XML");
                }
                "XML"
            },
            Format::Binary => {
                proof {
                    reveal_strlit("Binary");
                }
                "Binary"
            },
            Format::OpenStep => {
                proof {
                    reveal_strlit("OpenStep");
                }
                "OpenStep"
            },
            Format::GnuStep => {
                proof {
                    reveal_strlit("GNUStep");
                }
                "GNUStep"
            },
        }
    }

    /// Parses a format from its name, case-insensitively: exactly the four
    /// [`Format::name`] spellings in any ASCII case.
    pub fn parse_name(s: &str) -> (r: Result<Format, Error>)
        ensures
            r matches Ok(f) ==> eq_ignore_ascii_case(s@, format_name(f)),
            r is Err <==> (forall|f: Format| !eq_ignore_ascii_case(s@, #[trigger] format_name(f))),
            r matches Err(e) ==> e is Message,
    {
        let all = [Format::Xml, Format::Binary, Format::OpenStep, Format::GnuStep];
        let mut i: usize = 0;
        while i < 4
            invariant
                0 <= i <= 4,
                all@ == seq![Format::Xml, Format::Binary, Format::OpenStep, Format::GnuStep],
                forall|j: int| 0 <= j < i ==> !eq_ignore_ascii_case(s@, format_name(#[trigger] all@[j])),
            decreases 4 - i,
        {
            let f = all[i];
            if ascii_eq_ignore_case(s, f.name()) {
                return Ok(f);
            }
            i = i + 1;
        }
        proof {
            assert forall|f: Format| !eq_ignore_ascii_case(s@, #[trigger] format_name(f)) by {
                match f {
                    Format::Xml => assert(all@[0] == f),
                    Format::Binary => assert(all@[1] == f),
                    Format::OpenStep => assert(all@[2] == f),
                    Format::GnuStep => assert(all@[3] == f),
                }
            }
        }
        Err(Error::Message(crate::strings::concat_str("unknown format name: ", s)))
    }
}

/// A format's name, in any ASCII case, names that format and no other: the
/// four names differ even up to case, and every name matches itself.
pub proof fn names_identify_formats(s: Seq<char>, f: Format, g: Format)
    ensures
        eq_ignore_ascii_case(format_name(f), format_name(f)),
        eq_ignore_ascii_case(s, format_name(f)) && eq_ignore_ascii_case(s, format_name(g)) ==> f == g,
{
}

impl core::str::FromStr for Format {
    type Err = Error;

    fn from_str(s: &str) -> (r: Result<Format, Error>)
        ensures
            r matches Ok(f) ==> eq_ignore_ascii_case(s@, format_name(f)),
            r is Err <==> (forall|f: Format| !eq_ignore_ascii_case(s@, #[trigger] format_name(f))),
            r matches Err(e) ==> e is Message,
    {
        Format::parse_name(s)
    }
}

} // verus!
