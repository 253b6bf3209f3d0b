//! The XML property-list codec: parser and generator.

use vstd::prelude::*;

pub mod generator;
pub mod parser;

verus! {

/// The XML 1.0 `Char` production: TAB, LF, CR, and the ranges
/// U+0020–U+D7FF, U+E000–U+FFFD, U+10000–U+10FFFF.
pub open spec fn xml_char(c: char) -> bool {
    let u = c as u32;
    u == 0x09 || u == 0x0A || u == 0x0D || (0x20 <= u && u <= 0xD7FF) || (0xE000 <= u && u <= 0xFFFD) || (0x10000 <= u
        && u <= 0x10FFFF)
}

/// Tests the XML 1.0 `Char` production.
pub fn in_character_range(c: char) -> (r: bool)
    ensures
        r == xml_char(c),
{
    let u = c as u32;
    u == 0x09 || u == 0x0A || u == 0x0D || (0x20 <= u && u <= 0xD7FF) || (0xE000 <= u && u <= 0xFFFD) || (0x10000 <= u
        && u <= 0x10FFFF)
}

} // verus!
