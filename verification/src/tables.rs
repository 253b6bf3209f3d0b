//! Character-class bitmaps for the OpenStep/GNUStep lexer.

use vstd::prelude::*;

verus! {

/// A 256-bit membership set over byte values: bit `i` (word `i / 64`, bit
/// `i % 64`) covers byte value `i`. Code points above `0xFF` belong to no
/// set.
#[derive(Debug, Clone, Copy, PartialEq, Eq, Structural)]
pub struct CharSet {
    /// Bits for byte values 0 through 63.
    pub w0: u64,
    /// Bits for byte values 64 through 127.
    pub w1: u64,
    /// Bits for byte values 128 through 191.
    pub w2: u64,
    /// Bits for byte values 192 through 255.
    pub w3: u64,
}

/// Whether bit `b % 64` of `w` is set.
pub open spec fn bit_set(w: u64, b: u8) -> bool {
    (w >> ((b & 63u8) as u64)) & 1u64 != 0
}

impl CharSet {
    /// Whether the byte value `b` is a member.
    pub open spec fn has(self, b: u8) -> bool {
        if b < 64 {
            bit_set(self.w0, b)
        } else if b < 128 {
            bit_set(self.w1, b)
        } else if b < 192 {
            bit_set(self.w2, b)
        } else {
            bit_set(self.w3, b)
        }
    }

    /// Whether the character `c` is a member: only code points up to `0xFF`
    /// can be.
    pub open spec fn has_char(self, c: char) -> bool {
        (c as u32) <= 0xFF && self.has((c as u32) as u8)
    }

    /// Membership of a byte value.
    pub fn contains_byte(self, byte: u8) -> (r: bool)
        ensures
            r == self.has(byte),
    {
        let word = if byte < 64 {
            self.w0
        } else if byte < 128 {
            self.w1
        } else if byte < 192 {
            self.w2
        } else {
            self.w3
        };
        let shift: u8 = byte & 63;
        assert(shift < 64) by (bit_vector)
            requires
                shift == byte & 63,
        ;
        (word >> (shift as u64)) & 1 != 0
    }

    /// Membership of a character.
    pub fn contains_char(self, ch: char) -> (r: bool)
        ensures
            r == self.has_char(ch),
    {
        let code = ch as u32;
        if code <= 0xFF {
            self.contains_byte(code as u8)
        } else {
            false
        }
    }
}

/// Token-boundary set for unquoted strings in both dialects, and the
/// generator's quoting trigger under GNUStep.
pub open spec fn gs_quotable_set() -> CharSet {
    CharSet { w0: 0x7800_1385_ffff_ffffu64, w1: 0xa800_0001_3800_0000u64, w2: 0xffff_ffff_ffff_ffffu64, w3: 0xffff_ffff_ffff_ffffu64 }
}

/// The generator's quoting trigger under OpenStep; `;` is absent, so
/// OpenStep output leaves `;` unquoted.
pub open spec fn os_quotable_set() -> CharSet {
    CharSet { w0: 0xf400_7fef_ffff_ffffu64, w1: 0xf800_0001_f800_0001u64, w2: 0xffff_ffff_ffff_ffffu64, w3: 0xffff_ffff_ffff_ffffu64 }
}

/// Inter-token whitespace: BS, TAB, LF, VT, FF, CR, and space.
pub open spec fn whitespace_set() -> CharSet {
    CharSet { w0: 0x0000_0001_0000_3f00u64, w1: 0u64, w2: 0u64, w3: 0u64 }
}

/// Line-comment terminators: LF and CR.
pub open spec fn newline_set() -> CharSet {
    CharSet { w0: 0x0000_0000_0000_2400u64, w1: 0u64, w2: 0u64, w3: 0u64 }
}

/// Characters kept when filtering a GNUStep `<[...]>` payload before base64
/// decoding: `A-Z a-z 0-9 + / =`.
pub open spec fn base64_valid_set() -> CharSet {
    CharSet { w0: 0x23ff_8800_0000_0000u64, w1: 0x07ff_fffe_07ff_fffeu64, w2: 0u64, w3: 0u64 }
}

/// The GNUStep quoting set.
pub fn gs_quotable() -> (r: CharSet)
    ensures
        r == gs_quotable_set(),
{
    CharSet { w0: 0x7800_1385_ffff_ffffu64, w1: 0xa800_0001_3800_0000u64, w2: 0xffff_ffff_ffff_ffffu64, w3: 0xffff_ffff_ffff_ffffu64 }
}

/// The OpenStep quoting set.
pub fn os_quotable() -> (r: CharSet)
    ensures
        r == os_quotable_set(),
{
    CharSet { w0: 0xf400_7fef_ffff_ffffu64, w1: 0xf800_0001_f800_0001u64, w2: 0xffff_ffff_ffff_ffffu64, w3: 0xffff_ffff_ffff_ffffu64 }
}

/// The whitespace set.
pub fn whitespace() -> (r: CharSet)
    ensures
        r == whitespace_set(),
{
    CharSet { w0: 0x0000_0001_0000_3f00u64, w1: 0u64, w2: 0u64, w3: 0u64 }
}

/// The newline set.
pub fn newline() -> (r: CharSet)
    ensures
        r == newline_set(),
{
    CharSet { w0: 0x0000_0000_0000_2400u64, w1: 0u64, w2: 0u64, w3: 0u64 }
}

/// The base64 filter set.
pub fn base64_valid() -> (r: CharSet)
    ensures
        r == base64_valid_set(),
{
    CharSet { w0: 0x23ff_8800_0000_0000u64, w1: 0x07ff_fffe_07ff_fffeu64, w2: 0u64, w3: 0u64 }
}

/// The whitespace set is exactly BS, TAB, LF, VT, FF, CR and space.
pub proof fn whitespace_members(b: u8)
    ensures
        whitespace_set().has(b) <==> (8 <= b <= 13 || b == 32),
{
    assert(b < 64 ==> (bit_set(0x0000_0001_0000_3f00u64, b) <==> (8 <= b <= 13 || b == 32))) by (bit_vector);
    assert(!bit_set(0u64, b)) by (bit_vector);
}

/// The newline set is exactly LF and CR.
pub proof fn newline_members(b: u8)
    ensures
        newline_set().has(b) <==> (b == 10 || b == 13),
{
    assert(b < 64 ==> (bit_set(0x0000_0000_0000_2400u64, b) <==> (b == 10 || b == 13))) by (bit_vector);
    assert(!bit_set(0u64, b)) by (bit_vector);
}

/// The base64 filter keeps exactly the standard alphabet and `=`.
pub proof fn base64_valid_members(b: u8)
    ensures
        base64_valid_set().has(b) <==> (b == 43 || 47 <= b <= 57 || b == 61 || 65 <= b <= 90 || 97 <= b <= 122),
{
    assert(b < 64 ==> (bit_set(0x23ff_8800_0000_0000u64, b) <==> (b == 43 || 47 <= b <= 57 || b == 61))) by (bit_vector);
    assert(64 <= b < 128 ==> (bit_set(0x07ff_fffe_07ff_fffeu64, b) <==> (65 <= b <= 90 || 97 <= b <= 122))) by (bit_vector);
    assert(!bit_set(0u64, b)) by (bit_vector);
}

/// Both quoting sets contain every control byte and every byte from `0x7F`
/// up.
pub proof fn quotable_sets_cover_controls_and_high_bytes(b: u8)
    requires
        b < 0x20 || b >= 0x7f,
    ensures
        gs_quotable_set().has(b),
        os_quotable_set().has(b),
{
    assert(b < 0x20 ==> bit_set(0x7800_1385_ffff_ffffu64, b) && bit_set(0xf400_7fef_ffff_ffffu64, b)) by (bit_vector);
    assert(b == 0x7f ==> bit_set(0xa800_0001_3800_0000u64, b) && bit_set(0xf800_0001_f800_0001u64, b)) by (bit_vector);
    assert(bit_set(0xffff_ffff_ffff_ffffu64, b)) by (bit_vector);
}

/// The GNUStep quoting set: controls and space, `"`, `'`, `(`, `)`, `,`,
/// `;`, `<`, `=`, `>`, `[`, a backslash, `]`, a backquote, `{`, `}`, and every byte
/// from `0x7F` up.
pub proof fn gs_quotable_members(b: u8)
    ensures
        gs_quotable_set().has(b) <==> (b <= 32 || b == 34 || 39 <= b <= 41 || b == 44 || 59 <= b <= 62 || 91 <= b <= 93
            || b == 96 || b == 123 || b == 125 || b >= 127),
{
    assert(b < 64 ==> (bit_set(0x7800_1385_ffff_ffffu64, b) <==> (b <= 32 || b == 34 || 39 <= b <= 41 || b == 44 || 59 <= b
        <= 62))) by (bit_vector);
    assert(64 <= b < 128 ==> (bit_set(0xa800_0001_3800_0000u64, b) <==> (91 <= b <= 93 || b == 96 || b == 123 || b == 125
        || b == 127))) by (bit_vector);
    assert(bit_set(0xffff_ffff_ffff_ffffu64, b)) by (bit_vector);
}

/// `;` quotes under GNUStep but not under OpenStep.
pub proof fn semicolon_quoting_differs()
    ensures
        gs_quotable_set().has(59),
        !os_quotable_set().has(59),
{
    assert(bit_set(0x7800_1385_ffff_ffffu64, 59u8)) by (bit_vector);
    assert(!bit_set(0xf400_7fef_ffff_ffffu64, 59u8)) by (bit_vector);
}

} // verus!
