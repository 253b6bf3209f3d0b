//! C-style scalar parsing and formatting shared by the codecs.
//!
//! Error conditions are fixed (a given input always parses or always
//! fails); the error text follows the standard library's integer messages.

use vstd::prelude::*;

use crate::error::Error;
use crate::format::eq_ignore_ascii_case;
use crate::strings::{concat_str, str_chars, string_from_chars, chars_eq_ignore_case, decimal_digits, digit_char, signed_decimal};

verus! {

/// Why an integer literal was refused, in the standard library's terms.
#[derive(Debug, Clone, Copy, PartialEq, Eq, Structural)]
pub enum IntFault {
    /// The literal is empty.
    Empty,
    /// A character is not a digit of the base (a lone sign included).
    InvalidDigit,
    /// The value is above the target type's range.
    PosOverflow,
    /// The value is below the target type's range.
    NegOverflow,
}

/// The standard library's message for each integer fault.
pub open spec fn fault_message(f: IntFault) -> Seq<char> {
    match f {
        IntFault::Empty => "cannot parse integer from empty string"@,
        IntFault::InvalidDigit => "invalid digit found in string"@,
        IntFault::PosOverflow => "number too large to fit in target type"@,
        IntFault::NegOverflow => "number too small to fit in target type"@,
    }
}

/// The value of `c` as a digit of `base` (`char::to_digit`).
pub open spec fn digit_of(c: char, base: nat) -> Option<nat> {
    let v: int = if '0' <= c && c <= '9' {
        c as int - 48
    } else if 'a' <= c && c <= 'z' {
        c as int - 87
    } else if 'A' <= c && c <= 'Z' {
        c as int - 55
    } else {
        99
    };
    if v < base {
        Some(v as nat)
    } else {
        None
    }
}

/// Reads digits of `base` from position `i` on, accumulating into `acc`
/// (subtracting when `neg`), within `lo..=hi`: the first invalid digit or
/// range exit decides the fault.
pub open spec fn scan_digits(s: Seq<char>, i: int, base: nat, neg: bool, acc: int, lo: int, hi: int) -> Result<int, IntFault>
    decreases s.len() - i,
{
    if i >= s.len() || i < 0 {
        Ok(acc)
    } else {
        match digit_of(s[i], base) {
            None => Err(IntFault::InvalidDigit),
            Some(d) => {
                let n = if neg {
                    acc * base - d
                } else {
                    acc * base + d
                };
                if n > hi {
                    Err(IntFault::PosOverflow)
                } else if n < lo {
                    Err(IntFault::NegOverflow)
                } else {
                    scan_digits(s, i + 1, base, neg, n, lo, hi)
                }
            },
        }
    }
}

/// `from_str_radix` for an integer type with range `lo..=hi`: one optional
/// leading `+` (or `-` when `signed`), then at least one digit of `base`.
pub open spec fn radix_parse(s: Seq<char>, base: nat, signed: bool, lo: int, hi: int) -> Result<int, IntFault> {
    if s.len() == 0 {
        Err(IntFault::Empty)
    } else if (s[0] == '+' || s[0] == '-') && s.len() == 1 {
        Err(IntFault::InvalidDigit)
    } else if s[0] == '+' {
        scan_digits(s, 1, base, false, 0, lo, hi)
    } else if s[0] == '-' && signed {
        scan_digits(s, 1, base, true, 0, lo, hi)
    } else {
        scan_digits(s, 0, base, false, 0, lo, hi)
    }
}

/// The unsigned literal grammar: no sign at all, then `from_str_radix`.
pub open spec fn u64_literal(s: Seq<char>, base: nat) -> Result<int, IntFault> {
    if s.len() > 0 && (s[0] == '+' || s[0] == '-') {
        Err(IntFault::InvalidDigit)
    } else {
        radix_parse(s, base, false, 0, u64::MAX as int)
    }
}

/// The signed literal grammar: `from_str_radix` for `i64`.
pub open spec fn i64_literal(s: Seq<char>, base: nat) -> Result<int, IntFault> {
    radix_parse(s, base, true, i64::MIN as int, i64::MAX as int)
}

/// Whether `e` is the scalar error for fault `f`.
pub open spec fn is_fault_error(e: Error, f: IntFault) -> bool {
    e matches Error::ParseScalar(m) && m@ == fault_message(f)
}

/// The digit value of a character in `base`.
fn digit_exec(c: char, base: u32) -> (r: Option<u32>)
    requires
        base == 10 || base == 16,
    ensures
        r matches Some(d) ==> digit_of(c, base as nat) == Some(d as nat) && d < base,
        r is None ==> digit_of(c, base as nat) is None,
{
    let v: u32 = if '0' <= c && c <= '9' {
        (c as u32) - 48
    } else if 'a' <= c && c <= 'z' {
        (c as u32) - 87
    } else if 'A' <= c && c <= 'Z' {
        (c as u32) - 55
    } else {
        99
    };
    if v < base {
        Some(v)
    } else {
        None
    }
}

/// The scalar error carrying the message of `f`.
fn fault_error(f: IntFault) -> (r: Error)
    ensures
        is_fault_error(r, f),
{
    let m: &str = match f {
        IntFault::Empty => {
            proof {
                reveal_strlit("cannot parse integer from empty string");
            }
            "cannot parse integer from empty string"
        },
        IntFault::InvalidDigit => {
            proof {
                reveal_strlit("invalid digit found in string");
            }
            "invalid digit found in string"
        },
        IntFault::PosOverflow => {
            proof {
                reveal_strlit("number too large to fit in target type");
            }
            "number too large to fit in target type"
        },
        IntFault::NegOverflow => {
            proof {
                reveal_strlit("number too small to fit in target type");
            }
            "number too small to fit in target type"
        },
    };
    Error::ParseScalar(m.to_owned())
}

/// The digit scan of `scan_digits`, run on the characters `s`.
fn scan_exec(s: &Vec<char>, start: usize, base: u32, neg: bool, lo: i128, hi: i128) -> (r: Result<i128, IntFault>)
    requires
        base == 10 || base == 16,
        start <= s@.len(),
        lo <= 0 <= hi,
        -0x1_0000_0000_0000_0000i128 <= lo,
        hi <= 0x1_0000_0000_0000_0000i128,
    ensures
        match scan_digits(s@, start as int, base as nat, neg, 0, lo as int, hi as int) {
            Ok(v) => r == Ok::<i128, IntFault>(v as i128),
            Err(f) => r == Err::<i128, IntFault>(f),
        },
{
    let mut acc: i128 = 0;
    let mut i: usize = start;
    while i < s.len()
        invariant
            base == 10 || base == 16,
            start <= i <= s@.len(),
            lo <= acc <= hi,
            -0x1_0000_0000_0000_0000i128 <= lo,
            hi <= 0x1_0000_0000_0000_0000i128,
            scan_digits(s@, start as int, base as nat, neg, 0, lo as int, hi as int)
                == scan_digits(s@, i as int, base as nat, neg, acc as int, lo as int, hi as int),
        decreases s@.len() - i,
    {
        match digit_exec(s[i], base) {
            None => {
                return Err(IntFault::InvalidDigit);
            },
            Some(d) => {
                let n: i128 = if neg {
                    acc * (base as i128) - (d as i128)
                } else {
                    acc * (base as i128) + (d as i128)
                };
                if n > hi {
                    return Err(IntFault::PosOverflow);
                } else if n < lo {
                    return Err(IntFault::NegOverflow);
                }
                acc = n;
            },
        }
        i = i + 1;
    }
    Ok(acc)
}

/// `from_str_radix` over the characters `s` for the range `lo..=hi`.
fn radix_exec(s: &Vec<char>, base: u32, signed: bool, lo: i128, hi: i128) -> (r: Result<i128, IntFault>)
    requires
        base == 10 || base == 16,
        lo <= 0 <= hi,
        -0x1_0000_0000_0000_0000i128 <= lo,
        hi <= 0x1_0000_0000_0000_0000i128,
    ensures
        match radix_parse(s@, base as nat, signed, lo as int, hi as int) {
            Ok(v) => r == Ok::<i128, IntFault>(v as i128),
            Err(f) => r == Err::<i128, IntFault>(f),
        },
{
    if s.len() == 0 {
        Err(IntFault::Empty)
    } else if (s[0] == '+' || s[0] == '-') && s.len() == 1 {
        Err(IntFault::InvalidDigit)
    } else if s[0] == '+' {
        scan_exec(s, 1, base, false, lo, hi)
    } else if s[0] == '-' && signed {
        scan_exec(s, 1, base, true, lo, hi)
    } else {
        scan_exec(s, 0, base, false, lo, hi)
    }
}

/// Parses an unsigned 64-bit integer: no sign at all (a leading `+` is
/// refused too), no underscores, no whitespace; `base` is 10 or 16 and hex
/// digits are case-insensitive.
pub fn parse_u64(s: &str, base: u32) -> (r: Result<u64, Error>)
    requires
        base == 10 || base == 16,
    ensures
        match u64_literal(s@, base as nat) {
            Ok(v) => r == Ok::<u64, Error>(v as u64),
            Err(f) => r matches Err(e) && is_fault_error(e, f),
        },
{
    let chars = str_chars(s);
    if chars.len() > 0 && (chars[0] == '+' || chars[0] == '-') {
        return Err(fault_error(IntFault::InvalidDigit));
    }
    match radix_exec(&chars, base, false, 0, 0xFFFF_FFFF_FFFF_FFFFi128) {
        Ok(v) => {
            proof {
                lemma_scan_in_range(chars@, base as nat, false, 0, u64::MAX as int);
            }
            Ok(v as u64)
        },
        Err(f) => Err(fault_error(f)),
    }
}

/// Parses a signed 64-bit integer: one optional leading `+` or `-`, then
/// digits of `base` (10 or 16); out of range errors.
pub fn parse_i64(s: &str, base: u32) -> (r: Result<i64, Error>)
    requires
        base == 10 || base == 16,
    ensures
        match i64_literal(s@, base as nat) {
            Ok(v) => r == Ok::<i64, Error>(v as i64),
            Err(f) => r matches Err(e) && is_fault_error(e, f),
        },
{
    let chars = str_chars(s);
    match radix_exec(&chars, base, true, -0x8000_0000_0000_0000i128, 0x7FFF_FFFF_FFFF_FFFFi128) {
        Ok(v) => {
            proof {
                lemma_scan_in_range(chars@, base as nat, true, i64::MIN as int, i64::MAX as int);
            }
            Ok(v as i64)
        },
        Err(f) => Err(fault_error(f)),
    }
}

/// A successful scan stays within the range it was given.
proof fn lemma_scan_range(s: Seq<char>, i: int, base: nat, neg: bool, acc: int, lo: int, hi: int)
    requires
        lo <= acc <= hi,
    ensures
        scan_digits(s, i, base, neg, acc, lo, hi) matches Ok(v) ==> lo <= v <= hi,
    decreases s.len() - i,
{
    if 0 <= i < s.len() {
        match digit_of(s[i], base) {
            None => {},
            Some(d) => {
                let n = if neg {
                    acc * base - d
                } else {
                    acc * base + d
                };
                if lo <= n <= hi {
                    lemma_scan_range(s, i + 1, base, neg, n, lo, hi);
                }
            },
        }
    }
}

/// A successful `radix_parse` stays within the range it was given.
pub(crate) proof fn lemma_scan_in_range(s: Seq<char>, base: nat, signed: bool, lo: int, hi: int)
    requires
        lo <= 0 <= hi,
    ensures
        radix_parse(s, base, signed, lo, hi) matches Ok(v) ==> lo <= v <= hi,
{
    lemma_scan_range(s, 0, base, false, 0, lo, hi);
    lemma_scan_range(s, 1, base, false, 0, lo, hi);
    lemma_scan_range(s, 1, base, true, 0, lo, hi);
}

proof fn lemma_digit_char(k: nat)
    requires
        k < 10,
    ensures
        digit_of(digit_char(k), 10) == Some(k),
        digit_char(k) != '+' && digit_char(k) != '-',
{
    let u = (k + 48) as u32;
    assert((u as char) as u32 == u);
}

proof fn lemma_decimal_digits_nonempty(n: nat)
    ensures
        decimal_digits(n).len() >= 1,
        decimal_digits(n)[0] != '+' && decimal_digits(n)[0] != '-',
    decreases n,
{
    if n >= 10 {
        lemma_decimal_digits_nonempty(n / 10);
        assert(decimal_digits(n)[0] == decimal_digits(n / 10)[0]);
    } else {
        lemma_digit_char(n);
    }
}

/// Scanning the decimal digits of `n` placed after `p` accumulates `n`
/// (negated when `neg`), whatever follows them.
proof fn lemma_scan_decimal(p: Seq<char>, n: nat, r: Seq<char>, neg: bool, lo: int, hi: int)
    requires
        lo <= 0 <= hi,
        neg ==> -n >= lo,
        !neg ==> n <= hi,
    ensures
        scan_digits(p + decimal_digits(n) + r, p.len() as int, 10, neg, 0, lo, hi) == scan_digits(
            p + decimal_digits(n) + r,
            (p.len() + decimal_digits(n).len()) as int,
            10,
            neg,
            if neg {
                -n
            } else {
                n as int
            },
            lo,
            hi,
        ),
    decreases n,
{
    let t = p + decimal_digits(n) + r;
    if n < 10 {
        lemma_digit_char(n);
        assert(t[p.len() as int] == digit_char(n));
    } else {
        let m = n / 10;
        let d = (n % 10) as nat;
        let tail = seq![digit_char(d)] + r;
        assert(decimal_digits(n) == decimal_digits(m).push(digit_char(d)));
        assert(t =~= p + decimal_digits(m) + tail);
        lemma_scan_decimal(p, m, tail, neg, lo, hi);
        let k = (p.len() + decimal_digits(m).len()) as int;
        assert(t[k] == digit_char(d));
        lemma_digit_char(d);
        if neg {
            assert(-m * 10 - d == -n);
        } else {
            assert(m * 10 + d == n);
        }
    }
}

/// The decimal text of an integer reads back as that integer: unsigned
/// text under the unsigned grammar, signed text under the signed one.
pub proof fn decimal_text_reads_back(n: u64, v: i64)
    ensures
        u64_literal(decimal_digits(n as nat), 10) == Ok::<int, IntFault>(n as int),
        i64_literal(signed_decimal(v as int), 10) == Ok::<int, IntFault>(v as int),
{
    let e = Seq::<char>::empty();
    let dn = decimal_digits(n as nat);
    lemma_decimal_digits_nonempty(n as nat);
    lemma_scan_decimal(e, n as nat, e, false, 0, u64::MAX as int);
    assert(e + dn + e =~= dn);
    if v >= 0 {
        let dv = decimal_digits(v as nat);
        lemma_decimal_digits_nonempty(v as nat);
        lemma_scan_decimal(e, v as nat, e, false, i64::MIN as int, i64::MAX as int);
        assert(e + dv + e =~= dv);
    } else {
        let mag = (-v) as nat;
        let dm = decimal_digits(mag);
        lemma_decimal_digits_nonempty(mag);
        lemma_scan_decimal(seq!['-'], mag, e, true, i64::MIN as int, i64::MAX as int);
        assert(seq!['-'] + dm + e =~= signed_decimal(v as int));
    }
}

/// The twelve boolean spellings.
pub open spec fn bool_token(s: Seq<char>) -> Option<bool> {
    if s == "1"@ || s == "t"@ || s == "T"@ || s == "TRUE"@ || s == "true"@ || s == "True"@ {
        Some(true)
    } else if s == "0"@ || s == "f"@ || s == "F"@ || s == "FALSE"@ || s == "false"@ || s == "False"@ {
        Some(false)
    } else {
        None
    }
}

/// Whether two strings hold the same characters.
pub fn str_equals(a: &str, b: &str) -> (r: bool)
    ensures
        r == (a@ == b@),
{
    let x = str_chars(a);
    let y = str_chars(b);
    if x.len() != y.len() {
        return false;
    }
    let mut i: usize = 0;
    while i < x.len()
        invariant
            x@ == a@,
            y@ == b@,
            x@.len() == y@.len(),
            0 <= i <= x@.len(),
            forall|j: int| 0 <= j < i ==> x@[j] == y@[j],
        decreases x@.len() - i,
    {
        if x[i] != y[i] {
            return false;
        }
        i = i + 1;
    }
    proof {
        assert(x@ =~= y@);
    }
    true
}

/// Parses a boolean: exactly twelve accepted spellings, everything else
/// errors with `invalid boolean literal: <s>`.
pub fn parse_bool(s: &str) -> (r: Result<bool, Error>)
    ensures
        match bool_token(s@) {
            Some(b) => r == Ok::<bool, Error>(b),
            None => r matches Err(Error::ParseScalar(m)) && m@ == "invalid boolean literal: "@ + s@,
        },
{
    proof {
        reveal_strlit("1");
        reveal_strlit("t");
        reveal_strlit("T");
        reveal_strlit("TRUE");
        reveal_strlit("true");
        reveal_strlit("True");
        reveal_strlit("0");
        reveal_strlit("f");
        reveal_strlit("F");
        reveal_strlit("FALSE");
        reveal_strlit("false");
        reveal_strlit("False");
    }
    if str_equals(s, "1") || str_equals(s, "t") || str_equals(s, "T") || str_equals(s, "TRUE")
        || str_equals(s, "true") || str_equals(s, "True") {
        Ok(true)
    } else if str_equals(s, "0") || str_equals(s, "f") || str_equals(s, "F") || str_equals(s, "FALSE")
        || str_equals(s, "false") || str_equals(s, "False") {
        Ok(false)
    } else {
        Err(Error::ParseScalar(concat_str("invalid boolean literal: ", s)))
    }
}


/// The floating-point work that exact integer code cannot do: correctly
/// rounded decimal conversion, shortest round-trip digits, and the Apple
/// epoch arithmetic on `f64`. The codecs take an implementation of it and
/// decide everything else themselves.
pub trait FloatCodec {
    /// The binary64 pattern nearest to a decimal float literal that already
    /// passed [`decimal_literal_ok`]; `None` if the conversion refuses it.
    fn decimal_to_bits(&self, literal: &str) -> Option<u64>;

    /// The shortest round-trip scientific form of a finite binary64 value,
    /// as `{:e}` prints it: whether negative, the significant digits without
    /// a point, and the decimal exponent of the first digit.
    fn shortest_digits(&self, bits: u64) -> (bool, Vec<char>, i64);

    /// Splits seconds since the Apple epoch (binary64 pattern) into Unix
    /// seconds and nanoseconds: both parts keep the sign, the fraction
    /// truncates toward zero and out-of-range values saturate.
    fn apple_epoch_to_unix(&self, bits: u64) -> (i64, i64);

    /// Seconds since the Apple epoch (binary64 pattern) of an instant given
    /// in Unix nanoseconds: one rounding of the count, a division by 1e9,
    /// then the epoch shift.
    fn unix_to_apple_epoch(&self, unix_nanos: i128) -> u64;
}

/// The quiet-NaN pattern produced for a `nan` literal.
pub const NAN_BITS: u64 = 0x7FF8_0000_0000_0001u64;

/// The binary64 pattern of positive infinity.
pub const POS_INF_BITS: u64 = 0x7FF0_0000_0000_0000u64;

/// The binary64 pattern of negative infinity.
pub const NEG_INF_BITS: u64 = 0xFFF0_0000_0000_0000u64;

/// Whether a binary64 pattern is an infinity.
pub open spec fn is_inf_bits(b: u64) -> bool {
    b == POS_INF_BITS || b == NEG_INF_BITS
}

/// The length of an optional leading sign.
pub open spec fn sign_len(s: Seq<char>) -> int {
    if s.len() > 0 && (s[0] == '+' || s[0] == '-') {
        1
    } else {
        0
    }
}

/// Special-value literals: optional sign plus `inf`/`infinity`, or an
/// unsigned `nan`, case-insensitively and consuming the whole string.
pub open spec fn special_value(s: Seq<char>) -> Option<u64> {
    let rest = s.subrange(sign_len(s), s.len() as int);
    if eq_ignore_ascii_case(rest, "inf"@) || eq_ignore_ascii_case(rest, "infinity"@) {
        if sign_len(s) == 1 && s[0] == '-' {
            Some(NEG_INF_BITS)
        } else {
            Some(POS_INF_BITS)
        }
    } else if sign_len(s) == 0 && eq_ignore_ascii_case(s, "nan"@) {
        Some(NAN_BITS)
    } else {
        None
    }
}

/// Whether `c` is an ASCII decimal digit.
pub open spec fn is_dec(c: char) -> bool {
    '0' <= c && c <= '9'
}

/// Whether `c` is an ASCII hexadecimal digit.
pub open spec fn is_hex(c: char) -> bool {
    is_dec(c) || ('a' <= c && c <= 'f') || ('A' <= c && c <= 'F')
}

/// The underscore placement state: what the last character was.
#[derive(Debug, Clone, Copy, PartialEq, Eq, Structural)]
pub enum Seen {
    /// Nothing yet.
    Begin,
    /// A digit (the base prefix counts as one).
    Digit,
    /// An underscore.
    Underscore,
    /// Any other character.
    Other,
}

/// The placement check from position `i` on, in state `seen`, with hex
/// digits counting as digits when `hex`.
pub open spec fn underscores_from(s: Seq<char>, i: int, seen: Seen, hex: bool) -> bool
    decreases s.len() - i,
{
    if i >= s.len() || i < 0 {
        seen != Seen::Underscore
    } else {
        let c = s[i];
        if is_dec(c) || (hex && is_hex(c)) {
            underscores_from(s, i + 1, Seen::Digit, hex)
        } else if c == '_' {
            seen == Seen::Digit && underscores_from(s, i + 1, Seen::Underscore, hex)
        } else {
            seen != Seen::Underscore && underscores_from(s, i + 1, Seen::Other, hex)
        }
    }
}

/// Whether the base prefix `0b`, `0o` or `0x` (any case) starts at `i`.
pub open spec fn has_base_prefix(s: Seq<char>, i: int) -> bool {
    0 <= i && i + 1 < s.len() && s[i] == '0' && (s[i + 1] == 'b' || s[i + 1] == 'B' || s[i + 1] == 'o'
        || s[i + 1] == 'O' || s[i + 1] == 'x' || s[i + 1] == 'X')
}

/// Digit-group underscores: each underscore sits between digits, the base
/// prefix counting as a digit.
pub open spec fn underscores_ok(s: Seq<char>) -> bool {
    let i = sign_len(s);
    if has_base_prefix(s, i) {
        underscores_from(s, i + 2, Seen::Digit, s[i + 1] == 'x' || s[i + 1] == 'X')
    } else {
        underscores_from(s, i, Seen::Begin, false)
    }
}

/// `s` without its underscores.
pub open spec fn strip_underscores(s: Seq<char>) -> Seq<char>
    decreases s.len(),
{
    if s.len() == 0 {
        s
    } else if s.last() == '_' {
        strip_underscores(s.drop_last())
    } else {
        strip_underscores(s.drop_last()).push(s.last())
    }
}

/// The end of the run of decimal digits starting at `i`.
pub open spec fn dec_run(s: Seq<char>, i: int) -> int
    decreases s.len() - i,
{
    if 0 <= i < s.len() && is_dec(s[i]) {
        dec_run(s, i + 1)
    } else {
        i
    }
}

/// The decimal float grammar over the whole string: optional sign, digits
/// with an optional point (at least one digit overall), then an optional
/// exponent `e`/`E`, optional sign and at least one digit.
pub open spec fn decimal_literal_ok(s: Seq<char>) -> bool {
    let i0 = sign_len(s);
    let i1 = dec_run(s, i0);
    let i2 = if i1 < s.len() && s[i1] == '.' {
        dec_run(s, i1 + 1)
    } else {
        i1
    };
    let frac = if i1 < s.len() && s[i1] == '.' {
        i2 - (i1 + 1)
    } else {
        0
    };
    if (i1 - i0) + frac == 0 {
        false
    } else if i2 < s.len() && (s[i2] == 'e' || s[i2] == 'E') {
        let j = if i2 + 1 < s.len() && (s[i2 + 1] == '+' || s[i2 + 1] == '-') {
            i2 + 2
        } else {
            i2 + 1
        };
        let e = dec_run(s, j);
        e > j && e == s.len()
    } else {
        i2 == s.len()
    }
}

/// The end of the hex mantissa scan from `i`: hex digits and at most one
/// point, stopping at a second point or any other character.
pub open spec fn hex_mantissa_end(s: Seq<char>, i: int, saw_dot: bool) -> int
    decreases s.len() - i,
{
    if 0 <= i < s.len() && (is_hex(s[i]) || (s[i] == '.' && !saw_dot)) {
        hex_mantissa_end(s, i + 1, saw_dot || s[i] == '.')
    } else {
        i
    }
}

/// Whether a hex digit occurs in `s[i..j]`.
pub open spec fn has_hex_digit(s: Seq<char>, i: int, j: int) -> bool {
    exists|k: int| i <= k < j && is_hex(#[trigger] s[k])
}

/// The hex float body after `0x`: a mantissa with at least one hex digit,
/// then `p`/`P`, an optional sign and at least one decimal digit, to the
/// end.
pub open spec fn hex_body_ok(s: Seq<char>) -> bool {
    let m = hex_mantissa_end(s, 0, false);
    &&& has_hex_digit(s, 0, m)
    &&& m < s.len()
    &&& (s[m] == 'p' || s[m] == 'P')
    &&& {
        let j = if m + 1 < s.len() && (s[m + 1] == '+' || s[m + 1] == '-') {
            m + 2
        } else {
            m + 1
        };
        let e = dec_run(s, j);
        e > j && e == s.len()
    }
}

/// Whether the (underscore-free) literal `b` uses the hex form: `0x`/`0X`
/// after the optional sign.
pub open spec fn is_hex_form(b: Seq<char>) -> bool {
    let i = sign_len(b);
    i + 1 < b.len() && b[i] == '0' && (b[i + 1] == 'x' || b[i + 1] == 'X')
}

/// The text the grammar checks run on: underscores removed.
pub open spec fn float_body(s: Seq<char>) -> Seq<char> {
    strip_underscores(s)
}

/// Whether a float literal is well formed: a special value, or underscores
/// well placed and the body a decimal or hex float.
pub open spec fn float_literal_ok(s: Seq<char>) -> bool {
    special_value(s) is Some || (
        (s.contains('_') ==> underscores_ok(s))
        && {
            let b = float_body(s);
            if is_hex_form(b) {
                hex_body_ok(b.subrange(sign_len(b) + 2, b.len() as int))
            } else {
                decimal_literal_ok(b)
            }
        }
    )
}

/// Whether `e` is the float syntax error.
pub open spec fn is_syntax_error(e: Error) -> bool {
    e matches Error::ParseScalar(m) && m@ == "invalid float literal"@
}

/// Whether `e` is the float range error.
pub open spec fn is_range_error(e: Error) -> bool {
    e matches Error::ParseScalar(m) && m@ == "value out of range"@
}

fn syntax_error() -> (r: Error)
    ensures
        is_syntax_error(r),
{
    proof {
        reveal_strlit("invalid float literal");
    }
    Error::ParseScalar("invalid float literal".to_owned())
}

fn range_error() -> (r: Error)
    ensures
        is_range_error(r),
{
    proof {
        reveal_strlit("value out of range");
    }
    Error::ParseScalar("value out of range".to_owned())
}

fn sign_len_exec(s: &Vec<char>) -> (r: usize)
    ensures
        r as int == sign_len(s@),
{
    if s.len() > 0 && (s[0] == '+' || s[0] == '-') {
        1
    } else {
        0
    }
}

fn chars_eq_lit(x: &[char], lit: &str) -> (r: bool)
    ensures
        r == eq_ignore_ascii_case(x@, lit@),
{
    let y = str_chars(lit);
    chars_eq_ignore_case(x, &y)
}

fn tail_from(s: &Vec<char>, start: usize) -> (r: Vec<char>)
    requires
        start <= s@.len(),
    ensures
        r@ == s@.subrange(start as int, s@.len() as int),
{
    let mut out: Vec<char> = Vec::new();
    let mut i = start;
    while i < s.len()
        invariant
            start <= i <= s@.len(),
            out@ == s@.subrange(start as int, i as int),
        decreases s@.len() - i,
    {
        out.push(s[i]);
        i = i + 1;
    }
    out
}

/// The special-value literal of `s`, if it is one.
fn parse_special(s: &Vec<char>) -> (r: Option<u64>)
    ensures
        r == special_value(s@),
{
    let i = sign_len_exec(s);
    let rest = tail_from(s, i);
    if chars_eq_lit(&rest, "inf") || chars_eq_lit(&rest, "infinity") {
        if i == 1 && s[0] == '-' {
            Some(NEG_INF_BITS)
        } else {
            Some(POS_INF_BITS)
        }
    } else if i == 0 && chars_eq_lit(s, "nan") {
        Some(NAN_BITS)
    } else {
        None
    }
}

/// The underscore placement check.
fn underscores_exec(s: &Vec<char>) -> (r: bool)
    ensures
        r == underscores_ok(s@),
{
    let mut i = sign_len_exec(s);
    let mut seen = Seen::Begin;
    let mut hex = false;
    if i + 1 < s.len() && s[i] == '0' {
        let c = s[i + 1];
        if c == 'b' || c == 'B' || c == 'o' || c == 'O' || c == 'x' || c == 'X' {
            hex = c == 'x' || c == 'X';
            seen = Seen::Digit;
            i = i + 2;
        }
    }
    while i < s.len()
        invariant
            i <= s@.len(),
            underscores_ok(s@) == underscores_from(s@, i as int, seen, hex),
        decreases s@.len() - i,
    {
        let c = s[i];
        if ('0' <= c && c <= '9') || (hex && (('a' <= c && c <= 'f') || ('A' <= c && c <= 'F'))) {
            seen = Seen::Digit;
        } else if c == '_' {
            if seen != Seen::Digit {
                return false;
            }
            seen = Seen::Underscore;
        } else {
            if seen == Seen::Underscore {
                return false;
            }
            seen = Seen::Other;
        }
        i = i + 1;
    }
    seen != Seen::Underscore
}

fn contains_underscore(s: &Vec<char>) -> (r: bool)
    ensures
        r == s@.contains('_'),
{
    let mut i: usize = 0;
    while i < s.len()
        invariant
            i <= s@.len(),
            forall|j: int| 0 <= j < i ==> s@[j] != '_',
        decreases s@.len() - i,
    {
        if s[i] == '_' {
            assert(s@[i as int] == '_');
            return true;
        }
        i = i + 1;
    }
    false
}

fn strip_exec(s: &Vec<char>) -> (r: Vec<char>)
    ensures
        r@ == strip_underscores(s@),
{
    let mut out: Vec<char> = Vec::new();
    let mut i: usize = 0;
    while i < s.len()
        invariant
            i <= s@.len(),
            out@ == strip_underscores(s@.subrange(0, i as int)),
        decreases s@.len() - i,
    {
        proof {
            assert(s@.subrange(0, i + 1).drop_last() =~= s@.subrange(0, i as int));
        }
        if s[i] != '_' {
            out.push(s[i]);
        }
        i = i + 1;
    }
    proof {
        assert(s@.subrange(0, s@.len() as int) == s@);
    }
    out
}

fn dec_run_exec(s: &Vec<char>, i: usize) -> (r: usize)
    requires
        i <= s@.len(),
    ensures
        r as int == dec_run(s@, i as int),
        i <= r <= s@.len(),
{
    let mut j = i;
    while j < s.len() && '0' <= s[j] && s[j] <= '9'
        invariant
            i <= j <= s@.len(),
            dec_run(s@, i as int) == dec_run(s@, j as int),
        decreases s@.len() - j,
    {
        j = j + 1;
    }
    j
}

/// The decimal float grammar check.
fn decimal_ok_exec(s: &Vec<char>) -> (r: bool)
    ensures
        r == decimal_literal_ok(s@),
{
    let i0 = sign_len_exec(s);
    let i1 = dec_run_exec(s, i0);
    let dot = i1 < s.len() && s[i1] == '.';
    let i2 = if dot {
        dec_run_exec(s, i1 + 1)
    } else {
        i1
    };
    let frac = if dot {
        i2 - (i1 + 1)
    } else {
        0
    };
    if (i1 - i0) + frac == 0 {
        return false;
    }
    if i2 < s.len() && (s[i2] == 'e' || s[i2] == 'E') {
        let j = if i2 + 1 < s.len() && (s[i2 + 1] == '+' || s[i2 + 1] == '-') {
            i2 + 2
        } else {
            i2 + 1
        };
        let e = dec_run_exec(s, j);
        e > j && e == s.len()
    } else {
        i2 == s.len()
    }
}

/// Parses a 64-bit float literal to its binary64 pattern.
///
/// Accepts signed `inf`/`infinity` and unsigned `nan` (any case), C-style
/// digit-group underscores, decimal literals and `0x…p±d` hex floats.
/// Overflow of finite syntax is a range error; underflow rounds to zero.
pub fn parse_f64<H: FloatCodec>(s: &str, hooks: &H) -> (r: Result<u64, Error>)
    ensures
        special_value(s@) matches Some(b) ==> r == Ok::<u64, Error>(b),
        !float_literal_ok(s@) ==> (r matches Err(e) && is_syntax_error(e)),
        r is Ok ==> float_literal_ok(s@),
        r matches Err(e) ==> is_syntax_error(e) || is_range_error(e),
        r matches Ok(b) ==> special_value(s@) is Some || !is_inf_bits(b),
{
    let chars = str_chars(s);
    if let Some(v) = parse_special(&chars) {
        return Ok(v);
    }
    let has_underscore = contains_underscore(&chars);
    if has_underscore && !underscores_exec(&chars) {
        return Err(syntax_error());
    }
    let body = strip_exec(&chars);
    let i = sign_len_exec(&body);
    if i + 1 < body.len() && body[i] == '0' && (body[i + 1] == 'x' || body[i + 1] == 'X') {
        let hex = tail_from(&body, i + 2);
        let neg = i == 1 && body[0] == '-';
        return parse_hex_f64(&hex, neg);
    }
    if !decimal_ok_exec(&body) {
        return Err(syntax_error());
    }
    let text = string_from_chars(&body);
    match hooks.decimal_to_bits(text.as_str()) {
        None => Err(syntax_error()),
        Some(bits) => {
            if bits == POS_INF_BITS || bits == NEG_INF_BITS {
                Err(range_error())
            } else {
                Ok(bits)
            }
        },
    }
}


fn hex_digit_exec(c: char) -> (r: Option<u64>)
    ensures
        r is Some <==> is_hex(c),
        r matches Some(d) ==> d < 16 && (d == 0 <==> c == '0'),
{
    if '0' <= c && c <= '9' {
        Some((c as u32 - 48) as u64)
    } else if 'a' <= c && c <= 'f' {
        Some((c as u32 - 87) as u64)
    } else if 'A' <= c && c <= 'F' {
        Some((c as u32 - 55) as u64)
    } else {
        None
    }
}

/// Parses the hex-float body after `0x`: hex mantissa digits with an
/// optional point, then a mandatory binary exponent `p±d`.
fn parse_hex_f64(s: &Vec<char>, neg: bool) -> (r: Result<u64, Error>)
    ensures
        !hex_body_ok(s@) ==> (r matches Err(e) && is_syntax_error(e)),
        hex_body_ok(s@) ==> (r matches Err(e) ==> is_range_error(e)),
        r matches Ok(b) ==> hex_body_ok(s@) && (b >> 63u64 == 1) == neg && !is_inf_bits(b),
{
    let n = s.len();
    let m = hex_mantissa_end_exec(s);
    let mut i: usize = 0;
    let mut mantissa: u64 = 0;
    let mut nd: i128 = 0;
    let mut nd_mant: i128 = 0;
    let mut dp: i128 = 0;
    let mut saw_dot = false;
    let mut saw_digits = false;
    let mut trunc = false;
    while i < m
        invariant
            n == s@.len(),
            m as int == hex_mantissa_end(s@, 0, false),
            m <= n,
            i <= m,
            0 <= nd <= i,
            0 <= nd_mant <= 16,
            nd_mant <= nd,
            -(i as int) <= dp <= i,
            nd_mant < 16 ==> mantissa < pow16(nd_mant as nat),
            saw_digits == has_hex_digit(s@, 0, i as int),
        decreases m - i,
    {
        let c = s[i];
        if c == '.' {
            saw_dot = true;
            dp = nd;
        } else {
            match hex_digit_exec(c) {
                Some(digit) => {
                    saw_digits = true;
                    if digit == 0 && nd == 0 {
                        dp = dp - 1;
                    } else {
                        nd = nd + 1;
                        if nd_mant < 16 {
                            proof {
                                lemma_pow16_step(nd_mant as nat);
                            }
                            mantissa = mantissa * 16 + digit;
                            nd_mant = nd_mant + 1;
                        } else if digit != 0 {
                            trunc = true;
                        }
                    }
                },
                None => {},
            }
        }
        proof {
            assert(has_hex_digit(s@, 0, i + 1) == (has_hex_digit(s@, 0, i as int) || is_hex(s@[i as int]))) by {
                if is_hex(s@[i as int]) {
                    assert(has_hex_digit(s@, 0, i + 1));
                }
                if has_hex_digit(s@, 0, i as int) {
                    let k = choose|k: int| 0 <= k < i && is_hex(#[trigger] s@[k]);
                    assert(0 <= k < i + 1 && is_hex(s@[k]));
                }
                if has_hex_digit(s@, 0, i + 1) {
                    let k = choose|k: int| 0 <= k < i + 1 && is_hex(#[trigger] s@[k]);
                    if k < i {
                        assert(has_hex_digit(s@, 0, i as int));
                    }
                }
            }
        }
        i = i + 1;
    }
    if !saw_digits {
        return Err(syntax_error());
    }
    if !saw_dot {
        dp = nd;
    }
    dp = dp * 4;
    let mant_bits_read = nd_mant * 4;
    if !(m < n && (s[m] == 'p' || s[m] == 'P')) {
        return Err(syntax_error());
    }
    i = m + 1;
    let mut exp_neg = false;
    if i < n && s[i] == '+' {
        i = i + 1;
    } else if i < n && s[i] == '-' {
        exp_neg = true;
        i = i + 1;
    }
    let j = i;
    if !(i < n && '0' <= s[i] && s[i] <= '9') {
        return Err(syntax_error());
    }
    let mut e: i128 = 0;
    while i < n && '0' <= s[i] && s[i] <= '9'
        invariant
            j <= i <= n,
            n == s@.len(),
            0 <= e < 100000,
            dec_run(s@, j as int) == dec_run(s@, i as int),
        decreases n - i,
    {
        if e < 10_000 {
            e = e * 10 + (s[i] as u32 - 48) as i128;
        }
        i = i + 1;
    }
    if i != n {
        return Err(syntax_error());
    }
    dp = if exp_neg {
        dp - e
    } else {
        dp + e
    };
    let exp: i128 = if mantissa == 0 {
        0
    } else {
        dp - mant_bits_read
    };
    atof_hex(mantissa, exp, neg, trunc)
}

/// The end of the hex mantissa scan.
fn hex_mantissa_end_exec(s: &Vec<char>) -> (r: usize)
    ensures
        r as int == hex_mantissa_end(s@, 0, false),
        r <= s@.len(),
{
    let mut i: usize = 0;
    let mut saw_dot = false;
    while i < s.len() && (hex_digit_exec(s[i]).is_some() || (s[i] == '.' && !saw_dot))
        invariant
            i <= s@.len(),
            hex_mantissa_end(s@, 0, false) == hex_mantissa_end(s@, i as int, saw_dot),
        decreases s@.len() - i,
    {
        saw_dot = saw_dot || s[i] == '.';
        i = i + 1;
    }
    i
}

/// `16^k`.
pub open spec fn pow16(k: nat) -> nat
    decreases k,
{
    if k == 0 {
        1
    } else {
        16 * pow16((k - 1) as nat)
    }
}

proof fn lemma_pow16_step(k: nat)
    requires
        k < 16,
    ensures
        pow16(k + 1) == 16 * pow16(k),
        pow16(k + 1) <= 0x1_0000_0000_0000_0000,
    decreases k,
{
    reveal_with_fuel(pow16, 17);
    assert(pow16(16) == 0x1_0000_0000_0000_0000);
    lemma_pow16_mono(k + 1, 16);
}

proof fn lemma_pow16_mono(a: nat, b: nat)
    requires
        a <= b,
    ensures
        pow16(a) <= pow16(b),
    decreases b - a,
{
    if a < b {
        lemma_pow16_mono(a, (b - 1) as nat);
    }
}

/// Assembles a binary64 pattern from a hex mantissa and binary exponent:
/// round-to-nearest-even with a sticky bit for truncated mantissa digits;
/// overflow is a range error, underflow denormalizes to zero.
fn atof_hex(mantissa0: u64, exp0: i128, neg: bool, trunc: bool) -> (r: Result<u64, Error>)
    requires
        -0x1_0000_0000_0000_0000_0000_0000i128 < exp0 < 0x1_0000_0000_0000_0000_0000_0000i128,
    ensures
        r matches Ok(b) ==> (b >> 63u64 == 1) == neg && !is_inf_bits(b),
        r matches Err(e) ==> is_range_error(e),
{
    let mut mantissa = mantissa0;
    let mut exp: i128 = exp0 + 52;
    let mut k: u32 = 0;
    while mantissa != 0 && (mantissa >> 54u64) == 0 && k < 64
        invariant
            k <= 64,
            -0x1_0000_0000_0000_0000_0000_0000i128 < exp0 < 0x1_0000_0000_0000_0000_0000_0000i128,
            exp == exp0 + 52 - k,
        decreases 64 - k,
    {
        mantissa = mantissa << 1u64;
        exp = exp - 1;
        k = k + 1;
    }
    if trunc {
        mantissa = mantissa | 1;
    }
    let mut t: u32 = 0;
    let exp1 = exp;
    while (mantissa >> 55u64) != 0 && t < 64
        invariant
            t <= 64,
            -0x1_0000_0000_0000_0000_0000_0000i128 < exp0 < 0x1_0000_0000_0000_0000_0000_0000i128,
            exp0 + 52 - 64 <= exp1 <= exp0 + 52,
            exp == exp1 + t,
        decreases 64 - t,
    {
        let m = mantissa;
        mantissa = (m >> 1u64) | (m & 1u64);
        exp = exp + 1;
        t = t + 1;
    }
    while mantissa > 1 && exp < -1024
        invariant
            exp0 + 52 - 64 <= exp,
            exp <= exp0 + 52 + 64 || exp <= -1024,
        decreases -1024 - exp,
    {
        let m = mantissa;
        mantissa = (m >> 1u64) | (m & 1u64);
        exp = exp + 1;
    }
    assert(mantissa <= 1 || exp >= -1024);
    let m0 = mantissa;
    let mut round = m0 & 3;
    mantissa = m0 >> 2u64;
    assert(mantissa <= 0x3FFF_FFFF_FFFF_FFFFu64) by (bit_vector)
        requires
            mantissa == m0 >> 2u64,
    ;
    assert(m0 <= 1 ==> (mantissa == 0 && (m0 & 3u64) != 3u64 && (m0 & 3u64) | (mantissa & 1u64) != 3u64)) by (bit_vector)
        requires
            mantissa == m0 >> 2u64,
    ;
    round = round | (mantissa & 1);
    exp = exp + 2;
    if round == 3 {
        mantissa = mantissa + 1;
        if mantissa == 0x20_0000_0000_0000u64 {
            mantissa = mantissa >> 1u64;
            exp = exp + 1;
        }
    }
    let m2 = mantissa;
    assert(m2 == 0 ==> (m2 >> 52u64) == 0) by (bit_vector);
    if (mantissa >> 52u64) == 0 {
        exp = -1023;
    }
    if exp > 1023 {
        return Err(range_error());
    }
    assert(exp >= -1023);
    let field: u64 = ((exp + 1023) as u64) & 0x7FFu64;
    let frac: u64 = mantissa & 0xF_FFFF_FFFF_FFFFu64;
    let mut bits: u64 = frac | (field << 52u64);
    if neg {
        bits = bits | 0x8000_0000_0000_0000u64;
    }
    let f2 = (exp + 1023) as u64;
    assert(f2 <= 2046);
    assert(field == f2) by (bit_vector)
        requires
            field == f2 & 0x7FFu64,
            f2 <= 2046,
    ;
    assert(((bits >> 63u64 == 1) == neg) && bits != 0x7FF0_0000_0000_0000u64 && bits != 0xFFF0_0000_0000_0000u64) by (bit_vector)
        requires
            frac == mantissa & 0xF_FFFF_FFFF_FFFFu64,
            field <= 2046,
            neg ==> bits == (frac | (field << 52u64)) | 0x8000_0000_0000_0000u64,
            !neg ==> bits == frac | (field << 52u64),
    ;
    Ok(bits)
}


/// `n` zero characters.
pub open spec fn zeros(n: int) -> Seq<char> {
    Seq::new(if n < 0 { 0 } else { n as nat }, |i: int| '0')
}

/// The sign prefix of a laid-out number.
pub open spec fn sign_text(neg: bool) -> Seq<char> {
    if neg {
        seq!['-']
    } else {
        Seq::empty()
    }
}

/// The magnitude of an exponent.
pub open spec fn exp_mag(exp: int) -> nat {
    if exp < 0 {
        (-exp) as nat
    } else {
        exp as nat
    }
}

/// The digits of scientific notation: the first one, then the rest after
/// a point.
pub open spec fn sci_mantissa(digits: Seq<char>) -> Seq<char> {
    let lead: Seq<char> = if digits.len() > 0 {
        seq![digits[0]]
    } else {
        Seq::empty()
    };
    let rest: Seq<char> = if digits.len() > 1 {
        seq!['.'] + digits.subrange(1, digits.len() as int)
    } else {
        Seq::empty()
    };
    lead + rest
}

/// The exponent of scientific notation: `e`, its sign and at least two
/// digits.
pub open spec fn sci_exponent(exp: int) -> Seq<char> {
    let esign = if exp < 0 {
        '-'
    } else {
        '+'
    };
    let pad: Seq<char> = if exp_mag(exp) < 10 {
        seq!['0']
    } else {
        Seq::empty()
    };
    seq!['e', esign] + pad + crate::strings::decimal_digits(exp_mag(exp))
}

/// Scientific notation: first digit, the rest after a point, then `e`, the
/// exponent's sign and at least two exponent digits.
pub open spec fn g_scientific(neg: bool, digits: Seq<char>, exp: int) -> Seq<char> {
    sign_text(neg) + sci_mantissa(digits) + sci_exponent(exp)
}

/// A small number: `0.`, leading zeros, then the digits.
pub open spec fn g_small(neg: bool, digits: Seq<char>, exp: int) -> Seq<char> {
    sign_text(neg) + seq!['0', '.'] + zeros(exp_mag(exp) - 1) + digits
}

/// Positional notation: the point after `exp + 1` digits, or trailing zeros
/// when the digits run out first.
pub open spec fn g_positional(neg: bool, digits: Seq<char>, exp: int) -> Seq<char> {
    let point = exp + 1;
    if digits.len() > point {
        sign_text(neg) + digits.subrange(0, point) + seq!['.'] + digits.subrange(point, digits.len() as int)
    } else {
        sign_text(neg) + digits + zeros(point - digits.len())
    }
}

/// The `%g`-style layout of a shortest scientific form: scientific notation
/// iff the decimal exponent is below -4 or at least 6; otherwise positional
/// notation.
pub open spec fn g_layout(neg: bool, digits: Seq<char>, exp: int) -> Seq<char> {
    if exp < -4 || exp >= 6 {
        g_scientific(neg, digits, exp)
    } else if exp < 0 {
        g_small(neg, digits, exp)
    } else {
        g_positional(neg, digits, exp)
    }
}

fn push_zeros(out: &mut Vec<char>, n: u64)
    ensures
        final(out)@ == old(out)@ + zeros(n as int),
{
    let mut i: u64 = 0;
    while i < n
        invariant
            i <= n,
            out@ == old(out)@ + zeros(i as int),
        decreases n - i,
    {
        out.push('0');
        proof {
            assert(zeros(i + 1) =~= zeros(i as int).push('0'));
        }
        i = i + 1;
    }
}

fn push_range(out: &mut Vec<char>, src: &Vec<char>, from: usize, to: usize)
    requires
        from <= to <= src@.len(),
    ensures
        final(out)@ == old(out)@ + src@.subrange(from as int, to as int),
{
    let mut i = from;
    while i < to
        invariant
            from <= i <= to,
            to <= src@.len(),
            out@ == old(out)@ + src@.subrange(from as int, i as int),
        decreases to - i,
    {
        out.push(src[i]);
        proof {
            assert(src@.subrange(from as int, i + 1) =~= src@.subrange(from as int, i as int).push(src@[i as int]));
        }
        i = i + 1;
    }
}

fn sign_start(neg: bool) -> (r: Vec<char>)
    ensures
        r@ == sign_text(neg),
{
    let mut out: Vec<char> = Vec::new();
    if neg {
        out.push('-');
    }
    proof {
        assert(out@ =~= sign_text(neg));
    }
    out
}

fn push_sci_mantissa(out: &mut Vec<char>, digits: &Vec<char>)
    ensures
        final(out)@ == old(out)@ + sci_mantissa(digits@),
{
    let n = digits.len();
    let ghost start = out@;
    if n > 0 {
        out.push(digits[0]);
    }
    if n > 1 {
        out.push('.');
        push_range(out, digits, 1, n);
    }
    proof {
        assert(out@ =~= start + sci_mantissa(digits@));
    }
}

fn push_sci_exponent(out: &mut Vec<char>, exp: i64)
    ensures
        final(out)@ == old(out)@ + sci_exponent(exp as int),
{
    let ghost start = out@;
    let mag: u64 = if exp == i64::MIN {
        0x8000_0000_0000_0000u64
    } else if exp < 0 {
        (-exp) as u64
    } else {
        exp as u64
    };
    out.push('e');
    out.push(if exp < 0 { '-' } else { '+' });
    if mag < 10 {
        out.push('0');
    }
    crate::strings::push_all(out, &crate::strings::u64_decimal(mag));
    proof {
        assert(out@ =~= start + sci_exponent(exp as int));
    }
}

fn layout_scientific(neg: bool, digits: &Vec<char>, exp: i64) -> (r: Vec<char>)
    ensures
        r@ == g_scientific(neg, digits@, exp as int),
{
    let mut out = sign_start(neg);
    push_sci_mantissa(&mut out, digits);
    push_sci_exponent(&mut out, exp);
    proof {
        assert(out@ =~= g_scientific(neg, digits@, exp as int));
    }
    out
}

fn layout_small(neg: bool, digits: &Vec<char>, exp: i64) -> (r: Vec<char>)
    requires
        -4 <= exp < 0,
    ensures
        r@ == g_small(neg, digits@, exp as int),
{
    let mut out = sign_start(neg);
    out.push('0');
    out.push('.');
    push_zeros(&mut out, ((-exp) - 1) as u64);
    let n = digits.len();
    push_range(&mut out, digits, 0, n);
    proof {
        assert(digits@.subrange(0, n as int) =~= digits@);
        assert(out@ =~= g_small(neg, digits@, exp as int));
    }
    out
}

fn layout_positional(neg: bool, digits: &Vec<char>, exp: i64) -> (r: Vec<char>)
    requires
        0 <= exp < 6,
    ensures
        r@ == g_positional(neg, digits@, exp as int),
{
    let mut out = sign_start(neg);
    let point = (exp + 1) as usize;
    let n = digits.len();
    if n > point {
        push_range(&mut out, digits, 0, point);
        out.push('.');
        push_range(&mut out, digits, point, n);
    } else {
        push_range(&mut out, digits, 0, n);
        push_zeros(&mut out, (point - n) as u64);
        proof {
            assert(digits@.subrange(0, n as int) =~= digits@);
        }
    }
    proof {
        assert(out@ =~= g_positional(neg, digits@, exp as int));
    }
    out
}

/// Lays out a shortest scientific form (sign, digits, decimal exponent of
/// the first digit) in the `%g` style of [`g_layout`].
pub fn format_shortest(neg: bool, digits: &Vec<char>, exp: i64) -> (r: String)
    ensures
        r@ == g_layout(neg, digits@, exp as int),
{
    let out = if exp < -4 || exp >= 6 {
        layout_scientific(neg, digits, exp)
    } else if exp < 0 {
        layout_small(neg, digits, exp)
    } else {
        layout_positional(neg, digits, exp)
    };
    string_from_chars(&out)
}

/// Whether a binary64 pattern is a NaN.
pub open spec fn nan_bits(b: u64) -> bool {
    crate::reals::is_nan_bits(b)
}

proof fn lemma_infinities_are_not_nan()
    ensures
        !nan_bits(POS_INF_BITS),
        !nan_bits(NEG_INF_BITS),
{
    assert(!((0x7FF0_0000_0000_0000u64 & 0x7FF0_0000_0000_0000u64) == 0x7FF0_0000_0000_0000u64
        && (0x7FF0_0000_0000_0000u64 & 0x000F_FFFF_FFFF_FFFFu64) != 0)) by (bit_vector);
    assert(!((0xFFF0_0000_0000_0000u64 & 0x7FF0_0000_0000_0000u64) == 0x7FF0_0000_0000_0000u64
        && (0xFFF0_0000_0000_0000u64 & 0x000F_FFFF_FFFF_FFFFu64) != 0)) by (bit_vector);
}

/// Formats a binary64 value in `%g` style: shortest round-trip digits laid
/// out by [`g_layout`]; the specials are `NaN`, `+Inf` and `-Inf`.
pub fn format_f64<H: FloatCodec>(bits: u64, hooks: &H) -> (r: String)
    ensures
        nan_bits(bits) ==> r@ == "NaN"@,
        bits == POS_INF_BITS ==> r@ == "+Inf"@,
        bits == NEG_INF_BITS ==> r@ == "-Inf"@,
        is_inf_bits(bits) ==> !nan_bits(bits),
        !nan_bits(bits) && !is_inf_bits(bits) ==> exists|neg: bool, digits: Seq<char>, exp: i64|
            r@ == g_layout(neg, digits, exp as int),
{
    proof {
        lemma_infinities_are_not_nan();
    }
    if bits == POS_INF_BITS {
        proof {
            reveal_strlit("+Inf");
        }
        return "+Inf".to_owned();
    }
    if bits == NEG_INF_BITS {
        proof {
            reveal_strlit("-Inf");
        }
        return "-Inf".to_owned();
    }
    if (bits & 0x7FF0_0000_0000_0000u64) == 0x7FF0_0000_0000_0000u64 && (bits & 0x000F_FFFF_FFFF_FFFFu64) != 0 {
        proof {
            reveal_strlit("NaN");
        }
        return "NaN".to_owned();
    }
    let (neg, digits, exp) = hooks.shortest_digits(bits);
    format_shortest(neg, &digits, exp)
}

} // verus!
