//! The dual signed/unsigned 64-bit integer model.

use vstd::prelude::*;

use crate::strings::{i64_decimal, signed_decimal, string_from_chars, u64_decimal, decimal_digits};
use core::cmp::Ordering;
use vstd::std_specs::cmp::{PartialEqSpec, PartialEqSpecImpl, PartialOrdSpec, PartialOrdSpecImpl};
use vstd::std_specs::convert::FromSpecImpl;

verus! {

/// A property-list integer, carrying its signedness.
///
/// Equality, ordering and hashing are numeric: `Signed(5)` and
/// `Unsigned(5)` are the same integer.
#[derive(Clone, Copy, Debug)]
pub enum Integer {
    /// A signed value; the only representation negative integers have.
    Signed(i64),
    /// An unsigned value.
    Unsigned(u64),
}

impl Integer {
    /// The mathematical value of this integer.
    pub open spec fn value(self) -> int {
        match self {
            Integer::Signed(v) => v as int,
            Integer::Unsigned(v) => v as int,
        }
    }

    /// The `(signed, raw bits)` pair of this integer.
    pub open spec fn raw_parts(self) -> (bool, u64) {
        match self {
            Integer::Signed(v) => (true, v as u64),
            Integer::Unsigned(v) => (false, v),
        }
    }

    /// Returns the value as an `i64` when it fits.
    pub fn as_signed(self) -> (r: Option<i64>)
        ensures
            r is Some <==> i64::MIN <= self.value() <= i64::MAX,
            r matches Some(v) ==> v as int == self.value(),
    {
        match self {
            Integer::Signed(v) => Some(v),
            Integer::Unsigned(v) => {
                if v <= 0x7FFF_FFFF_FFFF_FFFFu64 {
                    Some(v as i64)
                } else {
                    None
                }
            },
        }
    }

    /// Returns the value as a `u64` when it is non-negative.
    pub fn as_unsigned(self) -> (r: Option<u64>)
        ensures
            r is Some <==> 0 <= self.value(),
            r matches Some(v) ==> v as int == self.value(),
    {
        match self {
            Integer::Unsigned(v) => Some(v),
            Integer::Signed(v) => {
                if v >= 0 {
                    Some(v as u64)
                } else {
                    None
                }
            },
        }
    }

    /// The structural `(signed, raw bits)` pair: the binary encoder's dedup
    /// key and the `CF$UID` payload.
    pub fn to_raw_parts(self) -> (r: (bool, u64))
        ensures
            r == self.raw_parts(),
    {
        match self {
            Integer::Signed(v) => (true, v as u64),
            Integer::Unsigned(v) => (false, v),
        }
    }

    /// Numeric equality.
    pub fn same_value(&self, other: &Integer) -> (r: bool)
        ensures
            r == (self.value() == other.value()),
    {
        match (*self, *other) {
            (Integer::Signed(a), Integer::Signed(b)) => a == b,
            (Integer::Unsigned(a), Integer::Unsigned(b)) => a == b,
            (Integer::Signed(s), Integer::Unsigned(u)) => s >= 0 && (s as u64) == u,
            (Integer::Unsigned(u), Integer::Signed(s)) => s >= 0 && (s as u64) == u,
        }
    }

    /// Numeric three-way comparison.
    pub fn compare(&self, other: &Integer) -> (r: Ordering)
        ensures
            r == int_order(self.value(), other.value()),
    {
        let a = self.widen();
        let b = other.widen();
        if a < b {
            Ordering::Less
        } else if a == b {
            Ordering::Equal
        } else {
            Ordering::Greater
        }
    }

    /// The integer of a 128-bit value: signed where it fits `i64`, else
    /// unsigned where it fits `u64`; `None` outside the 64-bit range.
    pub fn from_i128(v: i128) -> (r: Option<Integer>)
        ensures
            i64::MIN <= v <= i64::MAX ==> r == Some(Integer::Signed(v as i64)),
            i64::MAX < v <= u64::MAX ==> r == Some(Integer::Unsigned(v as u64)),
            v < i64::MIN || v > u64::MAX ==> r is None,
    {
        if -0x8000_0000_0000_0000i128 <= v && v <= 0x7FFF_FFFF_FFFF_FFFFi128 {
            Some(Integer::Signed(v as i64))
        } else if 0 <= v && v <= 0xFFFF_FFFF_FFFF_FFFFi128 {
            Some(Integer::Unsigned(v as u64))
        } else {
            None
        }
    }

    /// The unsigned integer of a 128-bit value; `None` past `u64::MAX`.
    pub fn from_u128(v: u128) -> (r: Option<Integer>)
        ensures
            v <= u64::MAX ==> r == Some(Integer::Unsigned(v as u64)),
            v > u64::MAX ==> r is None,
    {
        if v <= 0xFFFF_FFFF_FFFF_FFFFu128 {
            Some(Integer::Unsigned(v as u64))
        } else {
            None
        }
    }

    /// The value widened to `i128`, where every integer fits.
    pub fn widen(self) -> (r: i128)
        ensures
            r as int == self.value(),
    {
        match self {
            Integer::Signed(v) => v as i128,
            Integer::Unsigned(v) => v as i128,
        }
    }

    /// The canonical decimal digits, with a leading `-` when negative.
    pub fn decimal_chars(&self) -> (r: Vec<char>)
        ensures
            r@ == signed_decimal(self.value()),
    {
        match *self {
            Integer::Signed(v) => i64_decimal(v),
            Integer::Unsigned(v) => u64_decimal(v),
        }
    }

    /// The canonical decimal rendering: digits with a leading `-` when
    /// negative.
    pub fn to_decimal_string(&self) -> (r: String)
        ensures
            r@ == signed_decimal(self.value()),
    {
        let chars = match *self {
            Integer::Signed(v) => i64_decimal(v),
            Integer::Unsigned(v) => u64_decimal(v),
        };
        string_from_chars(&chars)
    }
}

/// The ordering of two mathematical integers.
pub open spec fn int_order(a: int, b: int) -> Ordering {
    if a < b {
        Ordering::Less
    } else if a == b {
        Ordering::Equal
    } else {
        Ordering::Greater
    }
}

impl PartialEq for Integer {
    fn eq(&self, other: &Integer) -> (r: bool) {
        self.same_value(other)
    }
}

impl PartialEqSpecImpl for Integer {
    open spec fn obeys_eq_spec() -> bool {
        true
    }

    open spec fn eq_spec(&self, other: &Integer) -> bool {
        self.value() == other.value()
    }
}

impl Eq for Integer {
}

impl PartialOrd for Integer {
    fn partial_cmp(&self, other: &Integer) -> (r: Option<Ordering>) {
        Some(self.compare(other))
    }
}

impl PartialOrdSpecImpl for Integer {
    open spec fn obeys_partial_cmp_spec() -> bool {
        true
    }

    open spec fn partial_cmp_spec(&self, other: &Integer) -> Option<Ordering> {
        Some(int_order(self.value(), other.value()))
    }
}

impl Ord for Integer {
    /// The numeric order: forwards to the verified [`Integer::compare`],
    /// whose contract this one repeats. The `std` trait's own contract goes
    /// through an `OrdSpecImpl`, which the crate cannot provide, so the body
    /// is taken as given.
    #[verifier::external_body]
    fn cmp(&self, other: &Integer) -> (r: Ordering)
        ensures
            r == int_order(self.value(), other.value()),
    {
        self.compare(other)
    }
}

impl core::hash::Hash for Integer {
    fn hash<H: core::hash::Hasher>(&self, state: &mut H) {
        let (_, raw) = self.to_raw_parts();
        hash_u64(raw, state);
    }
}

/// Feeds one `u64` to a hasher (`Hasher::write_u64`). Every numeric value
/// has one raw two's-complement pattern, so equal integers hash equally.
#[verifier::external_body]
fn hash_u64<H: core::hash::Hasher>(value: u64, state: &mut H) {
    state.write_u64(value)
}

impl From<i8> for Integer {
    fn from(value: i8) -> (r: Integer) {
        Integer::Signed(value as i64)
    }
}

impl FromSpecImpl<i8> for Integer {
    open spec fn obeys_from_spec() -> bool {
        true
    }

    open spec fn from_spec(v: i8) -> Integer {
        Integer::Signed(v as i64)
    }
}

impl From<i16> for Integer {
    fn from(value: i16) -> (r: Integer) {
        Integer::Signed(value as i64)
    }
}

impl FromSpecImpl<i16> for Integer {
    open spec fn obeys_from_spec() -> bool {
        true
    }

    open spec fn from_spec(v: i16) -> Integer {
        Integer::Signed(v as i64)
    }
}

impl From<i32> for Integer {
    fn from(value: i32) -> (r: Integer) {
        Integer::Signed(value as i64)
    }
}

impl FromSpecImpl<i32> for Integer {
    open spec fn obeys_from_spec() -> bool {
        true
    }

    open spec fn from_spec(v: i32) -> Integer {
        Integer::Signed(v as i64)
    }
}

impl From<i64> for Integer {
    fn from(value: i64) -> (r: Integer) {
        Integer::Signed(value)
    }
}

impl FromSpecImpl<i64> for Integer {
    open spec fn obeys_from_spec() -> bool {
        true
    }

    open spec fn from_spec(v: i64) -> Integer {
        Integer::Signed(v)
    }
}

impl From<u8> for Integer {
    fn from(value: u8) -> (r: Integer) {
        Integer::Unsigned(value as u64)
    }
}

impl FromSpecImpl<u8> for Integer {
    open spec fn obeys_from_spec() -> bool {
        true
    }

    open spec fn from_spec(v: u8) -> Integer {
        Integer::Unsigned(v as u64)
    }
}

impl From<u16> for Integer {
    fn from(value: u16) -> (r: Integer) {
        Integer::Unsigned(value as u64)
    }
}

impl FromSpecImpl<u16> for Integer {
    open spec fn obeys_from_spec() -> bool {
        true
    }

    open spec fn from_spec(v: u16) -> Integer {
        Integer::Unsigned(v as u64)
    }
}

impl From<u32> for Integer {
    fn from(value: u32) -> (r: Integer) {
        Integer::Unsigned(value as u64)
    }
}

impl FromSpecImpl<u32> for Integer {
    open spec fn obeys_from_spec() -> bool {
        true
    }

    open spec fn from_spec(v: u32) -> Integer {
        Integer::Unsigned(v as u64)
    }
}

impl From<u64> for Integer {
    fn from(value: u64) -> (r: Integer) {
        Integer::Unsigned(value)
    }
}

impl FromSpecImpl<u64> for Integer {
    open spec fn obeys_from_spec() -> bool {
        true
    }

    open spec fn from_spec(v: u64) -> Integer {
        Integer::Unsigned(v)
    }
}

/// Integer equality (the `==` operator) is numeric: it is an equivalence
/// relation, it agrees with the three-way comparison, and two integers that
/// compare equal have the same raw bits, so they hash equally.
pub proof fn integer_equality_is_numeric(a: Integer, b: Integer, c: Integer)
    ensures
        PartialEqSpec::eq_spec(&a, &a),
        PartialEqSpec::eq_spec(&a, &b) == PartialEqSpec::eq_spec(&b, &a),
        PartialEqSpec::eq_spec(&a, &b) && PartialEqSpec::eq_spec(&b, &c) ==> PartialEqSpec::eq_spec(&a, &c),
        PartialEqSpec::eq_spec(&a, &b) <==> PartialOrdSpec::partial_cmp_spec(&a, &b) == Some(Ordering::Equal),
        PartialEqSpec::eq_spec(&a, &b) ==> a.raw_parts().1 == b.raw_parts().1,
{
}

/// The comparison is a total order on the numeric values: antisymmetric and
/// transitive, and `Less` exactly when the value is smaller.
pub proof fn integer_order_is_total(a: Integer, b: Integer, c: Integer)
    ensures
        PartialOrdSpec::partial_cmp_spec(&a, &b) is Some,
        PartialOrdSpec::partial_cmp_spec(&a, &b) == Some(Ordering::Less)
            <==> PartialOrdSpec::partial_cmp_spec(&b, &a) == Some(Ordering::Greater),
        PartialOrdSpec::partial_cmp_spec(&a, &b) == Some(Ordering::Less)
            && PartialOrdSpec::partial_cmp_spec(&b, &c) == Some(Ordering::Less)
            ==> PartialOrdSpec::partial_cmp_spec(&a, &c) == Some(Ordering::Less),
        a.value() < b.value() <==> PartialOrdSpec::partial_cmp_spec(&a, &b) == Some(Ordering::Less),
{
}

} // verus!
