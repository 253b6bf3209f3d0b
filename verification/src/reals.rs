//! The real (floating-point) model, held as IEEE 754 bit patterns together
//! with the binary codec's width flag.

use vstd::prelude::*;

use core::cmp::Ordering;
use vstd::std_specs::cmp::{PartialEqSpec, PartialEqSpecImpl, PartialOrdSpec, PartialOrdSpecImpl};

verus! {

/// A property-list real number.
///
/// A wide real holds the 64 bits of an IEEE 754 binary64 value; a narrow
/// one holds the 32 bits of the binary32 value it was read or built from.
/// The width drives the binary codec's tag choice and object uniquing; it
/// never takes part in equality or ordering, which compare the numeric
/// value with IEEE semantics (`NaN` is not equal to itself).
#[derive(Clone, Copy, Debug)]
pub struct Real {
    bits: u64,
    wide: bool,
}

/// The binary64 pattern of the binary32 value with pattern `b` (exact
/// widening; NaN payloads move to the top of the wider fraction).
pub open spec fn widen_f32(b: u32) -> u64 {
    let sign = ((b >> 31u32) as u64) << 63u64;
    let exp = (b >> 23u32) & 0xFFu32;
    let frac = b & 0x7F_FFFFu32;
    if exp == 0xFF {
        sign | (0x7FFu64 << 52u64) | ((frac as u64) << 29u64)
    } else if exp == 0 && frac == 0 {
        sign
    } else if exp == 0 {
        let p = top_bit(frac as nat);
        sign | (((p + 874) as u64) << 52u64) | ((((frac as nat) - pow2(p)) as u64) << ((52 - p) as u64))
    } else {
        sign | ((((exp as u64) + 896) as u64) << 52u64) | ((frac as u64) << 29u64)
    }
}

/// `2^k`.
pub open spec fn pow2(k: nat) -> nat
    decreases k,
{
    if k == 0 {
        1
    } else {
        2 * pow2((k - 1) as nat)
    }
}

/// The position of the highest set bit of a positive number.
pub open spec fn top_bit(n: nat) -> nat
    decreases n,
{
    if n <= 1 {
        0
    } else {
        1 + top_bit(n / 2)
    }
}

/// Whether a binary64 pattern is a NaN.
pub open spec fn is_nan_bits(b: u64) -> bool {
    (b & 0x7FF0_0000_0000_0000u64) == 0x7FF0_0000_0000_0000u64 && (b & 0x000F_FFFF_FFFF_FFFFu64) != 0
}

/// Whether a binary64 pattern is positive or negative zero.
pub open spec fn is_zero_bits(b: u64) -> bool {
    (b & 0x7FFF_FFFF_FFFF_FFFFu64) == 0
}

/// The position of a non-NaN binary64 pattern on the number line: the
/// magnitude bits, negated for negative values (both zeros map to 0).
pub open spec fn order_key(b: u64) -> int {
    let mag = (b & 0x7FFF_FFFF_FFFF_FFFFu64) as int;
    if b >> 63u64 == 1 {
        -mag
    } else {
        mag
    }
}

/// IEEE equality of two binary64 patterns.
pub open spec fn ieee_eq(a: u64, b: u64) -> bool {
    !is_nan_bits(a) && !is_nan_bits(b) && (a == b || (is_zero_bits(a) && is_zero_bits(b)))
}

/// IEEE ordering of two binary64 patterns (`None` when either is a NaN).
pub open spec fn ieee_cmp(a: u64, b: u64) -> Option<Ordering> {
    if is_nan_bits(a) || is_nan_bits(b) {
        None
    } else if order_key(a) < order_key(b) {
        Some(Ordering::Less)
    } else if order_key(a) == order_key(b) {
        Some(Ordering::Equal)
    } else {
        Some(Ordering::Greater)
    }
}

impl Real {
    /// Whether this real is conceptually 64-bit.
    pub closed spec fn spec_wide(self) -> bool {
        self.wide
    }

    /// The stored pattern: binary64 bits when wide, binary32 bits (in the low
    /// half) when narrow.
    pub closed spec fn spec_raw(self) -> u64 {
        self.bits
    }

    /// The wide real holding the binary64 pattern `bits`.
    pub closed spec fn wide_real(bits: u64) -> Real {
        Real { bits, wide: true }
    }

    /// The narrow real holding the binary32 pattern `bits`.
    pub closed spec fn narrow_real(bits: u32) -> Real {
        Real { bits: bits as u64, wide: false }
    }

    /// What the two spec constructors hold.
    pub proof fn lemma_ctors(b64: u64, b32: u32)
        ensures
            Real::wide_real(b64).spec_wide(),
            Real::wide_real(b64).spec_raw() == b64,
            !Real::narrow_real(b32).spec_wide(),
            Real::narrow_real(b32).spec_raw() == b32 as u64,
    {
    }

    /// The binary64 pattern of the numeric value.
    pub open spec fn value_bits(self) -> u64 {
        if self.spec_wide() {
            self.spec_raw()
        } else {
            widen_f32(self.spec_raw() as u32)
        }
    }

    /// A wide real holding the binary64 pattern `bits`.
    pub fn from_f64_bits(bits: u64) -> (r: Real)
        ensures
            r == Real::wide_real(bits),
            r.spec_wide(),
            r.spec_raw() == bits,
            r.value_bits() == bits,
    {
        Real { bits, wide: true }
    }

    /// A narrow real holding the binary32 pattern `bits`.
    pub fn from_f32_bits(bits: u32) -> (r: Real)
        ensures
            r == Real::narrow_real(bits),
            !r.spec_wide(),
            r.spec_raw() == bits as u64,
            r.value_bits() == widen_f32(bits),
    {
        Real { bits: bits as u64, wide: false }
    }

    /// Whether this real is conceptually 64-bit.
    pub fn wide(self) -> (r: bool)
        ensures
            r == self.spec_wide(),
    {
        self.wide
    }

    /// The binary32 pattern of a narrow real.
    pub fn f32_bits(self) -> (r: u32)
        requires
            !self.spec_wide(),
        ensures
            r as u64 == self.spec_raw(),
    {
        proof {
            use_type_invariant(&self);
        }
        self.bits as u32
    }

    /// The binary64 pattern of the numeric value (narrow reals widen
    /// exactly).
    pub fn to_f64_bits(self) -> (r: u64)
        ensures
            r == self.value_bits(),
    {
        proof {
            use_type_invariant(&self);
        }
        if self.wide {
            self.bits
        } else {
            widen_f32_exec(self.bits as u32)
        }
    }

    /// Whether the value is a NaN.
    pub fn is_nan(self) -> (r: bool)
        ensures
            r == is_nan_bits(self.value_bits()),
    {
        let b = self.to_f64_bits();
        (b & 0x7FF0_0000_0000_0000u64) == 0x7FF0_0000_0000_0000u64 && (b & 0x000F_FFFF_FFFF_FFFFu64) != 0
    }

    /// IEEE numeric equality.
    pub fn numeric_eq(&self, other: &Real) -> (r: bool)
        ensures
            r == ieee_eq(self.value_bits(), other.value_bits()),
    {
        let a = self.to_f64_bits();
        let b = other.to_f64_bits();
        let a_nan = (a & 0x7FF0_0000_0000_0000u64) == 0x7FF0_0000_0000_0000u64 && (a & 0x000F_FFFF_FFFF_FFFFu64) != 0;
        let b_nan = (b & 0x7FF0_0000_0000_0000u64) == 0x7FF0_0000_0000_0000u64 && (b & 0x000F_FFFF_FFFF_FFFFu64) != 0;
        !a_nan && !b_nan && (a == b || ((a & 0x7FFF_FFFF_FFFF_FFFFu64) == 0 && (b & 0x7FFF_FFFF_FFFF_FFFFu64) == 0))
    }

    /// IEEE numeric comparison.
    pub fn numeric_cmp(&self, other: &Real) -> (r: Option<Ordering>)
        ensures
            r == ieee_cmp(self.value_bits(), other.value_bits()),
    {
        let a = self.to_f64_bits();
        let b = other.to_f64_bits();
        let a_nan = (a & 0x7FF0_0000_0000_0000u64) == 0x7FF0_0000_0000_0000u64 && (a & 0x000F_FFFF_FFFF_FFFFu64) != 0;
        let b_nan = (b & 0x7FF0_0000_0000_0000u64) == 0x7FF0_0000_0000_0000u64 && (b & 0x000F_FFFF_FFFF_FFFFu64) != 0;
        if a_nan || b_nan {
            return None;
        }
        let ka = key_exec(a);
        let kb = key_exec(b);
        if ka < kb {
            Some(Ordering::Less)
        } else if ka == kb {
            Some(Ordering::Equal)
        } else {
            Some(Ordering::Greater)
        }
    }

    #[verifier::type_invariant]
    spec fn narrow_fits(self) -> bool {
        !self.wide ==> self.bits <= 0xFFFF_FFFFu64
    }
}

fn key_exec(b: u64) -> (r: i128)
    ensures
        r as int == order_key(b),
{
    let mag = (b & 0x7FFF_FFFF_FFFF_FFFFu64) as i128;
    if b >> 63u64 == 1 {
        -mag
    } else {
        mag
    }
}

/// Exact binary32-to-binary64 widening on bit patterns.
pub fn widen_f32_exec(b: u32) -> (r: u64)
    ensures
        r == widen_f32(b),
{
    let sign = ((b >> 31u32) as u64) << 63u64;
    let exp = (b >> 23u32) & 0xFFu32;
    let frac = b & 0x7F_FFFFu32;
    if exp == 0xFF {
        sign | (0x7FFu64 << 52u64) | ((frac as u64) << 29u64)
    } else if exp == 0 && frac == 0 {
        sign
    } else if exp == 0 {
        assert((b & 0x7F_FFFFu32) < 0x80_0000) by (bit_vector);
        let p = top_bit_exec(frac);
        let low = frac as u64 - pow2_exec(p);
        sign | (((p + 874) as u64) << 52u64) | (low << ((52 - p) as u64))
    } else {
        sign | ((((exp as u64) + 896) as u64) << 52u64) | ((frac as u64) << 29u64)
    }
}

fn pow2_exec(k: u32) -> (r: u64)
    requires
        k < 23,
    ensures
        r as nat == pow2(k as nat),
        r <= 0x40_0000,
{
    let mut r: u64 = 1;
    let mut i: u32 = 0;
    while i < k
        invariant
            i <= k < 23,
            r as nat == pow2(i as nat),
            r <= pow2(i as nat),
            pow2(i as nat) <= 0x40_0000,
        decreases k - i,
    {
        proof {
            lemma_pow2_bound((i + 1) as nat);
        }
        r = r * 2;
        i = i + 1;
    }
    r
}

proof fn lemma_pow2_bound(k: nat)
    requires
        k <= 22,
    ensures
        pow2(k) <= 0x40_0000,
    decreases k,
{
    if k > 0 {
        lemma_pow2_bound((k - 1) as nat);
        lemma_pow2_mono((k - 1) as nat);
    }
    reveal_with_fuel(pow2, 23);
}

proof fn lemma_pow2_mono(k: nat)
    ensures
        pow2(k) < pow2(k + 1),
        pow2(k) >= 1,
    decreases k,
{
    if k > 0 {
        lemma_pow2_mono((k - 1) as nat);
    }
}

fn top_bit_exec(n: u32) -> (r: u32)
    requires
        0 < n < 0x80_0000,
    ensures
        r as nat == top_bit(n as nat),
        r < 23,
        pow2(r as nat) <= n,
{
    let r = top_bit_rec(n);
    proof {
        lemma_top_bit_props(n as nat);
        assert(pow2(23) == 0x80_0000) by {
            reveal_with_fuel(pow2, 24);
        }
        lemma_top_bit_lt(n as nat, 23);
    }
    r
}

fn top_bit_rec(n: u32) -> (r: u32)
    requires
        0 < n,
    ensures
        r as nat == top_bit(n as nat),
        r <= 32,
    decreases n,
{
    proof {
        assert(pow2(33) > 0xFFFF_FFFF) by {
            reveal_with_fuel(pow2, 34);
        }
        lemma_top_bit_lt(n as nat, 33);
    }
    if n <= 1 {
        0
    } else {
        1 + top_bit_rec(n / 2)
    }
}

proof fn lemma_top_bit_props(n: nat)
    requires
        n > 0,
    ensures
        pow2(top_bit(n)) <= n,
    decreases n,
{
    if n > 1 {
        lemma_top_bit_props(n / 2);
    }
}

proof fn lemma_top_bit_lt(n: nat, j: nat)
    requires
        0 < n < pow2(j),
    ensures
        top_bit(n) < j,
    decreases n,
{
    if j == 0 {
    } else if n > 1 {
        assert(n / 2 < pow2((j - 1) as nat));
        lemma_top_bit_lt(n / 2, (j - 1) as nat);
    }
}

impl PartialEq for Real {
    fn eq(&self, other: &Real) -> (r: bool) {
        self.numeric_eq(other)
    }
}

impl PartialEqSpecImpl for Real {
    open spec fn obeys_eq_spec() -> bool {
        true
    }

    open spec fn eq_spec(&self, other: &Real) -> bool {
        ieee_eq(self.value_bits(), other.value_bits())
    }
}

impl PartialOrd for Real {
    fn partial_cmp(&self, other: &Real) -> (r: Option<Ordering>) {
        self.numeric_cmp(other)
    }
}

impl PartialOrdSpecImpl for Real {
    open spec fn obeys_partial_cmp_spec() -> bool {
        true
    }

    open spec fn partial_cmp_spec(&self, other: &Real) -> Option<Ordering> {
        ieee_cmp(self.value_bits(), other.value_bits())
    }
}

/// Real equality compares numeric values: NaN equals nothing, the two
/// zeros are equal, and the width flag never matters.
pub proof fn real_equality_is_numeric(a: Real, b: Real)
    ensures
        is_nan_bits(a.value_bits()) ==> !PartialEqSpec::eq_spec(&a, &b),
        PartialEqSpec::eq_spec(&a, &b) == PartialEqSpec::eq_spec(&b, &a),
        !is_nan_bits(a.value_bits()) && a.value_bits() == b.value_bits() ==> PartialEqSpec::eq_spec(&a, &b),
        PartialEqSpec::eq_spec(&a, &b) <==> PartialOrdSpec::partial_cmp_spec(&a, &b) == Some(Ordering::Equal),
{
    lemma_key_eq(a.value_bits(), b.value_bits());
}

proof fn lemma_key_eq(a: u64, b: u64)
    ensures
        order_key(a) == order_key(b) <==> (a == b || (is_zero_bits(a) && is_zero_bits(b))),
{
    let ma = a & 0x7FFF_FFFF_FFFF_FFFFu64;
    let mb = b & 0x7FFF_FFFF_FFFF_FFFFu64;
    assert(ma == mb && (a >> 63u64) == (b >> 63u64) ==> a == b) by (bit_vector)
        requires
            ma == a & 0x7FFF_FFFF_FFFF_FFFFu64,
            mb == b & 0x7FFF_FFFF_FFFF_FFFFu64,
    ;
    assert((a >> 63u64) == 0 || (a >> 63u64) == 1) by (bit_vector);
    assert((b >> 63u64) == 0 || (b >> 63u64) == 1) by (bit_vector);
}

} // verus!
