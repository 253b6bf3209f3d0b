//! The `CF$UID` reference type used by Apple keyed archives.

use vstd::prelude::*;

verus! {

/// A `UID` value, as found in `NSKeyedArchiver` / `CF$UID` property lists.
#[derive(Debug, Clone, Copy, PartialEq, Eq, PartialOrd, Ord, Hash, Structural)]
pub struct Uid(pub(crate) u64);

impl View for Uid {
    type V = u64;

    closed spec fn view(&self) -> u64 {
        self.0
    }
}

impl Uid {
    /// Returns the underlying integer value.
    pub fn get(self) -> (r: u64)
        ensures
            r == self@,
    {
        self.0
    }

    /// The UID holding `value`.
    pub fn new(value: u64) -> (r: Uid)
        ensures
            r@ == value,
    {
        Uid(value)
    }
}

impl From<u64> for Uid {
    fn from(value: u64) -> (r: Uid) {
        Uid(value)
    }
}

impl vstd::std_specs::convert::FromSpecImpl<u64> for Uid {
    open spec fn obeys_from_spec() -> bool {
        true
    }

    closed spec fn from_spec(v: u64) -> Uid {
        Uid(v)
    }
}

impl From<Uid> for u64 {
    fn from(uid: Uid) -> (r: u64) {
        uid.0
    }
}

impl vstd::std_specs::convert::FromSpecImpl<Uid> for u64 {
    open spec fn obeys_from_spec() -> bool {
        true
    }

    closed spec fn from_spec(v: Uid) -> u64 {
        v.0
    }
}

/// Converting a number to a UID and back gives the number; the UID read
/// back from a conversion is the converted number.
pub proof fn uid_conversions_round_trip(n: u64, u: Uid)
    ensures
        <Uid as vstd::std_specs::convert::FromSpec<u64>>::from_spec(n)@ == n,
        <u64 as vstd::std_specs::convert::FromSpec<Uid>>::from_spec(u) == u@,
        <u64 as vstd::std_specs::convert::FromSpec<Uid>>::from_spec(
            <Uid as vstd::std_specs::convert::FromSpec<u64>>::from_spec(n),
        ) == n,
        <Uid as vstd::std_specs::convert::FromSpec<u64>>::from_spec(
            <u64 as vstd::std_specs::convert::FromSpec<Uid>>::from_spec(u),
        ) == u,
{
}

} // verus!
