//! The decisions behind mapping a value tree onto a requested Rust type:
//! which scalar a request resolves to, the lax string coercions applied to
//! OpenStep documents, and the shared nesting cap.

use vstd::prelude::*;

use crate::date::{format_sentinel_date, parse_sentinel_date, sentinel_date, sentinel_text, civil_fields_of, text_layout_fields, civil_instant, Date};
use crate::uid::Uid;
use crate::depth::MAX_PARSE_DEPTH;
use crate::error::Error;
use crate::integer::Integer;
use crate::scalar::{bool_token, float_literal_ok, i64_literal, is_fault_error, parse_bool, parse_f64, parse_i64, parse_u64, u64_literal, FloatCodec};
use crate::strings::{concat_str, push_all, str_chars, string_from_chars};
use crate::value::Value;

verus! {

/// The integer a request resolves to: visited as signed or as unsigned.
#[derive(Debug, Clone, Copy, PartialEq, Eq, Structural)]
pub enum IntegerPick {
    /// Visit as `i64`.
    Signed(i64),
    /// Visit as `u64`.
    Unsigned(u64),
}

/// Whether `e` is the type mismatch for a request of `expected` meeting `v`.
pub open spec fn is_mismatch(e: Error, expected: &'static str, v: Value) -> bool {
    e matches Error::TypeMismatch { expected: x, found } && x == expected && found@ == v.kind_name()
}

fn mismatch(expected: &'static str, v: &Value) -> (r: Error)
    ensures
        is_mismatch(r, expected, *v),
{
    Error::TypeMismatch { expected, found: v.kind_label() }
}

/// Entry into a value at `depth`: refused past the nesting cap.
pub fn guard_entry(depth: usize) -> (r: Result<(), Error>)
    ensures
        r is Ok <==> depth <= MAX_PARSE_DEPTH,
        r matches Err(e) ==> e is MaxDepthExceeded,
{
    if depth > MAX_PARSE_DEPTH {
        Err(Error::MaxDepthExceeded)
    } else {
        Ok(())
    }
}

/// Descent into a container at `depth`: the depth one level down, refused
/// when that would pass the nesting cap.
pub fn guard_descent(depth: usize) -> (r: Result<usize, Error>)
    ensures
        depth < MAX_PARSE_DEPTH ==> r == Ok::<usize, Error>((depth + 1) as usize),
        depth >= MAX_PARSE_DEPTH ==> (r matches Err(e) && e is MaxDepthExceeded),
{
    if depth >= MAX_PARSE_DEPTH {
        Err(Error::MaxDepthExceeded)
    } else {
        Ok(depth + 1)
    }
}

/// What an integer request of a value yields: integers keep their
/// representation, UIDs are unsigned, and in lax mode a string parses as a
/// base-10 integer of the requested signedness.
pub open spec fn integer_request(v: Value, lax: bool, signed: bool) -> Option<Result<IntegerPick, ()>> {
    match v {
        Value::Integer(Integer::Signed(x)) => Some(Ok(IntegerPick::Signed(x))),
        Value::Integer(Integer::Unsigned(x)) => Some(Ok(IntegerPick::Unsigned(x))),
        Value::Uid(u) => Some(Ok(IntegerPick::Unsigned(u@))),
        Value::String(s) => if lax {
            if signed {
                match i64_literal(s@, 10) {
                    Ok(x) => Some(Ok(IntegerPick::Signed(x as i64))),
                    Err(_) => Some(Err(())),
                }
            } else {
                match u64_literal(s@, 10) {
                    Ok(x) => Some(Ok(IntegerPick::Unsigned(x as u64))),
                    Err(_) => Some(Err(())),
                }
            }
        } else {
            None
        },
        _ => None,
    }
}

/// Resolves an integer request; a value of another kind is a type
/// mismatch, a lax string that does not parse is the scalar error.
pub fn integer_target(value: &Value, lax: bool, signed: bool, expected: &'static str) -> (r: Result<
    IntegerPick,
    Error,
>)
    ensures
        match integer_request(*value, lax, signed) {
            Some(Ok(p)) => r == Ok::<IntegerPick, Error>(p),
            Some(Err(())) => r matches Err(e) && e is ParseScalar,
            None => r matches Err(e) && is_mismatch(e, expected, *value),
        },
{
    match value {
        Value::Integer(Integer::Signed(x)) => Ok(IntegerPick::Signed(*x)),
        Value::Integer(Integer::Unsigned(x)) => Ok(IntegerPick::Unsigned(*x)),
        Value::Uid(u) => Ok(IntegerPick::Unsigned(u.get())),
        Value::String(s) => {
            if !lax {
                return Err(mismatch(expected, value));
            }
            if signed {
                match parse_i64(s.as_str(), 10) {
                    Ok(x) => Ok(IntegerPick::Signed(x)),
                    Err(e) => Err(e),
                }
            } else {
                match parse_u64(s.as_str(), 10) {
                    Ok(x) => Ok(IntegerPick::Unsigned(x)),
                    Err(e) => Err(e),
                }
            }
        },
        _ => Err(mismatch(expected, value)),
    }
}

/// What a UID request of a value yields: a UID or a non-negative integer
/// is unsigned, a negative integer stays signed, and in lax mode a string
/// parses as a base-10 unsigned integer.
pub open spec fn uid_request(v: Value, lax: bool) -> Option<Result<IntegerPick, ()>> {
    match v {
        Value::Uid(u) => Some(Ok(IntegerPick::Unsigned(u@))),
        Value::Integer(Integer::Signed(x)) => if x < 0 {
            Some(Ok(IntegerPick::Signed(x)))
        } else {
            Some(Ok(IntegerPick::Unsigned(x as u64)))
        },
        Value::Integer(Integer::Unsigned(x)) => Some(Ok(IntegerPick::Unsigned(x))),
        Value::String(s) => if lax {
            match u64_literal(s@, 10) {
                Ok(x) => Some(Ok(IntegerPick::Unsigned(x as u64))),
                Err(_) => Some(Err(())),
            }
        } else {
            None
        },
        _ => None,
    }
}

/// Resolves the request behind the UID newtype.
pub fn uid_target(value: &Value, lax: bool) -> (r: Result<IntegerPick, Error>)
    ensures
        match uid_request(*value, lax) {
            Some(Ok(p)) => r == Ok::<IntegerPick, Error>(p),
            Some(Err(())) => r matches Err(e) && e is ParseScalar,
            None => r matches Err(Error::TypeMismatch { expected, found }) && expected@ == "UID"@ && found@
                == value.kind_name(),
        },
{
    proof {
        reveal_strlit("UID");
    }
    match value {
        Value::Uid(u) => Ok(IntegerPick::Unsigned(u.get())),
        Value::Integer(Integer::Signed(x)) => {
            if *x < 0 {
                Ok(IntegerPick::Signed(*x))
            } else {
                Ok(IntegerPick::Unsigned(*x as u64))
            }
        },
        Value::Integer(Integer::Unsigned(x)) => Ok(IntegerPick::Unsigned(*x)),
        Value::String(s) => {
            if !lax {
                return Err(Error::TypeMismatch { expected: "UID", found: value.kind_label() });
            }
            match parse_u64(s.as_str(), 10) {
                Ok(x) => Ok(IntegerPick::Unsigned(x)),
                Err(e) => Err(e),
            }
        },
        _ => Err(Error::TypeMismatch { expected: "UID", found: value.kind_label() }),
    }
}

/// Resolves a boolean request: a boolean, or in lax mode one of the twelve
/// boolean spellings.
pub fn bool_target(value: &Value, lax: bool) -> (r: Result<bool, Error>)
    ensures
        match *value {
            Value::Boolean(b) => r == Ok::<bool, Error>(b),
            Value::String(s) => if lax {
                match bool_token(s@) {
                    Some(b) => r == Ok::<bool, Error>(b),
                    None => r matches Err(e) && e is ParseScalar,
                }
            } else {
                r matches Err(Error::TypeMismatch { expected, found }) && expected@ == "bool"@ && found@
                    == value.kind_name()
            },
            _ => r matches Err(Error::TypeMismatch { expected, found }) && expected@ == "bool"@ && found@
                == value.kind_name(),
        },
{
    proof {
        reveal_strlit("bool");
    }
    match value {
        Value::Boolean(b) => Ok(*b),
        Value::String(s) => {
            if lax {
                parse_bool(s.as_str())
            } else {
                Err(Error::TypeMismatch { expected: "bool", found: value.kind_label() })
            }
        },
        _ => Err(Error::TypeMismatch { expected: "bool", found: value.kind_label() }),
    }
}

/// Resolves a floating-point request to a binary64 pattern: a real, or in
/// lax mode a string that parses as a float literal.
pub fn float_target<H: FloatCodec>(value: &Value, lax: bool, expected: &'static str, hooks: &H) -> (r: Result<
    u64,
    Error,
>)
    ensures
        match *value {
            Value::Real(x) => r == Ok::<u64, Error>(x.value_bits()),
            Value::String(s) => if lax {
                &&& r is Ok ==> float_literal_ok(s@)
                &&& !float_literal_ok(s@) ==> r is Err
                &&& r matches Err(e) ==> e is ParseScalar
            } else {
                r matches Err(e) && is_mismatch(e, expected, *value)
            },
            _ => r matches Err(e) && is_mismatch(e, expected, *value),
        },
{
    match value {
        Value::Real(x) => Ok(x.to_f64_bits()),
        Value::String(s) => {
            if lax {
                parse_f64(s.as_str(), hooks)
            } else {
                Err(mismatch(expected, value))
            }
        },
        _ => Err(mismatch(expected, value)),
    }
}

/// Resolves a string request: only a string satisfies it, in strict and
/// lax mode alike.
pub fn string_target(value: &Value, expected: &'static str) -> (r: Result<String, Error>)
    ensures
        match *value {
            Value::String(s) => r matches Ok(t) && t@ == s@,
            _ => r matches Err(e) && is_mismatch(e, expected, *value),
        },
{
    match value {
        Value::String(s) => Ok(string_from_chars(str_chars(s.as_str()).as_slice())),
        _ => Err(mismatch(expected, value)),
    }
}

/// Resolves the request behind the date newtype to its payload text: a
/// date, or in lax mode a string in the text-plist date layout.
pub fn date_target(value: &Value, lax: bool) -> (r: Result<String, Error>)
    ensures
        match *value {
            Value::Date(d) => r matches Ok(t) && t@ == sentinel_text(
                civil_fields_of(d.unix_nanos()),
                (d.unix_nanos() % 1_000_000_000) as nat,
            ),
            Value::String(s) => if lax {
                match (match text_layout_fields(vstd::utf8::encode_utf8(s@)) {
                    Some(f) => civil_instant(f),
                    None => None,
                }) {
                    Some(d) => r matches Ok(t) && t@ == sentinel_text(
                        civil_fields_of(d.unix_nanos()),
                        (d.unix_nanos() % 1_000_000_000) as nat,
                    ),
                    None => r matches Err(Error::ParseScalar(m)) && m@ == "invalid date literal: "@ + s@,
                }
            } else {
                r matches Err(Error::TypeMismatch { expected, found }) && expected@ == "date"@ && found@
                    == value.kind_name()
            },
            _ => r matches Err(Error::TypeMismatch { expected, found }) && expected@ == "date"@ && found@
                == value.kind_name(),
        },
{
    proof {
        reveal_strlit("date");
        reveal_strlit("invalid date literal: ");
    }
    match value {
        Value::Date(d) => Ok(format_sentinel_date(*d)),
        Value::String(s) => {
            if !lax {
                return Err(Error::TypeMismatch { expected: "date", found: value.kind_label() });
            }
            match Date::parse_text_layout(s.as_str()) {
                Some(d) => Ok(format_sentinel_date(d)),
                None => Err(Error::ParseScalar(concat_str("invalid date literal: ", s.as_str()))),
            }
        },
        _ => Err(Error::TypeMismatch { expected: "date", found: value.kind_label() }),
    }
}

/// The byte values a data value offers to a sequence request, each as an
/// unsigned integer value.
pub fn data_as_values(data: &Vec<u8>) -> (r: Vec<Value>)
    ensures
        r@.len() == data@.len(),
        forall|i: int| 0 <= i < data@.len() ==> #[trigger] r@[i] == Value::Integer(Integer::Unsigned(data@[i] as u64)),
{
    let mut out: Vec<Value> = Vec::new();
    let mut i: usize = 0;
    while i < data.len()
        invariant
            i <= data@.len(),
            out@.len() == i,
            forall|j: int| 0 <= j < i ==> #[trigger] out@[j] == Value::Integer(Integer::Unsigned(data@[j] as u64)),
        decreases data@.len() - i,
    {
        out.push(Value::Integer(Integer::Unsigned(data[i] as u64)));
        i = i + 1;
    }
    out
}

/// Why a sentinel newtype payload stands for neither a UID nor a date.
#[derive(Debug, Clone, Copy, PartialEq, Eq, Structural)]
pub enum SentinelFault {
    /// A negative integer where a UID's unsigned payload belongs.
    SignedUid,
    /// A string that is not a date payload.
    BadDatePayload,
    /// Neither an integer nor a string.
    WrongKind,
}

/// The value a sentinel newtype payload stands for when it is read back
/// into a value tree: a non-negative integer is a UID, a string is a date
/// in the bridge layout.
pub fn sentinel_value(payload: &Value) -> (r: Result<Value, SentinelFault>)
    ensures
        payload matches Value::Integer(i) ==> if 0 <= i.value() {
            r matches Ok(Value::Uid(u)) && u@ == i.value()
        } else {
            r == Err::<Value, SentinelFault>(SentinelFault::SignedUid)
        },
        payload matches Value::String(s) ==> match sentinel_date(vstd::utf8::encode_utf8(s@)) {
            Some(d) => r == Ok::<Value, SentinelFault>(Value::Date(d)),
            None => r == Err::<Value, SentinelFault>(SentinelFault::BadDatePayload),
        },
        !(payload is Integer || payload is String) ==> r == Err::<Value, SentinelFault>(SentinelFault::WrongKind),
{
    match payload {
        Value::Integer(i) => match i.as_unsigned() {
            Some(u) => Ok(Value::Uid(Uid::new(u))),
            None => Err(SentinelFault::SignedUid),
        },
        Value::String(s) => match parse_sentinel_date(s.as_str()) {
            Some(d) => Ok(Value::Date(d)),
            None => Err(SentinelFault::BadDatePayload),
        },
        _ => Err(SentinelFault::WrongKind),
    }
}

} // verus!
