//! UTC instants with nanosecond precision, plus the two textual plist date
//! layouts (lenient RFC 3339 and the OpenStep text layout).

use vstd::prelude::*;

use crate::strings::{decimal_digits, digit_char, push_all, push_bytes, str_bytes, str_chars, string_from_chars, u64_decimal};

verus! {

/// The earliest representable instant (-9999-01-01T00:00:00Z) in Unix
/// nanoseconds.
pub const MIN_UNIX_NANOS: i128 = -377_705_116_800_000_000_000i128;

/// The latest representable instant (9999-12-31T23:59:59.999999999Z) in
/// Unix nanoseconds.
pub const MAX_UNIX_NANOS: i128 = 253_402_300_799_999_999_999i128;

/// Nanoseconds per second.
pub const NANOS_PER_SECOND: i128 = 1_000_000_000i128;

/// An absolute point in time: a UTC instant with nanosecond precision,
/// within the years -9999 through 9999.
#[derive(Clone, Copy, Debug, PartialEq, Eq, PartialOrd, Ord, Hash)]
pub struct Date {
    nanos: i128,
}

/// The instant `n` (Unix nanoseconds) pulled into the representable range.
pub open spec fn clamp_nanos(n: int) -> int {
    if n < MIN_UNIX_NANOS {
        MIN_UNIX_NANOS as int
    } else if n > MAX_UNIX_NANOS {
        MAX_UNIX_NANOS as int
    } else {
        n
    }
}

/// The Unix nanoseconds of the civil date-time (to the second) in UTC, as
/// the `time` crate computes them (proleptic Gregorian calendar).
pub uninterp spec fn civil_unix_nanos(year: i32, month: u8, day: u8, hour: u8, minute: u8, second: u8) -> int;

/// The UTC civil fields `(year, month, day, hour, minute, second)` of an
/// instant given in Unix nanoseconds, as the `time` crate computes them.
pub uninterp spec fn civil_fields_of(nanos: int) -> (i32, u8, u8, u8, u8, u8);

/// Whether `year` is a Gregorian leap year.
pub open spec fn is_leap_year(year: int) -> bool {
    (year % 4 == 0 && year % 100 != 0) || year % 400 == 0
}

/// The number of days in `month` of `year`.
pub open spec fn days_in_month(year: int, month: int) -> int {
    if month == 2 {
        if is_leap_year(year) {
            29
        } else {
            28
        }
    } else if month == 4 || month == 6 || month == 9 || month == 11 {
        30
    } else {
        31
    }
}

/// Whether the civil fields name a date-time that the `time` crate accepts.
pub open spec fn valid_civil(year: int, month: int, day: int, hour: int, minute: int, second: int, nanos: int) -> bool {
    &&& -9999 <= year <= 9999
    &&& 1 <= month <= 12
    &&& 1 <= day <= days_in_month(year, month)
    &&& 0 <= hour < 24
    &&& 0 <= minute < 60
    &&& 0 <= second < 60
    &&& 0 <= nanos < 1_000_000_000
}

/// The Unix nanoseconds of a civil UTC date-time
/// (`Date::from_calendar_date`, `Time::from_hms_nano`,
/// `PrimitiveDateTime::assume_utc`, `unix_timestamp_nanos` of the `time`
/// crate). The result exists exactly for valid fields and lies in the
/// crate's representable range; it is the instant of the whole second plus
/// the nanoseconds, and the whole second's instant is the crate's calendar
/// arithmetic, which this contract names without restating.
#[verifier::external_body]
fn time_civil_to_unix_nanos(
    year: i32,
    month: u8,
    day: u8,
    hour: u8,
    minute: u8,
    second: u8,
    nanos: u32,
) -> (r: Option<i128>)
    ensures
        r is Some <==> valid_civil(year as int, month as int, day as int, hour as int, minute as int, second as int, nanos as int),
        r matches Some(n) ==> n as int == civil_unix_nanos(year, month, day, hour, minute, second) + nanos,
        r matches Some(n) ==> MIN_UNIX_NANOS <= n <= MAX_UNIX_NANOS,
{
    let month = time::Month::try_from(month).ok()?;
    let date = time::Date::from_calendar_date(year, month, day).ok()?;
    let clock = time::Time::from_hms_nano(hour, minute, second, nanos).ok()?;
    Some(time::PrimitiveDateTime::new(date, clock).assume_utc().unix_timestamp_nanos())
}

/// The UTC civil fields of an instant (`OffsetDateTime::from_unix_timestamp_nanos`
/// followed by its date and clock accessors, `time` crate). The contract
/// states the documented field ranges, that the fields name a valid
/// date-time, and that building that date-time back
/// (`Date::from_calendar_date`, `Time::from_hms_nano` with no nanoseconds,
/// `assume_utc`, `unix_timestamp_nanos`) gives the instant cut to its whole
/// second; the calendar arithmetic itself is named.
#[verifier::external_body]
fn time_civil_fields(nanos: i128) -> (r: (i32, u8, u8, u8, u8, u8))
    requires
        MIN_UNIX_NANOS <= nanos <= MAX_UNIX_NANOS,
    ensures
        r == civil_fields_of(nanos as int),
        -9999 <= r.0 <= 9999,
        1 <= r.1 <= 12,
        1 <= r.2 <= 31,
        r.3 < 24,
        r.4 < 60,
        r.5 < 60,
        valid_civil(r.0 as int, r.1 as int, r.2 as int, r.3 as int, r.4 as int, r.5 as int, 0),
        civil_unix_nanos(r.0, r.1, r.2, r.3, r.4, r.5) == nanos - nanos % 1_000_000_000,
{
    let t = time::OffsetDateTime::from_unix_timestamp_nanos(nanos).unwrap_or(time::OffsetDateTime::UNIX_EPOCH);
    (t.year(), u8::from(t.month()), t.day(), t.hour(), t.minute(), t.second())
}

/// Whether `time` can represent an instant
/// (`OffsetDateTime::from_unix_timestamp_nanos` succeeds): exactly the years
/// -9999 through 9999.
#[verifier::external_body]
fn time_accepts_unix_nanos(nanos: i128) -> (r: bool)
    ensures
        r == (MIN_UNIX_NANOS <= nanos <= MAX_UNIX_NANOS),
{
    time::OffsetDateTime::from_unix_timestamp_nanos(nanos).is_ok()
}

impl Date {
    /// The instant in Unix nanoseconds.
    pub closed spec fn unix_nanos(self) -> int {
        self.nanos as int
    }

    #[verifier::type_invariant]
    spec fn in_range(self) -> bool {
        MIN_UNIX_NANOS <= self.nanos <= MAX_UNIX_NANOS
    }

    /// Whether two dates are the same instant.
    pub fn same_instant(&self, other: &Date) -> (r: bool)
        ensures
            r == (self.unix_nanos() == other.unix_nanos()),
    {
        self.nanos == other.nanos
    }

    /// The instant in Unix nanoseconds.
    pub fn nanos(&self) -> (r: i128)
        ensures
            r as int == self.unix_nanos(),
            MIN_UNIX_NANOS <= r <= MAX_UNIX_NANOS,
    {
        proof {
            use_type_invariant(self);
        }
        self.nanos
    }

    /// The instant `unix_nanos`, clamped at the representable bounds.
    pub fn clamped(unix_nanos: i128) -> (r: Date)
        ensures
            r.unix_nanos() == clamp_nanos(unix_nanos as int),
    {
        if time_accepts_unix_nanos(unix_nanos) {
            Date { nanos: unix_nanos }
        } else if unix_nanos < 0 {
            Date { nanos: MIN_UNIX_NANOS }
        } else {
            Date { nanos: MAX_UNIX_NANOS }
        }
    }

    /// The instant `secs + nanos / 1e9` after the Unix epoch, normalizing
    /// out-of-range nanoseconds and clamping at the representable bounds.
    pub fn from_unix(secs: i64, nanos: i64) -> (r: Date)
        ensures
            r.unix_nanos() == clamp_nanos(secs as int * 1_000_000_000 + nanos as int),
    {
        let total = (secs as i128) * NANOS_PER_SECOND + (nanos as i128);
        Date::clamped(total)
    }

    /// `(seconds, subsecond nanoseconds)` since the Unix epoch, with the
    /// nanoseconds in `0..1_000_000_000` (the floor convention).
    pub fn unix_parts(self) -> (r: (i64, u32))
        ensures
            r.0 as int * 1_000_000_000 + r.1 as int == self.unix_nanos(),
            r.1 < 1_000_000_000,
    {
        proof {
            use_type_invariant(&self);
        }
        let n = self.nanos;
        let mut secs = n / NANOS_PER_SECOND;
        let mut rem = n % NANOS_PER_SECOND;
        if rem < 0 {
            secs = secs - 1;
            rem = rem + NANOS_PER_SECOND;
        }
        assert(secs * 1_000_000_000 + rem == n);
        (secs as i64, rem as u32)
    }

    /// The UTC civil fields `(year, month, day, hour, minute, second)`.
    pub fn civil_parts(self) -> (r: (i32, u8, u8, u8, u8, u8))
        ensures
            r == civil_fields_of(self.unix_nanos()),
            valid_civil(r.0 as int, r.1 as int, r.2 as int, r.3 as int, r.4 as int, r.5 as int, 0),
            civil_unix_nanos(r.0, r.1, r.2, r.3, r.4, r.5) == self.unix_nanos() - self.unix_nanos()
                % 1_000_000_000,
            -9999 <= r.0 <= 9999,
            1 <= r.1 <= 12,
            1 <= r.2 <= 31,
            r.3 < 24,
            r.4 < 60,
            r.5 < 60,
    {
        proof {
            use_type_invariant(&self);
        }
        time_civil_fields(self.nanos)
    }

    /// The instant of a civil date-time given with a zone offset in seconds;
    /// `None` when the fields name no valid date-time.
    pub fn from_civil(fields: CivilFields) -> (r: Option<Date>)
        ensures
            r == civil_instant(fields),
    {
        if fields.year < -9999 || fields.year > 9999 || fields.month < 0 || fields.month > 255
            || fields.day < 0 || fields.day > 255 || fields.hour < 0 || fields.hour > 255
            || fields.minute < 0 || fields.minute > 255 || fields.second < 0 || fields.second > 255 {
            return None;
        }
        match time_civil_to_unix_nanos(
            fields.year as i32,
            fields.month as u8,
            fields.day as u8,
            fields.hour as u8,
            fields.minute as u8,
            fields.second as u8,
            fields.nanos,
        ) {
            Some(civil) => {
                let unix = civil - (fields.offset as i128) * NANOS_PER_SECOND;
                Some(Date::clamped(unix))
            },
            None => None,
        }
    }

    /// Parses an XML plist date with the lenient RFC 3339 grammar: 4-digit
    /// year, 1-or-2-digit hour, optional `.`/`,` fraction, and a mandatory
    /// `Z` or `±hh:mm` zone (offset hour at most 24, minute at most 60).
    pub fn parse_rfc3339(input: &str) -> (r: Option<Date>)
        ensures
            r == rfc3339_date(vstd::utf8::encode_utf8(input@)),
    {
        let s = str_bytes(input);
        match parse_rfc3339_fields(&s) {
            Some(f) => Date::from_civil(f),
            None => None,
        }
    }

    /// Parses a text-plist date in the `YYYY-MM-DD HH:MM:SS ±hhmm` layout:
    /// 1-or-2-digit hour, optional fraction after the seconds, and a
    /// mandatory `±hhmm` zone (hour at most 24, minute at most 60).
    pub fn parse_text_layout(input: &str) -> (r: Option<Date>)
        ensures
            r == (match text_layout_fields(vstd::utf8::encode_utf8(input@)) {
                Some(f) => civil_instant(f),
                None => None,
            }),
    {
        let s = str_bytes(input);
        match parse_text_layout_fields(&s) {
            Some(f) => Date::from_civil(f),
            None => None,
        }
    }

    /// Formats this date for the XML codec: RFC 3339 in UTC with the `Z`
    /// suffix, sub-second precision dropped. For years 0 and later the text
    /// reads back as this instant cut to its second.
    pub fn format_rfc3339(self) -> (r: String)
        ensures
            r@ == rfc3339_text(civil_fields_of(self.unix_nanos())),
            civil_fields_of(self.unix_nanos()).0 >= 0 ==> rfc3339_date(vstd::utf8::encode_utf8(r@)) == Some(
                date_at(self.unix_nanos() - self.unix_nanos() % 1_000_000_000),
            ),
    {
        proof {
            use_type_invariant(&self);
        }
        let (year, month, day, hour, minute, second) = self.civil_parts();
        proof {
            if year >= 0 {
                lemma_rfc3339_reads_back((year, month, day, hour, minute, second), self.unix_nanos());
            }
        }
        let mut out = year_chars(year);
        out.push('-');
        push_all(&mut out, &padded(month as u64, 2));
        out.push('-');
        push_all(&mut out, &padded(day as u64, 2));
        out.push('T');
        push_all(&mut out, &padded(hour as u64, 2));
        out.push(':');
        push_all(&mut out, &padded(minute as u64, 2));
        out.push(':');
        push_all(&mut out, &padded(second as u64, 2));
        out.push('Z');
        string_from_chars(&out)
    }

    /// Formats this date for the text codec: `YYYY-MM-DD HH:MM:SS +0000` in
    /// UTC, sub-second precision dropped.
    pub fn format_text_layout(self) -> (r: String)
        ensures
            r@ == text_layout_text(civil_fields_of(self.unix_nanos())),
            civil_fields_of(self.unix_nanos()).0 >= 0 ==> (text_layout_fields(vstd::utf8::encode_utf8(r@)) matches Some(g)
                && civil_instant(g) == Some(date_at(self.unix_nanos() - self.unix_nanos() % 1_000_000_000))),
    {
        proof {
            use_type_invariant(&self);
        }
        let (year, month, day, hour, minute, second) = self.civil_parts();
        proof {
            if year >= 0 {
                lemma_text_layout_reads_back((year, month, day, hour, minute, second), self.unix_nanos());
            }
        }
        let mut out = year_chars(year);
        out.push('-');
        push_all(&mut out, &padded(month as u64, 2));
        out.push('-');
        push_all(&mut out, &padded(day as u64, 2));
        out.push(' ');
        push_all(&mut out, &padded(hour as u64, 2));
        out.push(':');
        push_all(&mut out, &padded(minute as u64, 2));
        out.push(':');
        push_all(&mut out, &padded(second as u64, 2));
        out.push(' ');
        out.push('+');
        out.push('0');
        out.push('0');
        out.push('0');
        out.push('0');
        string_from_chars(&out)
    }
}

/// The fields of a parsed date-time layout; `offset` is the zone offset in
/// seconds east of UTC.
#[derive(Clone, Copy, Debug, PartialEq, Eq, Structural)]
pub struct CivilFields {
    /// Year.
    pub year: i64,
    /// Month.
    pub month: i64,
    /// Day of month.
    pub day: i64,
    /// Hour.
    pub hour: i64,
    /// Minute.
    pub minute: i64,
    /// Second.
    pub second: i64,
    /// Sub-second nanoseconds.
    pub nanos: u32,
    /// Zone offset in seconds.
    pub offset: i64,
}

impl CivilFields {
    /// The bounds every parsed layout respects.
    pub open spec fn wf(self) -> bool {
        &&& 0 <= self.year <= 9999
        &&& 0 <= self.month <= 99
        &&& 0 <= self.day <= 99
        &&& 0 <= self.hour <= 99
        &&& 0 <= self.minute <= 99
        &&& 0 <= self.second <= 99
        &&& -90000 <= self.offset <= 90000
    }
}

/// The date an RFC 3339 text denotes, if any.
pub open spec fn rfc3339_date(s: Seq<u8>) -> Option<Date> {
    match rfc3339_fields(s) {
        Some(f) => civil_instant(f),
        None => None,
    }
}

/// The instant (Unix nanoseconds, clamped) that civil fields denote, if any.
pub open spec fn civil_instant(f: CivilFields) -> Option<Date> {
    if valid_civil(f.year as int, f.month as int, f.day as int, f.hour as int, f.minute as int, f.second as int, f.nanos as int) {
        Some(date_at(clamp_nanos(
            civil_unix_nanos(f.year as i32, f.month as u8, f.day as u8, f.hour as u8, f.minute as u8, f.second as u8)
                + f.nanos - f.offset * 1_000_000_000,
        )))
    } else {
        None
    }
}

/// The date whose instant is `n`; meaningful for `n` in range.
pub closed spec fn date_at(n: int) -> Date {
    Date { nanos: n as i128 }
}

/// A date read back from its own instant is the same date.
pub proof fn lemma_date_at_unix_nanos(d: Date)
    ensures
        date_at(d.unix_nanos()) == d,
{
}

/// `date_at` gives back the instant it was asked for.
pub proof fn lemma_date_at(n: int)
    requires
        MIN_UNIX_NANOS <= n <= MAX_UNIX_NANOS,
    ensures
        date_at(n).unix_nanos() == n,
{
}

/// Whether a byte is an ASCII digit.
pub open spec fn is_digit(b: u8) -> bool {
    48 <= b <= 57
}

/// The position after the literal byte `c` at `p`.
pub open spec fn lit_at(s: Seq<u8>, p: int, c: u8) -> Option<int> {
    if 0 <= p < s.len() && s[p] == c {
        Some(p + 1)
    } else {
        None
    }
}

/// One digit at `p`: its value and the next position.
pub open spec fn digit_at(s: Seq<u8>, p: int) -> Option<(int, int)> {
    if 0 <= p < s.len() && is_digit(s[p]) {
        Some(((s[p] - 48) as int, p + 1))
    } else {
        None
    }
}

/// Exactly `n` digits at `p`, read as a decimal number.
pub open spec fn fixed_digits(s: Seq<u8>, p: int, n: nat) -> Option<(int, int)>
    decreases n,
{
    if n == 0 {
        Some((0, p))
    } else {
        match fixed_digits(s, p, (n - 1) as nat) {
            Some((v, q)) => match digit_at(s, q) {
                Some((d, q2)) => Some((v * 10 + d, q2)),
                None => None,
            },
            None => None,
        }
    }
}

/// One digit, or two when a second one follows.
pub open spec fn one_or_two(s: Seq<u8>, p: int) -> Option<(int, int)> {
    match digit_at(s, p) {
        Some((a, q)) => match digit_at(s, q) {
            Some((b, q2)) => Some((a * 10 + b, q2)),
            None => Some((a, q)),
        },
        None => None,
    }
}

/// Scans a digit run from `q`, keeping the first nine digits.
pub open spec fn frac_scan(s: Seq<u8>, q: int, digits: nat, acc: nat) -> (nat, nat, int)
    decreases s.len() - q,
{
    if 0 <= q < s.len() && is_digit(s[q]) {
        if digits < 9 {
            frac_scan(s, q + 1, digits + 1, acc * 10 + (s[q] - 48) as nat)
        } else {
            frac_scan(s, q + 1, digits, acc)
        }
    } else {
        (acc, digits, q)
    }
}

/// `acc` scaled by ten for each digit short of nine.
pub open spec fn pad_nanos(acc: nat, digits: nat) -> nat
    decreases 9 - digits,
{
    if digits >= 9 {
        acc
    } else {
        pad_nanos(acc * 10, digits + 1)
    }
}

/// The optional fraction: `.` or `,` and at least one digit; nanoseconds
/// and the next position.
pub open spec fn fraction(s: Seq<u8>, p: int) -> (nat, int) {
    if 0 <= p && p + 1 < s.len() && (s[p] == 46 || s[p] == 44) && is_digit(s[p + 1]) {
        let (acc, digits, q) = frac_scan(s, p + 1, 0, 0);
        (pad_nanos(acc, digits), q)
    } else {
        (0, p)
    }
}

/// `H[H]:MM:SS[fraction]`.
pub open spec fn clock(s: Seq<u8>, p: int) -> Option<(int, int, int, nat, int)> {
    match one_or_two(s, p) {
        Some((h, p1)) => match lit_at(s, p1, 58) {
            Some(p2) => match fixed_digits(s, p2, 2) {
                Some((mi, p3)) => match lit_at(s, p3, 58) {
                    Some(p4) => match fixed_digits(s, p4, 2) {
                        Some((se, p5)) => {
                            let (ns, p6) = fraction(s, p5);
                            Some((h, mi, se, ns, p6))
                        },
                        None => None,
                    },
                    None => None,
                },
                None => None,
            },
            None => None,
        },
        None => None,
    }
}

/// A zone offset with lenient ranges: hour at most 24, minute at most 60.
pub open spec fn zone_seconds(hours: int, minutes: int, negative: bool) -> Option<int> {
    if hours > 24 || minutes > 60 {
        None
    } else if negative {
        Some(-((hours * 60 + minutes) * 60))
    } else {
        Some((hours * 60 + minutes) * 60)
    }
}

/// `+` or `-` at `p`: whether negative, and the next position.
pub open spec fn sign_at(s: Seq<u8>, p: int) -> Option<(bool, int)> {
    if 0 <= p < s.len() && s[p] == 43 {
        Some((false, p + 1))
    } else if 0 <= p < s.len() && s[p] == 45 {
        Some((true, p + 1))
    } else {
        None
    }
}

/// `Z` or `±hh:mm`.
pub open spec fn rfc3339_offset(s: Seq<u8>, p: int) -> Option<(int, int)> {
    match lit_at(s, p, 90) {
        Some(q) => Some((0, q)),
        None => match sign_at(s, p) {
            Some((neg, p1)) => match fixed_digits(s, p1, 2) {
                Some((h, p2)) => match lit_at(s, p2, 58) {
                    Some(p3) => match fixed_digits(s, p3, 2) {
                        Some((m, p4)) => match zone_seconds(h, m, neg) {
                            Some(z) => Some((z, p4)),
                            None => None,
                        },
                        None => None,
                    },
                    None => None,
                },
                None => None,
            },
            None => None,
        },
    }
}

/// `±hhmm`.
pub open spec fn numeric_offset(s: Seq<u8>, p: int) -> Option<(int, int)> {
    match sign_at(s, p) {
        Some((neg, p1)) => match fixed_digits(s, p1, 2) {
            Some((h, p2)) => match fixed_digits(s, p2, 2) {
                Some((m, p3)) => match zone_seconds(h, m, neg) {
                    Some(z) => Some((z, p3)),
                    None => None,
                },
                None => None,
            },
            None => None,
        },
        None => None,
    }
}

/// `YYYY-MM-DD` followed by the separator byte `sep`.
pub open spec fn calendar_part(s: Seq<u8>, sep: u8) -> Option<(int, int, int, int)> {
    match fixed_digits(s, 0, 4) {
        Some((y, p1)) => match lit_at(s, p1, 45) {
            Some(p2) => match fixed_digits(s, p2, 2) {
                Some((mo, p3)) => match lit_at(s, p3, 45) {
                    Some(p4) => match fixed_digits(s, p4, 2) {
                        Some((d, p5)) => match lit_at(s, p5, sep) {
                            Some(p6) => Some((y, mo, d, p6)),
                            None => None,
                        },
                        None => None,
                    },
                    None => None,
                },
                None => None,
            },
            None => None,
        },
        None => None,
    }
}

/// The fields of an RFC 3339 date that consumes all of `s`.
pub open spec fn rfc3339_fields(s: Seq<u8>) -> Option<CivilFields> {
    match calendar_part(s, 84) {
        Some((y, mo, d, p)) => match clock(s, p) {
            Some((h, mi, se, ns, q)) => match rfc3339_offset(s, q) {
                Some((z, e)) => if e == s.len() {
                    Some(CivilFields { year: y as i64, month: mo as i64, day: d as i64, hour: h as i64, minute: mi as i64, second: se as i64, nanos: ns as u32, offset: z as i64 })
                } else {
                    None
                },
                None => None,
            },
            None => None,
        },
        None => None,
    }
}

/// The fields of a text-layout date that consumes all of `s`.
pub open spec fn text_layout_fields(s: Seq<u8>) -> Option<CivilFields> {
    match calendar_part(s, 32) {
        Some((y, mo, d, p)) => match clock(s, p) {
            Some((h, mi, se, ns, q)) => match lit_at(s, q, 32) {
                Some(q2) => match numeric_offset(s, q2) {
                    Some((z, e)) => if e == s.len() {
                        Some(CivilFields { year: y as i64, month: mo as i64, day: d as i64, hour: h as i64, minute: mi as i64, second: se as i64, nanos: ns as u32, offset: z as i64 })
                    } else {
                        None
                    },
                    None => None,
                },
                None => None,
            },
            None => None,
        },
        None => None,
    }
}

/// `n` in decimal, left-padded with zeros to at least `w` characters.
pub open spec fn padded_digits(n: nat, w: nat) -> Seq<char> {
    let d = decimal_digits(n);
    if d.len() < w {
        Seq::new((w - d.len()) as nat, |i: int| '0') + d
    } else {
        d
    }
}

/// A year with at least four digits, `-` first when negative.
pub open spec fn year_text(y: int) -> Seq<char> {
    if y < 0 {
        seq!['-'] + padded_digits((-y) as nat, 4)
    } else {
        padded_digits(y as nat, 4)
    }
}

/// `YYYY-MM-DDTHH:MM:SSZ`.
pub open spec fn rfc3339_text(f: (i32, u8, u8, u8, u8, u8)) -> Seq<char> {
    year_text(f.0 as int) + seq!['-'] + padded_digits(f.1 as nat, 2) + seq!['-'] + padded_digits(f.2 as nat, 2)
        + seq!['T'] + padded_digits(f.3 as nat, 2) + seq![':'] + padded_digits(f.4 as nat, 2) + seq![':']
        + padded_digits(f.5 as nat, 2) + seq!['Z']
}

/// `YYYY-MM-DD HH:MM:SS +0000`.
pub open spec fn text_layout_text(f: (i32, u8, u8, u8, u8, u8)) -> Seq<char> {
    year_text(f.0 as int) + seq!['-'] + padded_digits(f.1 as nat, 2) + seq!['-'] + padded_digits(f.2 as nat, 2)
        + seq![' '] + padded_digits(f.3 as nat, 2) + seq![':'] + padded_digits(f.4 as nat, 2) + seq![':']
        + padded_digits(f.5 as nat, 2) + seq![' ', '+', '0', '0', '0', '0']
}

/// `n` in decimal, zero-padded to at least `w` characters.
fn padded(n: u64, w: usize) -> (r: Vec<char>)
    requires
        w <= 9,
    ensures
        r@ == padded_digits(n as nat, w as nat),
{
    let d = u64_decimal(n);
    if d.len() < w {
        let mut out: Vec<char> = Vec::new();
        let k = w - d.len();
        let mut i: usize = 0;
        while i < k
            invariant
                0 <= i <= k,
                out@ == Seq::new(i as nat, |j: int| '0'),
            decreases k - i,
        {
            out.push('0');
            i = i + 1;
        }
        push_all(&mut out, &d);
        out
    } else {
        d
    }
}

fn year_chars(year: i32) -> (r: Vec<char>)
    requires
        -9999 <= year <= 9999,
    ensures
        r@ == year_text(year as int),
{
    if year < 0 {
        let mut out: Vec<char> = Vec::new();
        out.push('-');
        push_all(&mut out, &padded((-year) as u64, 4));
        out
    } else {
        padded(year as u64, 4)
    }
}

fn lit_exec(s: &Vec<u8>, p: usize, c: u8) -> (r: Option<usize>)
    ensures
        r matches Some(q) ==> lit_at(s@, p as int, c) == Some(q as int),
        r is None ==> lit_at(s@, p as int, c) is None,
{
    if p < s.len() && s[p] == c {
        Some(p + 1)
    } else {
        None
    }
}

fn digit_exec(s: &Vec<u8>, p: usize) -> (r: Option<(i64, usize)>)
    ensures
        r matches Some((v, q)) ==> digit_at(s@, p as int) == Some((v as int, q as int)),
        r is None ==> digit_at(s@, p as int) is None,
{
    if p < s.len() && 48 <= s[p] && s[p] <= 57 {
        Some(((s[p] - 48) as i64, p + 1))
    } else {
        None
    }
}

fn fixed_exec(s: &Vec<u8>, p: usize, n: usize) -> (r: Option<(i64, usize)>)
    requires
        n <= 4,
    ensures
        r matches Some((v, q)) ==> fixed_digits(s@, p as int, n as nat) == Some((v as int, q as int)) && 0 <= v < 10000,
        r is None ==> fixed_digits(s@, p as int, n as nat) is None,
{
    let mut v: i64 = 0;
    let mut q = p;
    let mut i: usize = 0;
    while i < n
        invariant
            0 <= i <= n <= 4,
            fixed_digits(s@, p as int, i as nat) == Some((v as int, q as int)),
            0 <= v < 10000,
            v < pow10(i as nat),
            q <= s@.len() || i == 0,
        decreases n - i,
    {
        match digit_exec(s, q) {
            Some((d, q2)) => {
                proof {
                    assert(pow10((i + 1) as nat) == 10 * pow10(i as nat));
                    lemma_pow10_bound(i as nat);
                }
                v = v * 10 + d;
                q = q2;
            },
            None => {
                proof {
                    assert(fixed_digits(s@, p as int, (i + 1) as nat) is None);
                    lemma_fixed_none(s@, p as int, (i + 1) as nat, n as nat);
                }
                return None;
            },
        }
        i = i + 1;
    }
    Some((v, q))
}

/// `10^k`.
pub open spec fn pow10(k: nat) -> int
    decreases k,
{
    if k == 0 {
        1
    } else {
        10 * pow10((k - 1) as nat)
    }
}

proof fn lemma_pow10_bound(k: nat)
    requires
        k <= 3,
    ensures
        pow10(k + 1) <= 10000,
{
    reveal_with_fuel(pow10, 5);
}

proof fn lemma_fixed_none(s: Seq<u8>, p: int, i: nat, n: nat)
    requires
        i <= n,
        fixed_digits(s, p, i) is None,
    ensures
        fixed_digits(s, p, n) is None,
    decreases n - i,
{
    if i < n {
        lemma_fixed_none(s, p, i + 1, n);
    }
}

fn one_or_two_exec(s: &Vec<u8>, p: usize) -> (r: Option<(i64, usize)>)
    ensures
        r matches Some((v, q)) ==> one_or_two(s@, p as int) == Some((v as int, q as int)) && 0 <= v <= 99,
        r is None ==> one_or_two(s@, p as int) is None,
{
    match digit_exec(s, p) {
        Some((a, q)) => match digit_exec(s, q) {
            Some((b, q2)) => Some((a * 10 + b, q2)),
            None => Some((a, q)),
        },
        None => None,
    }
}

fn fraction_exec(s: &Vec<u8>, p: usize) -> (r: (u32, usize))
    ensures
        fraction(s@, p as int) == (r.0 as nat, r.1 as int),
        r.0 < 1_000_000_000,
        p <= r.1,
{
    if !(p < s.len() && (s[p] == 46 || s[p] == 44)) {
        return (0, p);
    }
    if !(p + 1 < s.len() && 48 <= s[p + 1] && s[p + 1] <= 57) {
        return (0, p);
    }
    let mut q = p + 1;
    let mut nanos: u32 = 0;
    let mut digits: u32 = 0;
    while q < s.len() && 48 <= s[q] && s[q] <= 57
        invariant
            p + 1 <= q <= s@.len(),
            digits <= 9,
            nanos < pow10(digits as nat),
            frac_scan(s@, p as int + 1, 0, 0) == frac_scan(s@, q as int, digits as nat, nanos as nat),
        decreases s@.len() - q,
    {
        if digits < 9 {
            proof {
                lemma_pow10_step(digits as nat);
            }
            nanos = nanos * 10 + (s[q] - 48) as u32;
            digits = digits + 1;
        }
        q = q + 1;
    }
    let mut d = digits;
    let mut n = nanos;
    while d < 9
        invariant
            digits <= d <= 9,
            n < pow10(d as nat),
            pad_nanos(nanos as nat, digits as nat) == pad_nanos(n as nat, d as nat),
        decreases 9 - d,
    {
        proof {
            lemma_pow10_step(d as nat);
        }
        n = n * 10;
        d = d + 1;
    }
    proof {
        assert(pow10(9) == 1_000_000_000) by {
            reveal_with_fuel(pow10, 10);
        }
    }
    (n, q)
}

proof fn lemma_pow10_step(k: nat)
    requires
        k < 9,
    ensures
        pow10(k + 1) == 10 * pow10(k),
        pow10(k + 1) <= 1_000_000_000,
{
    reveal_with_fuel(pow10, 11);
    assert(pow10(9) == 1_000_000_000);
    lemma_pow10_mono(k + 1, 9);
}

proof fn lemma_pow10_mono(a: nat, b: nat)
    requires
        a <= b,
    ensures
        pow10(a) <= pow10(b),
    decreases b - a,
{
    if a < b {
        lemma_pow10_mono(a, (b - 1) as nat);
        assert(pow10(b) == 10 * pow10((b - 1) as nat));
        lemma_pow10_pos((b - 1) as nat);
    }
}

proof fn lemma_pow10_pos(k: nat)
    ensures
        pow10(k) >= 1,
    decreases k,
{
    if k > 0 {
        lemma_pow10_pos((k - 1) as nat);
    }
}

fn clock_exec(s: &Vec<u8>, p: usize) -> (r: Option<(i64, i64, i64, u32, usize)>)
    ensures
        r matches Some((h, mi, se, ns, q)) ==> clock(s@, p as int) == Some((h as int, mi as int, se as int, ns as nat, q as int))
            && 0 <= h <= 99 && 0 <= mi <= 99 && 0 <= se <= 99 && ns < 1_000_000_000,
        r is None ==> clock(s@, p as int) is None,
{
    let (h, p1) = one_or_two_exec(s, p)?;
    let p2 = lit_exec(s, p1, 58)?;
    let (mi, p3) = fixed_exec(s, p2, 2)?;
    let p4 = lit_exec(s, p3, 58)?;
    let (se, p5) = fixed_exec(s, p4, 2)?;
    proof {
        reveal_with_fuel(fixed_digits, 3);
    }
    let (ns, p6) = fraction_exec(s, p5);
    Some((h, mi, se, ns, p6))
}

fn zone_exec(hours: i64, minutes: i64, negative: bool) -> (r: Option<i64>)
    requires
        0 <= hours <= 99,
        0 <= minutes <= 99,
    ensures
        r matches Some(z) ==> zone_seconds(hours as int, minutes as int, negative) == Some(z as int) && -90000 <= z <= 90000,
        r is None ==> zone_seconds(hours as int, minutes as int, negative) is None,
{
    if hours > 24 || minutes > 60 {
        return None;
    }
    let seconds = (hours * 60 + minutes) * 60;
    if negative {
        Some(-seconds)
    } else {
        Some(seconds)
    }
}

fn sign_exec(s: &Vec<u8>, p: usize) -> (r: Option<(bool, usize)>)
    ensures
        r matches Some((neg, q)) ==> sign_at(s@, p as int) == Some((neg, q as int)),
        r is None ==> sign_at(s@, p as int) is None,
{
    if p < s.len() && s[p] == 43 {
        Some((false, p + 1))
    } else if p < s.len() && s[p] == 45 {
        Some((true, p + 1))
    } else {
        None
    }
}

fn two_digits(s: &Vec<u8>, p: usize) -> (r: Option<(i64, usize)>)
    ensures
        r matches Some((v, q)) ==> fixed_digits(s@, p as int, 2) == Some((v as int, q as int)) && 0 <= v <= 99,
        r is None ==> fixed_digits(s@, p as int, 2) is None,
{
    let r = fixed_exec(s, p, 2);
    proof {
        reveal_with_fuel(fixed_digits, 3);
    }
    r
}

fn calendar_exec(s: &Vec<u8>, sep: u8) -> (r: Option<(i64, i64, i64, usize)>)
    ensures
        r matches Some((y, mo, d, q)) ==> calendar_part(s@, sep) == Some((y as int, mo as int, d as int, q as int))
            && 0 <= y <= 9999 && 0 <= mo <= 99 && 0 <= d <= 99,
        r is None ==> calendar_part(s@, sep) is None,
{
    let (y, p1) = fixed_exec(s, 0, 4)?;
    let p2 = lit_exec(s, p1, 45)?;
    let (mo, p3) = two_digits(s, p2)?;
    let p4 = lit_exec(s, p3, 45)?;
    let (d, p5) = two_digits(s, p4)?;
    let p6 = lit_exec(s, p5, sep)?;
    Some((y, mo, d, p6))
}

fn parse_rfc3339_fields(s: &Vec<u8>) -> (r: Option<CivilFields>)
    ensures
        r == rfc3339_fields(s@),
        r matches Some(f) ==> f.wf(),
{
    let (y, mo, d, p) = calendar_exec(s, 84)?;
    let (h, mi, se, ns, q) = clock_exec(s, p)?;
    let (z, e) = match lit_exec(s, q, 90) {
        Some(q2) => (0i64, q2),
        None => {
            let (neg, p1) = sign_exec(s, q)?;
            let (hh, p2) = two_digits(s, p1)?;
            let p3 = lit_exec(s, p2, 58)?;
            let (mm, p4) = two_digits(s, p3)?;
            let z = zone_exec(hh, mm, neg)?;
            (z, p4)
        },
    };
    if e != s.len() {
        return None;
    }
    Some(CivilFields { year: y, month: mo, day: d, hour: h, minute: mi, second: se, nanos: ns, offset: z })
}

fn parse_text_layout_fields(s: &Vec<u8>) -> (r: Option<CivilFields>)
    ensures
        r == text_layout_fields(s@),
        r matches Some(f) ==> f.wf(),
{
    let (y, mo, d, p) = calendar_exec(s, 32)?;
    let (h, mi, se, ns, q) = clock_exec(s, p)?;
    let q2 = lit_exec(s, q, 32)?;
    let (neg, p1) = sign_exec(s, q2)?;
    let (hh, p2) = two_digits(s, p1)?;
    let (mm, p3) = two_digits(s, p2)?;
    let z = zone_exec(hh, mm, neg)?;
    if p3 != s.len() {
        return None;
    }
    Some(CivilFields { year: y, month: mo, day: d, hour: h, minute: mi, second: se, nanos: ns, offset: z })
}

// ---------------------------------------------------------------------------
// The date payload of the value bridge
// ---------------------------------------------------------------------------

/// `s` without its trailing `0` characters.
pub open spec fn trim_trailing_zeros(s: Seq<char>) -> Seq<char>
    decreases s.len(),
{
    if s.len() > 0 && s.last() == '0' {
        trim_trailing_zeros(s.drop_last())
    } else {
        s
    }
}

/// The bridge payload of a date: RFC 3339 in UTC with a `Z` suffix and,
/// when the instant has a sub-second part, up to nine fraction digits with
/// trailing zeros trimmed.
pub open spec fn sentinel_text(fields: (i32, u8, u8, u8, u8, u8), subsec: nat) -> Seq<char> {
    if subsec == 0 {
        rfc3339_text(fields)
    } else {
        rfc3339_text(fields).drop_last() + seq!['.'] + trim_trailing_zeros(padded_digits(subsec, 9)) + seq!['Z']
    }
}

/// Formats the bridge payload of a date, which round-trips the nanosecond
/// model losslessly.
pub fn format_sentinel_date(date: Date) -> (r: String)
    ensures
        r@ == sentinel_text(civil_fields_of(date.unix_nanos()), (date.unix_nanos() % 1_000_000_000) as nat),
        sentinel_date(vstd::utf8::encode_utf8(r@)) == Some(date),
{
    proof {
        use_type_invariant(&date);
    }
    let parts = date.civil_parts();
    proof {
        lemma_sentinel_reads_back(parts, date.unix_nanos());
        lemma_date_at_unix_nanos(date);
    }
    let formatted = date.format_rfc3339();
    let (secs, nanos) = date.unix_parts();
    proof {
        assert(date.unix_nanos() % 1_000_000_000 == nanos as int) by (nonlinear_arith)
            requires
                secs as int * 1_000_000_000 + nanos as int == date.unix_nanos(),
                0 <= nanos < 1_000_000_000,
        ;
    }
    let mut out = str_chars(formatted.as_str());
    if nanos != 0 {
        let ghost full = out@;
        out.pop();
        assert(out@ =~= full.drop_last());
        out.push('.');
        let digits = padded(nanos as u64, 9);
        let mut trimmed: Vec<char> = Vec::new();
        push_all(&mut trimmed, digits.as_slice());
        while trimmed.len() > 0 && trimmed[trimmed.len() - 1] == '0'
            invariant
                trim_trailing_zeros(trimmed@) == trim_trailing_zeros(digits@),
            decreases trimmed@.len(),
        {
            let ghost before = trimmed@;
            trimmed.pop();
            assert(trimmed@ =~= before.drop_last());
        }
        push_all(&mut out, trimmed.as_slice());
        out.push('Z');
    }
    string_from_chars(out.as_slice())
}

/// The fraction of the negative-year payload: none before a final `Z` at
/// byte 19, or `.` at byte 19 followed by one to nine digits and a final
/// `Z`; in nanoseconds.
pub open spec fn sentinel_nanos(s: Seq<u8>) -> Option<nat> {
    if s.len() == 20 && s[19] == 90 {
        Some(0)
    } else if s.len() >= 20 && s[19] == 46 && s[s.len() - 1] == 90 && 1 <= s.len() - 21 <= 9 {
        match fixed_digits(s, 20, (s.len() - 21) as nat) {
            Some((v, _)) => Some(pad_nanos(v as nat, (s.len() - 21) as nat)),
            None => None,
        }
    } else {
        None
    }
}

/// The fields of the negative-year payload `YYYY-MM-DDTHH:MM:SS[.f]Z`, read
/// after its leading `-`: year magnitude, month, day, hour, minute, second
/// and nanoseconds.
pub open spec fn negative_year_parts(s: Seq<u8>) -> Option<(int, int, int, int, int, int, nat)> {
    if fixed_digits(s, 0, 4) is Some && lit_at(s, 4, 45) is Some && fixed_digits(s, 5, 2) is Some && lit_at(s, 7, 45)
        is Some && fixed_digits(s, 8, 2) is Some && lit_at(s, 10, 84) is Some && fixed_digits(s, 11, 2) is Some
        && lit_at(s, 13, 58) is Some && fixed_digits(s, 14, 2) is Some && lit_at(s, 16, 58) is Some && fixed_digits(
        s,
        17,
        2,
    ) is Some && sentinel_nanos(s) is Some {
        Some(
            (
                fixed_digits(s, 0, 4).unwrap().0,
                fixed_digits(s, 5, 2).unwrap().0,
                fixed_digits(s, 8, 2).unwrap().0,
                fixed_digits(s, 11, 2).unwrap().0,
                fixed_digits(s, 14, 2).unwrap().0,
                fixed_digits(s, 17, 2).unwrap().0,
                sentinel_nanos(s).unwrap(),
            ),
        )
    } else {
        None
    }
}

/// The date a negative-year payload (after its `-`) denotes.
pub open spec fn negative_year_date(s: Seq<u8>) -> Option<Date> {
    match negative_year_parts(s) {
        Some((y, mo, d, h, mi, se, ns)) => if valid_civil(-y, mo, d, h, mi, se, ns as int) {
            Some(
                date_at(
                    clamp_nanos(
                        civil_unix_nanos((-y) as i32, mo as u8, d as u8, h as u8, mi as u8, se as u8) + ns,
                    ),
                ),
            )
        } else {
            None
        },
        None => None,
    }
}

/// The date a bridge payload denotes: the negative-year layout after a
/// leading `-`, the lenient RFC 3339 grammar otherwise.
pub open spec fn sentinel_date(payload: Seq<u8>) -> Option<Date> {
    if payload.len() >= 1 && payload[0] == 45 {
        negative_year_date(payload.subrange(1, payload.len() as int))
    } else {
        match rfc3339_fields(payload) {
            Some(f) => civil_instant(f),
            None => None,
        }
    }
}

/// Up to nine digits at `p`, read as a decimal number.
fn fraction_digits(s: &Vec<u8>, p: usize, n: usize) -> (r: Option<u32>)
    requires
        n <= 9,
    ensures
        r matches Some(v) ==> fixed_digits(s@, p as int, n as nat) matches Some((w, _)) && w == v as int && v
            < 1_000_000_000,
        r is None ==> fixed_digits(s@, p as int, n as nat) is None,
{
    let mut v: u32 = 0;
    let mut q = p;
    let mut i: usize = 0;
    while i < n
        invariant
            0 <= i <= n <= 9,
            fixed_digits(s@, p as int, i as nat) == Some((v as int, q as int)),
            v < pow10(i as nat),
            pow10(i as nat) <= 1_000_000_000,
        decreases n - i,
    {
        proof {
            lemma_pow10_upto9(i as nat);
        }
        match digit_exec(s, q) {
            Some((d, q2)) => {
                assert(v * 10 + d < pow10((i + 1) as nat)) by (nonlinear_arith)
                    requires
                        v < pow10(i as nat),
                        0 <= d < 10,
                        pow10((i + 1) as nat) == 10 * pow10(i as nat),
                ;
                v = v * 10 + d as u32;
                q = q2;
            },
            None => {
                proof {
                    assert(fixed_digits(s@, p as int, (i + 1) as nat) is None);
                    lemma_fixed_none(s@, p as int, (i + 1) as nat, n as nat);
                }
                return None;
            },
        }
        i = i + 1;
    }
    Some(v)
}

proof fn lemma_pow10_upto9(k: nat)
    requires
        k < 9,
    ensures
        pow10(k + 1) == 10 * pow10(k),
        pow10(k + 1) <= 1_000_000_000,
{
    reveal_with_fuel(pow10, 11);
}

proof fn lemma_pad_nanos_bound(acc: nat, digits: nat)
    requires
        digits <= 9,
        acc < pow10(digits),
    ensures
        pad_nanos(acc, digits) < 1_000_000_000,
    decreases 9 - digits,
{
    if digits < 9 {
        assert(acc * 10 < pow10(digits + 1)) by (nonlinear_arith)
            requires
                acc < pow10(digits),
                pow10(digits + 1) == 10 * pow10(digits),
        ;
        lemma_pow10_upto9(digits);
        lemma_pad_nanos_bound(acc * 10, digits + 1);
    } else {
        reveal_with_fuel(pow10, 11);
    }
}

fn pad_exec(acc: u32, digits: usize) -> (r: u32)
    requires
        digits <= 9,
        acc < pow10(digits as nat),
    ensures
        r as nat == pad_nanos(acc as nat, digits as nat),
        r < 1_000_000_000,
{
    let mut v = acc;
    let mut k = digits;
    proof {
        lemma_pad_nanos_bound(acc as nat, digits as nat);
    }
    while k < 9
        invariant
            k <= 9,
            v < pow10(k as nat),
            pad_nanos(v as nat, k as nat) == pad_nanos(acc as nat, digits as nat),
        decreases 9 - k,
    {
        proof {
            lemma_pow10_upto9(k as nat);
        }
        assert(v * 10 < pow10((k + 1) as nat)) by (nonlinear_arith)
            requires
                v < pow10(k as nat),
                pow10((k + 1) as nat) == 10 * pow10(k as nat),
        ;
        v = v * 10;
        k = k + 1;
    }
    v
}

/// Reads the negative-year payload after its leading `-`.
pub fn parse_negative_year_date(rest: &Vec<u8>) -> (r: Option<Date>)
    ensures
        r == negative_year_date(rest@),
{
    let s = rest;
    let (y, _) = fixed_exec(s, 0, 4)?;
    lit_exec(s, 4, 45)?;
    let (mo, _) = fixed_exec(s, 5, 2)?;
    lit_exec(s, 7, 45)?;
    let (d, _) = fixed_exec(s, 8, 2)?;
    lit_exec(s, 10, 84)?;
    let (h, _) = fixed_exec(s, 11, 2)?;
    lit_exec(s, 13, 58)?;
    let (mi, _) = fixed_exec(s, 14, 2)?;
    lit_exec(s, 16, 58)?;
    let (se, _) = fixed_exec(s, 17, 2)?;
    let n = s.len();
    let nanos: u32 = if n == 20 && s[19] == 90 {
        0
    } else if n >= 20 && s[19] == 46 && s[n - 1] == 90 && n >= 22 && n - 21 <= 9 {
        let k = n - 21;
        let v = fraction_digits(s, 20, k)?;
        proof {
            reveal_with_fuel(pow10, 11);
            lemma_fixed_bound(s@, 20, k as nat);
        }
        pad_exec(v, k)
    } else {
        return None;
    };
    assert(sentinel_nanos(s@) == Some(nanos as nat));
    if y > 9999 || mo > 255 || d > 255 || h > 255 || mi > 255 || se > 255 {
        return None;
    }
    match time_civil_to_unix_nanos(-(y as i32), mo as u8, d as u8, h as u8, mi as u8, se as u8, nanos) {
        Some(civil) => Some(Date::clamped(civil)),
        None => None,
    }
}

proof fn lemma_fixed_bound(s: Seq<u8>, p: int, n: nat)
    requires
        fixed_digits(s, p, n) is Some,
    ensures
        fixed_digits(s, p, n).unwrap().0 < pow10(n),
        fixed_digits(s, p, n).unwrap().0 >= 0,
    decreases n,
{
    if n > 0 {
        lemma_fixed_bound(s, p, (n - 1) as nat);
    }
}

/// Reads a bridge payload back into a date.
pub fn parse_sentinel_date(payload: &str) -> (r: Option<Date>)
    ensures
        r == sentinel_date(vstd::utf8::encode_utf8(payload@)),
{
    let bytes = str_bytes(payload);
    if bytes.len() >= 1 && bytes[0] == 45 {
        let mut rest: Vec<u8> = Vec::new();
        push_bytes(&mut rest, &bytes.as_slice()[1..bytes.len()]);
        assert(rest@ =~= bytes@.subrange(1, bytes@.len() as int));
        parse_negative_year_date(&rest)
    } else {
        match parse_rfc3339_fields(&bytes) {
            Some(f) => Date::from_civil(f),
            None => None,
        }
    }
}

// ---------------------------------------------------------------------------
// Reading back the RFC 3339 text
// ---------------------------------------------------------------------------

/// The last `w` decimal digits of `n`, zero-padded.
pub open spec fn fixed_width_digits(n: nat, w: nat) -> Seq<char>
    decreases w,
{
    if w == 0 {
        Seq::empty()
    } else {
        fixed_width_digits(n / 10, (w - 1) as nat).push(digit_char(n % 10))
    }
}

proof fn lemma_fixed_width_len(n: nat, w: nat)
    ensures
        fixed_width_digits(n, w).len() == w,
    decreases w,
{
    if w > 0 {
        lemma_fixed_width_len(n / 10, (w - 1) as nat);
    }
}

proof fn lemma_digit_char_byte(k: nat)
    requires
        k < 10,
    ensures
        digit_char(k) as u32 == k + 48,
        digit_char(k) as u8 == k + 48,
        '\0' <= digit_char(k) <= '\u{7f}',
        is_digit((digit_char(k) as u32) as u8),
{
    let u = (k + 48) as u32;
    assert((u as char) as u32 == u);
    assert((u as char) as u8 == u as u8);
}

proof fn lemma_zero_width_digits(m: nat)
    ensures
        fixed_width_digits(0, m) == Seq::new(m, |i: int| '0'),
    decreases m,
{
    if m > 0 {
        lemma_zero_width_digits((m - 1) as nat);
        lemma_digit_char_byte(0);
        assert(fixed_width_digits(0, m) =~= Seq::new(m, |i: int| '0'));
    }
}

proof fn lemma_decimal_digits_len(n: nat, w: nat)
    requires
        w >= 1,
        n < pow10(w),
    ensures
        decimal_digits(n).len() <= w,
    decreases n,
{
    if n >= 10 {
        reveal_with_fuel(pow10, 2);
        assert(w >= 2) by {
            if w < 2 {
                assert(pow10(1) == 10);
            }
        }
        assert(n / 10 < pow10((w - 1) as nat)) by (nonlinear_arith)
            requires
                n < pow10(w),
                pow10(w) == 10 * pow10((w - 1) as nat),
        ;
        lemma_decimal_digits_len(n / 10, (w - 1) as nat);
    }
}

/// Zero-padding to `w` digits is the last `w` decimal digits, for numbers
/// below `10^w`.
proof fn lemma_padded_is_fixed_width(n: nat, w: nat)
    requires
        w >= 1,
        n < pow10(w),
    ensures
        padded_digits(n, w) == fixed_width_digits(n, w),
    decreases w,
{
    lemma_decimal_digits_len(n, w);
    if n < 10 {
        lemma_zero_width_digits((w - 1) as nat);
        assert(padded_digits(n, w) =~= fixed_width_digits(n, w));
    } else {
        reveal_with_fuel(pow10, 2);
        assert(w >= 2) by {
            if w < 2 {
                assert(pow10(1) == 10);
            }
        }
        assert(n / 10 < pow10((w - 1) as nat)) by (nonlinear_arith)
            requires
                n < pow10(w),
                pow10(w) == 10 * pow10((w - 1) as nat),
        ;
        lemma_padded_is_fixed_width(n / 10, (w - 1) as nat);
        lemma_decimal_digits_len(n / 10, (w - 1) as nat);
        let k = decimal_digits(n).len();
        assert(decimal_digits(n) == decimal_digits(n / 10).push(digit_char(n % 10)));
        assert(padded_digits(n, w) =~= padded_digits(n / 10, (w - 1) as nat).push(digit_char(n % 10)));
    }
}

/// Bytes that spell the last `w` decimal digits of `n` read back as `n`,
/// for `n` below `10^w`.
proof fn lemma_fixed_digits_read(s: Seq<u8>, p: int, n: nat, w: nat)
    requires
        0 <= p,
        p + w <= s.len(),
        n < pow10(w),
        forall|k: int| 0 <= k < w ==> s[p + k] == #[trigger] fixed_width_digits(n, w)[k] as u8,
    ensures
        fixed_digits(s, p, w) == Some((n as int, p + w)),
    decreases w,
{
    if w > 0 {
        let fw = fixed_width_digits(n, w);
        let prev = fixed_width_digits(n / 10, (w - 1) as nat);
        lemma_fixed_width_len(n / 10, (w - 1) as nat);
        assert(fw == prev.push(digit_char(n % 10)));
        assert(n / 10 < pow10((w - 1) as nat)) by (nonlinear_arith)
            requires
                n < pow10(w),
                pow10(w) == 10 * pow10((w - 1) as nat),
        ;
        assert forall|k: int| 0 <= k < w - 1 implies s[p + k] == #[trigger] prev[k] as u8 by {
            assert(fw[k] == prev[k]);
        }
        lemma_fixed_digits_read(s, p, n / 10, (w - 1) as nat);
        lemma_digit_char_byte(n % 10);
        assert(fw[w - 1] == digit_char(n % 10));
        assert(s[p + w - 1] == n % 10 + 48);
        assert((n / 10) * 10 + n % 10 == n) by (nonlinear_arith);
    } else {
        assert(n == 0);
    }
}

/// A segment of `t` starting at `p` spells `seg`.
spec fn spells(t: Seq<char>, p: int, seg: Seq<char>) -> bool {
    forall|k: int| 0 <= k < seg.len() ==> t[p + k] == #[trigger] seg[k]
}

proof fn lemma_spells_bytes(t: Seq<char>, b: Seq<u8>, p: int, n: nat, w: nat)
    requires
        0 <= p,
        p + w <= t.len(),
        t.len() == b.len(),
        forall|i: int| 0 <= i < t.len() ==> t[i] as u8 == #[trigger] b[i],
        spells(t, p, fixed_width_digits(n, w)),
        n < pow10(w),
    ensures
        fixed_digits(b, p, w) == Some((n as int, p + w)),
{
    lemma_fixed_width_len(n, w);
    let fw = fixed_width_digits(n, w);
    assert forall|k: int| 0 <= k < w implies b[p + k] == #[trigger] fw[k] as u8 by {
        assert(t[p + k] == fw[k]);
    }
    lemma_fixed_digits_read(b, p, n, w);
}

/// The RFC 3339 text of civil fields in years 0 through 9999, read by the
/// lenient grammar, gives back those fields with no fraction and a zero
/// offset; they denote the instant the fields were taken from, cut to its
/// second.
proof fn lemma_rfc3339_reads_back(f: (i32, u8, u8, u8, u8, u8), n: int)
    requires
        0 <= f.0 <= 9999,
        1 <= f.1 <= 12,
        1 <= f.2 <= 31,
        f.3 < 24,
        f.4 < 60,
        f.5 < 60,
        valid_civil(f.0 as int, f.1 as int, f.2 as int, f.3 as int, f.4 as int, f.5 as int, 0),
        civil_unix_nanos(f.0, f.1, f.2, f.3, f.4, f.5) == n - n % 1_000_000_000,
        MIN_UNIX_NANOS <= n <= MAX_UNIX_NANOS,
    ensures
        rfc3339_date(vstd::utf8::encode_utf8(rfc3339_text(f))) == Some(date_at(n - n % 1_000_000_000)),
{
    reveal_with_fuel(pow10, 5);
    let (y, mo, d, h, mi, se) = (f.0 as nat, f.1 as nat, f.2 as nat, f.3 as nat, f.4 as nat, f.5 as nat);
    lemma_padded_is_fixed_width(y, 4);
    lemma_padded_is_fixed_width(mo, 2);
    lemma_padded_is_fixed_width(d, 2);
    lemma_padded_is_fixed_width(h, 2);
    lemma_padded_is_fixed_width(mi, 2);
    lemma_padded_is_fixed_width(se, 2);
    let fy = fixed_width_digits(y, 4);
    let fmo = fixed_width_digits(mo, 2);
    let fd = fixed_width_digits(d, 2);
    let fh = fixed_width_digits(h, 2);
    let fmi = fixed_width_digits(mi, 2);
    let fse = fixed_width_digits(se, 2);
    lemma_fixed_width_len(y, 4);
    lemma_fixed_width_len(mo, 2);
    lemma_fixed_width_len(d, 2);
    lemma_fixed_width_len(h, 2);
    lemma_fixed_width_len(mi, 2);
    lemma_fixed_width_len(se, 2);
    let t = rfc3339_text(f);
    assert(year_text(f.0 as int) == fy);
    assert(t =~= fy + seq!['-'] + fmo + seq!['-'] + fd + seq!['T'] + fh + seq![':'] + fmi + seq![':'] + fse
        + seq!['Z']);
    assert(t.len() == 20);
    assert(spells(t, 0, fy));
    assert(spells(t, 5, fmo));
    assert(spells(t, 8, fd));
    assert(spells(t, 11, fh));
    assert(spells(t, 14, fmi));
    assert(spells(t, 17, fse));
    assert(t[4] == '-' && t[7] == '-' && t[10] == 'T' && t[13] == ':' && t[16] == ':' && t[19] == 'Z');
    assert(vstd::utf8::is_ascii_chars(t)) by {
        assert forall|i: int| 0 <= i < t.len() implies '\0' <= #[trigger] t[i] <= '\u{7f}' by {
            if 0 <= i < 4 {
                assert(fy == fixed_width_digits(y / 10, 3).push(digit_char(y % 10)));
                lemma_ascii_digits(y, 4, i);
            } else if 5 <= i < 7 {
                lemma_ascii_digits(mo, 2, i - 5);
            } else if 8 <= i < 10 {
                lemma_ascii_digits(d, 2, i - 8);
            } else if 11 <= i < 13 {
                lemma_ascii_digits(h, 2, i - 11);
            } else if 14 <= i < 16 {
                lemma_ascii_digits(mi, 2, i - 14);
            } else if 17 <= i < 19 {
                lemma_ascii_digits(se, 2, i - 17);
            }
        }
    }
    let b = vstd::utf8::encode_utf8(t);
    vstd::utf8::is_ascii_chars_encode_utf8(t);
    lemma_spells_bytes(t, b, 0, y, 4);
    lemma_spells_bytes(t, b, 5, mo, 2);
    lemma_spells_bytes(t, b, 8, d, 2);
    lemma_spells_bytes(t, b, 11, h, 2);
    lemma_spells_bytes(t, b, 14, mi, 2);
    lemma_spells_bytes(t, b, 17, se, 2);
    assert(b[4] == 45 && b[7] == 45 && b[10] == 84 && b[13] == 58 && b[16] == 58 && b[19] == 90);
    assert(calendar_part(b, 84) == Some((y as int, mo as int, d as int, 11int)));
    assert(one_or_two(b, 11) == Some((h as int, 13int))) by {
        assert(fixed_digits(b, 11, 1) is Some);
        reveal_with_fuel(fixed_digits, 3);
    }
    assert(fraction(b, 19) == (0nat, 19int));
    assert(clock(b, 11) == Some((h as int, mi as int, se as int, 0nat, 19int)));
    assert(rfc3339_offset(b, 19) == Some((0int, 20int)));
    let g = CivilFields {
        year: y as i64,
        month: mo as i64,
        day: d as i64,
        hour: h as i64,
        minute: mi as i64,
        second: se as i64,
        nanos: 0,
        offset: 0,
    };
    assert(rfc3339_fields(b) == Some(g));
    assert(g.year as i32 == f.0 && g.month as u8 == f.1 && g.day as u8 == f.2);
    assert(g.hour as u8 == f.3 && g.minute as u8 == f.4 && g.second as u8 == f.5);
}


/// Whether the civil fields named for the instant `n` are what the `time`
/// crate gives for an instant in range: within their ranges, a valid
/// date-time, and naming the whole second of `n`.
pub open spec fn civil_fields_sound(n: int) -> bool {
    let f = civil_fields_of(n);
    &&& MIN_UNIX_NANOS <= n <= MAX_UNIX_NANOS
    &&& -9999 <= f.0 <= 9999
    &&& 1 <= f.1 <= 12
    &&& 1 <= f.2 <= 31
    &&& f.3 < 24
    &&& f.4 < 60
    &&& f.5 < 60
    &&& valid_civil(f.0 as int, f.1 as int, f.2 as int, f.3 as int, f.4 as int, f.5 as int, 0)
    &&& civil_unix_nanos(f.0, f.1, f.2, f.3, f.4, f.5) == n - n % 1_000_000_000
}

/// Whether no character of `t` is `>` or `"`.
pub open spec fn plain_text(t: Seq<char>) -> bool {
    forall|i: int| 0 <= i < t.len() ==> #[trigger] t[i] != '>' && t[i] != '"'
}

proof fn lemma_plain_concat(a: Seq<char>, b: Seq<char>)
    requires
        plain_text(a),
        plain_text(b),
    ensures
        plain_text(a + b),
{
    assert forall|i: int| 0 <= i < (a + b).len() implies #[trigger] (a + b)[i] != '>' && (a + b)[i] != '"' by {
        if i < a.len() {
            assert((a + b)[i] == a[i]);
        } else {
            assert((a + b)[i] == b[i - a.len()]);
        }
    }
}

proof fn lemma_padded_plain(n: nat, w: nat)
    ensures
        plain_text(padded_digits(n, w)),
{
    crate::strings::lemma_decimal_digits_shape(n);
    let d = decimal_digits(n);
    if d.len() < w {
        let z = Seq::new((w - d.len()) as nat, |i: int| '0');
        assert(plain_text(z));
        assert(plain_text(d));
        lemma_plain_concat(z, d);
    }
}

/// The text layout of an instant from year 0 on is plain text that reads
/// back as the instant cut to its second.
pub proof fn text_layout_reads_back(n: int)
    requires
        civil_fields_sound(n),
        civil_fields_of(n).0 >= 0,
    ensures
        plain_text(text_layout_text(civil_fields_of(n))),
        text_layout_text(civil_fields_of(n)).len() >= 1,
        text_layout_text(civil_fields_of(n)).last() == '0',
        text_layout_text(civil_fields_of(n))[0] != '"',
        text_layout_fields(vstd::utf8::encode_utf8(text_layout_text(civil_fields_of(n)))) matches Some(g) && civil_instant(g)
            == Some(date_at(n - n % 1_000_000_000)),
{
    let f = civil_fields_of(n);
    lemma_text_layout_reads_back(f, n);
    lemma_padded_plain(f.0 as nat, 4);
    lemma_padded_plain(f.1 as nat, 2);
    lemma_padded_plain(f.2 as nat, 2);
    lemma_padded_plain(f.3 as nat, 2);
    lemma_padded_plain(f.4 as nat, 2);
    lemma_padded_plain(f.5 as nat, 2);
    let t = text_layout_text(f);
    assert(year_text(f.0 as int) == padded_digits(f.0 as nat, 4));
    let a0 = padded_digits(f.0 as nat, 4);
    assert(plain_text(seq!['-']));
    lemma_plain_concat(a0, seq!['-']);
    let a1 = a0 + seq!['-'];
    assert(plain_text(padded_digits(f.1 as nat, 2)));
    lemma_plain_concat(a1, padded_digits(f.1 as nat, 2));
    let a2 = a1 + padded_digits(f.1 as nat, 2);
    assert(plain_text(seq!['-']));
    lemma_plain_concat(a2, seq!['-']);
    let a3 = a2 + seq!['-'];
    assert(plain_text(padded_digits(f.2 as nat, 2)));
    lemma_plain_concat(a3, padded_digits(f.2 as nat, 2));
    let a4 = a3 + padded_digits(f.2 as nat, 2);
    assert(plain_text(seq![' ']));
    lemma_plain_concat(a4, seq![' ']);
    let a5 = a4 + seq![' '];
    assert(plain_text(padded_digits(f.3 as nat, 2)));
    lemma_plain_concat(a5, padded_digits(f.3 as nat, 2));
    let a6 = a5 + padded_digits(f.3 as nat, 2);
    assert(plain_text(seq![':']));
    lemma_plain_concat(a6, seq![':']);
    let a7 = a6 + seq![':'];
    assert(plain_text(padded_digits(f.4 as nat, 2)));
    lemma_plain_concat(a7, padded_digits(f.4 as nat, 2));
    let a8 = a7 + padded_digits(f.4 as nat, 2);
    assert(plain_text(seq![':']));
    lemma_plain_concat(a8, seq![':']);
    let a9 = a8 + seq![':'];
    assert(plain_text(padded_digits(f.5 as nat, 2)));
    lemma_plain_concat(a9, padded_digits(f.5 as nat, 2));
    let a10 = a9 + padded_digits(f.5 as nat, 2);
    assert(plain_text(seq![' ', '+', '0', '0', '0', '0']));
    lemma_plain_concat(a10, seq![' ', '+', '0', '0', '0', '0']);
    let a11 = a10 + seq![' ', '+', '0', '0', '0', '0'];
    assert(t =~= a11);
    reveal_with_fuel(pow10, 5);
    lemma_padded_is_fixed_width(f.0 as nat, 4);
    lemma_fixed_width_len(f.0 as nat, 4);
    assert(t[0] == a0[0]);
}

pub proof fn lemma_text_layout_reads_back(f: (i32, u8, u8, u8, u8, u8), n: int)
    requires
        0 <= f.0 <= 9999,
        1 <= f.1 <= 12,
        1 <= f.2 <= 31,
        f.3 < 24,
        f.4 < 60,
        f.5 < 60,
        valid_civil(f.0 as int, f.1 as int, f.2 as int, f.3 as int, f.4 as int, f.5 as int, 0),
        civil_unix_nanos(f.0, f.1, f.2, f.3, f.4, f.5) == n - n % 1_000_000_000,
        MIN_UNIX_NANOS <= n <= MAX_UNIX_NANOS,
    ensures
        text_layout_fields(vstd::utf8::encode_utf8(text_layout_text(f))) matches Some(g) && civil_instant(g) == Some(date_at(n - n % 1_000_000_000)),
{
    reveal_with_fuel(pow10, 5);
    let (y, mo, d, h, mi, se) = (f.0 as nat, f.1 as nat, f.2 as nat, f.3 as nat, f.4 as nat, f.5 as nat);
    lemma_padded_is_fixed_width(y, 4);
    lemma_padded_is_fixed_width(mo, 2);
    lemma_padded_is_fixed_width(d, 2);
    lemma_padded_is_fixed_width(h, 2);
    lemma_padded_is_fixed_width(mi, 2);
    lemma_padded_is_fixed_width(se, 2);
    let fy = fixed_width_digits(y, 4);
    let fmo = fixed_width_digits(mo, 2);
    let fd = fixed_width_digits(d, 2);
    let fh = fixed_width_digits(h, 2);
    let fmi = fixed_width_digits(mi, 2);
    let fse = fixed_width_digits(se, 2);
    lemma_fixed_width_len(y, 4);
    lemma_fixed_width_len(mo, 2);
    lemma_fixed_width_len(d, 2);
    lemma_fixed_width_len(h, 2);
    lemma_fixed_width_len(mi, 2);
    lemma_fixed_width_len(se, 2);
    let t = text_layout_text(f);
    assert(year_text(f.0 as int) == fy);
    assert(t =~= fy + seq!['-'] + fmo + seq!['-'] + fd + seq![' '] + fh + seq![':'] + fmi + seq![':'] + fse
        + seq![' ', '+', '0', '0', '0', '0']);
    assert(t.len() == 25);
    assert(spells(t, 0, fy));
    assert(spells(t, 5, fmo));
    assert(spells(t, 8, fd));
    assert(spells(t, 11, fh));
    assert(spells(t, 14, fmi));
    assert(spells(t, 17, fse));
    assert(t[4] == '-' && t[7] == '-' && t[10] == ' ' && t[13] == ':' && t[16] == ':' && t[19] == ' ' && t[20] == '+');
    assert(t[21] == '0' && t[22] == '0' && t[23] == '0' && t[24] == '0');
    assert(vstd::utf8::is_ascii_chars(t)) by {
        assert forall|i: int| 0 <= i < t.len() implies '\0' <= #[trigger] t[i] <= '\u{7f}' by {
            if 0 <= i < 4 {
                assert(fy == fixed_width_digits(y / 10, 3).push(digit_char(y % 10)));
                lemma_ascii_digits(y, 4, i);
            } else if 5 <= i < 7 {
                lemma_ascii_digits(mo, 2, i - 5);
            } else if 8 <= i < 10 {
                lemma_ascii_digits(d, 2, i - 8);
            } else if 11 <= i < 13 {
                lemma_ascii_digits(h, 2, i - 11);
            } else if 14 <= i < 16 {
                lemma_ascii_digits(mi, 2, i - 14);
            } else if 17 <= i < 19 {
                lemma_ascii_digits(se, 2, i - 17);
            }
        }
    }
    let b = vstd::utf8::encode_utf8(t);
    vstd::utf8::is_ascii_chars_encode_utf8(t);
    lemma_spells_bytes(t, b, 0, y, 4);
    lemma_spells_bytes(t, b, 5, mo, 2);
    lemma_spells_bytes(t, b, 8, d, 2);
    lemma_spells_bytes(t, b, 11, h, 2);
    lemma_spells_bytes(t, b, 14, mi, 2);
    lemma_spells_bytes(t, b, 17, se, 2);
    assert(b[4] == 45 && b[7] == 45 && b[10] == 32 && b[13] == 58 && b[16] == 58 && b[19] == 32 && b[20] == 43);
    assert(b[21] == 48 && b[22] == 48 && b[23] == 48 && b[24] == 48);
    assert(calendar_part(b, 32) == Some((y as int, mo as int, d as int, 11int)));
    assert(one_or_two(b, 11) == Some((h as int, 13int))) by {
        assert(fixed_digits(b, 11, 1) is Some);
        reveal_with_fuel(fixed_digits, 3);
    }
    assert(fraction(b, 19) == (0nat, 19int));
    assert(clock(b, 11) == Some((h as int, mi as int, se as int, 0nat, 19int)));
    assert(lit_at(b, 19, 32) == Some(20int));
    assert(numeric_offset(b, 20) == Some((0int, 25int))) by {
        reveal_with_fuel(fixed_digits, 3);
    }
    let g = CivilFields {
        year: y as i64,
        month: mo as i64,
        day: d as i64,
        hour: h as i64,
        minute: mi as i64,
        second: se as i64,
        nanos: 0,
        offset: 0,
    };
    assert(text_layout_fields(b) == Some(g));
    assert(g.year as i32 == f.0 && g.month as u8 == f.1 && g.day as u8 == f.2);
    assert(g.hour as u8 == f.3 && g.minute as u8 == f.4 && g.second as u8 == f.5);
}

proof fn lemma_ascii_digits(n: nat, w: nat, i: int)
    requires
        0 <= i < w,
    ensures
        '\0' <= fixed_width_digits(n, w)[i] <= '\u{7f}',
    decreases w,
{
    lemma_fixed_width_len(n / 10, (w - 1) as nat);
    if i == w - 1 {
        lemma_digit_char_byte(n % 10);
    } else {
        lemma_ascii_digits(n / 10, (w - 1) as nat, i);
        assert(fixed_width_digits(n, w)[i] == fixed_width_digits(n / 10, (w - 1) as nat)[i]);
    }
}

// ---------------------------------------------------------------------------
// Reading back the bridge payload
// ---------------------------------------------------------------------------

/// Trimming the trailing zeros of the last `w` digits of a nonzero number
/// leaves the last `k` digits of `v`, where `v` followed by `w - k` zeros
/// is the number.
proof fn lemma_trim_fixed_width(n: nat, w: nat) -> (vk: (nat, nat))
    requires
        n >= 1,
        w >= 1,
        n < pow10(w),
    ensures
        trim_trailing_zeros(fixed_width_digits(n, w)) == fixed_width_digits(vk.0, vk.1),
        1 <= vk.1 <= w,
        vk.0 < pow10(vk.1),
        vk.0 * pow10((w - vk.1) as nat) == n,
    decreases w,
{
    let fw = fixed_width_digits(n, w);
    lemma_fixed_width_len(n, w);
    assert(fw == fixed_width_digits(n / 10, (w - 1) as nat).push(digit_char(n % 10)));
    assert(pow10(w) == 10 * pow10((w - 1) as nat));
    if n % 10 != 0 {
        lemma_digit_char_byte(n % 10);
        assert(fw.last() == digit_char(n % 10));
        assert(digit_char(n % 10) != '0');
        assert(pow10(0) == 1);
        (n, w)
    } else {
        lemma_digit_char_byte(0);
        assert(fw.last() == '0');
        assert(fw.drop_last() =~= fixed_width_digits(n / 10, (w - 1) as nat));
        assert(n / 10 >= 1 && w >= 2) by {
            if w < 2 {
                assert(pow10(1) == 10) by {
                    reveal_with_fuel(pow10, 2);
                }
            }
        }
        assert(n / 10 < pow10((w - 1) as nat)) by (nonlinear_arith)
            requires
                n < pow10(w),
                pow10(w) == 10 * pow10((w - 1) as nat),
        ;
        let (v, k) = lemma_trim_fixed_width(n / 10, (w - 1) as nat);
        lemma_pow10_unfold((w - k) as nat);
        assert(v * pow10((w - k) as nat) == n) by (nonlinear_arith)
            requires
                v * pow10((w - 1 - k) as nat) == n / 10,
                pow10((w - k) as nat) == 10 * pow10((w - 1 - k) as nat),
                n % 10 == 0,
                w - k >= 1,
        ;
        (v, k)
    }
}

proof fn lemma_pow10_unfold(m: nat)
    requires
        m >= 1,
    ensures
        pow10(m) == 10 * pow10((m - 1) as nat),
{
}

/// Padding multiplies by ten once per missing digit.
proof fn lemma_pad_nanos_value(acc: nat, digits: nat)
    requires
        digits <= 9,
    ensures
        pad_nanos(acc, digits) == acc * pow10((9 - digits) as nat),
    decreases 9 - digits,
{
    if digits < 9 {
        lemma_pad_nanos_value(acc * 10, digits + 1);
        lemma_pow10_unfold((9 - digits) as nat);
        assert(acc * 10 * pow10((9 - (digits + 1)) as nat) == acc * pow10((9 - digits) as nat)) by (nonlinear_arith)
            requires
                pow10((9 - digits) as nat) == 10 * pow10((9 - (digits + 1)) as nat),
        ;
    }
}

/// A run of at most nine digits ended by a non-digit scans to the number
/// the run spells.
proof fn lemma_frac_scan_run(b: Seq<u8>, p: int, k: nat, j: nat, acc: int)
    requires
        0 <= p,
        j <= k <= 9,
        p + k < b.len(),
        forall|i: int| p <= i < p + k ==> is_digit(#[trigger] b[i]),
        !is_digit(b[p + k]),
        fixed_digits(b, p, j) == Some((acc, p + j)),
        acc >= 0,
    ensures
        fixed_digits(b, p, k) matches Some((v, q)) && q == p + k && frac_scan(b, p + j, j, acc as nat) == (
            v as nat,
            k,
            p + k,
        ),
    decreases k - j,
{
    if j < k {
        let d = (b[p + j] - 48) as int;
        assert(is_digit(b[p + j]));
        assert(fixed_digits(b, p, j + 1) == Some((acc * 10 + d, p + j + 1)));
        lemma_frac_scan_run(b, p, k, j + 1, acc * 10 + d);
    }
}

/// `YYYY-MM-DDTHH:MM:SS` from six numbers, each at its fixed width.
spec fn stamp_text(y: nat, mo: nat, d: nat, h: nat, mi: nat, se: nat) -> Seq<char> {
    fixed_width_digits(y, 4) + seq!['-'] + fixed_width_digits(mo, 2) + seq!['-'] + fixed_width_digits(d, 2)
        + seq!['T'] + fixed_width_digits(h, 2) + seq![':'] + fixed_width_digits(mi, 2) + seq![':']
        + fixed_width_digits(se, 2)
}

proof fn lemma_ascii_map(t: Seq<char>)
    requires
        vstd::utf8::is_ascii_chars(t),
    ensures
        vstd::utf8::encode_utf8(t) == t.map_values(|c: char| c as u8),
{
    vstd::utf8::is_ascii_chars_encode_utf8(t);
    assert(vstd::utf8::encode_utf8(t) =~= t.map_values(|c: char| c as u8));
}

/// The stamp is ASCII and its bytes read back as the six numbers.
proof fn lemma_stamp_reads_back(y: nat, mo: nat, d: nat, h: nat, mi: nat, se: nat, tail: Seq<char>)
    requires
        y < 10000,
        mo < 100,
        d < 100,
        h < 100,
        mi < 100,
        se < 100,
        vstd::utf8::is_ascii_chars(tail),
    ensures
        vstd::utf8::is_ascii_chars(stamp_text(y, mo, d, h, mi, se)),
        stamp_text(y, mo, d, h, mi, se).len() == 19,
        ({
            let b = (stamp_text(y, mo, d, h, mi, se) + tail).map_values(|c: char| c as u8);
            &&& b.len() == 19 + tail.len()
            &&& fixed_digits(b, 0, 4) == Some((y as int, 4int))
            &&& fixed_digits(b, 5, 2) == Some((mo as int, 7int))
            &&& fixed_digits(b, 8, 2) == Some((d as int, 10int))
            &&& fixed_digits(b, 11, 2) == Some((h as int, 13int))
            &&& fixed_digits(b, 14, 2) == Some((mi as int, 16int))
            &&& fixed_digits(b, 17, 2) == Some((se as int, 19int))
            &&& one_or_two(b, 11) == Some((h as int, 13int))
            &&& b[4] == 45 && b[7] == 45 && b[10] == 84 && b[13] == 58 && b[16] == 58
            &&& is_digit(b[0])
            &&& forall|i: int| 0 <= i < tail.len() ==> b[19 + i] == #[trigger] tail[i] as u8
        }),
{
    reveal_with_fuel(pow10, 5);
    let fy = fixed_width_digits(y, 4);
    let fmo = fixed_width_digits(mo, 2);
    let fd = fixed_width_digits(d, 2);
    let fh = fixed_width_digits(h, 2);
    let fmi = fixed_width_digits(mi, 2);
    let fse = fixed_width_digits(se, 2);
    lemma_fixed_width_len(y, 4);
    lemma_fixed_width_len(mo, 2);
    lemma_fixed_width_len(d, 2);
    lemma_fixed_width_len(h, 2);
    lemma_fixed_width_len(mi, 2);
    lemma_fixed_width_len(se, 2);
    let st = stamp_text(y, mo, d, h, mi, se);
    assert(st.len() == 19);
    assert(vstd::utf8::is_ascii_chars(st)) by {
        assert forall|i: int| 0 <= i < st.len() implies '\0' <= #[trigger] st[i] <= '\u{7f}' by {
            if 0 <= i < 4 {
                lemma_ascii_digits(y, 4, i);
            } else if 5 <= i < 7 {
                lemma_ascii_digits(mo, 2, i - 5);
            } else if 8 <= i < 10 {
                lemma_ascii_digits(d, 2, i - 8);
            } else if 11 <= i < 13 {
                lemma_ascii_digits(h, 2, i - 11);
            } else if 14 <= i < 16 {
                lemma_ascii_digits(mi, 2, i - 14);
            } else if 17 <= i < 19 {
                lemma_ascii_digits(se, 2, i - 17);
            }
        }
    }
    let t = st + tail;
    let b = t.map_values(|c: char| c as u8);
    assert forall|i: int| 0 <= i < t.len() implies t[i] as u8 == #[trigger] b[i] by {}
    assert(spells(t, 0, fy));
    assert(spells(t, 5, fmo));
    assert(spells(t, 8, fd));
    assert(spells(t, 11, fh));
    assert(spells(t, 14, fmi));
    assert(spells(t, 17, fse));
    lemma_spells_bytes(t, b, 0, y, 4);
    lemma_spells_bytes(t, b, 5, mo, 2);
    lemma_spells_bytes(t, b, 8, d, 2);
    lemma_spells_bytes(t, b, 11, h, 2);
    lemma_spells_bytes(t, b, 14, mi, 2);
    lemma_spells_bytes(t, b, 17, se, 2);
    assert(t[4] == '-' && t[7] == '-' && t[10] == 'T' && t[13] == ':' && t[16] == ':');
    assert(one_or_two(b, 11) == Some((h as int, 13int))) by {
        reveal_with_fuel(fixed_digits, 3);
    }
    assert(is_digit(b[0])) by {
        reveal_with_fuel(fixed_digits, 5);
    }
    assert forall|i: int| 0 <= i < tail.len() implies b[19 + i] == #[trigger] tail[i] as u8 by {
        assert(t[19 + i] == tail[i]);
    }
}

/// What follows the stamp in the bridge payload: `Z`, or `.`, the fraction
/// digits with trailing zeros trimmed, and `Z`.
spec fn sentinel_tail(sub: nat) -> Seq<char> {
    if sub == 0 {
        seq!['Z']
    } else {
        seq!['.'] + trim_trailing_zeros(padded_digits(sub, 9)) + seq!['Z']
    }
}

/// The tail is ASCII.
proof fn lemma_tail_ascii(sub: nat)
    requires
        sub < 1_000_000_000,
    ensures
        vstd::utf8::is_ascii_chars(sentinel_tail(sub)),
{
    reveal_with_fuel(pow10, 10);
    let tail = sentinel_tail(sub);
    if sub > 0 {
        lemma_padded_is_fixed_width(sub, 9);
        let (v, k) = lemma_trim_fixed_width(sub, 9);
        lemma_fixed_width_len(v, k);
        assert(tail =~= seq!['.'] + fixed_width_digits(v, k) + seq!['Z']);
        assert forall|i: int| 0 <= i < tail.len() implies '\0' <= #[trigger] tail[i] <= '\u{7f}' by {
            if 1 <= i <= k {
                lemma_ascii_digits(v, k, i - 1);
            }
        }
    }
}

/// After a 19-byte stamp the bytes of the tail read as a fraction of `sub`
/// nanoseconds that ends right before the final `Z`.
proof fn lemma_tail_reads_back(sub: nat, b: Seq<u8>)
    requires
        sub < 1_000_000_000,
        b.len() == 19 + sentinel_tail(sub).len(),
        forall|i: int| 0 <= i < sentinel_tail(sub).len() ==> b[19 + i] == #[trigger] sentinel_tail(sub)[i] as u8,
    ensures
        b[b.len() - 1] == 90,
        sentinel_nanos(b) == Some(sub),
        fraction(b, 19) == (sub, b.len() - 1),
{
    reveal_with_fuel(pow10, 10);
    let tail = sentinel_tail(sub);
    if sub > 0 {
        lemma_padded_is_fixed_width(sub, 9);
        let (v, k) = lemma_trim_fixed_width(sub, 9);
        let fv = fixed_width_digits(v, k);
        lemma_fixed_width_len(v, k);
        lemma_pad_nanos_value(v, k);
        assert(tail =~= seq!['.'] + fv + seq!['Z']);
        assert forall|j: int| 0 <= j < k implies b[20 + j] == #[trigger] fv[j] as u8 by {
            assert(tail[1 + j] == fv[j]);
        }
        lemma_fixed_digits_read(b, 20, v, k);
        assert forall|i: int| 20 <= i < 20 + k implies is_digit(#[trigger] b[i]) by {
            assert(tail[i - 19] == fv[i - 20]);
            lemma_fixed_width_digit(v, k, i - 20);
        }
        assert(b[19] == tail[0] as u8);
        assert(b[(20 + k) as int] == tail[(1 + k) as int] as u8);
        lemma_frac_scan_run(b, 20, k, 0, 0);
        assert(sentinel_nanos(b) == Some(sub));
    } else {
        assert(b[19] == tail[0] as u8);
    }
}

/// The bridge payload splits into an optional sign, the stamp and the tail.
#[verifier::spinoff_prover]
#[verifier::rlimit(40)]
proof fn lemma_sentinel_text_split(f: (i32, u8, u8, u8, u8, u8), sub: nat)
    requires
        -9999 <= f.0 <= 9999,
        f.1 <= 99,
        f.2 <= 99,
        f.3 <= 99,
        f.4 <= 99,
        f.5 <= 99,
    ensures
        sentinel_text(f, sub) == (if f.0 < 0 { seq!['-'] } else { Seq::<char>::empty() }) + (stamp_text(
            (if f.0 < 0 { -f.0 } else { f.0 as int }) as nat,
            f.1 as nat,
            f.2 as nat,
            f.3 as nat,
            f.4 as nat,
            f.5 as nat,
        ) + sentinel_tail(sub)),
{
    reveal_with_fuel(pow10, 5);
    let ya: nat = (if f.0 < 0 { -f.0 } else { f.0 as int }) as nat;
    lemma_padded_is_fixed_width(ya, 4);
    lemma_padded_is_fixed_width(f.1 as nat, 2);
    lemma_padded_is_fixed_width(f.2 as nat, 2);
    lemma_padded_is_fixed_width(f.3 as nat, 2);
    lemma_padded_is_fixed_width(f.4 as nat, 2);
    lemma_padded_is_fixed_width(f.5 as nat, 2);
    let sign: Seq<char> = if f.0 < 0 { seq!['-'] } else { Seq::empty() };
    let st = stamp_text(ya, f.1 as nat, f.2 as nat, f.3 as nat, f.4 as nat, f.5 as nat);
    assert(year_text(f.0 as int) == sign + fixed_width_digits(ya, 4));
    assert(rfc3339_text(f) =~= sign + st + seq!['Z']);
    if sub > 0 {
        assert(rfc3339_text(f).drop_last() =~= sign + st);
    }
    assert(sentinel_text(f, sub) =~= sign + (st + sentinel_tail(sub)));
}

/// The first 19 bytes of `b` read as the stamp of the six numbers.
spec fn stamp_reads(b: Seq<u8>, y: int, mo: int, d: int, h: int, mi: int, se: int) -> bool {
    &&& b.len() >= 20
    &&& fixed_digits(b, 0, 4) == Some((y, 4int))
    &&& fixed_digits(b, 5, 2) == Some((mo, 7int))
    &&& fixed_digits(b, 8, 2) == Some((d, 10int))
    &&& fixed_digits(b, 11, 2) == Some((h, 13int))
    &&& fixed_digits(b, 14, 2) == Some((mi, 16int))
    &&& fixed_digits(b, 17, 2) == Some((se, 19int))
    &&& one_or_two(b, 11) == Some((h, 13int))
    &&& b[4] == 45 && b[7] == 45 && b[10] == 84 && b[13] == 58 && b[16] == 58
}

/// A stamp followed by a fraction and a final `Z` reads as RFC 3339 fields
/// in UTC.
proof fn lemma_stamp_rfc3339(b: Seq<u8>, y: int, mo: int, d: int, h: int, mi: int, se: int, sub: nat)
    requires
        stamp_reads(b, y, mo, d, h, mi, se),
        fraction(b, 19) == (sub, b.len() - 1),
        b[b.len() - 1] == 90,
    ensures
        rfc3339_fields(b) == Some(
            CivilFields {
                year: y as i64,
                month: mo as i64,
                day: d as i64,
                hour: h as i64,
                minute: mi as i64,
                second: se as i64,
                nanos: sub as u32,
                offset: 0,
            },
        ),
{
    assert(calendar_part(b, 84) == Some((y, mo, d, 11int)));
    assert(clock(b, 11) == Some((h, mi, se, sub, b.len() - 1)));
    assert(rfc3339_offset(b, b.len() - 1) == Some((0int, b.len() as int)));
}

/// A stamp followed by the bridge tail reads as the negative-year fields.
proof fn lemma_stamp_negative(b: Seq<u8>, y: int, mo: int, d: int, h: int, mi: int, se: int, sub: nat)
    requires
        stamp_reads(b, y, mo, d, h, mi, se),
        sentinel_nanos(b) == Some(sub),
    ensures
        negative_year_parts(b) == Some((y, mo, d, h, mi, se, sub)),
{
}

/// The bridge payload of civil fields taken from an instant reads back as
/// that instant, fraction included, for negative years too.
#[verifier::spinoff_prover]
#[verifier::rlimit(50)]
proof fn lemma_sentinel_reads_back(f: (i32, u8, u8, u8, u8, u8), n: int)
    requires
        valid_civil(f.0 as int, f.1 as int, f.2 as int, f.3 as int, f.4 as int, f.5 as int, 0),
        civil_unix_nanos(f.0, f.1, f.2, f.3, f.4, f.5) == n - n % 1_000_000_000,
        MIN_UNIX_NANOS <= n <= MAX_UNIX_NANOS,
    ensures
        sentinel_date(vstd::utf8::encode_utf8(sentinel_text(f, (n % 1_000_000_000) as nat))) == Some(date_at(n)),
{
    let sub = (n % 1_000_000_000) as nat;
    let ya: nat = (if f.0 < 0 { -f.0 } else { f.0 as int }) as nat;
    let (mo, d, h, mi, se) = (f.1 as nat, f.2 as nat, f.3 as nat, f.4 as nat, f.5 as nat);
    let sign: Seq<char> = if f.0 < 0 { seq!['-'] } else { Seq::empty() };
    let st = stamp_text(ya, mo, d, h, mi, se);
    let tail = sentinel_tail(sub);
    lemma_sentinel_text_split(f, sub);
    lemma_tail_ascii(sub);
    lemma_stamp_reads_back(ya, mo, d, h, mi, se, tail);
    let t2 = st + tail;
    let b2 = t2.map_values(|c: char| c as u8);
    assert forall|i: int| 0 <= i < tail.len() implies b2[19 + i] == #[trigger] tail[i] as u8 by {
        assert(t2[19 + i] == tail[i]);
    }
    lemma_tail_reads_back(sub, b2);
    assert(stamp_reads(b2, ya as int, mo as int, d as int, h as int, mi as int, se as int));
    assert(vstd::utf8::is_ascii_chars(t2)) by {
        assert forall|i: int| 0 <= i < t2.len() implies '\0' <= #[trigger] t2[i] <= '\u{7f}' by {
            if i < 19 {
                assert(t2[i] == st[i]);
            } else {
                assert(t2[i] == tail[i - 19]);
            }
        }
    }
    let payload = vstd::utf8::encode_utf8(sentinel_text(f, sub));
    assert(valid_civil(f.0 as int, mo as int, d as int, h as int, mi as int, se as int, sub as int));
    assert(clamp_nanos(n - n % 1_000_000_000 + sub) == n);
    if f.0 < 0 {
        let t1 = sign + t2;
        assert(vstd::utf8::is_ascii_chars(t1)) by {
            assert forall|i: int| 0 <= i < t1.len() implies '\0' <= #[trigger] t1[i] <= '\u{7f}' by {
                if i >= 1 {
                    assert(t1[i] == t2[i - 1]);
                }
            }
        }
        lemma_ascii_map(t1);
        assert(payload.subrange(1, payload.len() as int) =~= b2);
        lemma_stamp_negative(b2, ya as int, mo as int, d as int, h as int, mi as int, se as int, sub);
        assert((-(ya as int)) as i32 == f.0);
    } else {
        assert(sign + t2 =~= t2);
        lemma_ascii_map(t2);
        assert(payload =~= b2);
        lemma_stamp_rfc3339(b2, ya as int, mo as int, d as int, h as int, mi as int, se as int, sub);
    }
}

proof fn lemma_fixed_width_digit(n: nat, w: nat, i: int)
    requires
        0 <= i < w,
    ensures
        is_digit(fixed_width_digits(n, w)[i] as u8),
    decreases w,
{
    lemma_fixed_width_len(n / 10, (w - 1) as nat);
    if i == w - 1 {
        lemma_digit_char_byte(n % 10);
    } else {
        lemma_fixed_width_digit(n / 10, (w - 1) as nat, i);
        assert(fixed_width_digits(n, w)[i] == fixed_width_digits(n / 10, (w - 1) as nat)[i]);
    }
}

} // verus!
