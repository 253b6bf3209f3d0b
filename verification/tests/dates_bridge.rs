use apple_plist::bridge::{
    bool_target, data_as_values, date_target, float_target, guard_descent, guard_entry, integer_target,
    sentinel_value, string_target, uid_target, IntegerPick, SentinelFault,
};
use apple_plist::date::{format_sentinel_date, parse_sentinel_date, Date};
use apple_plist::error::Error;
use apple_plist::integer::Integer;
use apple_plist::reals::Real;
use apple_plist::scalar::FloatCodec;
use apple_plist::uid::Uid;
use apple_plist::value::{maybe_uid, Dictionary, Value};

/// The `f64` arithmetic of the standard library.
struct StdFloats;

impl FloatCodec for StdFloats {
    fn decimal_to_bits(&self, literal: &str) -> Option<u64> {
        literal.parse::<f64>().ok().map(f64::to_bits)
    }

    fn shortest_digits(&self, bits: u64) -> (bool, Vec<char>, i64) {
        let value = f64::from_bits(bits);
        let text = format!("{:e}", value.abs());
        let (mantissa, exponent) = text.split_once('e').unwrap();
        let digits = mantissa.chars().filter(|c| *c != '.').collect();
        (value.is_sign_negative(), digits, exponent.parse().unwrap())
    }

    fn apple_epoch_to_unix(&self, bits: u64) -> (i64, i64) {
        let val = f64::from_bits(bits) + 978_307_200.0;
        (val.trunc() as i64, (val.fract() * 1e9) as i64)
    }

    fn unix_to_apple_epoch(&self, unix_nanos: i128) -> u64 {
        ((unix_nanos as f64) / 1e9 - 978_307_200.0).to_bits()
    }
}

fn rfc3339(s: &str) -> Date {
    Date::parse_rfc3339(s).unwrap()
}

#[test]
fn rfc3339_parse_accepts_the_grammar() {
    assert_eq!(rfc3339("2013-11-27T00:34:00Z").unix_parts(), (1_385_512_440, 0));
    assert_eq!(rfc3339("2013-11-27T00:34:00.5Z").unix_parts(), (1_385_512_440, 500_000_000));
    assert_eq!(rfc3339("2013-11-27T00:34:00,5Z").unix_parts(), (1_385_512_440, 500_000_000));
    assert_eq!(rfc3339("2013-11-27T1:34:00Z").unix_parts(), (1_385_516_040, 0));
    assert_eq!(rfc3339("2013-11-27T00:34:00+07:00").unix_parts(), (1_385_487_240, 0));
    assert_eq!(rfc3339("2013-11-27T00:34:00-00:30").unix_parts(), (1_385_514_240, 0));
    assert_eq!(rfc3339("2013-11-27T00:34:00+24:00").unix_parts(), (1_385_426_040, 0));
    assert_eq!(rfc3339("2013-11-27T00:34:00+23:60").unix_parts(), (1_385_426_040, 0));
    assert_eq!(
        rfc3339("2013-11-27T00:34:00.123456789123Z").unix_parts(),
        (1_385_512_440, 123_456_789)
    );
    assert_eq!(rfc3339("0000-01-01T00:00:00+24:00").unix_parts(), (-62_167_305_600, 0));
}

#[test]
fn rfc3339_parse_rejects_malformed_input() {
    for s in [
        "",
        "2013-11-27t00:34:00Z",
        "2013-11-27T00:34:00",
        "2013-11-27T00:34:00z",
        "2013-11-27T00:34:00+0700",
        "2013-11-27T00:34:00+25:00",
        "2013-02-30T00:34:00Z",
        "12013-11-27T00:34:00Z",
        "2013-11-27T00:34:60Z",
        "2013-11-27T24:34:00Z",
        "2013-1-27T00:34:00Z",
        "2013-11-27T0:4:00Z",
        "2013-11-27T00:34:00.Z",
        "2013-11-27T00:34:00Z ",
        "2013-13-01T00:00:00Z",
        "2013-00-01T00:00:00Z",
        "2013-11-00T00:00:00Z",
    ] {
        assert!(Date::parse_rfc3339(s).is_none(), "{s}");
    }
}

#[test]
fn rfc3339_format_is_utc_z_with_subseconds_dropped() {
    assert_eq!(rfc3339("2013-11-27T00:34:00Z").format_rfc3339(), "2013-11-27T00:34:00Z");
    assert_eq!(rfc3339("2013-11-27T00:34:00.75Z").format_rfc3339(), "2013-11-27T00:34:00Z");
    assert_eq!(rfc3339("2013-11-27T05:34:00+05:00").format_rfc3339(), "2013-11-27T00:34:00Z");
    assert_eq!(Date::from_unix(i64::MIN, i64::MIN).format_rfc3339(), "-9999-01-01T00:00:00Z");
    assert_eq!(rfc3339("0001-02-03T04:05:06Z").format_rfc3339(), "0001-02-03T04:05:06Z");
}

#[test]
fn text_layout_parse_accepts_the_grammar() {
    let parse = Date::parse_text_layout;
    assert_eq!(parse("2013-11-27 00:34:00 +0000").unwrap().unix_parts(), (1_385_512_440, 0));
    assert_eq!(parse("2013-11-27 0:34:00 +0000").unwrap().unix_parts(), (1_385_512_440, 0));
    assert_eq!(
        parse("2013-11-27 00:34:00.25 +0000").unwrap().unix_parts(),
        (1_385_512_440, 250_000_000)
    );
    assert_eq!(
        parse("2013-11-27 00:34:00,5 +0000").unwrap().unix_parts(),
        (1_385_512_440, 500_000_000)
    );
    assert_eq!(parse("2013-11-27 00:34:00 -0500").unwrap().unix_parts(), (1_385_530_440, 0));
    assert_eq!(parse("2013-11-27 00:34:00 +0060").unwrap().unix_parts(), (1_385_508_840, 0));
}

#[test]
fn text_layout_parse_rejects_malformed_input() {
    for s in [
        "",
        "2013-11-27 00:34:00 Z",
        "2013-11-27 00:34:00 +00:00",
        "2013-11-27 00:34:00",
        "2013-11-27 00:34:00 +000",
        "2013-11-27 00:34:00 +9900",
        "2013-11-27 00:34:00 +2500",
        "2013-11-27 00:34:00 +0061",
        "2013-02-30 00:34:00 +0000",
        "2013-11-27T00:34:00 +0000",
        "2013-11-27 00:34:00 +0000 ",
    ] {
        assert!(Date::parse_text_layout(s).is_none(), "{s}");
    }
}

#[test]
fn text_and_rfc3339_round_trip_whole_second_dates() {
    let date = Date::parse_text_layout("2013-11-27 05:34:00 -0500").unwrap();
    assert_eq!(date.format_text_layout(), "2013-11-27 10:34:00 +0000");
    assert_eq!(Date::parse_rfc3339(&date.format_rfc3339()).unwrap(), date);
    assert_eq!(Date::parse_text_layout(&date.format_text_layout()).unwrap(), date);
}

#[test]
fn rfc3339_parse_clamps_past_the_calendar_edge() {
    let date = rfc3339("9999-12-31T23:59:59-24:00");
    assert_eq!(date, Date::from_unix(i64::MAX, 0));
}

#[test]
fn from_unix_normalizes_negative_nanos() {
    assert_eq!(Date::from_unix(0, -500_000_000).unix_parts(), (-1, 500_000_000));
    assert_eq!(Date::from_unix(1, 1_500_000_000).unix_parts(), (2, 500_000_000));
    assert_eq!(
        Date::from_unix(i64::MAX, i64::MAX).format_rfc3339(),
        "9999-12-31T23:59:59Z"
    );
}

#[test]
fn ordering_and_hashing_are_instant_based() {
    let earlier = rfc3339("2013-11-27T00:34:00Z");
    let later = rfc3339("2013-11-27T00:34:01Z");
    assert!(earlier < later);
    assert_eq!(rfc3339("2013-11-27T01:34:00+01:00"), earlier);
}

#[test]
fn sentinel_payloads_keep_every_nanosecond() {
    let date = Date::from_unix(1_385_512_440, 120_000_000);
    assert_eq!(format_sentinel_date(date), "2013-11-27T00:34:00.12Z");
    assert_eq!(parse_sentinel_date("2013-11-27T00:34:00.12Z"), Some(date));
    let whole = rfc3339("2013-11-27T00:34:00Z");
    assert_eq!(format_sentinel_date(whole), "2013-11-27T00:34:00Z");
    let early = Date::from_unix(-62_198_755_200, 1);
    let text = format_sentinel_date(early);
    assert_eq!(text, "-0001-01-01T00:00:00.000000001Z");
    assert_eq!(parse_sentinel_date(&text), Some(early));
    for bad in ["-0001-01-01T00:00:00", "-0001-01-01T00:00:00.Z", "-0001-13-01T00:00:00Z", "-001-01-01T00:00:00Z"] {
        assert_eq!(parse_sentinel_date(bad), None, "{bad}");
    }
}

#[test]
fn depth_guards_follow_the_shared_cap() {
    assert!(guard_entry(128).is_ok());
    assert!(matches!(guard_entry(129), Err(Error::MaxDepthExceeded)));
    assert_eq!(guard_descent(127).ok(), Some(128));
    assert!(matches!(guard_descent(128), Err(Error::MaxDepthExceeded)));
}

#[test]
fn integer_requests_coerce_strings_only_in_lax_mode() {
    let seven = Value::String("7".to_owned());
    assert_eq!(integer_target(&seven, true, true, "i64").unwrap(), IntegerPick::Signed(7));
    assert_eq!(integer_target(&seven, true, false, "u8").unwrap(), IntegerPick::Unsigned(7));
    assert!(matches!(
        integer_target(&seven, false, true, "i64"),
        Err(Error::TypeMismatch { expected: "i64", found: "string" })
    ));
    assert!(matches!(
        integer_target(&Value::String("-1".to_owned()), true, false, "u64"),
        Err(Error::ParseScalar(_))
    ));
    assert_eq!(
        integer_target(&Value::Uid(Uid::from(9)), false, true, "i64").unwrap(),
        IntegerPick::Unsigned(9)
    );
    assert_eq!(
        integer_target(&Value::Integer(Integer::Signed(-3)), false, false, "u64").unwrap(),
        IntegerPick::Signed(-3)
    );
}

#[test]
fn uid_bool_float_string_and_date_requests() {
    assert_eq!(uid_target(&Value::Integer(Integer::Signed(-1)), false).unwrap(), IntegerPick::Signed(-1));
    assert_eq!(uid_target(&Value::Integer(Integer::Signed(5)), false).unwrap(), IntegerPick::Unsigned(5));
    assert!(matches!(
        uid_target(&Value::Boolean(true), true),
        Err(Error::TypeMismatch { expected: "UID", found: "boolean" })
    ));
    assert_eq!(bool_target(&Value::String("YES".to_owned()), true).ok(), None);
    assert_eq!(bool_target(&Value::String("T".to_owned()), true).ok(), Some(true));
    assert!(matches!(
        bool_target(&Value::String("1".to_owned()), false),
        Err(Error::TypeMismatch { expected: "bool", found: "string" })
    ));
    assert_eq!(
        float_target(&Value::String("1.5".to_owned()), true, "f64", &StdFloats).unwrap(),
        1.5f64.to_bits()
    );
    assert_eq!(
        float_target(&Value::Real(Real::from_f32_bits(0.5f32.to_bits())), false, "f32", &StdFloats).unwrap(),
        0.5f64.to_bits()
    );
    assert!(matches!(
        float_target(&Value::Integer(Integer::Unsigned(1)), true, "f64", &StdFloats),
        Err(Error::TypeMismatch { expected: "f64", found: "integer" })
    ));
    assert_eq!(string_target(&Value::String("x".to_owned()), "string").unwrap(), "x");
    assert!(matches!(
        string_target(&Value::Data(vec![1]), "char"),
        Err(Error::TypeMismatch { expected: "char", found: "data" })
    ));
    assert_eq!(
        date_target(&Value::String("2013-11-27 00:34:00 +0000".to_owned()), true).unwrap(),
        "2013-11-27T00:34:00Z"
    );
    assert!(matches!(
        date_target(&Value::String("tomorrow".to_owned()), true),
        Err(Error::ParseScalar(ref m)) if m == "invalid date literal: tomorrow"
    ));
    assert_eq!(
        data_as_values(&vec![0, 255]),
        vec![Value::Integer(Integer::Unsigned(0)), Value::Integer(Integer::Unsigned(255))]
    );
}

#[test]
fn dictionaries_keep_insertion_order_and_unique_keys() {
    let mut d = Dictionary::new();
    d.insert("b".to_owned(), Value::Boolean(true));
    d.insert("a".to_owned(), Value::Boolean(false));
    d.insert("b".to_owned(), Value::Boolean(false));
    assert_eq!(d.len(), 2);
    assert_eq!(d.entry_at(0).0, "b");
    assert_eq!(d.get("b"), Some(&Value::Boolean(false)));
    assert_eq!(d.get("c"), None);
    let uid = maybe_uid(vec![("CF$UID".to_owned(), Value::String("12".to_owned()))], true);
    assert_eq!(uid, Value::Uid(Uid::from(12)));
    let strict = maybe_uid(vec![("CF$UID".to_owned(), Value::String("12".to_owned()))], false);
    assert!(matches!(strict, Value::Dictionary(_)));
}

#[test]
fn sentinel_payloads_decide_uid_or_date() {
    match sentinel_value(&Value::Integer(Integer::Signed(7))) {
        Ok(Value::Uid(uid)) => assert_eq!(uid.get(), 7),
        other => panic!("unexpected {other:?}"),
    }
    match sentinel_value(&Value::Integer(Integer::Unsigned(u64::MAX))) {
        Ok(Value::Uid(uid)) => assert_eq!(uid.get(), u64::MAX),
        other => panic!("unexpected {other:?}"),
    }
    assert!(matches!(sentinel_value(&Value::Integer(Integer::Signed(-1))), Err(SentinelFault::SignedUid)));
    let date = Date::from_unix(1_385_512_440, 120_000_000);
    match sentinel_value(&Value::String("2013-11-27T00:34:00.12Z".to_string())) {
        Ok(Value::Date(d)) => assert!(d.same_instant(&date)),
        other => panic!("unexpected {other:?}"),
    }
    assert!(matches!(sentinel_value(&Value::String("yesterday".to_string())), Err(SentinelFault::BadDatePayload)));
    assert!(matches!(sentinel_value(&Value::Boolean(true)), Err(SentinelFault::WrongKind)));
    assert!(matches!(sentinel_value(&Value::Data(vec![1])), Err(SentinelFault::WrongKind)));
}

#[test]
fn sentinel_payloads_round_trip_negative_years() {
    let early = Date::from_unix(-62_198_755_200 - 86_400 * 400, 5);
    let text = format_sentinel_date(early);
    assert!(text.starts_with('-'));
    assert_eq!(parse_sentinel_date(&text), Some(early));
}
