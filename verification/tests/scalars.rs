use apple_plist::error::Error;
use apple_plist::scalar::{format_f64, parse_bool, parse_f64, parse_i64, parse_u64, FloatCodec};

/// The `f64` arithmetic of the standard library.
struct StdFloats;

impl FloatCodec for StdFloats {
    fn decimal_to_bits(&self, literal: &str) -> Option<u64> {
        literal.parse::<f64>().ok().map(f64::to_bits)
    }

    fn shortest_digits(&self, bits: u64) -> (bool, Vec<char>, i64) {
        let value = f64::from_bits(bits);
        let text = format!("{:e}", value.abs());
        let (mantissa, exponent) = text.split_once('e').unwrap();
        let digits = mantissa.chars().filter(|c| *c != '.').collect();
        (value.is_sign_negative(), digits, exponent.parse().unwrap())
    }

    fn apple_epoch_to_unix(&self, bits: u64) -> (i64, i64) {
        let val = f64::from_bits(bits) + 978_307_200.0;
        (val.trunc() as i64, (val.fract() * 1e9) as i64)
    }

    fn unix_to_apple_epoch(&self, unix_nanos: i128) -> u64 {
        ((unix_nanos as f64) / 1e9 - 978_307_200.0).to_bits()
    }
}

fn bits(s: &str) -> u64 {
    parse_f64(s, &StdFloats).unwrap()
}

fn is_syntax(s: &str) -> bool {
    matches!(parse_f64(s, &StdFloats), Err(Error::ParseScalar(ref m)) if m == "invalid float literal")
}

fn is_range(s: &str) -> bool {
    matches!(parse_f64(s, &StdFloats), Err(Error::ParseScalar(ref m)) if m == "value out of range")
}

fn format(value: f64) -> String {
    format_f64(value.to_bits(), &StdFloats)
}

#[test]
fn parse_u64_rejects_any_sign() {
    assert!(parse_u64("+5", 10).is_err());
    assert!(parse_u64("-5", 10).is_err());
    assert!(parse_u64("+0", 16).is_err());
}

#[test]
fn parse_u64_handles_sign_and_base() {
    assert_eq!(parse_u64("5", 10).unwrap(), 5);
    assert_eq!(parse_u64("007", 10).unwrap(), 7);
    assert_eq!(parse_u64("18446744073709551615", 10).unwrap(), u64::MAX);
    assert_eq!(
        parse_u64("deadbeefFACECAFE", 16).unwrap(),
        0xdead_beef_face_cafe
    );
    assert!(parse_u64("18446744073709551616", 10).is_err());
    assert!(parse_u64("", 10).is_err());
    assert!(parse_u64(" 5", 10).is_err());
    assert!(parse_u64("5_0", 10).is_err());
    assert!(parse_u64("0x10", 10).is_err());
}

#[test]
fn parse_i64_handles_sign_and_base() {
    assert_eq!(parse_i64("+5", 10).unwrap(), 5);
    assert_eq!(parse_i64("-9223372036854775808", 10).unwrap(), i64::MIN);
    assert_eq!(parse_i64("-2a", 16).unwrap(), -42);
    assert!(parse_i64("-9223372036854775809", 10).is_err());
    assert!(parse_i64("", 10).is_err());
    assert!(parse_i64("1_0", 10).is_err());
}

#[test]
fn integer_fault_messages_match_the_standard_library() {
    assert!(matches!(parse_u64("", 10), Err(Error::ParseScalar(ref m)) if m == "cannot parse integer from empty string"));
    assert!(matches!(parse_u64("x", 10), Err(Error::ParseScalar(ref m)) if m == "invalid digit found in string"));
    assert!(matches!(parse_u64("18446744073709551616", 10), Err(Error::ParseScalar(ref m)) if m == "number too large to fit in target type"));
    assert!(matches!(parse_i64("-9223372036854775809", 10), Err(Error::ParseScalar(ref m)) if m == "number too small to fit in target type"));
}

#[test]
fn parse_bool_accepts_exactly_the_twelve_tokens() {
    for s in ["1", "t", "T", "TRUE", "true", "True"] {
        assert!(parse_bool(s).unwrap(), "{s}");
    }
    for s in ["0", "f", "F", "FALSE", "false", "False"] {
        assert!(!parse_bool(s).unwrap(), "{s}");
    }
    for s in ["TrUe", "yes", "no", "", "2", " true"] {
        assert!(parse_bool(s).is_err(), "{s}");
    }
}

#[test]
fn parse_bool_error_names_the_literal() {
    assert!(matches!(parse_bool("yes"), Err(Error::ParseScalar(ref m)) if m == "invalid boolean literal: yes"));
}

#[test]
fn parse_f64_specials_follow_sign_rules() {
    assert_eq!(bits("inf"), f64::INFINITY.to_bits());
    assert_eq!(bits("Inf"), f64::INFINITY.to_bits());
    assert_eq!(bits("INF"), f64::INFINITY.to_bits());
    assert_eq!(bits("+inf"), f64::INFINITY.to_bits());
    assert_eq!(bits("-inf"), f64::NEG_INFINITY.to_bits());
    assert_eq!(bits("infinity"), f64::INFINITY.to_bits());
    assert_eq!(bits("+Infinity"), f64::INFINITY.to_bits());
    assert_eq!(bits("-INFINITY"), f64::NEG_INFINITY.to_bits());
    assert_eq!(bits("nan"), 0x7FF8_0000_0000_0001);
    assert_eq!(bits("NaN"), 0x7FF8_0000_0000_0001);
    assert_eq!(bits("nAN"), 0x7FF8_0000_0000_0001);
    assert!(is_syntax("+nan"));
    assert!(is_syntax("-nan"));
    assert!(is_syntax("infi"));
    assert!(is_syntax("infx"));
    assert!(is_syntax("nanx"));
}

#[test]
fn parse_f64_overflow_errors_and_underflow_is_zero() {
    assert!(is_range("1e999"));
    assert!(is_range("-1e999"));
    assert!(is_range("1e310"));
    assert!(is_range("1.7976931348623159e308"));
    assert_eq!(bits("1e-350"), 0);
    assert_eq!(bits("1e-999"), 0);
    assert_eq!(bits("2.4703282292062327e-324"), 0);
    assert_eq!(bits("2.4703282292062328e-324"), 1);
    assert_eq!(bits("1.7976931348623157e308"), 0x7FEF_FFFF_FFFF_FFFF);
    assert_eq!(bits("17976931348623157e292"), 0x7FEF_FFFF_FFFF_FFFF);
}

#[test]
fn parse_f64_decimal_vectors_are_correct() {
    let vectors: &[(&str, u64)] = &[
        ("0", 0x0000_0000_0000_0000),
        ("-0", 0x8000_0000_0000_0000),
        ("5", 0x4014_0000_0000_0000),
        ("-5.5", 0xC016_0000_0000_0000),
        ("1e5", 0x40F8_6A00_0000_0000),
        ("1E5", 0x40F8_6A00_0000_0000),
        ("1.e3", 0x408F_4000_0000_0000),
        (".25", 0x3FD0_0000_0000_0000),
        ("1.", 0x3FF0_0000_0000_0000),
        ("001.250", 0x3FF4_0000_0000_0000),
        ("3.141592653589793", 0x4009_21FB_5444_2D18),
        ("2.718281828459045e0", 0x4005_BF0A_8B14_5769),
        ("1e-310", 0x0000_1268_8B70_E62B),
        ("5e-324", 0x0000_0000_0000_0001),
        ("1e-323", 0x0000_0000_0000_0002),
    ];
    for &(input, want) in vectors {
        assert_eq!(bits(input), want, "{input}");
    }
}

#[test]
fn parse_f64_rejects_syntax_errors() {
    for s in [
        "", ".", "1e", "1e+", "1d", "1.2.3", "0x", "-0x", "0x1p", "0xp2", "0x.p2", "0x1p+", "0x1.2",
        "-0x2a", "1 ", " 1",
    ] {
        assert!(is_syntax(s), "{s}");
    }
}

#[test]
fn parse_f64_underscores_follow_literal_placement() {
    assert_eq!(bits("1_000.5"), 0x408F_4400_0000_0000);
    assert_eq!(bits("1_2.3_4e5_6"), 0x4BC9_29C7_D37D_0D30);
    assert_eq!(bits("1e1_2"), 0x426D_1A94_A200_0000);
    assert_eq!(bits("0x_1p-2"), 0x3FD0_0000_0000_0000);
    for s in ["_1", "1__2", "123_", "1_.5", "1._5", "1_e5", "1e_5", "1e5_", "-_1"] {
        assert!(is_syntax(s), "{s}");
    }
}

#[test]
fn parse_f64_hex_floats_are_correct() {
    let vectors: &[(&str, u64)] = &[
        ("0x1p-2", 0x3FD0_0000_0000_0000),
        ("0x1.8p2", 0x4018_0000_0000_0000),
        ("0X1P+3", 0x4020_0000_0000_0000),
        ("0x.8p1", 0x3FF0_0000_0000_0000),
        ("0x1.p0", 0x3FF0_0000_0000_0000),
        ("0x1fffffffffffffp0", 0x433F_FFFF_FFFF_FFFF),
        ("0x1FFFFFFFFFFFFF1p0", 0x437F_FFFF_FFFF_FFFF),
        ("0x1FFFFFFFFFFFFF8p0", 0x4380_0000_0000_0000),
        ("0x1FFFFFFFFFFFFF8000000001p-24", 0x4440_0000_0000_0000),
        ("0x1p-1074", 0x0000_0000_0000_0001),
        ("0x1p-1075", 0x0000_0000_0000_0000),
        ("0x1.8p-1074", 0x0000_0000_0000_0002),
        ("0x0.0000000000000008p-1018", 0x0000_0000_0000_0000),
    ];
    for &(input, want) in vectors {
        assert_eq!(bits(input), want, "{input}");
    }
    assert_eq!(bits("-0x1.8p2"), 0xC018_0000_0000_0000);
    assert!(is_range("0x1p99999"));
    assert!(is_range("-0x1p1024"));
    assert_eq!(bits("0x0p99999"), 0);
}

#[test]
fn format_f64_shortest_round_trip() {
    let vectors: &[(u64, &str)] = &[
        (0x0000_0000_0000_0000, "0"),
        (0x8000_0000_0000_0000, "-0"),
        (0x3FF0_0000_0000_0000, "1"),
        (0xBFF0_0000_0000_0000, "-1"),
        (0x3FF8_0000_0000_0000, "1.5"),
        (0x4040_0000_0000_0000, "32"),
        (0x4050_0000_0000_0000, "64"),
        (0x4009_21FB_5444_2D18, "3.141592653589793"),
        (0x40F8_6A00_0000_0000, "100000"),
        (0x412E_847E_0000_0000, "999999"),
        (0x412E_8480_0000_0000, "1e+06"),
        (0x4163_12D0_0000_0000, "1e+07"),
        (0x40FE_240C_9FBE_76C9, "123456.789"),
        (0x4132_D687_E3D7_0A3D, "1.23456789e+06"),
        (0x3F1A_36E2_EB1C_432D, "0.0001"),
        (0x3EE4_F8B5_88E3_68F1, "1e-05"),
        (0x3F20_1F31_F46E_D246, "0.000123"),
        (0x3EEF_7510_4D55_1D69, "1.5e-05"),
        (0x0000_0000_0000_0001, "5e-324"),
        (0x7FEF_FFFF_FFFF_FFFF, "1.7976931348623157e+308"),
        (0x47EF_FFFF_E000_0000, "3.4028234663852886e+38"),
        (0x0010_0000_0000_0000, "2.2250738585072014e-308"),
        (0x4415_AF1D_78B5_8C40, "1e+20"),
        (0x444B_1AE4_D6E2_EF50, "1e+21"),
        (0xC19D_6F34_547D_F3B6, "-1.23456789123e+08"),
        (0x4018_0000_0000_0000, "6"),
        (0x3FB9_9999_9999_999A, "0.1"),
        (0x412E_847F_CCCC_CCCD, "999999.9"),
        (0x41B8_4575_7800_0000, "4.0720524e+08"),
        (0x3FE0_0000_0000_0000, "0.5"),
        (0xBFE0_0000_0000_0000, "-0.5"),
        (0x3E4A_8310_BC7A_31BF, "1.23456e-08"),
    ];
    for &(input, want) in vectors {
        assert_eq!(format(f64::from_bits(input)), want, "{input:#018x}");
    }
    assert_eq!(format(f64::NAN), "NaN");
    assert_eq!(format(f64::INFINITY), "+Inf");
    assert_eq!(format(f64::NEG_INFINITY), "-Inf");
}

#[test]
fn parse_and_format_round_trip_shortest_digits() {
    for &bits_in in &[
        0x4009_21FB_5444_2D18_u64,
        0x0000_0000_0000_0001,
        0x7FEF_FFFF_FFFF_FFFF,
    ] {
        let v = f64::from_bits(bits_in);
        assert_eq!(bits(&format(v)), bits_in);
    }
}
