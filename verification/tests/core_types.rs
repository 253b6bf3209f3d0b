use std::cmp::Ordering;
use std::collections::hash_map::RandomState;
use std::hash::BuildHasher;

use apple_plist::depth::DepthCounter;
use apple_plist::error::Error;
use apple_plist::format::Format;
use apple_plist::integer::Integer;
use apple_plist::tables::{base64_valid, gs_quotable, newline, os_quotable, whitespace, CharSet};
use apple_plist::uid::Uid;
use apple_plist::MAX_PARSE_DEPTH;

/// Enters `frames` nested frames, leaving each admitted one on the way out.
fn descend(depth: &mut DepthCounter, frames: usize) -> Result<(), Error> {
    if frames > 0 {
        depth.enter()?;
        let inner = descend(depth, frames - 1);
        depth.leave();
        inner?;
    }
    Ok(())
}

#[test]
fn cap_is_one_twenty_eight() {
    assert_eq!(MAX_PARSE_DEPTH, 128);
}

#[test]
fn enter_succeeds_up_to_the_cap_and_restores_on_drop() {
    let mut depth = DepthCounter::new();
    assert!(descend(&mut depth, MAX_PARSE_DEPTH).is_ok());
    assert_eq!(depth.get(), 0);
}

#[test]
fn enter_fails_beyond_the_cap() {
    let mut depth = DepthCounter::new();
    let result = descend(&mut depth, MAX_PARSE_DEPTH + 1);
    assert!(matches!(result, Err(Error::MaxDepthExceeded)));
}

#[test]
fn early_error_unwinds_only_constructed_guards() {
    let mut depth = DepthCounter::new();
    {
        assert!(depth.enter().is_ok());
        depth.leave();
    }
    assert_eq!(depth.get(), 0);

    let mut depth = DepthCounter::at(MAX_PARSE_DEPTH);
    assert!(matches!(depth.enter(), Err(Error::MaxDepthExceeded)));
    // The failed frame is incremented, never decremented.
    assert_eq!(depth.get(), MAX_PARSE_DEPTH + 1);
}

#[test]
fn enter_then_leave_restores_every_admitted_depth() {
    for start in [0, 1, 64, 127] {
        let mut depth = DepthCounter::at(start);
        assert!(depth.enter().is_ok());
        assert_eq!(depth.get(), start + 1);
        depth.leave();
        assert_eq!(depth.get(), start);
    }
}

#[test]
fn display_messages_are_lowercase_unprefixed_unterminated() {
    let cases = [
        (Error::invalid("XML"), "invalid XML property list"),
        (
            Error::parse("binary", "bad trailer".to_owned()),
            "error parsing binary property list",
        ),
        (
            Error::UnknownType("chan"),
            "can't marshal value of type chan",
        ),
        (
            Error::TypeMismatch {
                expected: "u64",
                found: "string",
            },
            "cannot decode string into u64",
        ),
        (Error::MaxDepthExceeded, "maximum nesting depth exceeded"),
        (
            Error::ParseScalar("invalid digit found in string".to_owned()),
            "invalid digit found in string",
        ),
        (Error::NoRootElement, "no root element to encode"),
        (Error::NullNotRepresentable, "null is not representable"),
        (Error::Message("boom".to_owned()), "boom"),
        (
            Error::FeatureDisabled {
                format: Format::Binary,
            },
            "support for the Binary format is disabled",
        ),
    ];
    for (err, want) in cases {
        assert_eq!(err.message(), want);
    }
}

#[test]
fn parse_carries_its_source() {
    let err = Error::parse("text", "unterminated string".to_owned());
    let source = err.source_message().map(ToString::to_string);
    assert_eq!(source.as_deref(), Some("unterminated string"));
}

#[test]
fn invalid_has_no_source() {
    let err = Error::invalid("XML");
    assert!(err.source_message().is_none());
}

#[test]
fn retry_signal_is_invalid_plist_only() {
    assert!(Error::invalid("XML").is_retry_signal());
    assert!(!Error::parse("XML", "boom".to_owned()).is_retry_signal());
    assert!(!Error::MaxDepthExceeded.is_retry_signal());
    assert!(!Error::Io("io".to_owned()).is_retry_signal());
}

const ALL_FORMATS: [Format; 4] = [Format::Xml, Format::Binary, Format::OpenStep, Format::GnuStep];

#[test]
fn name_matches_canonical_spellings() {
    assert_eq!(Format::Xml.name(), "XML");
    assert_eq!(Format::Binary.name(), "Binary");
    assert_eq!(Format::OpenStep.name(), "OpenStep");
    assert_eq!(Format::GnuStep.name(), "GNUStep");
}

#[test]
fn from_str_round_trips_display_case_insensitively() {
    for format in ALL_FORMATS {
        assert_eq!(format.name().to_string().parse::<Format>().ok(), Some(format));
        assert_eq!(
            format.name().to_lowercase().parse::<Format>().ok(),
            Some(format)
        );
        assert_eq!(
            format.name().to_uppercase().parse::<Format>().ok(),
            Some(format)
        );
    }
}

#[test]
fn from_str_rejects_unknown_names() {
    for bad in ["", "plist", "XM L", " xml", "xml ", "GNU Step"] {
        let err = bad.parse::<Format>();
        assert!(
            matches!(err, Err(Error::Message(ref m)) if m.starts_with("unknown format name"))
        );
    }
}

#[test]
fn conversions_round_trip() {
    let uid = Uid::from(u64::MAX);
    assert_eq!(uid.get(), u64::MAX);
    assert_eq!(u64::from(uid), u64::MAX);
    assert_eq!(Uid::from(0).get(), 0);
}

#[test]
fn ordering_and_equality_follow_the_value() {
    assert!(Uid::from(1) < Uid::from(2));
    assert_eq!(Uid::from(7), Uid::from(7));
    assert_ne!(Uid::from(7), Uid::from(8));
}

fn hashes_equal(a: Integer, b: Integer) -> bool {
    let state = RandomState::new();
    state.hash_one(a) == state.hash_one(b)
}

#[test]
fn equality_is_numeric_across_variants() {
    assert_eq!(Integer::Signed(5), Integer::Unsigned(5));
    assert_eq!(Integer::Unsigned(5), Integer::Signed(5));
    assert_eq!(Integer::Signed(0), Integer::Unsigned(0));
    assert_ne!(Integer::Signed(-1), Integer::Unsigned(u64::MAX));
    assert_ne!(
        Integer::Signed(i64::MIN),
        Integer::Unsigned(i64::MIN.unsigned_abs())
    );
    assert_eq!(
        Integer::Signed(i64::MAX),
        Integer::Unsigned(i64::MAX as u64)
    );
}

#[test]
fn equal_values_hash_equally() {
    let pairs = [
        (Integer::Signed(5), Integer::Unsigned(5)),
        (Integer::Signed(0), Integer::Unsigned(0)),
        (Integer::Signed(i64::MAX), Integer::Unsigned(i64::MAX as u64)),
    ];
    for (a, b) in pairs {
        assert_eq!(a, b);
        assert!(hashes_equal(a, b));
    }
    // Benign documented collision: write_i64(v) == write_u64(v as u64).
    assert!(hashes_equal(Integer::Signed(-1), Integer::Unsigned(u64::MAX)));
    assert_ne!(Integer::Signed(-1), Integer::Unsigned(u64::MAX));
}

#[test]
fn ordering_is_total_numeric_order() {
    let mut values = [
        Integer::Unsigned(u64::MAX),
        Integer::Signed(-1),
        Integer::Unsigned(0),
        Integer::Signed(i64::MIN),
        Integer::Unsigned(i64::MAX as u64 + 1),
        Integer::Signed(i64::MAX),
    ];
    values.sort_unstable();
    assert_eq!(
        values,
        [
            Integer::Signed(i64::MIN),
            Integer::Signed(-1),
            Integer::Unsigned(0),
            Integer::Signed(i64::MAX),
            Integer::Unsigned(i64::MAX as u64 + 1),
            Integer::Unsigned(u64::MAX),
        ]
    );
    assert!(Integer::Signed(-1) < Integer::Unsigned(0));
    assert!(Integer::Signed(i64::MAX) < Integer::Unsigned(i64::MAX as u64 + 1));
    assert_eq!(Integer::Signed(7).cmp(&Integer::Unsigned(7)), Ordering::Equal);
}

#[test]
fn accessor_boundaries_match_the_spec() {
    assert_eq!(Integer::Unsigned(i64::MAX as u64).as_signed(), Some(i64::MAX));
    assert_eq!(Integer::Unsigned(i64::MAX as u64 + 1).as_signed(), None);
    assert_eq!(Integer::Signed(-1).as_unsigned(), None);
    assert_eq!(Integer::Signed(0).as_unsigned(), Some(0));
    assert_eq!(Integer::Signed(i64::MIN).as_signed(), Some(i64::MIN));
}

#[test]
fn raw_parts_expose_signedness_and_bits() {
    assert_eq!(Integer::Signed(-1).to_raw_parts(), (true, u64::MAX));
    assert_eq!(Integer::Signed(5).to_raw_parts(), (true, 5));
    assert_eq!(Integer::Unsigned(5).to_raw_parts(), (false, 5));
    assert_eq!(
        Integer::Signed(i64::MIN).to_raw_parts(),
        (true, 0x8000_0000_0000_0000)
    );
}

#[test]
fn display_prints_canonical_digits() {
    assert_eq!(Integer::Signed(5).to_decimal_string(), "5");
    assert_eq!(Integer::Unsigned(5).to_decimal_string(), "5");
    assert_eq!(
        Integer::Signed(-9_223_372_036_854_775_808).to_decimal_string(),
        "-9223372036854775808"
    );
    assert_eq!(
        Integer::Unsigned(u64::MAX).to_decimal_string(),
        "18446744073709551615"
    );
}

#[test]
fn from_impls_cover_all_eight_fixed_width_ints() {
    assert_eq!(Integer::from(-1i8), Integer::Signed(-1));
    assert_eq!(Integer::from(-1i16), Integer::Signed(-1));
    assert_eq!(Integer::from(-1i32), Integer::Signed(-1));
    assert_eq!(Integer::from(-1i64), Integer::Signed(-1));
    assert_eq!(Integer::from(1u8), Integer::Unsigned(1));
    assert_eq!(Integer::from(1u16), Integer::Unsigned(1));
    assert_eq!(Integer::from(1u32), Integer::Unsigned(1));
    assert_eq!(Integer::from(u64::MAX), Integer::Unsigned(u64::MAX));
}

fn members(set: CharSet) -> Vec<u8> {
    (0..=255).filter(|&b| set.contains_byte(b)).collect()
}

#[test]
fn whitespace_is_bs_tab_lf_vt_ff_cr_space() {
    assert_eq!(members(whitespace()), [8, 9, 10, 11, 12, 13, 32]);
}

#[test]
fn newline_is_lf_and_cr() {
    assert_eq!(members(newline()), [10, 13]);
}

#[test]
fn base64_valid_is_the_standard_alphabet_plus_padding() {
    let mut expected: Vec<u8> = Vec::new();
    expected.extend(b'+'..=b'+');
    expected.extend(b'/'..=b'9');
    expected.push(b'=');
    expected.extend(b'A'..=b'Z');
    expected.extend(b'a'..=b'z');
    assert_eq!(members(base64_valid()), expected);
}

#[test]
fn quotable_printable_members_match_the_tables() {
    let printable = |set: CharSet| -> String {
        (0x20..0x7f)
            .filter(|&b| set.contains_byte(b))
            .map(char::from)
            .collect()
    };
    assert_eq!(printable(gs_quotable()), " \"'(),;<=>[\\]`{}");
    assert_eq!(printable(os_quotable()), " !\"#%&'()*+,-.:<=>?@[\\]^_`{|}~");
}

#[test]
fn quotable_sets_cover_all_controls_and_high_bytes() {
    for set in [gs_quotable(), os_quotable()] {
        for b in (0x00..0x20).chain(0x7f..=0xff) {
            assert!(set.contains_byte(b), "{b:#04x}");
        }
    }
}

#[test]
fn runes_above_0xff_are_in_no_set() {
    for set in [gs_quotable(), os_quotable(), whitespace(), newline(), base64_valid()] {
        assert!(!set.contains_char('\u{100}'));
        assert!(!set.contains_char('世'));
        assert!(!set.contains_char('\u{FFFD}'));
    }
    assert!(gs_quotable().contains_char('\u{AC}'));
    assert!(gs_quotable().contains_char(';'));
    assert!(!os_quotable().contains_char(';'));
}

#[test]
fn wide_integers_narrow_to_the_64_bit_range() {
    assert!(matches!(Integer::from_i128(-5), Some(Integer::Signed(-5))));
    assert!(matches!(Integer::from_i128(i64::MAX as i128), Some(Integer::Signed(i64::MAX))));
    assert!(matches!(Integer::from_i128(i64::MAX as i128 + 1), Some(Integer::Unsigned(0x8000_0000_0000_0000))));
    assert!(matches!(Integer::from_i128(u64::MAX as i128), Some(Integer::Unsigned(u64::MAX))));
    assert!(Integer::from_i128(u64::MAX as i128 + 1).is_none());
    assert!(Integer::from_i128(i64::MIN as i128 - 1).is_none());
    assert!(matches!(Integer::from_u128(7), Some(Integer::Unsigned(7))));
    assert!(matches!(Integer::from_u128(u64::MAX as u128), Some(Integer::Unsigned(u64::MAX))));
    assert!(Integer::from_u128(u64::MAX as u128 + 1).is_none());
}
