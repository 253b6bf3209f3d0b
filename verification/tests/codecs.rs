use apple_plist::binary::{generator, parser};
use apple_plist::date::Date;
use apple_plist::de::{detect, parse_auto, Decoder};
use apple_plist::reals::Real;
use apple_plist::error::Error;
use apple_plist::format::Format;
use apple_plist::integer::Integer;
use apple_plist::scalar::FloatCodec;
use apple_plist::ser::Encoder;
use apple_plist::uid::Uid;
use apple_plist::value::{Dictionary, Value};
use apple_plist::xml::parser::{parse_integer, resolve_reference, text_chunk, validate_attribute_value, validate_declaration};

/// The `f64` arithmetic of the standard library.
struct StdFloats;

impl FloatCodec for StdFloats {
    fn decimal_to_bits(&self, literal: &str) -> Option<u64> {
        literal.parse::<f64>().ok().map(f64::to_bits)
    }

    fn shortest_digits(&self, bits: u64) -> (bool, Vec<char>, i64) {
        let value = f64::from_bits(bits);
        let text = format!("{:e}", value.abs());
        let (mantissa, exponent) = text.split_once('e').unwrap();
        let digits = mantissa.chars().filter(|c| *c != '.').collect();
        (value.is_sign_negative(), digits, exponent.parse().unwrap())
    }

    fn apple_epoch_to_unix(&self, bits: u64) -> (i64, i64) {
        let val = f64::from_bits(bits) + 978_307_200.0;
        (val.trunc() as i64, (val.fract() * 1e9) as i64)
    }

    fn unix_to_apple_epoch(&self, unix_nanos: i128) -> u64 {
        ((unix_nanos as f64) / 1e9 - 978_307_200.0).to_bits()
    }
}

fn xml(data: &[u8]) -> Result<Value, Error> {
    apple_plist::xml::parser::parse(data, &StdFloats)
}

fn text(data: &[u8]) -> Result<(Value, Format), Error> {
    apple_plist::text::parser::parse(data, &StdFloats)
}

fn is_retry(input: &[u8]) -> bool {
    matches!(xml(input), Err(Error::InvalidPlist { format: "XML", .. }))
}

fn is_hard(input: &[u8]) -> bool {
    matches!(xml(input), Err(Error::Parse { format: "XML", .. }))
}

fn xml_ok(input: &str) -> Value {
    match xml(input.as_bytes()) {
        Ok(value) => value,
        Err(error) => panic!("expected {input:?} to parse: {}", error.message()),
    }
}

fn dict(entries: &[(&str, Value)]) -> Value {
    let pairs = entries
        .iter()
        .map(|(key, value)| ((*key).to_owned(), value.clone()))
        .collect();
    Value::Dictionary(Dictionary::from_pairs(pairs))
}

fn s(v: &str) -> Value {
    Value::String(v.to_owned())
}

// ---------------------------------------------------------------------------
// XML
// ---------------------------------------------------------------------------

#[test]
fn invalid_references_and_characters_error() {
    for body in [
        "&copy;",
        "&amp",
        "&#X41;",
        "&#0;",
        "&#1;",
        "&#xFFFE;",
        "&#x110000;",
        "&#;",
        "&;",
    ] {
        assert!(
            is_hard(format!("<string>{body}</string>").as_bytes()),
            "{body}"
        );
    }
    assert!(is_hard(b"<string>a]]>b</string>"));
    assert!(is_hard(b"<string>\x01</string>"));
    // Same failures before any element are the retry signal.
    assert!(is_retry(b"a&copy;b <string>x</string>"));
    assert!(is_retry(b"]]> <string>x</string>"));
}

#[test]
fn invalid_xml_plists_table_is_rejected() {
    let hard: &[&str] = &[
        "<plist version=\"1.0\"><integer>0x</integer></plist>",
        "<plist><doct><key>helo</key><string>helo</string></doct></plist>",
        "<plist><dict><string>helo</string></dict></plist>",
        "<plist><dict><key>helo</key></dict></plist>",
        "<integer>helo</integer>",
        "<integer></integer>",
        "<real>helo</real>",
        "<data>*@&amp;%#helo</data>",
        "<date>*@&amp;%#helo</date>",
        "<plist><integer>10</plist>",
        "<plist><real>10</plist>",
        "<plist><string>10</plist>",
        "<plist><dict>10</plist>",
        "<plist><dict><key>10</plist>",
        "<plist>",
        "<plist><data>",
        "<plist><date>",
        "<plist><array>",
        "<plist/>",
    ];
    for input in hard {
        assert!(is_hard(input.as_bytes()), "{input}");
    }
    assert!(is_retry(b"<pl"));
    assert!(is_retry(b"bplist00"));
    assert!(is_retry(b""));
    assert!(is_retry(b"(1,2,3,4,5)"));
    assert!(is_retry(b"{ a = b; }"));
    assert!(is_retry(b"<abab>"));
    assert!(is_retry(b"<0101>"));
    assert!(is_retry(b"<key>x</key>"));
}

#[test]
fn unknown_elements_after_the_first_are_hard() {
    assert!(is_hard(b"<plist><abab></abab></plist>"));
    assert!(is_hard(b"<plist><String>x</String></plist>"));
    assert!(is_hard(b"<dict><key>a</key><abab/></dict>"));
    assert!(is_hard(b"<array><key>a</key></array>"));
}

#[test]
fn scalar_bodies_with_whitespace_are_hard_errors() {
    assert!(is_hard(b"<integer> 1 </integer>"));
    assert!(is_hard(b"<real> 1.5</real>"));
    assert!(is_hard(b"<date> 2013-11-27T00:34:00Z</date>"));
}

#[test]
fn xml_bare_roots_and_wrapped_roots_parse() {
    assert_eq!(xml_ok("<string>Hello</string>"), s("Hello"));
    assert_eq!(
        xml_ok("<?xml version=\"1.0\" encoding=\"UTF-8\"?><plist version=\"1.0\"><true/></plist>"),
        Value::Boolean(true)
    );
    assert_eq!(xml_ok("<integer>-0x10</integer>"), Value::Integer(Integer::Signed(-16)));
    assert_eq!(xml_ok("<integer>0X1f</integer>"), Value::Integer(Integer::Unsigned(31)));
    assert_eq!(xml_ok("<data>AQI D\n</data>"), Value::Data(vec![1, 2, 3]));
    assert_eq!(xml_ok("<string>a&#x41;&lt;&#66;</string>"), s("aA<B"));
    assert_eq!(xml_ok("<string>a\r\nb\rc</string>"), s("a\nb\nc"));
    assert_eq!(xml_ok("<string><![CDATA[x<&]]>y</string>"), s("x<&y"));
    assert!(is_hard(b"<string><![CDATA[x]]>y]]></string>"));
    assert_eq!(xml_ok("<x:string>hi</x:string>"), s("hi"));
}

#[test]
fn xml_child_elements_in_a_body_are_skipped() {
    assert_eq!(xml_ok("<string>a<b>x<c/>y</b>&amp;c</string>"), s("a&c"));
    assert_eq!(xml_ok("<plist><string>k<!-- note --><i>z</i></string></plist>"), s("k"));
    assert!(is_hard(b"<string>a<b>x"));
    assert!(is_hard(b"<array><string>a<b>x</b>"));
}

#[test]
fn xml_dictionaries_keep_the_last_duplicate_and_collapse_uids() {
    assert_eq!(
        xml_ok("<dict><key>k</key><string>a</string><key>k</key><string>b</string></dict>"),
        dict(&[("k", s("b"))])
    );
    assert_eq!(
        xml_ok("<dict><key>CF$UID</key><integer>1024</integer></dict>"),
        Value::Uid(Uid::from(1024))
    );
    assert_eq!(
        xml_ok("<dict><key>CF$UID</key><string>1</string></dict>"),
        dict(&[("CF$UID", s("1"))])
    );
    assert_eq!(xml_ok("<array/>"), Value::Array(vec![]));
}

#[test]
fn xml_declaration_version_and_encoding_are_checked() {
    assert!(is_retry(b"<?xml version=\"1.1\"?><string>x</string>"));
    assert!(is_retry(b"<?xml version=\"1.0\" encoding=\"ISO-8859-1\"?><string>x</string>"));
    assert_eq!(xml_ok("<?xml version=\"1.0\" encoding=\"utf-8\"?><string>x</string>"), s("x"));
}

#[test]
fn xml_depth_limit_is_named() {
    let nest = |n: usize| {
        let mut doc = String::new();
        for _ in 0..n {
            doc.push_str("<array>");
        }
        doc.push_str("<true/>");
        for _ in 0..n {
            doc.push_str("</array>");
        }
        doc
    };
    assert!(xml(nest(127).as_bytes()).is_ok());
    assert!(matches!(xml(nest(128).as_bytes()), Err(Error::MaxDepthExceeded)));
}

#[test]
fn xml_attribute_malformations_follow_token_position() {
    assert!(is_retry(b"<plist Q=\">"));
    assert!(is_hard(b"<plist><string a=1>x</string></plist>"));
    assert!(is_hard(b"<plist><string a=\"&bad;\">x</string></plist>"));
    assert_eq!(
        xml_ok("<dict><key Q=\">\">test</key><string>v</string></dict>"),
        dict(&[("test", s("v"))])
    );
}

#[test]
fn xml_token_checks_are_exact() {
    let chars = |t: &str| t.chars().collect::<Vec<char>>();
    assert_eq!(resolve_reference(&chars("amp")).ok(), Some('&'));
    assert_eq!(resolve_reference(&chars("#xD800")).ok(), Some('\u{FFFD}'));
    assert_eq!(resolve_reference(&chars("#169")).ok(), Some('©'));
    assert!(resolve_reference(&chars("#9")).is_ok());
    assert!(resolve_reference(&chars("#8")).is_err());
    assert_eq!(text_chunk(b"a\r\r\nb", false).unwrap(), chars("a\n\nb"));
    assert!(text_chunk(b"a]]>", false).is_err());
    assert_eq!(text_chunk(b"a]]>", true).unwrap(), chars("a]]>"));
    assert!(text_chunk(&[0xFF], true).is_err());
    assert!(validate_attribute_value(b"a&lt;b").is_ok());
    assert!(validate_attribute_value(b"a&lt").is_err());
    assert!(validate_attribute_value(b"\x01").is_err());
    assert!(validate_declaration(&Some(b"1.0".to_vec()), &Some(b"UTF-8".to_vec())).is_ok());
    assert!(validate_declaration(&None, &None).is_ok());
    assert!(validate_declaration(&Some(b"1.1".to_vec()), &None).is_err());
    assert!(validate_declaration(&None, &Some(b"utf8".to_vec())).is_err());
    assert_eq!(parse_integer(&chars("18446744073709551615")).unwrap(), Value::Integer(Integer::Unsigned(u64::MAX)));
    assert_eq!(parse_integer(&chars("-9223372036854775808")).unwrap(), Value::Integer(Integer::Signed(i64::MIN)));
    assert!(parse_integer(&chars("-")).is_err());
    assert!(parse_integer(&chars("+1")).is_err());
}

// ---------------------------------------------------------------------------
// Text
// ---------------------------------------------------------------------------

const INVALID_TEXT: &[(&str, &[u8])] = &[
    ("Truncated array", b"("),
    ("Truncated dictionary", b"{a=b;"),
    ("Truncated dictionary 2", b"{"),
    ("Unclosed nested array", b"{0=(/"),
    ("Unclosed dictionary", b"{0=/"),
    (
        "Broken GNUStep data",
        b"(<*I5>,<*I5>,<*I5>,<*I5>,*I16777215>,<*I268435455>,<*I4294967295>,<*I18446744073709551615>,)",
    ),
    ("Truncated nested array", b"{0=(((/"),
    ("Truncated dictionary with comment-like", b"{/"),
    ("Truncated array with comment-like", b"(/"),
    ("Truncated array with empty data", b"(<>"),
    ("Bad Extended Character", "{¬=A;}".as_bytes()),
    ("Missing Equals in Dictionary", b"{\"A\"A;}"),
    ("Missing Semicolon in Dictionary", b"{\"A\"=A}"),
    ("Invalid GNUStep type", b"<*F33>"),
    ("Invalid GNUStep int", b"(<*I>"),
    ("Invalid GNUStep date", b"<*D5>"),
    ("Truncated GNUStep value", b"<*I3"),
    ("Invalid data", b"<EQ>"),
    ("Truncated unicode escape", b"\"\\u231"),
    ("Truncated hex escape", b"\"\\x2"),
    ("Truncated octal escape", b"\"\\02"),
    ("Truncated data", b"<33"),
    ("Uneven data", b"<3>"),
    ("Truncated block comment", b"/* hello"),
    ("Truncated quoted string", b"\"hi"),
    ("Garbage after end of non-string", b"<ab> cde"),
    ("Broken UTF-16", b"\xFE\xFF\x01"),
    ("Truncated GNUStep data", b"<"),
    ("Truncated GNUStep base64 data (missing ])", b"<[33=="),
    ("Truncated GNUStep base64 data (missing >)", b"<[33==]"),
    ("Invalid GNUStep base64 data", b"<[3]>"),
    ("GNUStep extended value with EOF before type", b"<*"),
    ("GNUStep extended value terminated before type", b"<*>"),
    ("Empty GNUStep extended value", b"<*I>"),
    ("Unterminated GNUStep quoted value", b"<*D\"5>"),
    ("Unterminated GNUStep quoted value (EOF)", b"<*D\""),
    ("Poorly-terminated GNUStep quoted value", b"<*D\">"),
    ("Empty GNUStep quoted extended value", b"<*D\"\">"),
];

fn nested_dicts(n: usize, innermost: &str) -> Vec<u8> {
    let mut doc = String::new();
    for _ in 0..n {
        doc.push_str("{a=");
    }
    doc.push_str(innermost);
    for _ in 0..n {
        doc.push_str(";}");
    }
    doc.into_bytes()
}

#[test]
fn all_38_invalid_text_inputs_error() {
    assert_eq!(INVALID_TEXT.len(), 38);
    for &(name, data) in INVALID_TEXT {
        let result = text(data);
        assert!(
            matches!(result, Err(Error::Parse { format: "text", .. })),
            "{name}: expected the hard text parse error"
        );
    }
}

#[test]
fn depth_overflow_uses_the_dedicated_variant_at_the_boundary() {
    assert!(text(&nested_dicts(127, "x")).is_ok());
    assert!(matches!(text(&nested_dicts(128, "x")), Err(Error::MaxDepthExceeded)));
    assert!(text(&nested_dicts(127, "{}")).is_ok());
    assert!(matches!(text(&nested_dicts(128, "{}")), Err(Error::MaxDepthExceeded)));
    assert!(matches!(text(&nested_dicts(178, "x")), Err(Error::MaxDepthExceeded)));
}

#[test]
fn text_dialect_detection_and_empty_documents() {
    assert_eq!(text(b"(1,2,3,4,5)").unwrap().1, Format::OpenStep);
    assert_eq!(text(b"<abab>").unwrap().1, Format::OpenStep);
    assert_eq!(text(b"(1,2,<*I3>)").unwrap().1, Format::GnuStep);
    for doc in [&b""[..], b" \n\t", b"// just a comment", b"/* block */"] {
        let (value, format) = text(doc).unwrap();
        assert_eq!(value, Value::Dictionary(Dictionary::new()));
        assert_eq!(format, Format::OpenStep);
    }
    assert_eq!(text(b"\"a\" = \"b\";").unwrap().0, dict(&[("a", s("b"))]));
}

// ---------------------------------------------------------------------------
// The detection ladder, the decoder and the encoder
// ---------------------------------------------------------------------------

const HELLO_BPLIST: &[u8] = b"bplist00UHello\x08\
    \x00\x00\x00\x00\x00\x00\x01\x01\
    \x00\x00\x00\x00\x00\x00\x00\x01\
    \x00\x00\x00\x00\x00\x00\x00\x00\
    \x00\x00\x00\x00\x00\x00\x00\x0e";

#[test]
fn debug_elides_the_reader() {
    let decoder = Decoder::new(&b""[..]);
    let rendered = decoder.debug_text();
    assert!(rendered.starts_with("Decoder"));
    assert!(rendered.contains("None"));
}

#[test]
fn detect_agrees_with_the_ladder() {
    let d = |data: &[u8]| detect(data, &StdFloats);
    assert_eq!(d(HELLO_BPLIST), Some(Format::Binary));
    assert_eq!(d(b"<string>&lt;*I3&gt;</string>"), Some(Format::Xml));
    assert_eq!(d(b"bplist00"), None);
    assert_eq!(d(b"(1,2,3,4,5)"), Some(Format::OpenStep));
    assert_eq!(d(b"<abab>"), Some(Format::OpenStep));
    assert_eq!(d(b"(1,2,<*I3>)"), Some(Format::GnuStep));
    assert_eq!(d(b"\x00"), None);
    assert_eq!(d(b""), Some(Format::OpenStep));
}

#[test]
fn decoder_records_the_format_of_successful_decodes() {
    let mut decoder = Decoder::new(b"(1,2,3)");
    assert_eq!(decoder.format(), None);
    let value = decoder.decode_value(&StdFloats).unwrap();
    assert_eq!(value.as_array().map(Vec::len), Some(3));
    assert_eq!(decoder.format(), Some(Format::OpenStep));
    assert_eq!(decoder.decode_value(&StdFloats).unwrap(), value);
    assert_eq!(decoder.debug_text(), "Decoder { format: Some(OpenStep), .. }");

    let mut failing = Decoder::new(b"bplist");
    assert!(matches!(failing.decode_value(&StdFloats), Err(Error::Parse { format: "binary", .. })));
    assert_eq!(failing.format(), None);
}

#[test]
fn ladder_sends_only_the_retry_verdict_to_text() {
    assert!(matches!(parse_auto(b"<plist/>", &StdFloats), Err(Error::Parse { format: "XML", .. })));
    assert!(matches!(parse_auto(b"{ a = ", &StdFloats), Err(Error::Parse { format: "text", .. })));
    assert_eq!(parse_auto(b"bplis", &StdFloats).unwrap(), (s("bplis"), Format::OpenStep));
    assert!(matches!(parse_auto(b"bplistish = x;", &StdFloats), Err(Error::Parse { format: "binary", .. })));
    let (value, format) = parse_auto(HELLO_BPLIST, &StdFloats).unwrap();
    assert_eq!(value, s("Hello"));
    assert_eq!(format, Format::Binary);
    let mut deep = Vec::new();
    for _ in 0..200 {
        deep.extend_from_slice(b"<array>");
    }
    assert!(matches!(parse_auto(&deep, &StdFloats), Err(Error::MaxDepthExceeded)));
}

#[test]
fn debug_elides_the_writer() {
    let encoder = Encoder::new();
    let rendered = encoder.debug_text();
    assert!(rendered.starts_with("Encoder"));
    assert!(rendered.contains("Xml"));
}

fn sample() -> Value {
    dict(&[("name", s("plist")), ("count", Value::Integer(Integer::Unsigned(3)))])
}

#[test]
fn encoder_formats_and_indent_state() {
    let xml_doc = Encoder::new().encode_value(&sample(), &StdFloats).unwrap();
    assert!(xml_doc.starts_with(b"<?xml version=\"1.0\" encoding=\"UTF-8\"?>\n"));
    let automatic = Encoder::automatic().encode_value(&sample(), &StdFloats).unwrap();
    let binary = Encoder::binary().encode_value(&sample(), &StdFloats).unwrap();
    assert_eq!(automatic, binary);
    assert!(binary.starts_with(b"bplist00"));

    let mut encoder = Encoder::for_format(Format::OpenStep);
    let compact = encoder.encode_value(&sample(), &StdFloats).unwrap();
    encoder.set_indent("\t");
    let pretty = encoder.encode_value(&sample(), &StdFloats).unwrap();
    assert_eq!(compact, b"{name=plist;count=3;}");
    assert_eq!(pretty, b"{\n\tname = plist;\n\tcount = 3;\n}");
    assert_eq!(encoder.debug_text(), "Encoder { format: OpenStep, indent: \"\\t\", .. }");

    let gnustep = Encoder::for_format(Format::GnuStep)
        .encode_value(&Value::Integer(Integer::Unsigned(3)), &StdFloats)
        .unwrap();
    assert_eq!(gnustep, b"<*I3>");
}

#[test]
fn every_format_reads_back_what_it_wrote() {
    let value = dict(&[
        ("name", s("grin 😀 end")),
        ("list", Value::Array(vec![Value::Boolean(false), Value::Data(vec![0, 255])])),
        ("n", Value::Integer(Integer::Signed(-7))),
    ]);
    for format in [Format::Xml, Format::Binary] {
        let bytes = Encoder::for_format(format).encode_value(&value, &StdFloats).unwrap();
        let (back, detected) = parse_auto(&bytes, &StdFloats).unwrap();
        assert_eq!(back, value, "{}", format.name());
        assert_eq!(detected, format);
    }
}

#[test]
fn binary_documents_read_back_as_the_tree_written() {
    let long_text = "abcdefghijklmnopqrstuvwxyz";
    let value = dict(&[
        ("long", s(long_text)),
        ("again", s(long_text)),
        ("astral", s("x😀y")),
        ("ints", Value::Array(vec![
            Value::Integer(Integer::Unsigned(u64::MAX)),
            Value::Integer(Integer::Signed(i64::MIN)),
            Value::Integer(Integer::Signed(5)),
            Value::Integer(Integer::Unsigned(5)),
            Value::Integer(Integer::Unsigned(70_000)),
            Value::Integer(Integer::Unsigned(5_000_000_000)),
        ])),
        ("reals", Value::Array(vec![
            Value::Real(Real::from_f64_bits(1.5f64.to_bits())),
            Value::Real(Real::from_f32_bits(0.25f32.to_bits())),
            Value::Real(Real::from_f64_bits((-0.0f64).to_bits())),
            Value::Real(Real::from_f64_bits(0.0f64.to_bits())),
        ])),
        ("flags", Value::Array(vec![Value::Boolean(true), Value::Boolean(true), Value::Boolean(false)])),
        ("uids", Value::Array(vec![Value::Uid(Uid::new(7)), Value::Uid(Uid::new(300)), Value::Uid(Uid::new(7))])),
        ("data", Value::Data((0u8..40).collect())),
        ("when", Value::Date(Date::from_unix(1_385_512_440, 0))),
        ("empty", Value::Array(vec![])),
        ("nested", dict(&[("inner", dict(&[]))])),
    ]);
    let doc = generator::generate(&value, &StdFloats).unwrap();
    let back = parser::parse(&doc, &StdFloats).unwrap();
    assert_eq!(back, value);
}

#[test]
fn gnustep_strings_read_back_as_written() {
    for body in ["plain", "", "two words", "quote \" and \\ back", "caf\u{e9} \u{4e16}\u{754c}", "tab\there\u{7}", "a/b"] {
        let value = s(body);
        let written = apple_plist::text::generator::generate(&value, Format::GnuStep, "", &StdFloats);
        let (back, format) = text(written.as_bytes()).unwrap();
        assert_eq!(back, value, "{written}");
        assert_eq!(format, Format::OpenStep);
    }
    let written = apple_plist::text::generator::generate(&s("caf\u{e9}"), Format::GnuStep, "", &StdFloats);
    assert_eq!(written, "\"caf\\351\"");
}

#[test]
fn gnustep_scalars_read_back_as_written() {
    let scalars = [
        Value::Integer(Integer::Signed(-42)),
        Value::Integer(Integer::Signed(i64::MIN)),
        Value::Integer(Integer::Unsigned(u64::MAX)),
        Value::Boolean(true),
        Value::Boolean(false),
        Value::Data(vec![]),
        Value::Data(vec![0, 1, 2, 3, 4, 5, 0xfe, 0xff, 0x10]),
    ];
    for value in scalars {
        let written = apple_plist::text::generator::generate(&value, Format::GnuStep, "\t", &StdFloats);
        let (back, _) = text(written.as_bytes()).unwrap();
        assert!(back.equals(&value), "{written}");
    }
    let written = apple_plist::text::generator::generate(&Value::Data(vec![0, 1, 2, 3, 4]), Format::GnuStep, "", &StdFloats);
    assert_eq!(written, "<00010203 04>");
    let (_, format) = text(b"<*BY>").unwrap();
    assert_eq!(format, Format::GnuStep);
}

#[test]
fn gnustep_trees_read_back_as_written() {
    let tree = dict(&[
        ("name", s("plist \"quoted\" caf\u{e9}")),
        ("count", Value::Integer(Integer::Signed(-7))),
        ("big", Value::Integer(Integer::Unsigned(u64::MAX))),
        ("flags", Value::Array(vec![Value::Boolean(true), Value::Boolean(false), s("x")])),
        ("blob", Value::Data(vec![1, 2, 3, 4, 5])),
        ("ref", Value::Uid(Uid::new(42))),
        ("nested", dict(&[("inner", Value::Array(vec![]))])),
        ("empty", dict(&[])),
        ("when", Value::Date(Date::from_unix(1_385_512_440, 0))),
    ]);
    for indent in ["", "\t", "  "] {
        let written = apple_plist::text::generator::generate(&tree, Format::GnuStep, indent, &StdFloats);
        let (back, format) = text(written.as_bytes()).unwrap();
        assert!(back.equals(&tree), "{written}");
        assert_eq!(format, Format::GnuStep);
    }
}

#[test]
fn binary_nan_encodes_only_outside_containers() {
    let nan = Value::Real(Real::from_f64_bits(0x7FF8_0000_0000_0001));
    assert!(generator::generate(&nan, &StdFloats).is_ok());
    let nested = Value::Array(vec![nan.clone()]);
    assert!(matches!(generator::generate(&nested, &StdFloats), Err(Error::Message(_))));
    let keyed = dict(&[("k", nan)]);
    assert!(matches!(generator::generate(&keyed, &StdFloats), Err(Error::Message(_))));
}

#[test]
fn detection_agrees_with_the_decoder_format() {
    let inputs: [&[u8]; 5] = [b"<string>hi</string>", b"(1,2,<*I3>)", b"(1,2,3)", b"", b"bplist00"];
    for input in inputs {
        let mut decoder = Decoder::new(input);
        let _ = decoder.decode_value(&StdFloats);
        assert_eq!(detect(input, &StdFloats), decoder.format());
    }
}
