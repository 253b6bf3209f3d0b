//! The XML plist parser: the `quick-xml` tokenizer, with the XML
//! well-formedness checks (reference resolution, character ranges, `]]>`
//! rejection, declaration version and encoding) done here.

use vstd::prelude::*;

use crate::date::Date;
use crate::depth::MAX_PARSE_DEPTH;
use crate::error::Error;
use crate::integer::Integer;
use crate::reals::Real;
use crate::date::rfc3339_date;
use crate::scalar::{float_literal_ok, i64_literal, parse_f64, parse_i64, parse_u64, special_value, u64_literal, FloatCodec};
use crate::text::parser::base64_decoded;
use crate::strings::{concat_str, push_all, push_bytes, signed_decimal, str_chars, string_from_chars, utf8_to_string};
use crate::value::{collect_entries, maybe_uid, Value};
use crate::xml::{in_character_range, xml_char};
use quick_xml::events::Event;

verus! {

// ---------------------------------------------------------------------------
// The tokenizer
// ---------------------------------------------------------------------------

#[verifier::external_type_specification]
#[verifier::external_body]
#[verifier::reject_recursive_types(R)]
pub struct ExXmlReader<R>(quick_xml::Reader<R>);

#[verifier::external_type_specification]
#[verifier::external_body]
pub struct ExXmlEvent<'a>(quick_xml::events::Event<'a>);

#[verifier::external_type_specification]
#[verifier::external_body]
pub struct ExBytesStart<'a>(quick_xml::events::BytesStart<'a>);

#[verifier::external_type_specification]
#[verifier::external_body]
pub struct ExBytesText<'a>(quick_xml::events::BytesText<'a>);

#[verifier::external_type_specification]
#[verifier::external_body]
pub struct ExBytesCData<'a>(quick_xml::events::BytesCData<'a>);

#[verifier::external_type_specification]
#[verifier::external_body]
pub struct ExBytesRef<'a>(quick_xml::events::BytesRef<'a>);

#[verifier::external_type_specification]
#[verifier::external_body]
pub struct ExBytesDecl<'a>(quick_xml::events::BytesDecl<'a>);

/// One tokenizer event, told apart by kind; the payloads stay the
/// tokenizer's own.
pub enum RawEvent<'a> {
    /// A start tag.
    Start(quick_xml::events::BytesStart<'a>),
    /// An empty-element tag.
    Empty(quick_xml::events::BytesStart<'a>),
    /// An end tag.
    End,
    /// Character data between tags.
    Text(quick_xml::events::BytesText<'a>),
    /// A CDATA section.
    CData(quick_xml::events::BytesCData<'a>),
    /// A general reference (`&name;`).
    Ref(quick_xml::events::BytesRef<'a>),
    /// The XML declaration.
    Decl(quick_xml::events::BytesDecl<'a>),
    /// A comment, processing instruction or DOCTYPE.
    Markup,
    /// End of input.
    Eof,
}

/// A tokenizer over `data` that also validates comments
/// (`Reader::from_reader`, with `check_comments` set in its configuration).
#[verifier::external_body]
fn xml_reader<'a>(data: &'a [u8]) -> quick_xml::Reader<&'a [u8]> {
    let mut reader = quick_xml::Reader::from_reader(data);
    reader.config_mut().check_comments = true;
    reader
}

/// The tokenizer's next event (`Reader::read_event`), or the crate's message
/// for a tokenizer failure. Nothing is stated of the event: it depends on
/// the reader's position in its input.
#[verifier::external_body]
fn xml_read_event<'a>(reader: &mut quick_xml::Reader<&'a [u8]>) -> Result<Event<'a>, String> {
    reader.read_event().map_err(|e| e.to_string())
}

/// An event told apart by kind, its payload moved over unchanged.
#[verifier::external_body]
fn event_kind<'a>(event: Event<'a>) -> RawEvent<'a> {
    match event {
        Event::Start(e) => RawEvent::Start(e),
        Event::Empty(e) => RawEvent::Empty(e),
        Event::End(_) => RawEvent::End,
        Event::Text(t) => RawEvent::Text(t),
        Event::CData(t) => RawEvent::CData(t),
        Event::GeneralRef(r) => RawEvent::Ref(r),
        Event::Decl(d) => RawEvent::Decl(d),
        Event::Comment(_) | Event::PI(_) | Event::DocType(_) => RawEvent::Markup,
        Event::Eof => RawEvent::Eof,
    }
}

/// A tag's local name, without any namespace prefix
/// (`BytesStart::local_name`).
#[verifier::external_body]
fn tag_local_name(tag: &quick_xml::events::BytesStart<'_>) -> Vec<u8> {
    tag.local_name().as_ref().to_vec()
}

/// A tag's attribute values in order, duplicates allowed
/// (`BytesStart::attributes` with `Attributes::with_checks(false)`): each
/// raw value, or the crate's message for a malformed attribute.
#[verifier::external_body]
fn tag_attribute_values(tag: &quick_xml::events::BytesStart<'_>) -> Vec<Result<Vec<u8>, String>> {
    tag.attributes().with_checks(false).map(|a| a.map(|a| a.value.to_vec()).map_err(|e| e.to_string())).collect()
}

/// The raw bytes of character data (`BytesText::into_inner`).
#[verifier::external_body]
fn text_bytes(text: quick_xml::events::BytesText<'_>) -> Vec<u8> {
    text.into_inner().into_owned()
}

/// The raw bytes of a CDATA section (`BytesCData::into_inner`).
#[verifier::external_body]
fn cdata_bytes(text: quick_xml::events::BytesCData<'_>) -> Vec<u8> {
    text.into_inner().into_owned()
}

/// The name of a general reference, between `&` and `;`
/// (`BytesRef::into_inner`).
#[verifier::external_body]
fn reference_name(reference: quick_xml::events::BytesRef<'_>) -> Vec<u8> {
    reference.into_inner().into_owned()
}

/// The declaration's `version` value when the declaration starts with one
/// (`BytesDecl::version`, `None` for its error).
#[verifier::external_body]
fn declaration_version(decl: &quick_xml::events::BytesDecl<'_>) -> Option<Vec<u8>> {
    decl.version().ok().map(|v| v.into_owned())
}

/// The declaration's `encoding` value when present and well formed
/// (`BytesDecl::encoding`, `None` for its absence or error).
#[verifier::external_body]
fn declaration_encoding(decl: &quick_xml::events::BytesDecl<'_>) -> Option<Vec<u8>> {
    decl.encoding().and_then(|e| e.ok()).map(|v| v.into_owned())
}

/// The text of bytes with invalid UTF-8 sequences replaced by U+FFFD
/// (`String::from_utf8_lossy`).
#[verifier::external_body]
fn lossy_text(bytes: &[u8]) -> (r: String)
    ensures
        vstd::utf8::valid_utf8(bytes@) ==> r@ == vstd::utf8::decode_utf8(bytes@),
{
    String::from_utf8_lossy(bytes).into_owned()
}

// ---------------------------------------------------------------------------
// Errors
// ---------------------------------------------------------------------------

/// Whether `e` is a hard XML parse failure.
pub open spec fn is_xml_error(e: Error) -> bool {
    e matches Error::Parse { format, source } && format@ == "XML"@ && source is Some
}

/// Whether `e` is the XML parser's "not an XML plist" verdict.
pub open spec fn is_xml_retry(e: Error) -> bool {
    e matches Error::InvalidPlist { format, source } && format@ == "XML"@ && source is Some
}

/// An XML parse failure carrying `message`.
fn xml_error(message: &str) -> (r: Error)
    ensures
        is_xml_error(r),
        r matches Error::Parse { source: Some(m), .. } && m@ == message@,
{
    xml_error_string(message.to_owned())
}

fn xml_error_string(message: String) -> (r: Error)
    ensures
        is_xml_error(r),
        r matches Error::Parse { source: Some(m), .. } && m == message,
{
    Error::Parse { format: "XML", source: Some(message) }
}

fn xml_error_chars(message: &Vec<char>) -> (r: Error)
    ensures
        is_xml_error(r),
{
    xml_error_string(string_from_chars(message.as_slice()))
}

/// A hard parse failure raised before the first element becomes the
/// "not an XML plist" verdict, keeping its cause.
fn into_retry_signal(error: Error) -> (r: Error)
    ensures
        is_xml_error(error) ==> is_xml_retry(r),
        !(error is Parse) ==> r == error,
        error matches Error::Parse { format, source } ==> r == (Error::InvalidPlist { format, source }),
{
    match error {
        Error::Parse { format, source } => Error::InvalidPlist { format, source },
        other => other,
    }
}

/// Whether `e` is the XML parse failure for input that ends inside an
/// element.
pub open spec fn is_eof_error(e: Error) -> bool {
    is_xml_error(e) && (e matches Error::Parse { source: Some(m), .. } && m@ == "unexpected end of input"@)
}

fn unexpected_eof() -> (r: Error)
    ensures
        is_eof_error(r),
{
    xml_error("unexpected end of input")
}

/// `"0x"` and the lowercase hexadecimal digits of `u`.
fn hex_code(u: u32) -> (r: Vec<char>)
    ensures
        r@ == seq!['0', 'x'] + crate::text::generator::hex_digits(u as nat),
{
    crate::binary::parser::hex_text(u as u64)
}

fn illegal_character(c: char) -> (r: Error)
    ensures
        is_xml_error(r),
{
    let mut m = str_chars("illegal character code ");
    push_all(&mut m, hex_code(c as u32).as_slice());
    xml_error_chars(&m)
}

// ---------------------------------------------------------------------------
// References
// ---------------------------------------------------------------------------

/// The character a predefined entity name stands for.
pub open spec fn named_reference(name: Seq<char>) -> Option<char> {
    if name == seq!['l', 't'] {
        Some('<')
    } else if name == seq!['g', 't'] {
        Some('>')
    } else if name == seq!['a', 'm', 'p'] {
        Some('&')
    } else if name == seq!['a', 'p', 'o', 's'] {
        Some('\'')
    } else if name == seq!['q', 'u', 'o', 't'] {
        Some('"')
    } else {
        None
    }
}

/// The code point of a character reference name: `#` and decimal digits,
/// or `#x` and hexadecimal digits (lowercase `x` only), at most U+10FFFF.
pub open spec fn numeric_reference(name: Seq<char>) -> Option<u32> {
    if name.len() >= 1 && name[0] == '#' {
        let numeric = name.subrange(1, name.len() as int);
        let hex = numeric.len() >= 1 && numeric[0] == 'x';
        let digits = if hex {
            numeric.subrange(1, numeric.len() as int)
        } else {
            numeric
        };
        match u64_literal(digits, if hex { 16 } else { 10 }) {
            Ok(v) => if v <= 0x10FFFF {
                Some(v as u32)
            } else {
                None
            },
            Err(_) => None,
        }
    } else {
        None
    }
}

/// The character for a code point, with U+FFFD for a surrogate.
pub open spec fn code_point_char(u: u32) -> char {
    if u < 0xD800 || (0xE000 <= u && u <= 0x10FFFF) {
        u as char
    } else {
        '\u{FFFD}'
    }
}

/// A decimal character reference `#` + digits of `n` names the code point
/// `n`.
pub proof fn decimal_reference_names_its_code(n: u64)
    requires
        n <= 0x10FFFF,
    ensures
        numeric_reference(seq!['#'] + crate::strings::decimal_digits(n as nat)) == Some(n as u32),
{
    let d = crate::strings::decimal_digits(n as nat);
    crate::scalar::decimal_text_reads_back(n, 0);
    lemma_decimal_digits_start(n as nat);
    let name = seq!['#'] + d;
    assert(name.subrange(1, name.len() as int) =~= d);
}

/// The decimal digits of a number start with a digit.
proof fn lemma_decimal_digits_start(n: nat)
    ensures
        crate::strings::decimal_digits(n).len() > 0,
        '0' <= crate::strings::decimal_digits(n)[0] <= '9',
    decreases n,
{
    if n >= 10 {
        lemma_decimal_digits_start(n / 10);
    }
}

/// Each predefined entity resolves exactly as the decimal character
/// reference of its character does: `&lt; &gt; &amp; &apos; &quot;` read as
/// `&#60; &#62; &#38; &#39; &#34;`.
pub proof fn predefined_entities_read_as_their_codes()
    ensures
        reference_char(seq!['l', 't']) == reference_char(seq!['#'] + crate::strings::decimal_digits(60)),
        reference_char(seq!['g', 't']) == reference_char(seq!['#'] + crate::strings::decimal_digits(62)),
        reference_char(seq!['a', 'm', 'p']) == reference_char(seq!['#'] + crate::strings::decimal_digits(38)),
        reference_char(seq!['a', 'p', 'o', 's']) == reference_char(seq!['#'] + crate::strings::decimal_digits(39)),
        reference_char(seq!['q', 'u', 'o', 't']) == reference_char(seq!['#'] + crate::strings::decimal_digits(34)),
{
    decimal_reference_names_its_code(60);
    decimal_reference_names_its_code(62);
    decimal_reference_names_its_code(38);
    decimal_reference_names_its_code(39);
    decimal_reference_names_its_code(34);
    assert(named_reference(seq!['#'] + crate::strings::decimal_digits(60)) is None) by {
        lemma_decimal_digits_start(60);
        let x = seq!['#'] + crate::strings::decimal_digits(60);
        assert(x[0] == '#');
    }
    assert(named_reference(seq!['#'] + crate::strings::decimal_digits(62)) is None) by {
        let x = seq!['#'] + crate::strings::decimal_digits(62);
        assert(x[0] == '#');
    }
    assert(named_reference(seq!['#'] + crate::strings::decimal_digits(38)) is None) by {
        let x = seq!['#'] + crate::strings::decimal_digits(38);
        assert(x[0] == '#');
    }
    assert(named_reference(seq!['#'] + crate::strings::decimal_digits(39)) is None) by {
        let x = seq!['#'] + crate::strings::decimal_digits(39);
        assert(x[0] == '#');
    }
    assert(named_reference(seq!['#'] + crate::strings::decimal_digits(34)) is None) by {
        let x = seq!['#'] + crate::strings::decimal_digits(34);
        assert(x[0] == '#');
    }
    assert(60u32 as char == '<');
    assert(62u32 as char == '>');
    assert(38u32 as char == '&');
    assert(39u32 as char == '\'');
    assert(34u32 as char == '"');
}

/// What a reference `&name;` resolves to in strict mode: a predefined
/// entity or a character reference, which must land in the XML character
/// range.
pub open spec fn reference_char(name: Seq<char>) -> Option<char> {
    let resolved = match named_reference(name) {
        Some(c) => Some(c),
        None => match numeric_reference(name) {
            Some(u) => Some(code_point_char(u)),
            None => None,
        },
    };
    match resolved {
        Some(c) => if xml_char(c) {
            Some(c)
        } else {
            None
        },
        None => None,
    }
}

fn chars_are(name: &[char], expected: &[char]) -> (r: bool)
    ensures
        r == (name@ == expected@),
{
    if name.len() != expected.len() {
        return false;
    }
    let mut i: usize = 0;
    while i < name.len()
        invariant
            name@.len() == expected@.len(),
            0 <= i <= name@.len(),
            forall|j: int| 0 <= j < i ==> name@[j] == expected@[j],
        decreases name@.len() - i,
    {
        if name[i] != expected[i] {
            return false;
        }
        i = i + 1;
    }
    assert(name@ =~= expected@);
    true
}

fn bad_reference(name: &[char]) -> (r: Error)
    ensures
        is_xml_error(r),
{
    let mut m = str_chars("invalid character entity &");
    push_all(&mut m, name);
    m.push(';');
    xml_error_chars(&m)
}

/// Resolves the name of one `&name;` reference: the five predefined
/// entities, `#DDD` or `#xHHH`; a surrogate code point becomes U+FFFD, and
/// the result must be an XML character.
pub fn resolve_reference(name: &[char]) -> (r: Result<char, Error>)
    ensures
        match reference_char(name@) {
            Some(c) => r == Ok::<char, Error>(c),
            None => r matches Err(e) && is_xml_error(e),
        },
{
    let named: Option<char> = if chars_are(name, &['l', 't']) {
        Some('<')
    } else if chars_are(name, &['g', 't']) {
        Some('>')
    } else if chars_are(name, &['a', 'm', 'p']) {
        Some('&')
    } else if chars_are(name, &['a', 'p', 'o', 's']) {
        Some('\'')
    } else if chars_are(name, &['q', 'u', 'o', 't']) {
        Some('"')
    } else {
        None
    };
    assert(named == named_reference(name@)) by {
        assert(seq!['l', 't'] =~= ['l', 't']@);
        assert(seq!['g', 't'] =~= ['g', 't']@);
        assert(seq!['a', 'm', 'p'] =~= ['a', 'm', 'p']@);
        assert(seq!['a', 'p', 'o', 's'] =~= ['a', 'p', 'o', 's']@);
        assert(seq!['q', 'u', 'o', 't'] =~= ['q', 'u', 'o', 't']@);
    }
    let resolved = match named {
        Some(c) => c,
        None => {
            if name.len() == 0 || name[0] != '#' {
                return Err(bad_reference(name));
            }
            let numeric = &name[1..name.len()];
            let hex = numeric.len() >= 1 && numeric[0] == 'x';
            let digits = if hex {
                &numeric[1..numeric.len()]
            } else {
                numeric
            };
            proof {
                assert(numeric@ =~= name@.subrange(1, name@.len() as int));
                if hex {
                    assert(digits@ =~= numeric@.subrange(1, numeric@.len() as int));
                }
            }
            let text = string_from_chars(digits);
            let code = match parse_u64(text.as_str(), if hex { 16 } else { 10 }) {
                Ok(v) => v,
                Err(_) => {
                    return Err(bad_reference(name));
                },
            };
            proof {
                crate::scalar::lemma_scan_in_range(digits@, if hex { 16 } else { 10 }, false, 0, u64::MAX as int);
            }
            if code > 0x10FFFF {
                return Err(bad_reference(name));
            }
            match crate::strings::char_from_u32_checked(code as u32) {
                Some(c) => c,
                None => '\u{FFFD}',
            }
        },
    };
    if in_character_range(resolved) {
        Ok(resolved)
    } else {
        Err(bad_reference(name))
    }
}

// ---------------------------------------------------------------------------
// Character data
// ---------------------------------------------------------------------------

/// Whether `]]>` starts at `i`.
pub open spec fn cdata_end_at(raw: Seq<u8>, i: int) -> bool {
    0 <= i && i + 3 <= raw.len() && raw[i] == 0x5Du8 && raw[i + 1] == 0x5Du8 && raw[i + 2] == 0x3Eu8
}

/// Whether `]]>` occurs in `raw`.
pub open spec fn has_cdata_end(raw: Seq<u8>) -> bool {
    exists|i: int| #[trigger] cdata_end_at(raw, i)
}

/// Line-end normalization: CR LF and lone CR become LF.
pub open spec fn normalize_newlines(s: Seq<char>) -> Seq<char>
    decreases s.len(),
{
    if s.len() == 0 {
        Seq::empty()
    } else if s[0] == '\r' {
        if s.len() >= 2 && s[1] == '\n' {
            seq!['\n'] + normalize_newlines(s.subrange(2, s.len() as int))
        } else {
            seq!['\n'] + normalize_newlines(s.subrange(1, s.len() as int))
        }
    } else {
        seq![s[0]] + normalize_newlines(s.subrange(1, s.len() as int))
    }
}

/// Normalized text holds no carriage return.
pub proof fn lemma_normalized_has_no_cr(s: Seq<char>)
    ensures
        !normalize_newlines(s).contains('\r'),
    decreases s.len(),
{
    if s.len() > 0 {
        let rest = if s[0] == '\r' && s.len() >= 2 && s[1] == '\n' {
            s.subrange(2, s.len() as int)
        } else {
            s.subrange(1, s.len() as int)
        };
        lemma_normalized_has_no_cr(rest);
        let n = normalize_newlines(s);
        assert(n == seq![n[0]] + normalize_newlines(rest));
        assert forall|k: int| 0 <= k < n.len() implies n[k] != '\r' by {
            if k > 0 {
                assert(n[k] == normalize_newlines(rest)[k - 1]);
            }
        }
    }
}

/// Whether every character of `s` is an XML character.
pub open spec fn all_xml_chars(s: Seq<char>) -> bool {
    forall|k: int| 0 <= k < s.len() ==> xml_char(#[trigger] s[k])
}

/// The text of one character-data chunk: outside CDATA `]]>` is refused;
/// the bytes must be UTF-8; line ends are normalized and every character
/// must be an XML character.
pub open spec fn chunk_text(raw: Seq<u8>, cdata: bool) -> Option<Seq<char>> {
    if (cdata || !has_cdata_end(raw)) && vstd::utf8::valid_utf8(raw) && all_xml_chars(
        normalize_newlines(vstd::utf8::decode_utf8(raw)),
    ) {
        Some(normalize_newlines(vstd::utf8::decode_utf8(raw)))
    } else {
        None
    }
}

fn contains_cdata_end(raw: &[u8]) -> (r: bool)
    ensures
        r == has_cdata_end(raw@),
{
    let mut i: usize = 0;
    while i < raw.len() && raw.len() - i >= 3
        invariant
            forall|j: int| 0 <= j < i ==> !cdata_end_at(raw@, j),
        decreases raw@.len() - i,
    {
        if raw[i] == 0x5D && raw[i + 1] == 0x5D && raw[i + 2] == 0x3E {
            assert(cdata_end_at(raw@, i as int));
            return true;
        }
        i = i + 1;
    }
    assert forall|j: int| !cdata_end_at(raw@, j) by {
        if 0 <= j && j >= i {
            assert(!(j + 3 <= raw@.len()));
        }
    }
    false
}

proof fn lemma_normalize_step(s: Seq<char>, i: int)
    requires
        0 <= i < s.len(),
    ensures
        s[i] == '\r' && i + 1 < s.len() && s[i + 1] == '\n' ==> normalize_newlines(s.subrange(i, s.len() as int))
            == seq!['\n'] + normalize_newlines(s.subrange(i + 2, s.len() as int)),
        s[i] == '\r' && !(i + 1 < s.len() && s[i + 1] == '\n') ==> normalize_newlines(
            s.subrange(i, s.len() as int),
        ) == seq!['\n'] + normalize_newlines(s.subrange(i + 1, s.len() as int)),
        s[i] != '\r' ==> normalize_newlines(s.subrange(i, s.len() as int)) == seq![s[i]] + normalize_newlines(
            s.subrange(i + 1, s.len() as int),
        ),
{
    let t = s.subrange(i, s.len() as int);
    assert(t[0] == s[i]);
    assert(t.subrange(1, t.len() as int) =~= s.subrange(i + 1, s.len() as int));
    if t.len() >= 2 {
        assert(t[1] == s[i + 1]);
        assert(t.subrange(2, t.len() as int) =~= s.subrange(i + 2, s.len() as int));
    }
}

/// Validates and normalizes one raw chunk of character data.
pub fn text_chunk(raw: &[u8], cdata: bool) -> (r: Result<Vec<char>, Error>)
    ensures
        match chunk_text(raw@, cdata) {
            Some(t) => r matches Ok(v) && v@ == t,
            None => r matches Err(e) && is_xml_error(e),
        },
        r matches Ok(v) ==> !v@.contains('\r'),
{
    proof {
        lemma_normalized_has_no_cr(vstd::utf8::decode_utf8(raw@));
    }
    if !cdata && contains_cdata_end(raw) {
        return Err(xml_error("unescaped ]]> not in cdata section"));
    }
    let mut bytes: Vec<u8> = Vec::new();
    push_bytes(&mut bytes, raw);
    assert(bytes@ =~= raw@);
    let text = match utf8_to_string(bytes) {
        Some(t) => t,
        None => {
            return Err(xml_error("invalid utf-8 in text"));
        },
    };
    let s = str_chars(text.as_str());
    let ghost full = s@;
    let mut out: Vec<char> = Vec::new();
    let mut i: usize = 0;
    proof {
        assert(full.subrange(0, full.len() as int) =~= full);
        assert(out@ + normalize_newlines(full) =~= normalize_newlines(full));
    }
    while i < s.len()
        invariant
            s@ == full,
            vstd::utf8::valid_utf8(raw@),
            full == vstd::utf8::decode_utf8(raw@),
            cdata || !has_cdata_end(raw@),
            0 <= i <= s@.len(),
            normalize_newlines(full) == out@ + normalize_newlines(full.subrange(i as int, full.len() as int)),
            all_xml_chars(out@),
        decreases s@.len() - i,
    {
        proof {
            lemma_normalize_step(full, i as int);
        }
        let c = s[i];
        let (n, step): (char, usize) = if c == '\r' {
            if i + 1 < s.len() && s[i + 1] == '\n' {
                ('\n', 2)
            } else {
                ('\n', 1)
            }
        } else {
            (c, 1)
        };
        let ghost rest = normalize_newlines(full.subrange(i + step, full.len() as int));
        assert(normalize_newlines(full.subrange(i as int, full.len() as int)) == seq![n] + rest);
        if !in_character_range(n) {
            assert(normalize_newlines(full)[out@.len() as int] == n) by {
                assert((out@ + (seq![n] + rest))[out@.len() as int] == n);
            }
            assert(!all_xml_chars(normalize_newlines(full)));
            assert(full == vstd::utf8::decode_utf8(raw@));
            return Err(illegal_character(n));
        }
        proof {
            assert(out@ + (seq![n] + rest) =~= out@.push(n) + rest);
        }
        out.push(n);
        i = i + step;
    }
    proof {
        assert(full.subrange(i as int, full.len() as int) =~= Seq::<char>::empty());
        assert(normalize_newlines(Seq::<char>::empty()) =~= Seq::<char>::empty());
        assert(out@ + Seq::<char>::empty() =~= out@);
    }
    Ok(out)
}

// ---------------------------------------------------------------------------
// Attributes and the declaration
// ---------------------------------------------------------------------------

/// Attribute-value validation from position `i`, with `start` the first
/// character of an open reference name (negative outside one): every
/// character outside references is an XML character and every `&` opens a
/// reference closed by the next `;` that resolves.
pub open spec fn attribute_scan(s: Seq<char>, i: int, start: int) -> bool
    decreases s.len() - i,
{
    if i >= s.len() || i < 0 {
        start < 0
    } else if start >= 0 {
        if s[i] == ';' {
            reference_char(s.subrange(start, i)) is Some && attribute_scan(s, i + 1, -1)
        } else {
            attribute_scan(s, i + 1, start)
        }
    } else if s[i] == '&' {
        attribute_scan(s, i + 1, i + 1)
    } else {
        xml_char(s[i]) && attribute_scan(s, i + 1, -1)
    }
}

/// Whether one raw attribute value is acceptable: UTF-8 whose references
/// resolve and whose other characters are XML characters.
pub open spec fn attribute_value_ok(raw: Seq<u8>) -> bool {
    vstd::utf8::valid_utf8(raw) && attribute_scan(vstd::utf8::decode_utf8(raw), 0, -1)
}

/// Whether every attribute of a tag is well formed and acceptable.
pub open spec fn attributes_ok(attributes: Seq<Result<Vec<u8>, String>>) -> bool {
    forall|k: int| 0 <= k < attributes.len() ==> (#[trigger] attributes[k] matches Ok(v) && attribute_value_ok(v@))
}

/// Validates one raw attribute value.
pub fn validate_attribute_value(raw: &[u8]) -> (r: Result<(), Error>)
    ensures
        r is Ok <==> attribute_value_ok(raw@),
        r matches Err(e) ==> is_xml_error(e),
{
    let mut bytes: Vec<u8> = Vec::new();
    push_bytes(&mut bytes, raw);
    assert(bytes@ =~= raw@);
    let text = match utf8_to_string(bytes) {
        Some(t) => t,
        None => {
            return Err(xml_error("invalid utf-8 in text"));
        },
    };
    let s = str_chars(text.as_str());
    let mut i: usize = 0;
    let mut start: usize = 0;
    let mut open = false;
    while i < s.len()
        invariant
            0 <= i <= s@.len(),
            vstd::utf8::valid_utf8(raw@),
            s@ == vstd::utf8::decode_utf8(raw@),
            open ==> start <= i,
            attribute_scan(s@, 0, -1) == attribute_scan(s@, i as int, if open { start as int } else { -1 }),
        decreases s@.len() - i,
    {
        let c = s[i];
        if open {
            if c == ';' {
                let name = &s.as_slice()[start..i];
                assert(name@ =~= s@.subrange(start as int, i as int));
                match resolve_reference(name) {
                    Ok(_) => {},
                    Err(e) => {
                        assert(!attribute_scan(s@, i as int, start as int));
                        assert(s@ == vstd::utf8::decode_utf8(raw@));
                        return Err(e);
                    },
                }
                open = false;
            }
        } else if c == '&' {
            open = true;
            start = i + 1;
        } else if !in_character_range(c) {
            assert(!attribute_scan(s@, i as int, -1));
            assert(s@ == vstd::utf8::decode_utf8(raw@));
            return Err(illegal_character(c));
        }
        i = i + 1;
    }
    if open {
        return Err(xml_error("character entity without semicolon"));
    }
    Ok(())
}

/// Validates every attribute of a tag, in order.
fn validate_attributes(attributes: &Vec<Result<Vec<u8>, String>>) -> (r: Result<(), Error>)
    ensures
        r is Ok <==> attributes_ok(attributes@),
        r matches Err(e) ==> is_xml_error(e),
{
    let mut k: usize = 0;
    while k < attributes.len()
        invariant
            0 <= k <= attributes@.len(),
            forall|j: int| 0 <= j < k ==> (#[trigger] attributes@[j] matches Ok(v) && attribute_value_ok(v@)),
        decreases attributes@.len() - k,
    {
        match &attributes[k] {
            Ok(raw) => {
                match validate_attribute_value(raw.as_slice()) {
                    Ok(()) => {},
                    Err(e) => {
                        return Err(e);
                    },
                }
            },
            Err(message) => {
                return Err(xml_error(message.as_str()));
            },
        }
        k = k + 1;
    }
    Ok(())
}

/// ASCII lower-casing of one byte.
pub open spec fn lower_byte(b: u8) -> u8 {
    if 0x41 <= b && b <= 0x5A {
        (b + 32) as u8
    } else {
        b
    }
}

/// Whether the declaration is acceptable: a `version`, when present, is
/// exactly `1.0`; an `encoding`, when present, is `utf-8` in any ASCII case.
pub open spec fn declaration_ok(version: Option<Seq<u8>>, encoding: Option<Seq<u8>>) -> bool {
    &&& version matches Some(v) ==> v == seq![0x31u8, 0x2Eu8, 0x30u8]
    &&& encoding matches Some(e) ==> (e.len() == 5 && lower_byte(e[0]) == 0x75u8 && lower_byte(e[1]) == 0x74u8
        && lower_byte(e[2]) == 0x66u8 && lower_byte(e[3]) == 0x2Du8 && lower_byte(e[4]) == 0x38u8)
}

fn lower(b: u8) -> (r: u8)
    ensures
        r == lower_byte(b),
{
    if 0x41 <= b && b <= 0x5A {
        b + 32
    } else {
        b
    }
}

/// The `<?xml?>` checks on its `version` and `encoding` values.
pub fn validate_declaration(version: &Option<Vec<u8>>, encoding: &Option<Vec<u8>>) -> (r: Result<(), Error>)
    ensures
        r is Ok <==> declaration_ok(
            match *version {
                Some(v) => Some(v@),
                None => None,
            },
            match *encoding {
                Some(e) => Some(e@),
                None => None,
            },
        ),
        r matches Err(e) ==> is_xml_error(e),
{
    if let Some(v) = version {
        if !(v.len() == 3 && v[0] == 0x31 && v[1] == 0x2E && v[2] == 0x30) {
            let mut m = str_chars("unsupported xml version ");
            push_all(&mut m, &str_chars(lossy_text(v.as_slice()).as_str()));
            return Err(xml_error_chars(&m));
        }
        assert(v@ =~= seq![0x31u8, 0x2Eu8, 0x30u8]);
    }
    if let Some(e) = encoding {
        if !(e.len() == 5 && lower(e[0]) == 0x75 && lower(e[1]) == 0x74 && lower(e[2]) == 0x66 && lower(e[3]) == 0x2D
            && lower(e[4]) == 0x38) {
            let mut m = str_chars("unsupported document encoding ");
            push_all(&mut m, &str_chars(lossy_text(e.as_slice()).as_str()));
            return Err(xml_error_chars(&m));
        }
    }
    Ok(())
}

// ---------------------------------------------------------------------------
// Integers
// ---------------------------------------------------------------------------

/// Splits a base prefix: `0x` or `0X` selects base 16.
pub open spec fn base_split(s: Seq<char>) -> (Seq<char>, nat) {
    if s.len() >= 2 && s[0] == '0' && (s[1] == 'x' || s[1] == 'X') {
        (s.subrange(2, s.len() as int), 16)
    } else {
        (s, 10)
    }
}

/// The integer an `<integer>` body denotes: a leading `-` makes it signed,
/// otherwise it is unsigned; either may carry a `0x`/`0X` base prefix.
pub open spec fn xml_integer(s: Seq<char>) -> Option<Integer> {
    if s.len() == 0 {
        None
    } else if s[0] == '-' {
        let (d, b) = base_split(s.subrange(1, s.len() as int));
        match i64_literal(seq!['-'] + d, b) {
            Ok(v) => Some(Integer::Signed(v as i64)),
            Err(_) => None,
        }
    } else {
        let (d, b) = base_split(s);
        match u64_literal(d, b) {
            Ok(v) => Some(Integer::Unsigned(v as u64)),
            Err(_) => None,
        }
    }
}

fn split_base(s: &[char]) -> (r: (Vec<char>, u32))
    ensures
        r.0@ == base_split(s@).0,
        r.1 as nat == base_split(s@).1,
{
    let mut out: Vec<char> = Vec::new();
    if s.len() >= 2 && s[0] == '0' && (s[1] == 'x' || s[1] == 'X') {
        push_all(&mut out, &s[2..s.len()]);
        assert(out@ =~= s@.subrange(2, s@.len() as int));
        (out, 16)
    } else {
        push_all(&mut out, s);
        assert(out@ =~= s@);
        (out, 10)
    }
}

/// Parses an `<integer>` body.
pub fn parse_integer(body: &[char]) -> (r: Result<Value, Error>)
    ensures
        match xml_integer(body@) {
            Some(i) => r == Ok::<Value, Error>(Value::Integer(i)),
            None => r matches Err(e) && is_xml_error(e),
        },
{
    if body.len() == 0 {
        return Err(xml_error("invalid empty <integer/>"));
    }
    if body[0] == '-' {
        let rest = &body[1..body.len()];
        assert(rest@ =~= body@.subrange(1, body@.len() as int));
        let (digits, base) = split_base(rest);
        let mut signed: Vec<char> = Vec::new();
        signed.push('-');
        push_all(&mut signed, digits.as_slice());
        assert(signed@ =~= seq!['-'] + digits@);
        let text = string_from_chars(signed.as_slice());
        match parse_i64(text.as_str(), base) {
            Ok(v) => Ok(Value::Integer(Integer::Signed(v))),
            Err(e) => Err(scalar_cause(e)),
        }
    } else {
        let (digits, base) = split_base(body);
        let text = string_from_chars(digits.as_slice());
        match parse_u64(text.as_str(), base) {
            Ok(v) => Ok(Value::Integer(Integer::Unsigned(v))),
            Err(e) => Err(scalar_cause(e)),
        }
    }
}

/// The `<integer>` body the generator writes for an integer (its canonical
/// decimal text) reads back as an integer of the same value.
pub proof fn integer_body_reads_back(i: Integer)
    ensures
        xml_integer(signed_decimal(i.value())) matches Some(j) && j.value() == i.value(),
{
    let (n, v): (u64, i64) = match i {
        Integer::Unsigned(u) => (u, 0),
        Integer::Signed(x) => (0, x),
    };
    crate::scalar::decimal_text_reads_back(n, v);
    let s = signed_decimal(i.value());
    match i {
        Integer::Unsigned(u) => {
            crate::strings::lemma_decimal_digits_shape(u as nat);
        },
        Integer::Signed(x) => {
            if x >= 0 {
                crate::strings::lemma_decimal_digits_shape(x as nat);
                crate::scalar::decimal_text_reads_back(x as u64, 0);
            } else {
                let mag = (-x) as nat;
                crate::strings::lemma_decimal_digits_shape(mag);
                assert(s.subrange(1, s.len() as int) =~= crate::strings::decimal_digits(mag));
                assert(seq!['-'] + crate::strings::decimal_digits(mag) =~= s);
            }
        },
    }
}

/// A scalar failure as an XML parse failure with the same message.
fn scalar_cause(cause: Error) -> (r: Error)
    ensures
        is_xml_error(r),
{
    match cause {
        Error::ParseScalar(text) => xml_error_string(text),
        _ => xml_error("invalid scalar"),
    }
}

// ---------------------------------------------------------------------------
// The element walker
// ---------------------------------------------------------------------------

/// One validated tokenizer event.
enum Token {
    /// A start tag, by local name.
    Start(Vec<u8>),
    /// An empty-element tag, by local name.
    Empty(Vec<u8>),
    End,
    /// Normalized character data.
    Text(Vec<char>),
    /// A resolved reference.
    Ref(char),
    Markup,
    Eof,
}

/// The container state of one open element.
enum Pending {
    /// `<plist>` completes with its first child's value.
    Plist,
    /// A dictionary's raw entries and the key awaiting its value.
    Dictionary(Vec<(String, Value)>, Option<String>),
    Array(Vec<Value>),
}

/// The walker's continuation between loop turns.
enum Step {
    /// Evaluate an element, by local name and whether it is empty.
    Open(Vec<u8>, bool),
    /// Read the top frame's next tokens.
    Advance,
    /// Hand a finished value to the top frame, or out of the walker.
    Deliver(Value),
}

/// The walker's termination measure within one fuel level.
spec fn step_rank(depth: nat, step: Step) -> nat {
    match step {
        Step::Open(..) => 2 * depth + 3,
        Step::Deliver(_) => 2 * depth + 1,
        Step::Advance => 0,
    }
}

/// Whether a local name is the given ASCII element name.
fn name_is(name: &Vec<u8>, text: &str) -> (r: bool)
    ensures
        r == (name@ == vstd::utf8::encode_utf8(text@)),
{
    let expected = crate::strings::str_bytes(text);
    crate::value::bytes_equal(name, &expected)
}

/// The parser state: the tokenizer, whether a plist element has been seen,
/// an error deferred to the next read, the number of reads left, and the
/// log of every token read. Every read that yields something other than
/// end of input consumes input, so the reads never exceed the input length
/// plus one; past its budget the parser reads end of input.
struct XmlParser<'a> {
    reader: quick_xml::Reader<&'a [u8]>,
    recognized: bool,
    poison: Option<Error>,
    fuel: usize,
    /// Every token the parser has read, in order.
    reads: Ghost<Seq<XmlRead>>,
}

/// What one read gave the walker.
enum XmlRead {
    Start(Seq<u8>),
    Empty(Seq<u8>),
    End,
    Text(Seq<char>),
    Ref(char),
    Markup,
    Eof,
    Fail(Error),
}

spec fn read_of(r: Result<Token, Error>) -> XmlRead {
    match r {
        Ok(Token::Start(n)) => XmlRead::Start(n@),
        Ok(Token::Empty(n)) => XmlRead::Empty(n@),
        Ok(Token::End) => XmlRead::End,
        Ok(Token::Text(t)) => XmlRead::Text(t@),
        Ok(Token::Ref(c)) => XmlRead::Ref(c),
        Ok(Token::Markup) => XmlRead::Markup,
        Ok(Token::Eof) => XmlRead::Eof,
        Err(e) => XmlRead::Fail(e),
    }
}

/// Whether the read `x` ends a scan: a failure or the end of input.
spec fn is_stop(x: XmlRead) -> bool {
    x is Fail || x is Eof
}

/// Whether the log `b` continues the log `a`.
spec fn log_extends(a: Seq<XmlRead>, b: Seq<XmlRead>) -> bool {
    a.len() <= b.len() && b.take(a.len() as int) == a
}

proof fn lemma_log_extends_trans(a: Seq<XmlRead>, b: Seq<XmlRead>, c: Seq<XmlRead>)
    requires
        log_extends(a, b),
        log_extends(b, c),
    ensures
        log_extends(a, c),
{
    assert(c.take(a.len() as int) =~= c.take(b.len() as int).take(a.len() as int));
}

/// Whether a read before the document's first element is passed over: it
/// is no element tag and does not end the scan.
spec fn prolog_read(x: XmlRead) -> bool {
    !(x is Start || x is Empty || is_stop(x))
}

/// The prolog of `w` is its first `k` reads, and the read after them ends
/// it: a failure there is the "not an XML plist" verdict with the failure's
/// cause, the end of input the verdict that no document was found, and an
/// element tag starts the document's element.
spec fn prolog_ends_at(w: Seq<XmlRead>, r: Result<Value, Error>, k: int) -> bool {
    &&& 0 <= k < w.len()
    &&& forall|j: int| 0 <= j < k ==> prolog_read(#[trigger] w[j])
    &&& match w[k] {
        XmlRead::Fail(e) => k + 1 == w.len() && (e matches Error::Parse { format, source } && r
            == Err::<Value, Error>(Error::InvalidPlist { format, source })),
        XmlRead::Eof => k + 1 == w.len() && (r matches Err(Error::InvalidPlist { format, source: Some(m) })
            && format@ == "XML"@ && m@ == "no xml document found"@),
        XmlRead::Start(_) => true,
        XmlRead::Empty(_) => true,
        _ => false,
    }
}

/// `w` opens with the prolog and the read that ends it.
spec fn prolog_done(w: Seq<XmlRead>, r: Result<Value, Error>) -> bool {
    exists|k: int| #[trigger] prolog_ends_at(w, r, k)
}

/// The number of elements open after reading `w` inside one opened element.
spec fn skip_depth(w: Seq<XmlRead>) -> int
    decreases w.len(),
{
    if w.len() == 0 {
        1
    } else {
        let d = skip_depth(w.drop_last());
        match w.last() {
            XmlRead::Start(_) => d + 1,
            XmlRead::End => d - 1,
            _ => d,
        }
    }
}

/// Whether every prefix of `w` leaves the opened element open and no read
/// of `w` stops.
spec fn skip_open(w: Seq<XmlRead>) -> bool
    decreases w.len(),
{
    w.len() == 0 || (skip_open(w.drop_last()) && skip_depth(w) >= 1 && !is_stop(w.last()))
}

/// `w` is a whole skip of an opened element with outcome `r`: its last read
/// closes the element, or fails, or meets the end of input.
spec fn skip_done(w: Seq<XmlRead>, r: Result<(), Error>) -> bool {
    &&& w.len() > 0
    &&& skip_open(w.drop_last())
    &&& match w.last() {
        XmlRead::End => skip_depth(w) == 0 && r is Ok,
        XmlRead::Fail(e) => r == Err::<(), Error>(e),
        XmlRead::Eof => r matches Err(e) && is_eof_error(e),
        _ => false,
    }
}

/// The character data and the depth of nested elements after reading `w`
/// inside an element: text and references at depth zero make the body,
/// and the element closes at depth minus one.
spec fn body_scan(w: Seq<XmlRead>) -> (Seq<char>, int)
    decreases w.len(),
{
    if w.len() == 0 {
        (Seq::empty(), 0)
    } else {
        let (b, d) = body_scan(w.drop_last());
        match w.last() {
            XmlRead::Start(_) => (b, d + 1),
            XmlRead::End => (b, d - 1),
            XmlRead::Text(t) => if d == 0 { (b + t, d) } else { (b, d) },
            XmlRead::Ref(c) => if d == 0 { (b.push(c), d) } else { (b, d) },
            _ => (b, d),
        }
    }
}

/// Whether every prefix of `w` leaves the element open and no read of `w`
/// stops.
spec fn body_open(w: Seq<XmlRead>) -> bool
    decreases w.len(),
{
    w.len() == 0 || (body_open(w.drop_last()) && body_scan(w).1 >= 0 && !is_stop(w.last()))
}

/// `w` is a whole read of an element's content with outcome `r`: the
/// element closes with its body, or a read fails or meets the end of input.
spec fn body_done(w: Seq<XmlRead>, r: Result<Vec<char>, Error>) -> bool {
    &&& w.len() > 0
    &&& body_open(w.drop_last())
    &&& match w.last() {
        XmlRead::End => body_scan(w).1 == -1 && (r matches Ok(b) && b@ == body_scan(w).0),
        XmlRead::Fail(e) => r == Err::<Vec<char>, Error>(e),
        XmlRead::Eof => r matches Err(e) && is_eof_error(e),
        _ => false,
    }
}

/// Reading a skipped child inside an element's content leaves the body as
/// it was and tracks the child's depth.
proof fn lemma_skip_in_body(w: Seq<XmlRead>, n: Seq<u8>, s: Seq<XmlRead>)
    requires
        body_open(w),
        body_scan(w).1 == 0,
        s.len() == 0 || skip_open(s.drop_last()),
    ensures
        body_scan(w.push(XmlRead::Start(n)) + s) == (body_scan(w).0, skip_depth(s)),
        skip_open(s) ==> body_open(w.push(XmlRead::Start(n)) + s),
    decreases s.len(),
{
    let u = w.push(XmlRead::Start(n)) + s;
    if s.len() == 0 {
        assert(u =~= w.push(XmlRead::Start(n)));
        assert(u.drop_last() =~= w);
    } else {
        let s0 = s.drop_last();
        if s0.len() > 0 {
            assert(skip_open(s0));
        }
        lemma_skip_in_body(w, n, s0);
        assert(u.drop_last() =~= w.push(XmlRead::Start(n)) + s0);
        assert(u.last() == s.last());
        if s0.len() == 0 {
            assert(skip_depth(s0) == 1);
        } else {
            assert(skip_depth(s0) >= 1);
        }
    }
}

/// The kinds of element the walker evaluates.
enum ElementKind {
    Plist,
    String,
    Integer,
    Real,
    /// `true` or `false`.
    Boolean(bool),
    Date,
    Data,
    Dictionary,
    Array,
    Unknown,
}

/// The kind of an element by its local name.
spec fn element_kind(name: Seq<u8>) -> ElementKind {
    if name == vstd::utf8::encode_utf8("plist"@) {
        ElementKind::Plist
    } else if name == vstd::utf8::encode_utf8("string"@) {
        ElementKind::String
    } else if name == vstd::utf8::encode_utf8("integer"@) {
        ElementKind::Integer
    } else if name == vstd::utf8::encode_utf8("real"@) {
        ElementKind::Real
    } else if name == vstd::utf8::encode_utf8("true"@) {
        ElementKind::Boolean(true)
    } else if name == vstd::utf8::encode_utf8("false"@) {
        ElementKind::Boolean(false)
    } else if name == vstd::utf8::encode_utf8("date"@) {
        ElementKind::Date
    } else if name == vstd::utf8::encode_utf8("data"@) {
        ElementKind::Data
    } else if name == vstd::utf8::encode_utf8("dict"@) {
        ElementKind::Dictionary
    } else if name == vstd::utf8::encode_utf8("array"@) {
        ElementKind::Array
    } else {
        ElementKind::Unknown
    }
}

/// A `<data>` body without the base64 whitespace (TAB, LF, SPACE, CR).
pub open spec fn base64_compact(body: Seq<char>) -> Seq<char> {
    body.filter(|c: char| !(c == '\t' || c == '\n' || c == ' ' || c == '\r'))
}

/// `body_result` is how an element's content read as `w`: an empty-element
/// tag reads nothing and has the empty body.
spec fn body_outcome(empty: bool, w: Seq<XmlRead>, body_result: Result<Vec<char>, Error>) -> bool {
    if empty {
        w.len() == 0 && (body_result matches Ok(b) && b@.len() == 0)
    } else {
        body_done(w, body_result)
    }
}

/// The step a character-data element with body `b` gives: its value
/// delivered, or the XML failure for a body its kind refuses. A real's
/// finite value comes from the decimal conversion, so only the special
/// values and the refused literals are fixed.
spec fn leaf_step(kind: ElementKind, b: Seq<char>, r: Result<Step, Error>) -> bool {
    match kind {
        ElementKind::String => r matches Ok(Step::Deliver(Value::String(s))) && s@ == b,
        ElementKind::Integer => match xml_integer(b) {
            Some(i) => r == Ok::<Step, Error>(Step::Deliver(Value::Integer(i))),
            None => r matches Err(e) && is_xml_error(e),
        },
        ElementKind::Real => {
            &&& special_value(b) matches Some(x) ==> r == Ok::<Step, Error>(Step::Deliver(Value::Real(Real::wide_real(x))))
            &&& !float_literal_ok(b) ==> (r matches Err(e) && is_xml_error(e))
            &&& r matches Ok(step) ==> (step matches Step::Deliver(Value::Real(x)) && x == Real::wide_real(x.spec_raw()))
            &&& r matches Err(e) ==> is_xml_error(e)
        },
        ElementKind::Date => match rfc3339_date(vstd::utf8::encode_utf8(b)) {
            Some(d) => r == Ok::<Step, Error>(Step::Deliver(Value::Date(d))),
            None => r matches Err(e) && is_xml_error(e),
        },
        ElementKind::Data => match base64_decoded(vstd::utf8::encode_utf8(base64_compact(b))) {
            Some(v) => r matches Ok(Step::Deliver(Value::Data(d))) && d@ == v,
            None => r matches Err(e) && is_xml_error(e),
        },
        _ => false,
    }
}

/// The step entering an element of kind `kind` gives below the nesting cap,
/// with `w` the reads it makes, the frame stack going from `before` to
/// `after`, and `poison` the error then deferred to the next read; `seen`
/// is whether a plist element was seen before.
spec fn open_outcome(
    kind: ElementKind,
    empty: bool,
    seen: bool,
    w: Seq<XmlRead>,
    before: Seq<Pending>,
    after: Seq<Pending>,
    poison: Option<Error>,
    r: Result<Step, Error>,
) -> bool {
    match kind {
        ElementKind::Plist => w.len() == 0 && if empty {
            after == before && (r matches Err(e) && is_xml_error(e))
        } else {
            after == before.push(Pending::Plist) && (r matches Ok(step) && step is Advance)
        },
        ElementKind::Boolean(b) => after == before && r == Ok::<Step, Error>(Step::Deliver(Value::Boolean(b))) && if empty {
            w.len() == 0
        } else {
            exists|skip: Result<(), Error>|
                #[trigger] skip_done(w, skip) && match skip {
                    Ok(()) => poison is None,
                    Err(e) => poison == Some(e),
                }
        },
        ElementKind::Dictionary => w.len() == 0 && if empty {
            after == before && (r matches Ok(Step::Deliver(Value::Dictionary(d))) && d.spec_entries() == collect_entries(
                Seq::empty(),
            ))
        } else {
            &&& after.len() == before.len() + 1 && after.drop_last() == before
            &&& after.last() matches Pending::Dictionary(entries, None) && entries@.len() == 0
            &&& r matches Ok(step) && step is Advance
        },
        ElementKind::Array => w.len() == 0 && if empty {
            after == before && (r matches Ok(Step::Deliver(Value::Array(a))) && a@.len() == 0)
        } else {
            &&& after.len() == before.len() + 1 && after.drop_last() == before
            &&& after.last() matches Pending::Array(values) && values@.len() == 0
            &&& r matches Ok(step) && step is Advance
        },
        ElementKind::Unknown => w.len() == 0 && after == before && (r matches Err(e) && if seen {
            is_xml_error(e)
        } else {
            is_xml_retry(e)
        }),
        _ => after == before && exists|body_result: Result<Vec<char>, Error>|
            #[trigger] body_outcome(empty, w, body_result) && match body_result {
                Ok(b) => leaf_step(kind, b@, r),
                Err(e) => r == Err::<Step, Error>(e),
            },
    }
}

impl<'a> XmlParser<'a> {
    spec fn wf(&self) -> bool {
        &&& self.poison matches Some(e) ==> is_xml_error(e)
        &&& self.fuel < usize::MAX
    }

    /// Reads one token and records it.
    fn next(&mut self) -> (r: Result<Token, Error>)
        requires
            old(self).wf(),
        ensures
            final(self).wf(),
            final(self).recognized == old(self).recognized,
            final(self).fuel <= old(self).fuel,
            r matches Ok(t) && !(t is Eof) ==> final(self).fuel < old(self).fuel,
            r matches Err(e) ==> is_xml_error(e),
            final(self).reads@ == old(self).reads@.push(read_of(r)),
            log_extends(old(self).reads@, final(self).reads@),
            final(self).poison is None,
    {
        let r = self.next_token();
        self.reads = Ghost(self.reads@.push(read_of(r)));
        assert(self.reads@.take(old(self).reads@.len() as int) =~= old(self).reads@);
        r
    }

    /// Pulls one event and applies the tokenizer checks: attributes, text,
    /// references and the declaration; a deferred error comes first.
    fn next_token(&mut self) -> (r: Result<Token, Error>)
        requires
            old(self).wf(),
        ensures
            final(self).wf(),
            final(self).recognized == old(self).recognized,
            final(self).fuel <= old(self).fuel,
            r matches Ok(t) && !(t is Eof) ==> final(self).fuel < old(self).fuel,
            r matches Err(e) ==> is_xml_error(e),
            final(self).reads == old(self).reads,
            final(self).poison is None,
    {
        match self.poison.take() {
            Some(p) => {
                return Err(p);
            },
            None => {},
        }
        if self.fuel == 0 {
            return Ok(Token::Eof);
        }
        self.fuel = self.fuel - 1;
        let event = match xml_read_event(&mut self.reader) {
            Ok(e) => event_kind(e),
            Err(m) => {
                return Err(xml_error_string(m));
            },
        };
        match event {
            RawEvent::Start(tag) => {
                let attributes = tag_attribute_values(&tag);
                match validate_attributes(&attributes) {
                    Ok(()) => Ok(Token::Start(tag_local_name(&tag))),
                    Err(e) => Err(e),
                }
            },
            RawEvent::Empty(tag) => {
                let attributes = tag_attribute_values(&tag);
                match validate_attributes(&attributes) {
                    Ok(()) => Ok(Token::Empty(tag_local_name(&tag))),
                    Err(e) => Err(e),
                }
            },
            RawEvent::End => Ok(Token::End),
            RawEvent::Text(t) => {
                let raw = text_bytes(t);
                match text_chunk(raw.as_slice(), false) {
                    Ok(v) => Ok(Token::Text(v)),
                    Err(e) => Err(e),
                }
            },
            RawEvent::CData(t) => {
                let raw = cdata_bytes(t);
                match text_chunk(raw.as_slice(), true) {
                    Ok(v) => Ok(Token::Text(v)),
                    Err(e) => Err(e),
                }
            },
            RawEvent::Ref(r) => {
                let raw = reference_name(r);
                let lossy = lossy_text(raw.as_slice());
                match utf8_to_string(raw) {
                    Some(name) => match resolve_reference(str_chars(name.as_str()).as_slice()) {
                        Ok(c) => Ok(Token::Ref(c)),
                        Err(e) => Err(e),
                    },
                    None => Err(bad_reference(str_chars(lossy.as_str()).as_slice())),
                }
            },
            RawEvent::Decl(d) => {
                let version = declaration_version(&d);
                let encoding = declaration_encoding(&d);
                match validate_declaration(&version, &encoding) {
                    Ok(()) => Ok(Token::Markup),
                    Err(e) => Err(e),
                }
            },
            RawEvent::Markup => Ok(Token::Markup),
            RawEvent::Eof => Ok(Token::Eof),
        }
    }

    /// Consumes the rest of an opened element, validating every token.
    fn skip_subtree(&mut self) -> (r: Result<(), Error>)
        requires
            old(self).wf(),
        ensures
            final(self).wf(),
            final(self).recognized == old(self).recognized,
            final(self).fuel <= old(self).fuel,
            r matches Err(e) ==> is_xml_error(e),
            final(self).reads@.len() > old(self).reads@.len(),
            final(self).reads@.take(old(self).reads@.len() as int) == old(self).reads@,
            skip_done(final(self).reads@.skip(old(self).reads@.len() as int), r),
            final(self).poison is None,
    {
        let ghost start = self.reads@.len() as int;
        let mut open: usize = 1;
        assert(self.reads@.take(start) =~= self.reads@);
        assert(self.reads@.skip(start) =~= Seq::<XmlRead>::empty());
        while open > 0
            invariant
                self.wf(),
                self.recognized == old(self).recognized,
                self.fuel <= old(self).fuel,
                open <= old(self).fuel - self.fuel + 1,
                old(self).fuel < usize::MAX,
                start == old(self).reads@.len(),
                self.reads@.len() >= start,
                self.reads@.take(start) == old(self).reads@,
                skip_depth(self.reads@.skip(start)) == open,
                open > 0 ==> skip_open(self.reads@.skip(start)),
                open == 0 ==> self.reads@.skip(start).len() > 0 && skip_open(self.reads@.skip(start).drop_last())
                    && self.reads@.skip(start).last() is End,
                self.reads@.len() > start ==> self.poison is None,
            decreases self.fuel,
        {
            let ghost before = self.reads@;
            let t = self.next();
            proof {
                assert(self.reads@.take(start) =~= before.take(start));
                assert(self.reads@.skip(start) =~= before.skip(start).push(read_of(t)));
                assert(self.reads@.skip(start).drop_last() =~= before.skip(start));
            }
            match t {
                Err(e) => {
                    return Err(e);
                },
                Ok(Token::Start(_)) => {
                    open = open + 1;
                },
                Ok(Token::End) => {
                    open = open - 1;
                },
                Ok(Token::Eof) => {
                    return Err(unexpected_eof());
                },
                Ok(_) => {},
            }
        }
        Ok(())
    }

    /// Collects an element's character data: text, CDATA and resolved
    /// references concatenate; child elements are skipped whole; markup
    /// contributes nothing.
    fn element_body(&mut self, empty: bool) -> (r: Result<Vec<char>, Error>)
        requires
            old(self).wf(),
        ensures
            final(self).wf(),
            final(self).recognized == old(self).recognized,
            final(self).fuel <= old(self).fuel,
            r matches Err(e) ==> is_xml_error(e),
            final(self).reads@.len() >= old(self).reads@.len(),
            final(self).reads@.take(old(self).reads@.len() as int) == old(self).reads@,
            empty ==> (final(self).reads@ == old(self).reads@ && (r matches Ok(b) && b@.len() == 0)),
            !empty ==> body_done(final(self).reads@.skip(old(self).reads@.len() as int), r),
            !empty ==> final(self).poison is None,
            empty ==> final(self).poison == old(self).poison,
    {
        let ghost start = self.reads@.len() as int;
        let mut body: Vec<char> = Vec::new();
        if empty {
            assert(self.reads@.take(start) =~= self.reads@);
            return Ok(body);
        }
        assert(self.reads@.take(start) =~= self.reads@);
        assert(self.reads@.skip(start) =~= Seq::<XmlRead>::empty());
        loop
            invariant
                self.wf(),
                self.recognized == old(self).recognized,
                self.fuel <= old(self).fuel,
                !empty,
                start == old(self).reads@.len(),
                self.reads@.len() >= start,
                self.reads@.take(start) == old(self).reads@,
                body_open(self.reads@.skip(start)),
                body_scan(self.reads@.skip(start)) == (body@, 0int),
                self.reads@.len() > start ==> self.poison is None,
            decreases self.fuel,
        {
            let ghost before = self.reads@;
            let ghost w = before.skip(start);
            let t = self.next();
            proof {
                assert(self.reads@.take(start) =~= before.take(start));
                assert(self.reads@.skip(start) =~= w.push(read_of(t)));
                assert(self.reads@.skip(start).drop_last() =~= w);
            }
            match t {
                Err(e) => {
                    return Err(e);
                },
                Ok(Token::Start(n)) => {
                    let ghost mid = self.reads@;
                    let s = self.skip_subtree();
                    proof {
                        let sk = self.reads@.skip(mid.len() as int);
                        assert(self.reads@.take(start) =~= mid.take(start));
                        assert(self.reads@.skip(start) =~= w.push(XmlRead::Start(n@)) + sk);
                        assert(self.reads@.skip(start).drop_last() =~= w.push(XmlRead::Start(n@)) + sk.drop_last());
                        lemma_skip_in_body(w, n@, sk);
                        let sk0 = sk.drop_last();
                        if sk0.len() > 0 {
                            assert(skip_open(sk0));
                        }
                        lemma_skip_in_body(w, n@, sk0);
                    }
                    match s {
                        Ok(()) => {},
                        Err(e) => {
                            return Err(e);
                        },
                    }
                },
                Ok(Token::End) => {
                    return Ok(body);
                },
                Ok(Token::Text(text)) => {
                    push_all(&mut body, text.as_slice());
                },
                Ok(Token::Ref(c)) => {
                    body.push(c);
                },
                Ok(Token::Eof) => {
                    return Err(unexpected_eof());
                },
                Ok(_) => {},
            }
        }
    }

    /// Element entry: refuses the level past the nesting cap, then either
    /// delivers a leaf value or opens a container frame.
    fn open_step<H: FloatCodec>(&mut self, stack: &mut Vec<Pending>, name: Vec<u8>, empty: bool, hooks: &H) -> (r:
        Result<Step, Error>)
        requires
            old(self).wf(),
            old(stack)@.len() <= MAX_PARSE_DEPTH,
        ensures
            final(self).wf(),
            final(self).fuel <= old(self).fuel,
            old(self).recognized ==> final(self).recognized,
            r is Ok ==> old(stack)@.len() < MAX_PARSE_DEPTH,
            r matches Ok(step) ==> ((step is Advance && final(stack)@.len() == old(stack)@.len() + 1)
                || (step is Deliver && final(stack)@.len() == old(stack)@.len())),
            r matches Err(e) ==> is_xml_error(e) || e is MaxDepthExceeded || (is_xml_retry(e)
                && !old(self).recognized),
            log_extends(old(self).reads@, final(self).reads@),
            old(stack)@.len() >= MAX_PARSE_DEPTH ==> (r == Err::<Step, Error>(Error::MaxDepthExceeded) && final(stack)@
                == old(stack)@ && final(self).reads@ == old(self).reads@),
            old(stack)@.len() < MAX_PARSE_DEPTH ==> open_outcome(
                element_kind(name@),
                empty,
                old(self).recognized,
                final(self).reads@.skip(old(self).reads@.len() as int),
                old(stack)@,
                final(stack)@,
                final(self).poison,
                r,
            ),
            old(stack)@.len() < MAX_PARSE_DEPTH ==> final(self).recognized == (old(self).recognized || !(element_kind(
                name@,
            ) is Unknown)),
    {
        assert(self.reads@.take(self.reads@.len() as int) =~= self.reads@);
        let ghost start = self.reads@.len() as int;
        assert(self.reads@.skip(start).len() == 0);
        if stack.len() >= MAX_PARSE_DEPTH {
            return Err(Error::MaxDepthExceeded);
        }
        let value = if name_is(&name, "plist") {
            self.recognized = true;
            if empty {
                return Err(xml_error("invalid empty <plist/>"));
            }
            stack.push(Pending::Plist);
            return Ok(Step::Advance);
        } else if name_is(&name, "string") {
            self.recognized = true;
            let read = self.element_body(empty);
            assert(body_outcome(empty, self.reads@.skip(start), read));
            let body = match read {
                Ok(b) => b,
                Err(e) => {
                    return Err(e);
                },
            };
            Value::String(string_from_chars(body.as_slice()))
        } else if name_is(&name, "integer") {
            self.recognized = true;
            let read = self.element_body(empty);
            assert(body_outcome(empty, self.reads@.skip(start), read));
            let body = match read {
                Ok(b) => b,
                Err(e) => {
                    return Err(e);
                },
            };
            match parse_integer(body.as_slice()) {
                Ok(v) => v,
                Err(e) => {
                    return Err(e);
                },
            }
        } else if name_is(&name, "real") {
            self.recognized = true;
            let read = self.element_body(empty);
            assert(body_outcome(empty, self.reads@.skip(start), read));
            let body = match read {
                Ok(b) => b,
                Err(e) => {
                    return Err(e);
                },
            };
            let text = string_from_chars(body.as_slice());
            match parse_f64(text.as_str(), hooks) {
                Ok(bits) => Value::Real(Real::from_f64_bits(bits)),
                Err(e) => {
                    return Err(scalar_cause(e));
                },
            }
        } else if name_is(&name, "true") || name_is(&name, "false") {
            self.recognized = true;
            let value = name_is(&name, "true");
            if !empty {
                let skip = self.skip_subtree();
                assert(skip_done(self.reads@.skip(start), skip));
                match skip {
                    Ok(()) => {},
                    Err(failure) => {
                        self.poison = Some(failure);
                    },
                }
            }
            Value::Boolean(value)
        } else if name_is(&name, "date") {
            self.recognized = true;
            let read = self.element_body(empty);
            assert(body_outcome(empty, self.reads@.skip(start), read));
            let body = match read {
                Ok(b) => b,
                Err(e) => {
                    return Err(e);
                },
            };
            let text = string_from_chars(body.as_slice());
            match Date::parse_rfc3339(text.as_str()) {
                Some(d) => Value::Date(d),
                None => {
                    let mut m = str_chars("invalid date ");
                    push_all(&mut m, body.as_slice());
                    return Err(xml_error_chars(&m));
                },
            }
        } else if name_is(&name, "data") {
            self.recognized = true;
            let read = self.element_body(empty);
            assert(body_outcome(empty, self.reads@.skip(start), read));
            let body = match read {
                Ok(b) => b,
                Err(e) => {
                    return Err(e);
                },
            };
            let compact = without_base64_whitespace(&body);
            let bytes = crate::strings::str_bytes(string_from_chars(compact.as_slice()).as_str());
            match crate::text::parser::base64_decode(bytes.as_slice()) {
                Ok(decoded) => Value::Data(decoded),
                Err(m) => {
                    return Err(xml_error_string(m));
                },
            }
        } else if name_is(&name, "dict") {
            self.recognized = true;
            if !empty {
                stack.push(Pending::Dictionary(Vec::new(), None));
                assert(stack@.drop_last() =~= old(stack)@);
                return Ok(Step::Advance);
            }
            maybe_uid(Vec::new(), false)
        } else if name_is(&name, "array") {
            self.recognized = true;
            if !empty {
                stack.push(Pending::Array(Vec::new()));
                assert(stack@.drop_last() =~= old(stack)@);
                return Ok(Step::Advance);
            }
            Value::Array(Vec::new())
        } else {
            let mut m = str_chars("unknown element ");
            push_all(&mut m, str_chars(lossy_text(name.as_slice()).as_str()).as_slice());
            let message = string_from_chars(m.as_slice());
            if self.recognized {
                return Err(xml_error_string(message));
            }
            return Err(Error::InvalidPlist { format: "XML", source: Some(message) });
        };
        Ok(Step::Deliver(value))
    }

    /// Reads the top frame's next tokens until it needs a child element,
    /// completes, or fails.
    fn advance_step(&mut self, stack: &mut Vec<Pending>) -> (r: Result<Step, Error>)
        requires
            old(self).wf(),
            old(stack)@.len() > 0,
        ensures
            final(self).wf(),
            final(self).recognized == old(self).recognized,
            final(self).fuel <= old(self).fuel,
            r is Ok ==> final(self).fuel < old(self).fuel,
            r matches Ok(step) ==> ((step is Open && final(stack)@.len() == old(stack)@.len()) || (step is Deliver
                && final(stack)@.len() + 1 == old(stack)@.len())),
            r matches Err(e) ==> is_xml_error(e),
            log_extends(old(self).reads@, final(self).reads@),
    {
        assert(self.reads@.take(self.reads@.len() as int) =~= self.reads@);
        let top = stack.pop().unwrap();
        match top {
            Pending::Plist => {
                loop
                    invariant
                        self.wf(),
                        self.recognized == old(self).recognized,
                        self.fuel <= old(self).fuel,
                        stack@.len() + 1 == old(stack)@.len(),
                        log_extends(old(self).reads@, self.reads@),
                    decreases self.fuel,
                {
                    let ghost before = self.reads@;
                    let t = self.next();
                    proof {
                        lemma_log_extends_trans(old(self).reads@, before, self.reads@);
                    }
                    match t {
                        Err(e) => {
                            return Err(e);
                        },
                        Ok(Token::Start(child)) => {
                            stack.push(Pending::Plist);
                            return Ok(Step::Open(child, false));
                        },
                        Ok(Token::Empty(child)) => {
                            stack.push(Pending::Plist);
                            return Ok(Step::Open(child, true));
                        },
                        Ok(Token::End) => {
                            return Err(xml_error("invalid empty <plist/>"));
                        },
                        Ok(Token::Eof) => {
                            return Err(unexpected_eof());
                        },
                        Ok(_) => {},
                    }
                }
            },
            Pending::Dictionary(entries, pending_key) => {
                let mut pending_key = pending_key;
                loop
                    invariant
                        self.wf(),
                        self.recognized == old(self).recognized,
                        self.fuel <= old(self).fuel,
                        stack@.len() + 1 == old(stack)@.len(),
                        log_extends(old(self).reads@, self.reads@),
                    decreases self.fuel,
                {
                    let ghost before = self.reads@;
                    let t = self.next();
                    proof {
                        lemma_log_extends_trans(old(self).reads@, before, self.reads@);
                    }
                    let (child, child_empty) = match t {
                        Err(e) => {
                            return Err(e);
                        },
                        Ok(Token::Start(child)) => (child, false),
                        Ok(Token::Empty(child)) => (child, true),
                        Ok(Token::End) => {
                            if pending_key.is_some() {
                                return Err(xml_error("missing value in dictionary"));
                            }
                            return Ok(Step::Deliver(maybe_uid(entries, false)));
                        },
                        Ok(Token::Eof) => {
                            return Err(unexpected_eof());
                        },
                        Ok(_) => {
                            continue;
                        },
                    };
                    if name_is(&child, "key") {
                        let ghost mid = self.reads@;
                        let read = self.element_body(child_empty);
                        proof {
                            lemma_log_extends_trans(old(self).reads@, mid, self.reads@);
                        }
                        let body = match read {
                            Ok(b) => b,
                            Err(e) => {
                                return Err(e);
                            },
                        };
                        pending_key = Some(string_from_chars(body.as_slice()));
                    } else if pending_key.is_some() {
                        stack.push(Pending::Dictionary(entries, pending_key));
                        return Ok(Step::Open(child, child_empty));
                    } else {
                        return Err(xml_error("missing key in dictionary"));
                    }
                }
            },
            Pending::Array(values) => {
                loop
                    invariant
                        self.wf(),
                        self.recognized == old(self).recognized,
                        self.fuel <= old(self).fuel,
                        stack@.len() + 1 == old(stack)@.len(),
                        log_extends(old(self).reads@, self.reads@),
                    decreases self.fuel,
                {
                    let ghost before = self.reads@;
                    let t = self.next();
                    proof {
                        lemma_log_extends_trans(old(self).reads@, before, self.reads@);
                    }
                    match t {
                        Err(e) => {
                            return Err(e);
                        },
                        Ok(Token::Start(child)) => {
                            stack.push(Pending::Array(values));
                            return Ok(Step::Open(child, false));
                        },
                        Ok(Token::Empty(child)) => {
                            stack.push(Pending::Array(values));
                            return Ok(Step::Open(child, true));
                        },
                        Ok(Token::End) => {
                            return Ok(Step::Deliver(Value::Array(values)));
                        },
                        Ok(Token::Eof) => {
                            return Err(unexpected_eof());
                        },
                        Ok(_) => {},
                    }
                }
            },
        }
    }

    /// Hands a finished value to the top frame: `<plist>` completes with
    /// it, a dictionary pairs it with its pending key, an array appends it.
    fn deliver_step(&mut self, stack: &mut Vec<Pending>, value: Value) -> (r: Result<Step, Error>)
        requires
            old(stack)@.len() > 0,
        ensures
            *final(self) == *old(self),
            r matches Ok(step) ==> ((step is Advance && final(stack)@.len() == old(stack)@.len()) || (step is Deliver
                && final(stack)@.len() + 1 == old(stack)@.len())),
            r matches Err(e) ==> is_xml_error(e),
            final(stack)@.take(old(stack)@.len() - 1) == old(stack)@.drop_last(),
            match old(stack)@.last() {
                Pending::Plist => r == Ok::<Step, Error>(Step::Deliver(value)) && final(stack)@ == old(stack)@.drop_last(),
                Pending::Dictionary(entries, Some(key)) => (r matches Ok(step) && step is Advance)
                    && (final(stack)@.last() matches Pending::Dictionary(next, None) && next@ == entries@.push((key, value))),
                Pending::Dictionary(_, None) => r is Err && final(stack)@ == old(stack)@.drop_last(),
                Pending::Array(values) => (r matches Ok(step) && step is Advance)
                    && (final(stack)@.last() matches Pending::Array(next) && next@ == values@.push(value)),
            },
    {
        let top = stack.pop().unwrap();
        match top {
            Pending::Plist => Ok(Step::Deliver(value)),
            Pending::Dictionary(entries, pending_key) => match pending_key {
                Some(key) => {
                    let mut entries = entries;
                    entries.push((key, value));
                    stack.push(Pending::Dictionary(entries, None));
                    Ok(Step::Advance)
                },
                None => Err(xml_error("missing key in dictionary")),
            },
            Pending::Array(values) => {
                let mut values = values;
                values.push(value);
                stack.push(Pending::Array(values));
                Ok(Step::Advance)
            },
        }
    }

    /// Depth-first element evaluation over an explicit frame stack.
    fn parse_element<H: FloatCodec>(&mut self, name: Vec<u8>, empty: bool, hooks: &H) -> (r: Result<Value, Error>)
        requires
            old(self).wf(),
        ensures
            final(self).wf(),
            r matches Err(e) ==> is_xml_error(e) || e is MaxDepthExceeded || (is_xml_retry(e)
                && !old(self).recognized),
            log_extends(old(self).reads@, final(self).reads@),
    {
        assert(self.reads@.take(self.reads@.len() as int) =~= self.reads@);
        let mut stack: Vec<Pending> = Vec::new();
        let mut step = Step::Open(name, empty);
        loop
            invariant
                self.wf(),
                stack@.len() <= MAX_PARSE_DEPTH,
                step is Advance ==> stack@.len() > 0,
                old(self).recognized ==> self.recognized,
                log_extends(old(self).reads@, self.reads@),
            decreases self.fuel, step_rank(stack@.len(), step),
        {
            let ghost before = self.reads@;
            step = match step {
                Step::Open(name, empty) => {
                    let o = self.open_step(&mut stack, name, empty, hooks);
                    proof {
                        lemma_log_extends_trans(old(self).reads@, before, self.reads@);
                    }
                    match o {
                        Ok(next) => next,
                        Err(e) => {
                            return Err(e);
                        },
                    }
                },
                Step::Advance => {
                    let a = self.advance_step(&mut stack);
                    proof {
                        lemma_log_extends_trans(old(self).reads@, before, self.reads@);
                    }
                    match a {
                        Ok(next) => next,
                        Err(e) => {
                            return Err(e);
                        },
                    }
                },
                Step::Deliver(value) => {
                    if stack.len() == 0 {
                        return Ok(value);
                    }
                    match self.deliver_step(&mut stack, value) {
                        Ok(next) => next,
                        Err(e) => {
                            return Err(e);
                        },
                    }
                },
            };
        }
    }

    /// Skips prolog tokens up to the first element and parses it; a failure
    /// before the first element is the "not an XML plist" verdict.
    fn parse_document<H: FloatCodec>(&mut self, hooks: &H) -> (r: Result<Value, Error>)
        requires
            old(self).wf(),
            !old(self).recognized,
        ensures
            r matches Err(e) ==> is_xml_error(e) || is_xml_retry(e) || e is MaxDepthExceeded,
            log_extends(old(self).reads@, final(self).reads@),
            prolog_done(final(self).reads@.skip(old(self).reads@.len() as int), r),
    {
        let ghost start = self.reads@.len() as int;
        assert(self.reads@.take(start) =~= self.reads@);
        assert(self.reads@.skip(start) =~= Seq::<XmlRead>::empty());
        loop
            invariant
                self.wf(),
                !self.recognized,
                start == old(self).reads@.len(),
                log_extends(old(self).reads@, self.reads@),
                forall|j: int| 0 <= j < self.reads@.skip(start).len() ==> prolog_read(#[trigger] self.reads@.skip(start)[j]),
            decreases self.fuel,
        {
            let ghost before = self.reads@;
            let t = self.next();
            let ghost w = self.reads@.skip(start);
            let ghost k = before.skip(start).len() as int;
            proof {
                lemma_log_extends_trans(old(self).reads@, before, self.reads@);
                assert(w =~= before.skip(start).push(read_of(t)));
                assert(forall|j: int| 0 <= j < k ==> w[j] == before.skip(start)[j]);
            }
            match t {
                Err(e) => {
                    let r = Err(into_retry_signal(e));
                    assert(prolog_ends_at(w, r, k));
                    return r;
                },
                Ok(Token::Start(name)) => {
                    let ghost mid = self.reads@;
                    let r = self.parse_element(name, false, hooks);
                    proof {
                        lemma_log_extends_trans(old(self).reads@, mid, self.reads@);
                        let w2 = self.reads@.skip(start);
                        assert(mid.skip(start) =~= w2.take(mid.len() - start));
                        assert(forall|j: int| 0 <= j <= k ==> w2[j] == w[j]);
                        assert(prolog_ends_at(w2, r, k));
                    }
                    return r;
                },
                Ok(Token::Empty(name)) => {
                    let ghost mid = self.reads@;
                    let r = self.parse_element(name, true, hooks);
                    proof {
                        lemma_log_extends_trans(old(self).reads@, mid, self.reads@);
                        let w2 = self.reads@.skip(start);
                        assert(mid.skip(start) =~= w2.take(mid.len() - start));
                        assert(forall|j: int| 0 <= j <= k ==> w2[j] == w[j]);
                        assert(prolog_ends_at(w2, r, k));
                    }
                    return r;
                },
                Ok(Token::Eof) => {
                    let r = Err(Error::InvalidPlist { format: "XML", source: Some("no xml document found".to_owned()) });
                    proof {
                        reveal_strlit("XML");
                        reveal_strlit("no xml document found");
                    }
                    assert(prolog_ends_at(w, r, k));
                    return r;
                },
                Ok(_) => {},
            }
        }
    }
}

/// The characters of a `<data>` body without TAB, LF, SPACE and CR.
fn without_base64_whitespace(body: &Vec<char>) -> (r: Vec<char>)
    ensures
        r@ == base64_compact(body@),
{
    let mut out: Vec<char> = Vec::new();
    let mut i: usize = 0;
    while i < body.len()
        invariant
            0 <= i <= body@.len(),
            out@ == base64_compact(body@.subrange(0, i as int)),
        decreases body@.len() - i,
    {
        let c = body[i];
        proof {
            reveal(Seq::filter);
            assert(body@.subrange(0, i + 1).drop_last() =~= body@.subrange(0, i as int));
        }
        if !(c == '\t' || c == '\n' || c == ' ' || c == '\r') {
            out.push(c);
        }
        i = i + 1;
    }
    assert(body@.subrange(0, body@.len() as int) =~= body@);
    out
}

/// Parses one XML plist document; input after the root element is never
/// read.
///
/// Fails with the "not an XML plist" verdict (`InvalidPlist`, format
/// `"XML"`) when the tokenizer fails before any element or the first
/// element is not a plist element; with `MaxDepthExceeded` past the nesting
/// cap; and with a `Parse` failure of format `"XML"` otherwise.
pub fn parse<H: FloatCodec>(data: &[u8], hooks: &H) -> (r: Result<Value, Error>)
    ensures
        r matches Err(e) ==> is_xml_error(e) || is_xml_retry(e) || e is MaxDepthExceeded,
{
    let fuel = if data.len() < usize::MAX - 2 {
        data.len() + 2
    } else {
        usize::MAX - 1
    };
    let mut parser = XmlParser {
        reader: xml_reader(data),
        recognized: false,
        poison: None,
        fuel,
        reads: Ghost(Seq::empty()),
    };
    parser.parse_document(hooks)
}

} // verus!
