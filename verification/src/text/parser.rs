//! The OpenStep/GNUStep text parser.

use vstd::prelude::*;

use crate::date::Date;
use crate::depth::MAX_PARSE_DEPTH;
use crate::error::Error;
use crate::format::Format;
use crate::integer::Integer;
use crate::reals::Real;
use crate::scalar::{parse_f64, parse_i64, parse_u64, FloatCodec};
use crate::strings::{push_all, str_chars, string_from_chars, u64_decimal};
use crate::tables::{base64_valid, gs_quotable, newline, whitespace, CharSet};
use crate::text::grammar::{
    array, b64, b64_filter, close_dictionary, comment_close, decoded_text, dict, dict_key, digit_of, digits, document, escape,
    find_char, gs_typed, hex, latin_text, lemma_escape, lemma_quoted, lemma_skip, lemma_spans, longest_valid,
    node_uid, quoted, skip, span_in, span_out, text_outcome, typed_node, utf16_chars, utf16_units, value,
    TextFault, TextRead,
};
use crate::value::{
    collect_entries, entries_model, entries_uid, lemma_collect_model, lemma_entries_model, maybe_uid,
    values_model, Dictionary, Node, Value,
};

verus! {

broadcast use vstd::map_lib::lemma_submap_of_trans;

/// Whether `e` is a text parse failure.
pub open spec fn is_text_error(e: Error) -> bool {
    e matches Error::Parse { format, source } && format@ == "text"@ && source is Some
}

/// The bytes standard base64 decoding yields for `text` (standard alphabet,
/// canonical padding required, non-canonical trailing bits accepted), as
/// the `base64` crate decodes them; `None` when it refuses the text.
pub uninterp spec fn base64_decoded(text: Seq<u8>) -> Option<Seq<u8>>;

/// Decodes standard base64 with trailing bits allowed
/// (`GeneralPurpose::decode` of the `base64` crate): the decoded bytes, or
/// the crate's message for the refusal. The message text is not stated.
#[verifier::external_body]
pub(crate) fn base64_decode(text: &[u8]) -> (r: Result<Vec<u8>, String>)
    ensures
        r is Ok <==> base64_decoded(text@) is Some,
        r matches Ok(v) ==> base64_decoded(text@) == Some(v@),
{
    let engine = base64::engine::general_purpose::GeneralPurpose::new(
        &base64::alphabet::STANDARD,
        base64::engine::general_purpose::GeneralPurposeConfig::new().with_decode_allow_trailing_bits(true),
    );
    base64::Engine::decode(&engine, text).map_err(|e| e.to_string())
}

/// The length of the longest valid UTF-8 prefix of `bytes`
/// (`Utf8Error::valid_up_to` of `str::from_utf8`, or the whole length when
/// the bytes are valid).
#[verifier::external_body]
fn utf8_valid_up_to(bytes: &[u8]) -> (r: usize)
    ensures
        r <= bytes@.len(),
        vstd::utf8::valid_utf8(bytes@.subrange(0, r as int)),
        forall|k: int| r < k <= bytes@.len() ==> !vstd::utf8::valid_utf8(#[trigger] bytes@.subrange(0, k)),
{
    match core::str::from_utf8(bytes) {
        Ok(_) => bytes.len(),
        Err(e) => e.valid_up_to(),
    }
}

/// The longest valid prefix that `utf8_valid_up_to` reports is the one
/// `longest_valid` names.
proof fn lemma_valid_prefix(b: Seq<u8>, v: int, k: int)
    requires
        0 <= v <= k <= b.len(),
        vstd::utf8::valid_utf8(b.subrange(0, v)),
        forall|j: int| v < j <= b.len() ==> !vstd::utf8::valid_utf8(#[trigger] b.subrange(0, j)),
    ensures
        longest_valid(b, k) == v,
    decreases k,
{
    if k > v {
        lemma_valid_prefix(b, v, k - 1);
    }
}

/// Decodes 8-bit input as UTF-8, falling back to Latin-1 one byte at a
/// time where the bytes are not valid UTF-8.
fn decode_8bit(buffer: &[u8]) -> (r: Vec<char>)
    ensures
        r@ == latin_text(buffer@),
{
    let mut out: Vec<char> = Vec::new();
    let mut rest: Vec<u8> = Vec::new();
    crate::strings::push_bytes(&mut rest, buffer);
    assert(rest@ =~= buffer@);
    loop
        invariant
            out@ + latin_text(rest@) == latin_text(buffer@),
        decreases rest@.len(),
    {
        let ghost b = rest@;
        let valid = utf8_valid_up_to(rest.as_slice());
        proof {
            lemma_valid_prefix(b, valid as int, b.len() as int);
        }
        let mut head: Vec<u8> = Vec::new();
        crate::strings::push_bytes(&mut head, &rest.as_slice()[0..valid]);
        assert(head@ =~= b.subrange(0, valid as int));
        let ghost before = out@;
        match crate::strings::utf8_to_string(head) {
            Some(text) => push_all(&mut out, &str_chars(text.as_str())),
            None => {},
        }
        if valid >= rest.len() {
            proof {
                assert(b.subrange(0, b.len() as int) =~= b);
                assert(out@ =~= before + latin_text(b));
            }
            return out;
        }
        out.push(crate::strings::char_from_ascii_range(rest[valid] as u32));
        let mut tail: Vec<u8> = Vec::new();
        crate::strings::push_bytes(&mut tail, &rest.as_slice()[valid + 1..rest.len()]);
        proof {
            assert(tail@ =~= b.subrange(valid + 1, b.len() as int));
            let d = vstd::utf8::decode_utf8(b.subrange(0, valid as int));
            assert(latin_text(b) == d + seq![(b[valid as int] as u32) as char] + latin_text(tail@));
            assert(out@ + latin_text(tail@) =~= before + latin_text(b));
        }
        rest = tail;
    }
}

/// Decodes UTF-16 code units; well-formed surrogate pairs combine and
/// unpaired surrogates become U+FFFD. An odd byte count is refused.
fn convert_u16(buffer: &[u8], big_endian: bool) -> (r: Result<Vec<char>, Error>)
    ensures
        match crate::text::grammar::utf16_text(buffer@, big_endian) {
            None => r matches Err(e) && is_text_error(e),
            Some(t) => r matches Ok(v) && v@ == t,
        },
{
    if buffer.len() % 2 == 1 {
        return Err(text_error("truncated utf16"));
    }
    let ghost b = buffer@;
    let mut units: Vec<u16> = Vec::new();
    let mut i: usize = 0;
    while i < buffer.len()
        invariant
            i <= b.len(),
            i % 2 == 0,
            b.len() % 2 == 0,
            b == buffer@,
            units@ == utf16_units(b.subrange(0, i as int), big_endian),
        decreases b.len() - i,
    {
        let (a, c) = (buffer[i], buffer[i + 1]);
        let unit: u16 = if big_endian {
            (a as u16) * 256 + (c as u16)
        } else {
            (c as u16) * 256 + (a as u16)
        };
        proof {
            let w = b.subrange(0, i + 2);
            assert(w.subrange(0, w.len() - 2) =~= b.subrange(0, i as int));
            assert(w[w.len() - 2] == a && w[w.len() - 1] == c);
        }
        units.push(unit);
        i = i + 2;
    }
    assert(b.subrange(0, b.len() as int) =~= b);
    let ghost all = units@;
    let mut out: Vec<char> = Vec::new();
    let mut k: usize = 0;
    assert(all.subrange(0, all.len() as int) =~= all);
    while k < units.len()
        invariant
            k <= all.len(),
            units@ == all,
            out@ + utf16_chars(all.subrange(k as int, all.len() as int)) == utf16_chars(all),
        decreases all.len() - k,
    {
        let a = units[k] as u32;
        let ghost t = all.subrange(k as int, all.len() as int);
        if 0xD800 <= a && a <= 0xDBFF && k + 1 < units.len() && 0xDC00 <= (units[k + 1] as u32) && (units[k + 1]
            as u32) <= 0xDFFF {
            let code = 0x10000 + (a - 0xD800) * 1024 + ((units[k + 1] as u32) - 0xDC00);
            let ch = escape_char(code);
            proof {
                assert(t.subrange(2, t.len() as int) =~= all.subrange(k + 2, all.len() as int));
                assert(out@.push(ch) + utf16_chars(all.subrange(k + 2, all.len() as int)) =~= out@ + utf16_chars(t));
            }
            out.push(ch);
            k = k + 2;
        } else {
            let ch = escape_char(a);
            proof {
                assert(t.subrange(1, t.len() as int) =~= all.subrange(k + 1, all.len() as int));
                assert(out@.push(ch) + utf16_chars(all.subrange(k + 1, all.len() as int)) =~= out@ + utf16_chars(t));
            }
            out.push(ch);
            k = k + 1;
        }
    }
    assert(out@ + utf16_chars(all.subrange(k as int, all.len() as int)) =~= out@);
    Ok(out)
}

/// Sniffs the input encoding in this precedence: UTF-8 BOM, UTF-16 BOMs,
/// the `00 XX` / `XX 00` heuristics, then raw 8-bit.
fn guess_encoding_and_convert(buffer: &[u8]) -> (r: Result<Vec<char>, Error>)
    ensures
        match decoded_text(buffer@) {
            None => r matches Err(e) && is_text_error(e),
            Some(t) => r matches Ok(v) && v@ == t,
        },
{
    let n = buffer.len();
    if n >= 3 && buffer[0] == 0xEF && buffer[1] == 0xBB && buffer[2] == 0xBF {
        return Ok(decode_8bit(&buffer[3..n]));
    }
    if n >= 2 {
        let b0 = buffer[0];
        let b1 = buffer[1];
        if b0 == 0xFE && b1 == 0xFF {
            return convert_u16(&buffer[2..n], true);
        }
        if b0 == 0 && b1 != 0 {
            return convert_u16(buffer, true);
        }
        if b0 == 0xFF && b1 == 0xFE {
            return convert_u16(&buffer[2..n], false);
        }
        if b0 != 0 && b1 == 0 {
            return convert_u16(buffer, false);
        }
    }
    Ok(decode_8bit(buffer))
}

/// A text parse failure carrying `message` verbatim.
pub fn text_error(message: &str) -> (r: Error)
    ensures
        is_text_error(r),
{
    text_error_string(message.to_owned())
}

fn text_error_string(message: String) -> (r: Error)
    ensures
        is_text_error(r),
{
    proof {
        reveal_strlit("text");
    }
    Error::Parse { format: "text", source: Some(message) }
}

/// The UTF-8 length of a character.
fn utf8_width(c: char) -> (r: usize)
    ensures
        r == vstd::utf8::encode_utf8(seq![c]).len(),
        1 <= r <= 4,
{
    proof {
        vstd::utf8::char_is_scalar(c);
        assert(seq![c].drop_first() =~= Seq::<char>::empty());
        assert(vstd::utf8::encode_utf8(seq![c]) == vstd::utf8::encode_scalar(c as u32) + vstd::utf8::encode_utf8(Seq::<char>::empty()));
    }
    let u = c as u32;
    if u < 0x80 {
        1
    } else if u < 0x800 {
        2
    } else if u < 0x10000 {
        3
    } else {
        4
    }
}

/// Whether a read agrees with its model: the same value, position and
/// dialect, or the same kind of refusal.
pub open spec fn read_matches(o: TextRead, r: Result<Value, Error>, pos: int, gnustep: bool) -> bool {
    match o {
        Ok((n, e, g)) => r matches Ok(v) && v.deep() == n && pos == e && gnustep == g,
        Err(TextFault::Syntax) => r matches Err(x) && is_text_error(x),
        Err(TextFault::Depth) => r matches Err(x) && x is MaxDepthExceeded,
    }
}

/// Whether one turn of a container agrees with the model `o` of the rest
/// of it: closing gives `closed`, continuing leaves the rest as `rest`, and
/// a refusal is of the kind the model gives.
pub open spec fn turn_matches(o: TextRead, r: Result<bool, Error>, closed: TextRead, rest: TextRead) -> bool {
    match r {
        Ok(true) => o == closed,
        Ok(false) => o == rest,
        Err(e) => (o == Err::<(Node, int, bool), TextFault>(TextFault::Syntax) && is_text_error(e)) || (o == Err::<
            (Node, int, bool),
            TextFault,
        >(TextFault::Depth) && e is MaxDepthExceeded),
    }
}

/// Whether a dictionary entry's value from `p`, with the `;` after it,
/// agrees with the model `o` of the value.
pub open spec fn entry_matches(s: Seq<char>, p: int, o: TextRead, r: Result<Value, Error>, pos: int, gnustep: bool) -> bool {
    match o {
        Err(TextFault::Syntax) => r matches Err(x) && is_text_error(x),
        Err(TextFault::Depth) => r matches Err(x) && x is MaxDepthExceeded,
        Ok((n, r3, g)) => p <= r3 <= s.len() && match skip(s, r3) {
            None => r matches Err(x) && is_text_error(x),
            Some(r4) => if r4 < s.len() && s[r4] == ';' {
                r matches Ok(v) && v.deep() == n && pos == r4 + 1 && gnustep == g
            } else {
                r matches Err(x) && is_text_error(x)
            },
        },
    }
}

/// Whether a parse outcome agrees with its model.
pub open spec fn outcome_matches(o: Result<(Node, bool), TextFault>, r: Result<(Value, Format), Error>) -> bool {
    match o {
        Ok((n, g)) => r matches Ok((v, f)) && v.deep() == n && f == (if g {
            Format::GnuStep
        } else {
            Format::OpenStep
        }),
        Err(TextFault::Syntax) => r matches Err(x) && is_text_error(x),
        Err(TextFault::Depth) => r matches Err(x) && x is MaxDepthExceeded,
    }
}

/// The cursor over the decoded input, with the answers the decimal
/// conversion gave so far, by the position of each `<*R` type letter.
struct TextParser {
    /// The decoded characters.
    input: Vec<char>,
    /// The current position.
    pos: usize,
    /// Whether a GNUStep literal has been seen.
    gnustep: bool,
    /// The decimal-conversion answers given so far.
    reals: Ghost<Map<int, Option<u64>>>,
}

impl TextParser {
    /// Whether the cursor is coherent: every recorded answer lies behind it.
    spec fn wf(&self) -> bool {
        &&& self.input@.len() + 4 < usize::MAX
        &&& self.pos <= self.input@.len()
        &&& forall|k: int| #[trigger] self.reals@.contains_key(k) ==> k < self.pos
    }

    /// Whether the cursor only moved forward from `prev`, changing nothing
    /// else.
    spec fn advanced_from(self, prev: TextParser) -> bool {
        &&& self.wf()
        &&& self.input == prev.input
        &&& self.gnustep == prev.gnustep
        &&& self.reals == prev.reals
        &&& self.pos >= prev.pos
    }

    fn new(input: Vec<char>) -> (r: TextParser)
        requires
            input@.len() + 4 < usize::MAX,
        ensures
            r.wf(),
            r.input@ == input@,
            r.pos == 0,
            !r.gnustep,
            r.reals@ == Map::<int, Option<u64>>::empty(),
    {
        TextParser { input, pos: 0, gnustep: false, reals: Ghost(Map::empty()) }
    }

    /// The characters from `a` up to `b`.
    fn chars_between(&self, a: usize, b: usize) -> (r: Vec<char>)
        requires
            a <= b <= self.input@.len(),
        ensures
            r@ == self.input@.subrange(a as int, b as int),
    {
        let mut out: Vec<char> = Vec::new();
        let mut i = a;
        while i < b
            invariant
                a <= i <= b <= self.input@.len(),
                out@ == self.input@.subrange(a as int, i as int),
            decreases b - i,
        {
            out.push(self.input[i]);
            proof {
                assert(self.input@.subrange(a as int, i + 1) =~= self.input@.subrange(a as int, i as int).push(
                    self.input@[i as int],
                ));
            }
            i = i + 1;
        }
        out
    }

    /// Moves to the next `ch`, or to the end of input.
    fn scan_until(&mut self, ch: char)
        requires
            old(self).wf(),
        ensures
            final(self).advanced_from(*old(self)),
            final(self).pos == find_char(old(self).input@, old(self).pos as int, ch),
    {
        while self.pos < self.input.len() && self.input[self.pos] != ch
            invariant
                self.advanced_from(*old(self)),
                find_char(self.input@, self.pos as int, ch) == find_char(self.input@, old(self).pos as int, ch),
            decreases self.input@.len() - self.pos,
        {
            self.pos = self.pos + 1;
        }
    }

    /// Skips characters of `set`.
    fn scan_chars_in_set(&mut self, set: CharSet)
        requires
            old(self).wf(),
        ensures
            final(self).advanced_from(*old(self)),
            final(self).pos == span_in(old(self).input@, old(self).pos as int, set),
    {
        while self.pos < self.input.len() && set.contains_char(self.input[self.pos])
            invariant
                self.advanced_from(*old(self)),
                span_in(self.input@, self.pos as int, set) == span_in(self.input@, old(self).pos as int, set),
            decreases self.input@.len() - self.pos,
        {
            self.pos = self.pos + 1;
        }
    }

    /// Skips characters outside `set`.
    fn scan_chars_not_in_set(&mut self, set: CharSet)
        requires
            old(self).wf(),
        ensures
            final(self).advanced_from(*old(self)),
            final(self).pos == span_out(old(self).input@, old(self).pos as int, set),
    {
        while self.pos < self.input.len() && !set.contains_char(self.input[self.pos])
            invariant
                self.advanced_from(*old(self)),
                span_out(self.input@, self.pos as int, set) == span_out(self.input@, old(self).pos as int, set),
            decreases self.input@.len() - self.pos,
        {
            self.pos = self.pos + 1;
        }
    }

    /// The hard text-parse error, with a line/character suffix.
    fn error_at(&self, message: &str) -> (r: Error)
        requires
            self.wf(),
        ensures
            is_text_error(r),
    {
        let mut line: u64 = 0;
        let mut bytes: u128 = 0;
        let mut line_start: u128 = 0;
        let mut i: usize = 0;
        while i < self.pos
            invariant
                i <= self.pos <= self.input@.len(),
                line <= i,
                line_start <= bytes <= 4 * i,
            decreases self.pos - i,
        {
            let c = self.input[i];
            bytes = bytes + utf8_width(c) as u128;
            if c == '\n' {
                line = line + 1;
                line_start = bytes;
            }
            i = i + 1;
        }
        let gap = bytes - line_start;
        let character: u64 = if gap > 0xFFFF_FFFF_FFFF_FFFFu128 { 0xFFFF_FFFF_FFFF_FFFFu64 } else { gap as u64 };
        let mut text = str_chars(message);
        push_all(&mut text, &str_chars(" at line "));
        push_all(&mut text, &u64_decimal(line));
        push_all(&mut text, &str_chars(" character "));
        push_all(&mut text, &u64_decimal(character));
        text_error_string(string_from_chars(&text))
    }

    /// Whether the input at the cursor starts with `a` then `b`.
    fn starts_with_pair(&self, a: char, b: char) -> (r: bool)
        requires
            self.wf(),
        ensures
            r == (self.pos + 1 < self.input@.len() && self.input@[self.pos as int] == a && self.input@[self.pos + 1] == b),
    {
        self.pos + 1 < self.input.len() && self.input[self.pos] == a && self.input[self.pos + 1] == b
    }

    /// Skips whitespace, `//` line comments and `/*` block comments.
    fn skip_whitespace_and_comments(&mut self) -> (r: Result<(), Error>)
        requires
            old(self).wf(),
        ensures
            final(self).advanced_from(*old(self)),
            match skip(old(self).input@, old(self).pos as int) {
                None => r matches Err(e) && is_text_error(e),
                Some(q) => r is Ok && final(self).pos == q,
            },
    {
        let ghost s = self.input@;
        loop
            invariant
                self.advanced_from(*old(self)),
                s == self.input@,
                skip(s, self.pos as int) == skip(s, old(self).pos as int),
            decreases s.len() - self.pos,
        {
            let ghost p1 = self.pos as int;
            self.scan_chars_in_set(whitespace());
            proof {
                lemma_spans(s, p1, crate::tables::whitespace_set(), ' ');
            }
            if self.starts_with_pair('/', '/') {
                self.pos = self.pos + 2;
                self.scan_chars_not_in_set(newline());
                proof {
                    lemma_spans(s, self.pos as int, crate::tables::newline_set(), ' ');
                }
            } else if self.starts_with_pair('/', '*') {
                let ghost q = self.pos as int;
                let mut k = self.pos + 1;
                while k + 1 < self.input.len() && !(self.input[k] == '*' && self.input[k + 1] == '/')
                    invariant
                        self.advanced_from(*old(self)),
                        s == self.input@,
                        q + 1 <= k <= s.len(),
                        comment_close(s, k as int) == comment_close(s, q + 1),
                    decreases s.len() - k,
                {
                    k = k + 1;
                }
                if k + 1 >= self.input.len() {
                    return Err(self.error_at("unexpected eof in block comment"));
                }
                self.pos = k + 2;
            } else {
                return Ok(());
            }
        }
    }

    /// Up to `max` digits of `radix`, stopping at the first non-digit; no
    /// digits yield zero.
    fn parse_digits(&mut self, max: usize, radix: u32) -> (r: u32)
        requires
            old(self).wf(),
            max <= 4,
            radix == 16 || radix == 8,
        ensures
            final(self).advanced_from(*old(self)),
            (r as int, final(self).pos as int) == digits(old(self).input@, old(self).pos as int, max as nat, radix as int, 0),
            r < 0x1_0000,
    {
        let ghost s = self.input@;
        let mut value: u32 = 0;
        let mut k: usize = 0;
        while k < max && self.pos < self.input.len() && digit_value(self.input[self.pos], radix).is_some()
            invariant
                self.advanced_from(*old(self)),
                s == self.input@,
                k <= max <= 4,
                radix == 16 || radix == 8,
                value < crate::scalar::pow16(k as nat),
                digits(s, old(self).pos as int, max as nat, radix as int, 0) == digits(
                    s,
                    self.pos as int,
                    (max - k) as nat,
                    radix as int,
                    value as int,
                ),
            decreases max - k,
        {
            let d = digit_value(self.input[self.pos], radix).unwrap();
            proof {
                lemma_pow16_small(k as nat);
            }
            value = if radix == 16 {
                value * 16 + d
            } else {
                value * 8 + d
            };
            self.pos = self.pos + 1;
            k = k + 1;
        }
        proof {
            lemma_pow16_small(k as nat);
        }
        value
    }

    /// The escape after a consumed `\`. Unknown escapes drop the backslash
    /// and leave the following character as ordinary content.
    fn parse_escape(&mut self) -> (r: Option<char>)
        requires
            old(self).wf(),
        ensures
            final(self).advanced_from(*old(self)),
            (r, final(self).pos as int) == escape(old(self).input@, old(self).pos as int),
    {
        if self.pos >= self.input.len() {
            return None;
        }
        let c = self.input[self.pos];
        let simple: Option<char> = if c == 'a' {
            Some('\u{07}')
        } else if c == 'b' {
            Some('\u{08}')
        } else if c == 'v' {
            Some('\u{0B}')
        } else if c == 'f' {
            Some('\u{0C}')
        } else if c == 't' {
            Some('\t')
        } else if c == 'r' {
            Some('\r')
        } else if c == 'n' {
            Some('\n')
        } else if c == '\\' || c == '"' {
            Some(c)
        } else {
            None
        };
        if simple.is_some() {
            self.pos = self.pos + 1;
            return simple;
        }
        if c == 'x' {
            self.pos = self.pos + 1;
            Some(escape_char(self.parse_digits(2, 16)))
        } else if c == 'u' || c == 'U' {
            self.pos = self.pos + 1;
            Some(escape_char(self.parse_digits(4, 16)))
        } else if '0' <= c && c <= '7' {
            Some(escape_char(self.parse_digits(3, 8)))
        } else {
            None
        }
    }

    /// Reads an unquoted string: characters up to the next quoting-set
    /// member; empty is an error.
    fn parse_unquoted_string(&mut self) -> (r: Result<Vec<char>, Error>)
        requires
            old(self).wf(),
        ensures
            final(self).advanced_from(*old(self)),
            ({
                let p = old(self).input@;
                let e = span_out(p, old(self).pos as int, crate::tables::gs_quotable_set());
                if e == old(self).pos {
                    r matches Err(x) && is_text_error(x)
                } else {
                    r matches Ok(v) && v@ == p.subrange(old(self).pos as int, e) && final(self).pos == e
                }
            }),
    {
        let start = self.pos;
        self.scan_chars_not_in_set(gs_quotable());
        if self.pos == start {
            return Err(self.error_at("invalid unquoted string"));
        }
        Ok(self.chars_between(start, self.pos))
    }

    /// Reads a quoted string; the opening `"` has been consumed.
    fn parse_quoted_string(&mut self) -> (r: Result<Vec<char>, Error>)
        requires
            old(self).wf(),
        ensures
            final(self).advanced_from(*old(self)),
            match quoted(old(self).input@, old(self).pos as int) {
                None => r matches Err(x) && is_text_error(x),
                Some((t, e)) => r matches Ok(v) && v@ == t && final(self).pos == e,
            },
    {
        let ghost s = self.input@;
        let ghost p0 = self.pos as int;
        let mut built: Vec<char> = Vec::new();
        assert(built@ + Seq::<char>::empty() =~= Seq::<char>::empty());
        loop
            invariant
                self.advanced_from(*old(self)),
                s == self.input@,
                p0 == old(self).pos,
                match quoted(s, self.pos as int) {
                    None => quoted(s, p0) is None,
                    Some((t, e)) => quoted(s, p0) == Some((built@ + t, e)),
                },
            decreases s.len() - self.pos,
        {
            if self.pos >= self.input.len() {
                return Err(self.error_at("unexpected eof in quoted string"));
            }
            let ghost p1 = self.pos as int;
            let ghost b1 = built@;
            let c = self.input[self.pos];
            if c == '"' {
                self.pos = self.pos + 1;
                assert(b1 + Seq::<char>::empty() =~= b1);
                return Ok(built);
            }
            self.pos = self.pos + 1;
            if c == '\\' {
                proof {
                    lemma_escape(s, p1 + 1);
                }
                match self.parse_escape() {
                    Some(ch) => {
                        built.push(ch);
                        proof {
                            if let Some((t, e)) = quoted(s, self.pos as int) {
                                assert(b1 + (seq![ch] + t) =~= built@ + t);
                            }
                        }
                    },
                    None => {},
                }
            } else {
                built.push(c);
                proof {
                    if let Some((t, e)) = quoted(s, self.pos as int) {
                        assert(b1 + (seq![c] + t) =~= built@ + t);
                    }
                }
            }
        }
    }
}

impl TextParser {
    /// Reads a typed GNUStep value whose type letter is at the cursor
    /// (`<*` has been consumed). A `<*R` payload's conversion answer is
    /// recorded at the type letter's position.
    fn parse_gnustep_value<H: FloatCodec>(&mut self, hooks: &H) -> (r: Result<Value, Error>)
        requires
            old(self).wf(),
        ensures
            final(self).wf(),
            final(self).input == old(self).input,
            final(self).gnustep == old(self).gnustep,
            final(self).pos >= old(self).pos,
            old(self).reals@.submap_of(final(self).reals@),
            r matches Ok(v) ==> !(v is String),
            forall|m: Map<int, Option<u64>>|
                #![trigger gs_typed(old(self).input@, old(self).pos as int, m)]
                final(self).reals@.submap_of(m) ==> match gs_typed(old(self).input@, old(self).pos as int, m) {
                    None => r matches Err(x) && is_text_error(x),
                    Some((n, e)) => r matches Ok(v) && v.deep() == n && final(self).pos == e,
                },
    {
        let ghost s = self.input@;
        let p = self.pos;
        if p >= self.input.len() {
            return Err(self.error_at("invalid GNUStep extended value"));
        }
        let typ = self.input[p];
        self.pos = p + 1;
        if typ == '>' {
            return Err(self.error_at("invalid GNUStep extended value"));
        }
        if !(typ == 'I' || typ == 'R' || typ == 'B' || typ == 'D') {
            let mut text = str_chars("unknown GNUStep extended value type '");
            text.push(typ);
            text.push('\'');
            let message = string_from_chars(&text);
            return Err(self.error_at(message.as_str()));
        }
        if self.pos < self.input.len() && self.input[self.pos] == '"' {
            self.pos = self.pos + 1;
        }
        let q = self.pos;
        self.scan_until('>');
        let e = self.pos;
        if e >= self.input.len() {
            return Err(self.error_at("unterminated GNUStep extended value"));
        }
        if e == q {
            return Err(self.error_at("empty GNUStep extended value"));
        }
        let mut payload = self.chars_between(q, e);
        self.pos = e + 1;
        let ghost raw = payload@;
        if payload.len() > 0 && payload[payload.len() - 1] == '"' {
            payload.pop();
        }
        assert(payload@ == (if raw.last() == '"' {
            raw.drop_last()
        } else {
            raw
        }));
        let res = self.typed_value(typ, &payload, p, hooks);
        proof {
            assert forall|m: Map<int, Option<u64>>| self.reals@.submap_of(m) implies match #[trigger] gs_typed(s, p as int, m) {
                None => res matches Err(x) && is_text_error(x),
                Some((n, e)) => res matches Ok(v) && v.deep() == n && self.pos == e,
            } by {
                assert(gs_typed(s, p as int, m) == match typed_node(typ, payload@, m[p as int]) {
                    Some(n) => Some((n, e + 1)),
                    None => None,
                });
            }
        }
        res
    }

    /// The value of a typed GNUStep payload of type `typ`, whose type letter
    /// is at `p`; the answer of a `<*R` conversion is recorded there.
    #[verifier::spinoff_prover]
    fn typed_value<H: FloatCodec>(&mut self, typ: char, payload: &Vec<char>, p: usize, hooks: &H) -> (r: Result<
        Value,
        Error,
    >)
        requires
            old(self).wf(),
            p < old(self).pos,
            !old(self).reals@.contains_key(p as int),
            typ == 'I' || typ == 'R' || typ == 'B' || typ == 'D',
        ensures
            final(self).wf(),
            final(self).input == old(self).input,
            final(self).gnustep == old(self).gnustep,
            final(self).pos == old(self).pos,
            old(self).reals@.submap_of(final(self).reals@),
            r matches Ok(v) ==> !(v is String),
            forall|m: Map<int, Option<u64>>|
                #![trigger typed_node(typ, payload@, m[p as int])]
                final(self).reals@.submap_of(m) ==> match typed_node(typ, payload@, m[p as int]) {
                    None => r matches Err(x) && is_text_error(x),
                    Some(n) => r matches Ok(v) && v.deep() == n,
                },
    {
        let text = string_from_chars(payload);
        if typ == 'I' {
            let res = self.parse_gnustep_integer(payload, text.as_str());
            proof {
                assert forall|m: Map<int, Option<u64>>| self.reals@.submap_of(m) implies match #[trigger] typed_node(
                    typ,
                    payload@,
                    m[p as int],
                ) {
                    None => res matches Err(x) && is_text_error(x),
                    Some(n) => res matches Ok(v) && v.deep() == n,
                } by {
                    assert(typed_node(typ, payload@, m[p as int]) == typed_node('I', payload@, None));
                }
            }
            res
        } else if typ == 'R' {
            let res = parse_f64(text.as_str(), hooks);
            let ghost answer: Option<u64> = match res {
                Ok(b) => Some(b),
                Err(_) => None,
            };
            proof {
                self.reals@ = self.reals@.insert(p as int, answer);
                assert(crate::text::grammar::real_bits(payload@, answer) == match res {
                    Ok(b) => Some(b),
                    Err(_) => None::<u64>,
                });
            }
            let out = match res {
                Ok(bits) => Ok(Value::Real(Real::from_f64_bits(bits))),
                Err(cause) => Err(prefixed_cause("invalid GNUStep real: ", cause)),
            };
            proof {
                assert forall|m: Map<int, Option<u64>>| self.reals@.submap_of(m) implies match #[trigger] typed_node(
                    typ,
                    payload@,
                    m[p as int],
                ) {
                    None => out matches Err(x) && is_text_error(x),
                    Some(n) => out matches Ok(v) && v.deep() == n,
                } by {
                    assert(self.reals@.dom().contains(p as int));
                    assert(m.dom().contains(p as int));
                    assert(m[p as int] == answer);
                }
            }
            out
        } else if typ == 'B' {
            if payload.len() == 0 {
                return Err(self.error_at("truncated GNUStep extended value"));
            }
            Ok(Value::Boolean(payload[0] == 'Y'))
        } else {
            let slice = text.as_str();
            let parsed = Date::parse_text_layout(slice);
            assert(slice@ == payload@);
            match parsed {
                Some(d) => Ok(Value::Date(d)),
                None => {
                    let mut m = str_chars("invalid GNUStep date: ");
                    push_all(&mut m, payload);
                    let message = string_from_chars(&m);
                    Err(self.error_at(message.as_str()))
                },
            }
        }
    }

    /// The integer of a `<*I` payload: a leading `-` reads it as signed.
    fn parse_gnustep_integer(&self, payload: &Vec<char>, text: &str) -> (r: Result<Value, Error>)
        requires
            self.wf(),
            text@ == payload@,
        ensures
            match typed_node('I', payload@, None) {
                None => r matches Err(x) && is_text_error(x),
                Some(n) => r matches Ok(v) && v.deep() == n,
            },
    {
        if payload.len() == 0 {
            return Err(self.error_at("truncated GNUStep extended value"));
        }
        if payload[0] == '-' {
            match parse_i64(text, 10) {
                Ok(v) => Ok(Value::Integer(Integer::Signed(v))),
                Err(cause) => Err(prefixed_cause("invalid GNUStep integer: ", cause)),
            }
        } else {
            match parse_u64(text, 10) {
                Ok(v) => Ok(Value::Integer(Integer::Unsigned(v))),
                Err(cause) => Err(prefixed_cause("invalid GNUStep integer: ", cause)),
            }
        }
    }

    /// Reads `<[base64]>` data whose payload starts at the cursor.
    fn parse_gnustep_base64(&mut self) -> (r: Result<Vec<u8>, Error>)
        requires
            old(self).wf(),
        ensures
            final(self).advanced_from(*old(self)),
            match b64(old(self).input@, old(self).pos as int) {
                None => r matches Err(x) && is_text_error(x),
                Some((b, e)) => r matches Ok(v) && v@ == b && final(self).pos == e,
            },
    {
        let ghost s = self.input@;
        let start = self.pos;
        self.scan_until(']');
        let e = self.pos;
        if e >= self.input.len() {
            return Err(self.error_at("invalid GNUStep base64 data: expected ']'"));
        }
        if e + 1 >= self.input.len() || self.input[e + 1] != '>' {
            return Err(self.error_at("invalid GNUStep base64 data: expected '>'"));
        }
        self.pos = e + 2;
        let set = base64_valid();
        let mut filtered: Vec<u8> = Vec::new();
        let mut i: usize = start;
        proof {
            lemma_spans(s, start as int, set, ']');
            assert(s.subrange(start as int, start as int) =~= Seq::<char>::empty());
        }
        while i < e
            invariant
                start <= i <= e < s.len(),
                s == self.input@,
                set == crate::tables::base64_valid_set(),
                filtered@ == b64_filter(s.subrange(start as int, i as int)),
            decreases e - i,
        {
            let c = self.input[i];
            proof {
                let w = s.subrange(start as int, i + 1);
                assert(w.drop_last() =~= s.subrange(start as int, i as int));
                assert(w.last() == c);
            }
            if set.contains_char(c) {
                filtered.push((c as u32) as u8);
            }
            i = i + 1;
        }
        match base64_decode(filtered.as_slice()) {
            Ok(bytes) => Ok(bytes),
            Err(cause) => {
                let mut m = str_chars("invalid GNUStep base64 data: ");
                push_all(&mut m, &str_chars(cause.as_str()));
                let message = string_from_chars(&m);
                Err(self.error_at(message.as_str()))
            },
        }
    }

    /// Reads `<hex>` data; the `<` has been consumed and the next
    /// character is neither `*` nor `[`.
    fn parse_hex_data(&mut self) -> (r: Result<Vec<u8>, Error>)
        requires
            old(self).wf(),
        ensures
            final(self).advanced_from(*old(self)),
            match hex(old(self).input@, old(self).pos as int, Seq::empty(), false) {
                None => r matches Err(x) && is_text_error(x),
                Some((b, e)) => r matches Ok(v) && v@ == b && final(self).pos == e,
            },
    {
        let ghost s = self.input@;
        let mut bytes: Vec<u8> = Vec::new();
        let mut odd = false;
        loop
            invariant
                self.advanced_from(*old(self)),
                s == self.input@,
                hex(s, old(self).pos as int, Seq::empty(), false) == hex(s, self.pos as int, bytes@, odd),
                odd ==> bytes@.len() > 0 && bytes@.last() < 16,
            decreases s.len() - self.pos,
        {
            if self.pos >= self.input.len() {
                return Err(self.error_at("unexpected eof in data"));
            }
            let c = self.input[self.pos];
            self.pos = self.pos + 1;
            if c == '>' {
                if odd {
                    return Err(self.error_at("uneven number of hex digits in data"));
                }
                return Ok(bytes);
            }
            if c == ' ' || c == '\t' || c == '\n' || c == '\r' || c == '\u{2028}' || c == '\u{2029}' {
                continue;
            }
            let nibble = match digit_value(c, 16) {
                Some(d) => d as u8,
                None => {
                    let mut m = str_chars("unexpected hex digit '");
                    m.push(c);
                    m.push('\'');
                    let message = string_from_chars(&m);
                    return Err(self.error_at(message.as_str()));
                },
            };
            if odd {
                let last = bytes.len() - 1;
                let hi = bytes[last];
                bytes.set(last, hi * 16 + nibble);
                odd = false;
            } else {
                bytes.push(nibble);
                odd = true;
            }
        }
    }
}

impl TextParser {
    /// Reads one value node `d` levels deep: every node takes a level, and
    /// more than the limit is refused before anything is read.
    fn parse_value<H: FloatCodec>(&mut self, d: usize, hooks: &H) -> (r: Result<Value, Error>)
        requires
            old(self).wf(),
        ensures
            final(self).wf(),
            final(self).input == old(self).input,
            final(self).pos >= old(self).pos,
            old(self).reals@.submap_of(final(self).reals@),
            forall|m: Map<int, Option<u64>>|
                #![trigger value(old(self).input@, old(self).pos as int, d as int, old(self).gnustep, m)]
                final(self).reals@.submap_of(m) ==> read_matches(
                    value(old(self).input@, old(self).pos as int, d as int, old(self).gnustep, m),
                    r,
                    final(self).pos as int,
                    final(self).gnustep,
                ),
            (r matches Ok(v) && v is String) ==> final(self).reals == old(self).reals,
            (r is Ok && old(self).pos < old(self).input@.len()) ==> final(self).pos > old(self).pos,
        decreases old(self).input@.len() - old(self).pos, 0int,
    {
        let ghost s = self.input@;
        let ghost p = self.pos as int;
        let ghost g0 = self.gnustep;
        if d >= MAX_PARSE_DEPTH {
            return Err(Error::MaxDepthExceeded);
        }
        proof {
            lemma_skip(s, p);
        }
        match self.skip_whitespace_and_comments() {
            Ok(()) => {},
            Err(e) => {
                return Err(e);
            },
        }
        let q = self.pos;
        if q >= self.input.len() {
            let res = Ok(Value::Dictionary(Dictionary::new()));
            proof {
                assert(entries_model(Seq::<(String, Value)>::empty()) =~= Seq::<(Seq<char>, Node)>::empty());
            }
            return res;
        }
        let c = self.input[q];
        let ghost l0 = self.reals@;
        if c == '<' {
            if q + 1 < self.input.len() && self.input[q + 1] == '*' {
                self.pos = q + 2;
                self.gnustep = true;
                let res = self.parse_gnustep_value(hooks);
                proof {
                    assert forall|m: Map<int, Option<u64>>| self.reals@.submap_of(m) implies #[trigger] read_matches(
                        value(s, p, d as int, g0, m),
                        res,
                        self.pos as int,
                        self.gnustep,
                    ) by {
                        assert(value(s, p, d as int, g0, m) == match gs_typed(s, q + 2, m) {
                            Some((n, e)) => Ok((n, e, true)),
                            None => Err(TextFault::Syntax),
                        });
                    }
                }
                res
            } else if q + 1 < self.input.len() && self.input[q + 1] == '[' {
                self.pos = q + 2;
                self.gnustep = true;
                match self.parse_gnustep_base64() {
                    Ok(b) => Ok(Value::Data(b)),
                    Err(e) => Err(e),
                }
            } else {
                self.pos = q + 1;
                match self.parse_hex_data() {
                    Ok(b) => Ok(Value::Data(b)),
                    Err(e) => Err(e),
                }
            }
        } else if c == '"' {
            self.pos = q + 1;
            match self.parse_quoted_string() {
                Ok(t) => Ok(Value::String(string_from_chars(&t))),
                Err(e) => Err(e),
            }
        } else if c == '{' {
            self.pos = q + 1;
            let res = self.parse_dictionary(d + 1, false, hooks);
            proof {
                assert forall|m: Map<int, Option<u64>>| self.reals@.submap_of(m) implies #[trigger] read_matches(
                    value(s, p, d as int, g0, m),
                    res,
                    self.pos as int,
                    self.gnustep,
                ) by {
                    assert(value(s, p, d as int, g0, m) == dict(s, q + 1, d + 1, g0, Seq::empty(), false, m));
                }
            }
            res
        } else if c == '(' {
            self.pos = q + 1;
            let res = self.parse_array(d + 1, hooks);
            proof {
                assert forall|m: Map<int, Option<u64>>| self.reals@.submap_of(m) implies #[trigger] read_matches(
                    value(s, p, d as int, g0, m),
                    res,
                    self.pos as int,
                    self.gnustep,
                ) by {
                    assert(value(s, p, d as int, g0, m) == array(s, q + 1, d + 1, g0, Seq::empty(), m));
                }
            }
            res
        } else {
            match self.parse_unquoted_string() {
                Ok(t) => Ok(Value::String(string_from_chars(&t))),
                Err(e) => Err(e),
            }
        }
    }

    /// The value of a dictionary entry after its `=`, and the `;` that ends
    /// the entry.
    fn dictionary_value<H: FloatCodec>(&mut self, d: usize, hooks: &H) -> (r: Result<Value, Error>)
        requires
            old(self).wf(),
        ensures
            final(self).wf(),
            final(self).input == old(self).input,
            final(self).pos >= old(self).pos,
            old(self).reals@.submap_of(final(self).reals@),
            forall|m: Map<int, Option<u64>>|
                #![trigger value(old(self).input@, old(self).pos as int, d as int, old(self).gnustep, m)]
                final(self).reals@.submap_of(m) ==> entry_matches(
                    old(self).input@,
                    old(self).pos as int,
                    value(old(self).input@, old(self).pos as int, d as int, old(self).gnustep, m),
                    r,
                    final(self).pos as int,
                    final(self).gnustep,
                ),
        decreases old(self).input@.len() - old(self).pos, 1int,
    {
        let ghost s = self.input@;
        let ghost p = self.pos as int;
        let v = match self.parse_value(d, hooks) {
            Ok(v) => v,
            Err(e) => {
                return Err(e);
            },
        };
        let r3 = self.pos;
        proof {
            lemma_skip(s, r3 as int);
        }
        match self.skip_whitespace_and_comments() {
            Ok(()) => {},
            Err(e) => {
                return Err(e);
            },
        }
        let r4 = self.pos;
        if r4 < self.input.len() && self.input[r4] == ';' {
            self.pos = r4 + 1;
            Ok(v)
        } else {
            Err(self.error_at("missing ';' in dictionary"))
        }
    }

    #[verifier::spinoff_prover]
    #[verifier::rlimit(60)]
    /// One turn of a dictionary: the closing `}` (or, with `eof_ok`, the
    /// end of input), or one more `key = value;` or `key;` entry.
    fn dictionary_turn<H: FloatCodec>(
        &mut self,
        d: usize,
        eof_ok: bool,
        entries: &mut Vec<(String, Value)>,
        hooks: &H,
    ) -> (r: Result<bool, Error>)
        requires
            old(self).wf(),
        ensures
            final(self).wf(),
            final(self).input == old(self).input,
            final(self).pos >= old(self).pos,
            old(self).reals@.submap_of(final(self).reals@),
            r matches Ok(false) ==> final(self).pos > old(self).pos,
            (r matches Ok(true) && !eof_ok) ==> final(self).pos > old(self).pos,
            r matches Ok(true) ==> final(entries)@ == old(entries)@ && final(self).gnustep == old(self).gnustep,
            forall|m: Map<int, Option<u64>>|
                #![trigger dict(old(self).input@, old(self).pos as int, d as int, old(self).gnustep, entries_model(old(entries)@), eof_ok, m)]
                final(self).reals@.submap_of(m) ==> turn_matches(
                    dict(old(self).input@, old(self).pos as int, d as int, old(self).gnustep, entries_model(old(entries)@), eof_ok, m),
                    r,
                    Ok((close_dictionary(entries_model(old(entries)@), old(self).gnustep), final(self).pos as int, old(self).gnustep)),
                    dict(old(self).input@, final(self).pos as int, d as int, final(self).gnustep, entries_model(final(entries)@), eof_ok, m),
                ),
        decreases old(self).input@.len() - old(self).pos, 2int,
    {
        let ghost s = self.input@;
        let ghost p1 = self.pos as int;
        let ghost g1 = self.gnustep;
        let ghost e1 = entries_model(entries@);
        proof {
            lemma_skip(s, p1);
        }
        match self.skip_whitespace_and_comments() {
            Ok(()) => {},
            Err(e) => {
                proof {
                    assert forall|m: Map<int, Option<u64>>| self.reals@.submap_of(m) implies #[trigger] dict(
                        s,
                        p1,
                        d as int,
                        g1,
                        e1,
                        eof_ok,
                        m,
                    ) == Err::<(Node, int, bool), TextFault>(TextFault::Syntax) by {}
                }
                return Err(e);
            },
        }
        let q = self.pos;
        if q >= self.input.len() {
            if eof_ok {
                return Ok(true);
            }
            return Err(self.error_at("unexpected eof in dictionary"));
        }
        if self.input[q] == '}' {
            self.pos = q + 1;
            return Ok(true);
        }
        proof {
            lemma_quoted(s, q + 1);
            lemma_spans(s, q as int, crate::tables::gs_quotable_set(), ' ');
        }
        let key = if self.input[q] == '"' {
            self.pos = q + 1;
            match self.parse_quoted_string() {
                Ok(k) => k,
                Err(e) => {
                    return Err(e);
                },
            }
        } else {
            match self.parse_unquoted_string() {
                Ok(k) => k,
                Err(e) => {
                    return Err(e);
                },
            }
        };
        let ghost r = self.pos as int;
        assert(dict_key(s, q as int) == Some((key@, r)));
        proof {
            lemma_skip(s, r);
        }
        match self.skip_whitespace_and_comments() {
            Ok(()) => {},
            Err(e) => {
                proof {
                    assert forall|m: Map<int, Option<u64>>| self.reals@.submap_of(m) implies #[trigger] dict(
                        s,
                        p1,
                        d as int,
                        g1,
                        e1,
                        eof_ok,
                        m,
                    ) == Err::<(Node, int, bool), TextFault>(TextFault::Syntax) by {}
                }
                return Err(e);
            },
        }
        let r2 = self.pos;
        if r2 < self.input.len() && self.input[r2] == ';' {
            self.pos = r2 + 1;
            let copy = string_from_chars(&key);
            let text = string_from_chars(&key);
            let ghost item = (copy, Value::String(text));
            let ghost before = entries@;
            entries.push((copy, Value::String(text)));
            proof {
                assert(entries@.drop_last() =~= before);
                assert(entries@.last() == item);
                assert(item.1.deep() == Node::String(key@));
                assert(entries_model(entries@) =~= e1.push((key@, Node::String(key@))));
            }
            return Ok(false);
        }
        if !(r2 < self.input.len() && self.input[r2] == '=') {
            return Err(self.error_at("missing '=' in dictionary"));
        }
        self.pos = r2 + 1;
        let g2 = self.gnustep;
        let v = match self.dictionary_value(d, hooks) {
            Ok(v) => v,
            Err(e) => {
                proof {
                    assert forall|m: Map<int, Option<u64>>| self.reals@.submap_of(m) implies turn_matches(
                        #[trigger] dict(s, p1, d as int, g1, e1, eof_ok, m),
                        Err::<bool, Error>(e),
                        Ok((close_dictionary(e1, g1), self.pos as int, g1)),
                        dict(s, self.pos as int, d as int, self.gnustep, entries_model(entries@), eof_ok, m),
                    ) by {
                        assert(entry_matches(s, r2 + 1, value(s, r2 + 1, d as int, g1, m), Err::<Value, Error>(e), self.pos as int, self.gnustep));
                    }
                }
                return Err(e);
            },
        };
        let ghost vm = v.deep();
        let name = string_from_chars(&key);
        let ghost item = (name, v);
        let ghost before = entries@;
        entries.push((name, v));
        proof {
            assert(entries@.drop_last() =~= before);
            assert(entries@.last() == item);
            assert(entries_model(entries@) =~= e1.push((key@, vm)));
            assert forall|m: Map<int, Option<u64>>| self.reals@.submap_of(m) implies #[trigger] dict(
                s,
                p1,
                d as int,
                g1,
                e1,
                eof_ok,
                m,
            ) == dict(s, self.pos as int, d as int, self.gnustep, entries_model(entries@), eof_ok, m) by {
                assert(entry_matches(s, r2 + 1, value(s, r2 + 1, d as int, g1, m), Ok::<Value, Error>(item.1), self.pos as int, self.gnustep));
            }
        }
        Ok(false)
    }

    /// Reads the rest of a dictionary whose values are `d` levels deep;
    /// with `eof_ok` the end of input closes it (the `.strings` form).
    fn parse_dictionary<H: FloatCodec>(&mut self, d: usize, eof_ok: bool, hooks: &H) -> (r: Result<Value, Error>)
        requires
            old(self).wf(),
        ensures
            final(self).wf(),
            final(self).input == old(self).input,
            final(self).pos >= old(self).pos,
            old(self).reals@.submap_of(final(self).reals@),
            forall|m: Map<int, Option<u64>>|
                #![trigger dict(old(self).input@, old(self).pos as int, d as int, old(self).gnustep, Seq::empty(), eof_ok, m)]
                final(self).reals@.submap_of(m) ==> read_matches(
                    dict(old(self).input@, old(self).pos as int, d as int, old(self).gnustep, Seq::empty(), eof_ok, m),
                    r,
                    final(self).pos as int,
                    final(self).gnustep,
                ),
            (r is Ok && !eof_ok) ==> final(self).pos > old(self).pos,
            r matches Ok(v) ==> !(v is String),
        decreases old(self).input@.len() - old(self).pos, 3int,
    {
        let ghost s = self.input@;
        let ghost p0 = self.pos as int;
        let ghost g0 = self.gnustep;
        let mut entries: Vec<(String, Value)> = Vec::new();
        assert(entries_model(entries@) =~= Seq::<(Seq<char>, Node)>::empty());
        loop
            invariant
                self.wf(),
                s == self.input@,
                self.input == old(self).input,
                p0 == old(self).pos,
                g0 == old(self).gnustep,
                self.pos >= p0,
                old(self).reals@.submap_of(self.reals@),
                forall|m: Map<int, Option<u64>>|
                    #![trigger dict(s, p0, d as int, g0, Seq::empty(), eof_ok, m)]
                    self.reals@.submap_of(m) ==> dict(s, p0, d as int, g0, Seq::empty(), eof_ok, m) == dict(
                        s,
                        self.pos as int,
                        d as int,
                        self.gnustep,
                        entries_model(entries@),
                        eof_ok,
                        m,
                    ),
            decreases s.len() - self.pos,
        {
            let ghost p1 = self.pos as int;
            let ghost g1 = self.gnustep;
            let ghost l1 = self.reals@;
            let ghost e1 = entries_model(entries@);
            let turn = self.dictionary_turn(d, eof_ok, &mut entries, hooks);
            match turn {
                Ok(true) => {
                    let lax = !self.gnustep;
                    proof {
                        lemma_close(entries@, lax);
                    }
                    let res = Ok(maybe_uid(entries, lax));
                    proof {
                        assert forall|m: Map<int, Option<u64>>| self.reals@.submap_of(m) implies #[trigger] read_matches(
                            dict(s, p0, d as int, g0, Seq::empty(), eof_ok, m),
                            res,
                            self.pos as int,
                            self.gnustep,
                        ) by {
                            assert(l1.submap_of(m));
                            assert(dict(s, p0, d as int, g0, Seq::empty(), eof_ok, m) == dict(s, p1, d as int, g1, e1, eof_ok, m));
                        }
                    }
                    return res;
                },
                Ok(false) => {
                    proof {
                        assert forall|m: Map<int, Option<u64>>| self.reals@.submap_of(m) implies #[trigger] dict(
                            s,
                            p0,
                            d as int,
                            g0,
                            Seq::empty(),
                            eof_ok,
                            m,
                        ) == dict(s, self.pos as int, d as int, self.gnustep, entries_model(entries@), eof_ok, m) by {
                            assert(l1.submap_of(m));
                            assert(dict(s, p0, d as int, g0, Seq::empty(), eof_ok, m) == dict(s, p1, d as int, g1, e1, eof_ok, m));
                        }
                    }
                },
                Err(e) => {
                    let res = Err(e);
                    proof {
                        assert forall|m: Map<int, Option<u64>>| self.reals@.submap_of(m) implies #[trigger] read_matches(
                            dict(s, p0, d as int, g0, Seq::empty(), eof_ok, m),
                            res,
                            self.pos as int,
                            self.gnustep,
                        ) by {
                            assert(l1.submap_of(m));
                            assert(dict(s, p0, d as int, g0, Seq::empty(), eof_ok, m) == dict(s, p1, d as int, g1, e1, eof_ok, m));
                        }
                    }
                    return res;
                },
            }
        }
    }

    #[verifier::spinoff_prover]
    #[verifier::rlimit(40)]
    /// One turn of an array: the closing `)`, a stray comma, or one more
    /// element (dropped when it is an empty string).
    fn array_turn<H: FloatCodec>(&mut self, d: usize, values: &mut Vec<Value>, hooks: &H) -> (r: Result<bool, Error>)
        requires
            old(self).wf(),
        ensures
            final(self).wf(),
            final(self).input == old(self).input,
            final(self).pos >= old(self).pos,
            final(self).pos > old(self).pos || r is Err,
            old(self).reals@.submap_of(final(self).reals@),
            r matches Ok(true) ==> final(values)@ == old(values)@ && final(self).gnustep == old(self).gnustep,
            forall|m: Map<int, Option<u64>>|
                #![trigger array(old(self).input@, old(self).pos as int, d as int, old(self).gnustep, values_model(old(values)@), m)]
                final(self).reals@.submap_of(m) ==> turn_matches(
                    array(old(self).input@, old(self).pos as int, d as int, old(self).gnustep, values_model(old(values)@), m),
                    r,
                    Ok((Node::Array(values_model(old(values)@)), final(self).pos as int, old(self).gnustep)),
                    array(old(self).input@, final(self).pos as int, d as int, final(self).gnustep, values_model(final(values)@), m),
                ),
        decreases old(self).input@.len() - old(self).pos, 1int,
    {
        let ghost s = self.input@;
        let ghost p1 = self.pos as int;
        let ghost g1 = self.gnustep;
        let ghost e1 = values_model(values@);
        proof {
            lemma_skip(s, p1);
        }
        match self.skip_whitespace_and_comments() {
            Ok(()) => {},
            Err(e) => {
                let res = Err(e);
                proof {
                    assert forall|m: Map<int, Option<u64>>| self.reals@.submap_of(m) implies #[trigger] array(
                        s,
                        p1,
                        d as int,
                        g1,
                        e1,
                        m,
                    ) == Err::<(Node, int, bool), TextFault>(TextFault::Syntax) by {}
                }
                return res;
            },
        }
        let q = self.pos;
        if q >= self.input.len() {
            return Err(self.error_at("unexpected eof in array"));
        }
        let c = self.input[q];
        if c == ')' {
            self.pos = q + 1;
            return Ok(true);
        }
        if c == ',' {
            self.pos = q + 1;
            return Ok(false);
        }
        let v = match self.parse_value(d, hooks) {
            Ok(v) => v,
            Err(e) => {
                proof {
                    assert forall|m: Map<int, Option<u64>>| self.reals@.submap_of(m) implies #[trigger] array(
                        s,
                        p1,
                        d as int,
                        g1,
                        e1,
                        m,
                    ) == match value(s, q as int, d as int, g1, m) {
                        Err(f) => Err::<(Node, int, bool), TextFault>(f),
                        Ok(_) => Err(TextFault::Syntax),
                    } by {
                        assert(read_matches(value(s, q as int, d as int, g1, m), Err::<Value, Error>(e), self.pos as int, self.gnustep));
                    }
                }
                return Err(e);
            },
        };
        let ghost r = self.pos as int;
        let ghost g2 = self.gnustep;
        let ghost vm = v.deep();
        let empty = match &v {
            Value::String(text) => str_chars(text.as_str()).len() == 0,
            _ => false,
        };
        proof {
            if let Value::String(text) = &v {
                if empty {
                    assert(text@ =~= Seq::<char>::empty());
                } else {
                    assert(text@.len() > 0);
                }
            }
            assert(empty == (vm == Node::String(Seq::empty())));
        }
        if !empty {
            let ghost before = values@;
            values.push(v);
            proof {
                assert(values@.drop_last() =~= before);
                assert(values_model(values@) =~= e1.push(vm));
            }
        }
        proof {
            assert forall|m: Map<int, Option<u64>>| self.reals@.submap_of(m) implies #[trigger] array(
                s,
                p1,
                d as int,
                g1,
                e1,
                m,
            ) == array(s, r, d as int, g2, values_model(values@), m) by {
                assert(read_matches(value(s, q as int, d as int, g1, m), Ok::<Value, Error>(v), r, g2));
                assert(value(s, q as int, d as int, g1, m) == Ok::<(Node, int, bool), TextFault>((vm, r, g2)));
            }
        }
        Ok(false)
    }

    /// Reads the rest of an array whose elements are `d` levels deep.
    fn parse_array<H: FloatCodec>(&mut self, d: usize, hooks: &H) -> (r: Result<Value, Error>)
        requires
            old(self).wf(),
        ensures
            final(self).wf(),
            final(self).input == old(self).input,
            final(self).pos >= old(self).pos,
            old(self).reals@.submap_of(final(self).reals@),
            forall|m: Map<int, Option<u64>>|
                #![trigger array(old(self).input@, old(self).pos as int, d as int, old(self).gnustep, Seq::empty(), m)]
                final(self).reals@.submap_of(m) ==> read_matches(
                    array(old(self).input@, old(self).pos as int, d as int, old(self).gnustep, Seq::empty(), m),
                    r,
                    final(self).pos as int,
                    final(self).gnustep,
                ),
            r is Ok ==> final(self).pos > old(self).pos,
            r matches Ok(v) ==> !(v is String),
        decreases old(self).input@.len() - old(self).pos, 2int,
    {
        let ghost s = self.input@;
        let ghost p0 = self.pos as int;
        let ghost g0 = self.gnustep;
        let mut values: Vec<Value> = Vec::new();
        assert(values_model(values@) =~= Seq::<Node>::empty());
        loop
            invariant
                self.wf(),
                s == self.input@,
                self.input == old(self).input,
                p0 == old(self).pos,
                g0 == old(self).gnustep,
                self.pos >= p0,
                old(self).reals@.submap_of(self.reals@),
                forall|m: Map<int, Option<u64>>|
                    #![trigger array(s, p0, d as int, g0, Seq::empty(), m)]
                    self.reals@.submap_of(m) ==> array(s, p0, d as int, g0, Seq::empty(), m) == array(
                        s,
                        self.pos as int,
                        d as int,
                        self.gnustep,
                        values_model(values@),
                        m,
                    ),
            decreases s.len() - self.pos,
        {
            let ghost p1 = self.pos as int;
            let ghost g1 = self.gnustep;
            let ghost l1 = self.reals@;
            let ghost e1 = values_model(values@);
            let turn = self.array_turn(d, &mut values, hooks);
            match turn {
                Ok(true) => {
                    let res = Ok(Value::Array(values));
                    proof {
                        assert forall|m: Map<int, Option<u64>>| self.reals@.submap_of(m) implies #[trigger] read_matches(
                            array(s, p0, d as int, g0, Seq::empty(), m),
                            res,
                            self.pos as int,
                            self.gnustep,
                        ) by {
                            assert(l1.submap_of(m));
                            assert(array(s, p0, d as int, g0, Seq::empty(), m) == array(s, p1, d as int, g1, e1, m));
                        }
                    }
                    return res;
                },
                Ok(false) => {
                    proof {
                        assert forall|m: Map<int, Option<u64>>| self.reals@.submap_of(m) implies #[trigger] array(
                            s,
                            p0,
                            d as int,
                            g0,
                            Seq::empty(),
                            m,
                        ) == array(s, self.pos as int, d as int, self.gnustep, values_model(values@), m) by {
                            assert(l1.submap_of(m));
                            assert(array(s, p0, d as int, g0, Seq::empty(), m) == array(s, p1, d as int, g1, e1, m));
                        }
                    }
                },
                Err(e) => {
                    let res = Err(e);
                    proof {
                        assert forall|m: Map<int, Option<u64>>| self.reals@.submap_of(m) implies #[trigger] read_matches(
                            array(s, p0, d as int, g0, Seq::empty(), m),
                            res,
                            self.pos as int,
                            self.gnustep,
                        ) by {
                            assert(l1.submap_of(m));
                            assert(array(s, p0, d as int, g0, Seq::empty(), m) == array(s, p1, d as int, g1, e1, m));
                        }
                    }
                    return res;
                },
            }
        }
    }

    /// Parses a whole document: one value, then only whitespace and
    /// comments; a string root followed by more input re-parses the input
    /// as a `.strings` dictionary.
    fn parse_document<H: FloatCodec>(&mut self, hooks: &H) -> (r: Result<Value, Error>)
        requires
            old(self).wf(),
            old(self).pos == 0,
            !old(self).gnustep,
            old(self).reals@ == Map::<int, Option<u64>>::empty(),
        ensures
            final(self).wf(),
            final(self).input == old(self).input,
            forall|m: Map<int, Option<u64>>|
                #![trigger document(old(self).input@, m)]
                final(self).reals@.submap_of(m) ==> match document(old(self).input@, m) {
                    Ok((n, g)) => r matches Ok(v) && v.deep() == n && final(self).gnustep == g,
                    Err(TextFault::Syntax) => r matches Err(x) && is_text_error(x),
                    Err(TextFault::Depth) => r matches Err(x) && x is MaxDepthExceeded,
                },
    {
        let ghost s = self.input@;
        let value = self.parse_value(0, hooks)?;
        let ghost r1 = self.pos as int;
        let ghost l1 = self.reals@;
        proof {
            lemma_skip(s, r1);
        }
        self.skip_whitespace_and_comments()?;
        if self.pos < self.input.len() {
            let is_string = match &value {
                Value::String(_) => true,
                _ => false,
            };
            if !is_string {
                return Err(self.error_at("garbage after end of document"));
            }
            self.pos = 0;
            return self.parse_dictionary(0, true, hooks);
        }
        Ok(value)
    }
}

/// Parses one text plist document, reporting which dialect it used: the
/// parser starts as OpenStep and switches to GNUStep, irreversibly, on the
/// first `<*` or `<[` literal. Empty, whitespace-only and comment-only
/// input is an empty dictionary. The outcome is the one [`text_outcome`]
/// gives for some answers of the decimal conversion to the `<*R` payloads.
pub fn parse<H: FloatCodec>(data: &[u8], hooks: &H) -> (r: Result<(Value, Format), Error>)
    ensures
        exists|reals: Map<int, Option<u64>>| #[trigger] outcome_matches(text_outcome(data@, reals), r),
        r matches Err(e) ==> is_text_error(e) || e is MaxDepthExceeded,
        r matches Ok((_, f)) ==> f == Format::OpenStep || f == Format::GnuStep,
{
    let input = match guess_encoding_and_convert(data) {
        Ok(chars) => chars,
        Err(e) => {
            assert(outcome_matches(text_outcome(data@, Map::empty()), Err(e)));
            return Err(e);
        },
    };
    if input.len() >= usize::MAX - 4 {
        let e = text_error("input too large");
        assert(outcome_matches(text_outcome(data@, Map::empty()), Err(e)));
        return Err(e);
    }
    let mut parser = TextParser::new(input);
    let res = parser.parse_document(hooks);
    let ghost lg = parser.reals@;
    let r = match res {
        Ok(value) => {
            let format = if parser.gnustep {
                Format::GnuStep
            } else {
                Format::OpenStep
            };
            Ok((value, format))
        },
        Err(e) => Err(e),
    };
    proof {
        assert(lg.submap_of(lg));
        assert(outcome_matches(text_outcome(data@, lg), r));
    }
    r
}

/// A text parse error whose message is `prefix` followed by the message of
/// a scalar error.
fn prefixed_cause(prefix: &str, cause: Error) -> (r: Error)
    ensures
        is_text_error(r),
{
    let mut m = str_chars(prefix);
    match cause {
        Error::ParseScalar(text) => push_all(&mut m, &str_chars(text.as_str())),
        _ => {},
    }
    text_error_string(string_from_chars(&m))
}

/// The value of `c` as a digit of `radix` (16 or 8).
fn digit_value(c: char, radix: u32) -> (r: Option<u32>)
    requires
        radix == 16 || radix == 8,
    ensures
        match digit_of(c, radix as int) {
            Some(d) => r == Some(d as u32) && d < radix,
            None => r is None,
        },
{
    let u = c as u32;
    let d: u32 = if '0' <= c && c <= '9' {
        u - 48
    } else if 'a' <= c && c <= 'z' {
        u - 87
    } else if 'A' <= c && c <= 'Z' {
        u - 55
    } else {
        99
    };
    if d < radix {
        Some(d)
    } else {
        None
    }
}

proof fn lemma_pow16_small(k: nat)
    requires
        k <= 4,
    ensures
        crate::scalar::pow16(k + 1) == 16 * crate::scalar::pow16(k),
        crate::scalar::pow16(k) <= 0x1_0000,
{
    reveal_with_fuel(crate::scalar::pow16, 6);
}

/// `char::from_u32`, with U+FFFD for a value that is no character.
fn escape_char(value: u32) -> (r: char)
    ensures
        r == crate::text::grammar::escape_char(value as int),
{
    match crate::strings::char_from_u32_checked(value) {
        Some(c) => c,
        None => '\u{FFFD}',
    }
}

/// A closing dictionary's value, whichever way `maybe_uid` goes, is the
/// one its model closes to.
proof fn lemma_close(entries: Seq<(String, Value)>, lax: bool)
    ensures
        entries_uid(entries, lax) == node_uid(entries_model(entries), lax),
        entries_model(collect_entries(entries)) == crate::value::collect_node_entries(entries_model(entries)),
{
    lemma_entries_model(entries);
    lemma_collect_model(entries);
}

} // verus!
