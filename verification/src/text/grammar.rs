//! What a text document means: the OpenStep/GNUStep grammar as spec
//! functions over the decoded characters, from the encoding sniff down to
//! every escape.

use vstd::prelude::*;

use crate::date::{civil_instant, text_layout_fields};
use crate::integer::Integer;
use crate::reals::Real;
use crate::scalar::{float_literal_ok, i64_literal, special_value, u64_literal};
use crate::tables::{base64_valid_set, gs_quotable_set, newline_set, whitespace_set, CharSet};
use crate::text::parser::base64_decoded;
use crate::value::{collect_node_entries, Node};

verus! {

/// How a text document is refused.
pub enum TextFault {
    /// Malformed text.
    Syntax,
    /// Values nest deeper than the parse limit.
    Depth,
}

/// A value read from position `p`: its model, the position after it, and
/// whether the document has turned GNUStep by then.
pub type TextRead = Result<(Node, int, bool), TextFault>;

/// The first position at or after `p` whose character is not in `set`.
pub open spec fn span_in(s: Seq<char>, p: int, set: CharSet) -> int
    decreases s.len() - p,
{
    if 0 <= p < s.len() && set.has_char(s[p]) {
        span_in(s, p + 1, set)
    } else {
        p
    }
}

/// The first position at or after `p` whose character is in `set`.
pub open spec fn span_out(s: Seq<char>, p: int, set: CharSet) -> int
    decreases s.len() - p,
{
    if 0 <= p < s.len() && !set.has_char(s[p]) {
        span_out(s, p + 1, set)
    } else {
        p
    }
}

/// The first position at or after `p` holding `ch`, or the end.
pub open spec fn find_char(s: Seq<char>, p: int, ch: char) -> int
    decreases s.len() - p,
{
    if 0 <= p < s.len() && s[p] != ch {
        find_char(s, p + 1, ch)
    } else {
        p
    }
}

/// The first position at or after `k` where `*/` starts, or the end.
pub open spec fn comment_close(s: Seq<char>, k: int) -> int
    decreases s.len() - k,
{
    if 0 <= k && k + 1 < s.len() {
        if s[k] == '*' && s[k + 1] == '/' {
            k
        } else {
            comment_close(s, k + 1)
        }
    } else {
        s.len() as int
    }
}

/// The scans only move forward, and never past the end.
pub proof fn lemma_spans(s: Seq<char>, p: int, set: CharSet, ch: char)
    ensures
        p <= span_in(s, p, set),
        p <= span_out(s, p, set),
        p <= find_char(s, p, ch),
        0 <= p <= s.len() ==> span_in(s, p, set) <= s.len(),
        0 <= p <= s.len() ==> span_out(s, p, set) <= s.len(),
        0 <= p <= s.len() ==> find_char(s, p, ch) <= s.len(),
        0 <= p ==> (comment_close(s, p) + 1 < s.len() ==> p <= comment_close(s, p)),
    decreases s.len() - p,
{
    if 0 <= p < s.len() {
        lemma_spans(s, p + 1, set, ch);
    }
}

/// Whitespace, `//` line comments and `/* */` block comments from `p`:
/// the position of the next token, or `None` for an unterminated block
/// comment.
pub open spec fn skip(s: Seq<char>, p: int) -> Option<int>
    decreases s.len() - p,
{
    let q = span_in(s, p, whitespace_set());
    proof {
        lemma_spans(s, p, whitespace_set(), ' ');
    }
    if 0 <= p && q + 1 < s.len() && s[q] == '/' && s[q + 1] == '/' {
        let e = span_out(s, q + 2, newline_set());
        proof {
            lemma_spans(s, q + 2, newline_set(), ' ');
        }
        skip(s, e)
    } else if 0 <= p && q + 1 < s.len() && s[q] == '/' && s[q + 1] == '*' {
        let k = comment_close(s, q + 1);
        proof {
            lemma_spans(s, q + 1, newline_set(), ' ');
        }
        if k + 1 < s.len() {
            skip(s, k + 2)
        } else {
            None
        }
    } else {
        Some(q)
    }
}

/// Skipping only moves forward, and stops on a character or at the end.
pub proof fn lemma_skip(s: Seq<char>, p: int)
    requires
        0 <= p <= s.len(),
    ensures
        skip(s, p) matches Some(q) ==> p <= q <= s.len(),
    decreases s.len() - p,
{
    let q = span_in(s, p, whitespace_set());
    lemma_spans(s, p, whitespace_set(), ' ');
    if q + 1 < s.len() && s[q] == '/' && s[q + 1] == '/' {
        let e = span_out(s, q + 2, newline_set());
        lemma_spans(s, q + 2, newline_set(), ' ');
        lemma_skip(s, e);
    } else if q + 1 < s.len() && s[q] == '/' && s[q + 1] == '*' {
        let k = comment_close(s, q + 1);
        lemma_spans(s, q + 1, newline_set(), ' ');
        if k + 1 < s.len() {
            lemma_skip(s, k + 2);
        }
    }
}

/// The value of `c` as a digit of `radix`: letters continue the digits
/// past nine, case-insensitively.
pub open spec fn digit_of(c: char, radix: int) -> Option<int> {
    let u = c as int;
    let d = if '0' <= c <= '9' {
        u - 48
    } else if 'a' <= c <= 'z' {
        u - 87
    } else if 'A' <= c <= 'Z' {
        u - 55
    } else {
        99
    };
    if d < radix {
        Some(d)
    } else {
        None
    }
}

/// Up to `max` digits of `radix` from `p`, folded into `acc`: the value and
/// the position after the last digit.
pub open spec fn digits(s: Seq<char>, p: int, max: nat, radix: int, acc: int) -> (int, int)
    decreases max,
{
    if max == 0 || p < 0 || p >= s.len() {
        (acc, p)
    } else {
        match digit_of(s[p], radix) {
            None => (acc, p),
            Some(d) => digits(s, p + 1, (max - 1) as nat, radix, acc * radix + d),
        }
    }
}

/// Three octal digits after a `\` read as the character whose code they
/// spell (U+FFFD where that is no character), and end the escape.
pub proof fn octal_escape_reads_its_code(d0: char, d1: char, d2: char)
    requires
        '0' <= d0 <= '7',
        '0' <= d1 <= '7',
        '0' <= d2 <= '7',
    ensures
        escape(seq![d0, d1, d2], 0) == (Some(escape_char(
            ((d0 as int) - 48) * 64 + ((d1 as int) - 48) * 8 + ((d2 as int) - 48),
        )), 3int),
{
    let s = seq![d0, d1, d2];
    reveal_with_fuel(digits, 4);
    assert(digit_of(d0, 8) == Some((d0 as int) - 48));
    assert(digit_of(d1, 8) == Some((d1 as int) - 48));
    assert(digit_of(d2, 8) == Some((d2 as int) - 48));
}

/// The C letter escapes stand for the control characters their octal codes
/// name: wherever they occur, `\a \b \t \n \v \f \r` read exactly as
/// `\007 \010 \011 \012 \013 \014 \015` read, `\"` and `\\` as `\042` and
/// `\134`; each ends after its letter.
pub proof fn letter_escapes_read_as_octal(s: Seq<char>, p: int)
    requires
        0 <= p < s.len(),
    ensures
        s[p] == 'a' ==> escape(s, p) == (escape(seq!['0', '0', '7'], 0).0, p + 1),
        s[p] == 'b' ==> escape(s, p) == (escape(seq!['0', '1', '0'], 0).0, p + 1),
        s[p] == 't' ==> escape(s, p) == (escape(seq!['0', '1', '1'], 0).0, p + 1),
        s[p] == 'n' ==> escape(s, p) == (escape(seq!['0', '1', '2'], 0).0, p + 1),
        s[p] == 'v' ==> escape(s, p) == (escape(seq!['0', '1', '3'], 0).0, p + 1),
        s[p] == 'f' ==> escape(s, p) == (escape(seq!['0', '1', '4'], 0).0, p + 1),
        s[p] == 'r' ==> escape(s, p) == (escape(seq!['0', '1', '5'], 0).0, p + 1),
        s[p] == '"' ==> escape(s, p) == (escape(seq!['0', '4', '2'], 0).0, p + 1),
        s[p] == '\\' ==> escape(s, p) == (escape(seq!['1', '3', '4'], 0).0, p + 1),
{
    octal_escape_reads_its_code('0', '4', '2');
    octal_escape_reads_its_code('1', '3', '4');
    octal_escape_reads_its_code('0', '0', '7');
    octal_escape_reads_its_code('0', '1', '0');
    octal_escape_reads_its_code('0', '1', '1');
    octal_escape_reads_its_code('0', '1', '2');
    octal_escape_reads_its_code('0', '1', '3');
    octal_escape_reads_its_code('0', '1', '4');
    octal_escape_reads_its_code('0', '1', '5');
}

/// Digit scans only move forward.
pub proof fn lemma_digits(s: Seq<char>, p: int, max: nat, radix: int, acc: int)
    ensures
        p <= digits(s, p, max, radix, acc).1,
        0 <= p <= s.len() ==> digits(s, p, max, radix, acc).1 <= s.len(),
    decreases max,
{
    if max > 0 && 0 <= p < s.len() {
        if let Some(d) = digit_of(s[p], radix) {
            lemma_digits(s, p + 1, (max - 1) as nat, radix, acc * radix + d);
        }
    }
}

/// The character an escape's numeric value names, or U+FFFD for a number
/// that is no Unicode scalar value.
pub open spec fn escape_char(v: int) -> char {
    if (0 <= v < 0xD800) || (0xE000 <= v <= 0x10FFFF) {
        v as char
    } else {
        '\u{FFFD}'
    }
}

/// The escape after a `\` at `p - 1`: the character it stands for (none
/// for an unknown escape, which leaves its character as ordinary content)
/// and the position after it.
pub open spec fn escape(s: Seq<char>, p: int) -> (Option<char>, int) {
    if p < 0 || p >= s.len() {
        (None, p)
    } else {
        let c = s[p];
        if c == 'a' {
            (Some('\u{07}'), p + 1)
        } else if c == 'b' {
            (Some('\u{08}'), p + 1)
        } else if c == 'v' {
            (Some('\u{0B}'), p + 1)
        } else if c == 'f' {
            (Some('\u{0C}'), p + 1)
        } else if c == 't' {
            (Some('\t'), p + 1)
        } else if c == 'r' {
            (Some('\r'), p + 1)
        } else if c == 'n' {
            (Some('\n'), p + 1)
        } else if c == '\\' || c == '"' {
            (Some(c), p + 1)
        } else if c == 'x' {
            let (v, q) = digits(s, p + 1, 2, 16, 0);
            (Some(escape_char(v)), q)
        } else if c == 'u' || c == 'U' {
            let (v, q) = digits(s, p + 1, 4, 16, 0);
            (Some(escape_char(v)), q)
        } else if '0' <= c <= '7' {
            let (v, q) = digits(s, p, 3, 8, 0);
            (Some(escape_char(v)), q)
        } else {
            (None, p)
        }
    }
}

/// Escapes only move forward.
pub proof fn lemma_escape(s: Seq<char>, p: int)
    ensures
        p <= escape(s, p).1,
        0 <= p <= s.len() ==> escape(s, p).1 <= s.len(),
{
    lemma_digits(s, p + 1, 2, 16, 0);
    lemma_digits(s, p + 1, 4, 16, 0);
    lemma_digits(s, p, 3, 8, 0);
}

/// The rest of a quoted string whose opening `"` is before `p`: its
/// characters and the position after the closing `"`; `None` when the
/// input ends first.
pub open spec fn quoted(s: Seq<char>, p: int) -> Option<(Seq<char>, int)>
    decreases s.len() - p,
{
    if p < 0 || p >= s.len() {
        None
    } else if s[p] == '"' {
        Some((Seq::empty(), p + 1))
    } else if s[p] == '\\' {
        let (e, q) = escape(s, p + 1);
        proof {
            lemma_escape(s, p + 1);
        }
        match quoted(s, q) {
            None => None,
            Some((t, r)) => Some(
                (match e {
                    Some(c) => seq![c] + t,
                    None => t,
                }, r),
            ),
        }
    } else {
        match quoted(s, p + 1) {
            None => None,
            Some((t, r)) => Some((seq![s[p]] + t, r)),
        }
    }
}

/// A quoted string ends after its start, and not past the input.
pub proof fn lemma_quoted(s: Seq<char>, p: int)
    ensures
        quoted(s, p) matches Some((_, r)) ==> p < r <= s.len(),
    decreases s.len() - p,
{
    if 0 <= p < s.len() && s[p] != '"' {
        if s[p] == '\\' {
            lemma_escape(s, p + 1);
            lemma_quoted(s, escape(s, p + 1).1);
        } else {
            lemma_quoted(s, p + 1);
        }
    }
}

/// Whether `c` separates hex digits in `<...>` data.
pub open spec fn hex_gap(c: char) -> bool {
    c == ' ' || c == '\t' || c == '\n' || c == '\r' || c == '\u{2028}' || c == '\u{2029}'
}

/// The rest of `<hex>` data from `p`, with the bytes so far and whether a
/// byte awaits its second digit: the bytes and the position after `>`.
pub open spec fn hex(s: Seq<char>, p: int, acc: Seq<u8>, odd: bool) -> Option<(Seq<u8>, int)>
    decreases s.len() - p,
{
    if p < 0 || p >= s.len() {
        None
    } else if s[p] == '>' {
        if odd {
            None
        } else {
            Some((acc, p + 1))
        }
    } else if hex_gap(s[p]) {
        hex(s, p + 1, acc, odd)
    } else {
        match digit_of(s[p], 16) {
            None => None,
            Some(d) => if odd {
                hex(s, p + 1, acc.update(acc.len() - 1, ((acc.last() as int) * 16 + d) as u8), false)
            } else {
                hex(s, p + 1, acc.push(d as u8), true)
            },
        }
    }
}

/// The outcome of a `<*R...>` payload, given what the decimal conversion
/// answered for it: special values and malformed literals are decided by
/// the text alone.
pub open spec fn real_bits(text: Seq<char>, answer: Option<u64>) -> Option<u64> {
    match special_value(text) {
        Some(b) => Some(b),
        None => if !float_literal_ok(text) {
            None
        } else {
            answer
        },
    }
}

/// The value of a typed GNUStep payload of type `t`.
pub open spec fn typed_node(t: char, text: Seq<char>, answer: Option<u64>) -> Option<Node> {
    if t == 'I' {
        if text.len() == 0 {
            None
        } else if text[0] == '-' {
            match i64_literal(text, 10) {
                Ok(v) => Some(Node::Integer(Integer::Signed(v as i64))),
                Err(_) => None,
            }
        } else {
            match u64_literal(text, 10) {
                Ok(v) => Some(Node::Integer(Integer::Unsigned(v as u64))),
                Err(_) => None,
            }
        }
    } else if t == 'R' {
        match real_bits(text, answer) {
            Some(b) => Some(Node::Real(Real::wide_real(b))),
            None => None,
        }
    } else if t == 'B' {
        if text.len() == 0 {
            None
        } else {
            Some(Node::Boolean(text[0] == 'Y'))
        }
    } else {
        match text_layout_fields(vstd::utf8::encode_utf8(text)) {
            Some(f) => match civil_instant(f) {
                Some(d) => Some(Node::Date(d)),
                None => None,
            },
            None => None,
        }
    }
}

/// A typed GNUStep value whose type letter is at `p` (after `<*`): the
/// value and the position after `>`. The payload may be wrapped in quotes;
/// `reals` answers the decimal conversion of a `<*R` payload, by the
/// position of its type letter.
pub open spec fn gs_typed(s: Seq<char>, p: int, reals: Map<int, Option<u64>>) -> Option<(Node, int)> {
    if p < 0 || p >= s.len() {
        None
    } else {
        let t = s[p];
        let q = if p + 1 < s.len() && s[p + 1] == '"' {
            p + 2
        } else {
            p + 1
        };
        let e = find_char(s, q, '>');
        if !(t == 'I' || t == 'R' || t == 'B' || t == 'D') || e >= s.len() || e == q {
            None
        } else {
            let raw = s.subrange(q, e);
            let text = if raw.last() == '"' {
                raw.drop_last()
            } else {
                raw
            };
            match typed_node(t, text, reals[p]) {
                Some(n) => Some((n, e + 1)),
                None => None,
            }
        }
    }
}

/// The ASCII bytes of the base64 alphabet characters of `t`, in order.
pub open spec fn b64_filter(t: Seq<char>) -> Seq<u8>
    decreases t.len(),
{
    if t.len() == 0 {
        Seq::empty()
    } else if base64_valid_set().has_char(t.last()) {
        b64_filter(t.drop_last()).push((t.last() as u32) as u8)
    } else {
        b64_filter(t.drop_last())
    }
}

/// `<[base64]>` data whose payload starts at `p`: the bytes and the
/// position after `]>`.
pub open spec fn b64(s: Seq<char>, p: int) -> Option<(Seq<u8>, int)> {
    let e = find_char(s, p, ']');
    if e + 1 >= s.len() || s[e + 1] != '>' {
        None
    } else {
        match base64_decoded(b64_filter(s.subrange(p, e))) {
            Some(b) => Some((b, e + 2)),
            None => None,
        }
    }
}

/// The single `CF$UID` entry's number, when a closing dictionary collapses
/// to a UID: an integer value always, a decimal string only under `lax`.
pub open spec fn node_uid(entries: Seq<(Seq<char>, Node)>, lax: bool) -> Option<u64> {
    if entries.len() == 1 && entries[0].0 == "CF$UID"@ {
        match entries[0].1 {
            Node::Integer(i) => Some(i.raw_parts().1),
            Node::String(t) => if lax {
                match u64_literal(t, 10) {
                    Ok(v) => Some(v as u64),
                    Err(_) => None,
                }
            } else {
                None
            },
            _ => None,
        }
    } else {
        None
    }
}

/// What a closing dictionary becomes: the string collapse applies only
/// while the document is still OpenStep.
pub open spec fn close_dictionary(entries: Seq<(Seq<char>, Node)>, gnustep: bool) -> Node {
    match node_uid(entries, !gnustep) {
        Some(u) => Node::Uid(u),
        None => Node::Dictionary(collect_node_entries(entries)),
    }
}

/// One value from `p`, `d` levels deep, in dialect state `g`. Every value
/// node takes a level; more than the limit is refused before anything is
/// read.
pub open spec fn value(s: Seq<char>, p: int, d: int, g: bool, reals: Map<int, Option<u64>>) -> TextRead
    decreases s.len() - p, 0int,
{
    if d >= 128 {
        Err(TextFault::Depth)
    } else if p < 0 || p > s.len() {
        Err(TextFault::Syntax)
    } else {
        proof {
            lemma_skip(s, p);
        }
        match skip(s, p) {
            None => Err(TextFault::Syntax),
            Some(q) => if q >= s.len() {
                Ok((Node::Dictionary(Seq::empty()), q, g))
            } else {
                let c = s[q];
                if c == '<' {
                    if q + 1 < s.len() && s[q + 1] == '*' {
                        match gs_typed(s, q + 2, reals) {
                            Some((n, e)) => Ok((n, e, true)),
                            None => Err(TextFault::Syntax),
                        }
                    } else if q + 1 < s.len() && s[q + 1] == '[' {
                        match b64(s, q + 2) {
                            Some((b, e)) => Ok((Node::Data(b), e, true)),
                            None => Err(TextFault::Syntax),
                        }
                    } else {
                        match hex(s, q + 1, Seq::empty(), false) {
                            Some((b, e)) => Ok((Node::Data(b), e, g)),
                            None => Err(TextFault::Syntax),
                        }
                    }
                } else if c == '"' {
                    match quoted(s, q + 1) {
                        Some((t, e)) => Ok((Node::String(t), e, g)),
                        None => Err(TextFault::Syntax),
                    }
                } else if c == '{' {
                    dict(s, q + 1, d + 1, g, Seq::empty(), false, reals)
                } else if c == '(' {
                    array(s, q + 1, d + 1, g, Seq::empty(), reals)
                } else {
                    let e = span_out(s, q, gs_quotable_set());
                    if e == q {
                        Err(TextFault::Syntax)
                    } else {
                        Ok((Node::String(s.subrange(q, e)), e, g))
                    }
                }
            },
        }
    }
}

/// The key at `q` in a dictionary: a quoted or unquoted string and the
/// position after it.
pub open spec fn dict_key(s: Seq<char>, q: int) -> Option<(Seq<char>, int)> {
    if 0 <= q < s.len() && s[q] == '"' {
        quoted(s, q + 1)
    } else {
        let e = span_out(s, q, gs_quotable_set());
        if e == q {
            None
        } else {
            Some((s.subrange(q, e), e))
        }
    }
}

/// The rest of a dictionary from `p`, with the entries read so far, `d`
/// levels deep for its values; `eof_ok` lets the end of input close it
/// (the `.strings` form). `key;` stands for `key = key;`.
pub open spec fn dict(
    s: Seq<char>,
    p: int,
    d: int,
    g: bool,
    entries: Seq<(Seq<char>, Node)>,
    eof_ok: bool,
    reals: Map<int, Option<u64>>,
) -> TextRead
    decreases s.len() - p, 1int,
{
    if p < 0 || p > s.len() {
        Err(TextFault::Syntax)
    } else {
        proof {
            lemma_skip(s, p);
        }
        match skip(s, p) {
            None => Err(TextFault::Syntax),
            Some(q) => if q >= s.len() {
                if eof_ok {
                    Ok((close_dictionary(entries, g), q, g))
                } else {
                    Err(TextFault::Syntax)
                }
            } else if s[q] == '}' {
                Ok((close_dictionary(entries, g), q + 1, g))
            } else {
                proof {
                    lemma_quoted(s, q + 1);
                    lemma_spans(s, q, gs_quotable_set(), ' ');
                }
                match dict_key(s, q) {
                    None => Err(TextFault::Syntax),
                    Some((k, r)) => {
                        proof {
                            lemma_skip(s, r);
                        }
                        match skip(s, r) {
                            None => Err(TextFault::Syntax),
                            Some(r2) => if r2 < s.len() && s[r2] == ';' {
                                dict(s, r2 + 1, d, g, entries.push((k, Node::String(k))), eof_ok, reals)
                            } else if r2 < s.len() && s[r2] == '=' {
                                match value(s, r2 + 1, d, g, reals) {
                                    Err(f) => Err(f),
                                    Ok((v, r3, g2)) => if r3 <= p || r3 > s.len() {
                                        Err(TextFault::Syntax)
                                    } else {
                                        proof {
                                            lemma_skip(s, r3);
                                        }
                                        match skip(s, r3) {
                                            None => Err(TextFault::Syntax),
                                            Some(r4) => if r4 < s.len() && s[r4] == ';' {
                                                dict(s, r4 + 1, d, g2, entries.push((k, v)), eof_ok, reals)
                                            } else {
                                                Err(TextFault::Syntax)
                                            },
                                        }
                                    },
                                }
                            } else {
                                Err(TextFault::Syntax)
                            },
                        }
                    },
                }
            },
        }
    }
}

/// The rest of an array from `p`, with the elements read so far. Stray
/// commas are skipped and empty strings are dropped.
pub open spec fn array(s: Seq<char>, p: int, d: int, g: bool, elems: Seq<Node>, reals: Map<int, Option<u64>>) -> TextRead
    decreases s.len() - p, 1int,
{
    if p < 0 || p > s.len() {
        Err(TextFault::Syntax)
    } else {
        proof {
            lemma_skip(s, p);
        }
        match skip(s, p) {
            None => Err(TextFault::Syntax),
            Some(q) => if q >= s.len() {
                Err(TextFault::Syntax)
            } else if s[q] == ')' {
                Ok((Node::Array(elems), q + 1, g))
            } else if s[q] == ',' {
                array(s, q + 1, d, g, elems, reals)
            } else {
                match value(s, q, d, g, reals) {
                    Err(f) => Err(f),
                    Ok((v, r, g2)) => if r <= p || r > s.len() {
                        Err(TextFault::Syntax)
                    } else {
                        array(
                            s,
                            r,
                            d,
                            g2,
                            if v == Node::String(Seq::empty()) {
                                elems
                            } else {
                                elems.push(v)
                            },
                            reals,
                        )
                    },
                }
            },
        }
    }
}

/// A whole document: one value, then only whitespace and comments. A string
/// root followed by more input re-reads the input from the start as the
/// body of a `.strings` dictionary, in the dialect state reached so far.
/// The result is the model and whether the document is GNUStep.
pub open spec fn document(s: Seq<char>, reals: Map<int, Option<u64>>) -> Result<(Node, bool), TextFault> {
    match value(s, 0, 0, false, reals) {
        Err(f) => Err(f),
        Ok((v, r, g)) => match skip(s, r) {
            None => Err(TextFault::Syntax),
            Some(q) => if q >= s.len() {
                Ok((v, g))
            } else if v is String {
                match dict(s, 0, 0, g, Seq::empty(), true, reals) {
                    Ok((v2, _, g2)) => Ok((v2, g2)),
                    Err(f) => Err(f),
                }
            } else {
                Err(TextFault::Syntax)
            },
        },
    }
}

/// The largest `r <= k` such that the first `r` bytes are valid UTF-8.
pub open spec fn longest_valid(b: Seq<u8>, k: int) -> int
    decreases k,
{
    if k <= 0 {
        0
    } else if vstd::utf8::valid_utf8(b.subrange(0, k)) {
        k
    } else {
        longest_valid(b, k - 1)
    }
}

/// The longest valid prefix is within bounds.
pub proof fn lemma_longest_valid(b: Seq<u8>, k: int)
    ensures
        0 <= longest_valid(b, k),
        0 <= k ==> longest_valid(b, k) <= k,
    decreases k,
{
    if k > 0 {
        lemma_longest_valid(b, k - 1);
    }
}

/// 8-bit input: UTF-8 where the bytes are valid UTF-8, and each byte that
/// breaks the encoding taken as its Latin-1 character.
pub open spec fn latin_text(b: Seq<u8>) -> Seq<char>
    decreases b.len(),
{
    let v = longest_valid(b, b.len() as int);
    proof {
        lemma_longest_valid(b, b.len() as int);
    }
    if v >= b.len() {
        vstd::utf8::decode_utf8(b)
    } else {
        vstd::utf8::decode_utf8(b.subrange(0, v)) + seq![(b[v] as u32) as char] + latin_text(
            b.subrange(v + 1, b.len() as int),
        )
    }
}

/// The UTF-16 code units of byte pairs, big- or little-endian.
pub open spec fn utf16_units(b: Seq<u8>, big_endian: bool) -> Seq<u16>
    decreases b.len(),
{
    if b.len() < 2 {
        Seq::empty()
    } else {
        let n = b.len() as int;
        let (hi, lo) = if big_endian {
            (b[n - 2], b[n - 1])
        } else {
            (b[n - 1], b[n - 2])
        };
        utf16_units(b.subrange(0, n - 2), big_endian).push((hi as int * 256 + lo as int) as u16)
    }
}

/// Characters of UTF-16 code units: a high surrogate followed by a low one
/// forms one character, and any other surrogate becomes U+FFFD.
pub open spec fn utf16_chars(u: Seq<u16>) -> Seq<char>
    decreases u.len(),
{
    if u.len() == 0 {
        Seq::empty()
    } else if 0xD800 <= u[0] <= 0xDBFF && u.len() >= 2 && 0xDC00 <= u[1] <= 0xDFFF {
        seq![escape_char(0x10000 + (u[0] - 0xD800) * 1024 + (u[1] - 0xDC00))] + utf16_chars(
            u.subrange(2, u.len() as int),
        )
    } else {
        seq![escape_char(u[0] as int)] + utf16_chars(u.subrange(1, u.len() as int))
    }
}

/// UTF-16 text, refused when a byte is left over.
pub open spec fn utf16_text(b: Seq<u8>, big_endian: bool) -> Option<Seq<char>> {
    if b.len() % 2 == 1 {
        None
    } else {
        Some(utf16_chars(utf16_units(b, big_endian)))
    }
}

/// The characters of a text document, by this precedence: a UTF-8 byte
/// order mark, the UTF-16 marks, a `00 XX` or `XX 00` start (UTF-16
/// without a mark), then 8-bit text.
pub open spec fn decoded_text(b: Seq<u8>) -> Option<Seq<char>> {
    let n = b.len() as int;
    if n >= 3 && b[0] == 0xEF && b[1] == 0xBB && b[2] == 0xBF {
        Some(latin_text(b.subrange(3, n)))
    } else if n >= 2 && b[0] == 0xFE && b[1] == 0xFF {
        utf16_text(b.subrange(2, n), true)
    } else if n >= 2 && b[0] == 0 && b[1] != 0 {
        utf16_text(b, true)
    } else if n >= 2 && b[0] == 0xFF && b[1] == 0xFE {
        utf16_text(b.subrange(2, n), false)
    } else if n >= 2 && b[0] != 0 && b[1] == 0 {
        utf16_text(b, false)
    } else {
        Some(latin_text(b))
    }
}

/// What parsing the bytes `data` gives: the decoded document's model and
/// whether it is GNUStep, or how it is refused.
pub open spec fn text_outcome(data: Seq<u8>, reals: Map<int, Option<u64>>) -> Result<(Node, bool), TextFault> {
    match decoded_text(data) {
        None => Err(TextFault::Syntax),
        Some(s) => if s.len() + 4 >= usize::MAX {
            Err(TextFault::Syntax)
        } else {
            document(s, reals)
        },
    }
}

} // verus!
