//! The OpenStep/GNUStep text generator.

use vstd::prelude::*;

use crate::date::Date;
use crate::integer::Integer;
use crate::reals::Real;
use crate::scalar::FloatCodec;
use crate::strings::{push_all, signed_decimal, decimal_digits};
use crate::tables::{gs_quotable, gs_quotable_set, os_quotable, os_quotable_set, CharSet};
use crate::value::{entries_model, values_model, lemma_entries_model, lemma_values_model, Dictionary, Node, Value};

verus! {

/// The lowercase hex digits of `n`, most significant first.
pub open spec fn hex_digits(n: nat) -> Seq<char>
    decreases n,
{
    if n < 16 {
        seq![hex_char(n)]
    } else {
        hex_digits(n / 16).push(hex_char(n % 16))
    }
}

/// The lowercase hex digit for `d < 16`.
pub open spec fn hex_char(d: nat) -> char {
    if d < 10 {
        ((d + 48) as u32) as char
    } else {
        ((d + 87) as u32) as char
    }
}

/// The escaped form of one character inside a text string: `\a \b \v \f
/// \\ \"` symbolically, U+0080–U+00FF as three octal digits, anything higher
/// as `\U` and at least four lowercase hex digits, everything else as is.
pub open spec fn escape_text_char(c: char) -> Seq<char> {
    let code = c as u32;
    if code > 0xFF {
        let h = hex_digits(code as nat);
        let pad: Seq<char> = if h.len() < 4 {
            Seq::new((4 - h.len()) as nat, |i: int| '0')
        } else {
            Seq::empty()
        };
        seq!['\\', 'U'] + pad + h
    } else if code > 0x7F {
        seq!['\\', (((code / 64) % 8 + 48) as u32) as char, (((code / 8) % 8 + 48) as u32) as char, ((code % 8 + 48) as u32) as char]
    } else if code == 7 {
        seq!['\\', 'a']
    } else if code == 8 {
        seq!['\\', 'b']
    } else if code == 11 {
        seq!['\\', 'v']
    } else if code == 12 {
        seq!['\\', 'f']
    } else if c == '\\' {
        seq!['\\', '\\']
    } else if c == '"' {
        seq!['\\', '"']
    } else {
        seq![c]
    }
}

/// The escaped body of a string.
pub open spec fn escape_body(s: Seq<char>) -> Seq<char>
    decreases s.len(),
{
    if s.len() == 0 {
        Seq::empty()
    } else {
        escape_body(s.drop_last()) + escape_text_char(s.last())
    }
}

/// Whether a string must be quoted: some character is in the dialect's
/// quoting set or above U+007F.
pub open spec fn needs_quotes(table: CharSet, s: Seq<char>) -> bool {
    exists|i: int| 0 <= i < s.len() && ((s[i] as u32) > 0x7F || table.has_char(#[trigger] s[i]))
}

/// A string as written: `""` when empty, quoted when needed, else the bare
/// escaped body.
pub open spec fn quoted_text(table: CharSet, s: Seq<char>) -> Seq<char> {
    if s.len() == 0 {
        seq!['"', '"']
    } else if needs_quotes(table, s) {
        seq!['"'] + escape_body(s) + seq!['"']
    } else {
        escape_body(s)
    }
}

/// The escaped form of one character.
fn escape_char_into(out: &mut Vec<char>, c: char)
    ensures
        final(out)@ == old(out)@ + escape_text_char(c),
{
    let ghost start = out@;
    let code = c as u32;
    if code > 0xFF {
        out.push('\\');
        out.push('U');
        let h = hex_chars(code as u64);
        let mut k = h.len();
        while k < 4
            invariant
                h.len() <= k <= 4 || (h.len() > 4 && k == h.len()),
                out@ == start + seq!['\\', 'U'] + Seq::new((k - h.len()) as nat, |i: int| '0'),
            decreases 4 - k,
        {
            out.push('0');
            proof {
                assert(Seq::new((k + 1 - h.len()) as nat, |i: int| '0') =~= Seq::new((k - h.len()) as nat, |i: int| '0').push('0'));
            }
            k = k + 1;
        }
        push_all(out, &h);
        proof {
            if h@.len() >= 4 {
                assert(Seq::new((k - h.len()) as nat, |i: int| '0') =~= Seq::<char>::empty());
            }
            assert(out@ =~= start + escape_text_char(c));
        }
    } else if code > 0x7F {
        out.push('\\');
        out.push(crate::strings::char_from_ascii_range((code / 64) % 8 + 48));
        out.push(crate::strings::char_from_ascii_range((code / 8) % 8 + 48));
        out.push(crate::strings::char_from_ascii_range(code % 8 + 48));
        proof {
            assert(out@ =~= start + escape_text_char(c));
        }
    } else {
        if code == 7 {
            out.push('\\');
            out.push('a');
        } else if code == 8 {
            out.push('\\');
            out.push('b');
        } else if code == 11 {
            out.push('\\');
            out.push('v');
        } else if code == 12 {
            out.push('\\');
            out.push('f');
        } else if c == '\\' {
            out.push('\\');
            out.push('\\');
        } else if c == '"' {
            out.push('\\');
            out.push('"');
        } else {
            out.push(c);
        }
        proof {
            assert(out@ =~= start + escape_text_char(c));
        }
    }
}

/// The lowercase hex digits of `n`.
fn hex_chars(n: u64) -> (r: Vec<char>)
    ensures
        r@ == hex_digits(n as nat),
    decreases n,
{
    let d = (n % 16) as u32;
    let c = if d < 10 {
        crate::strings::char_from_ascii_range(d + 48)
    } else {
        crate::strings::char_from_ascii_range(d + 87)
    };
    if n < 16 {
        let mut v: Vec<char> = Vec::new();
        v.push(c);
        v
    } else {
        let mut v = hex_chars(n / 16);
        v.push(c);
        v
    }
}

/// Quotes a string for text output under the given quoting set.
pub fn quote_string(table: CharSet, s: &str) -> (r: Vec<char>)
    ensures
        r@ == quoted_text(table, s@),
{
    let chars = crate::strings::str_chars(s);
    if chars.len() == 0 {
        let mut v: Vec<char> = Vec::new();
        v.push('"');
        v.push('"');
        proof {
            assert(v@ =~= quoted_text(table, s@));
        }
        return v;
    }
    let mut body: Vec<char> = Vec::new();
    let mut quote = false;
    let mut i: usize = 0;
    while i < chars.len()
        invariant
            chars@ == s@,
            i <= chars@.len(),
            body@ == escape_body(chars@.subrange(0, i as int)),
            quote == exists|j: int| 0 <= j < i && ((chars@[j] as u32) > 0x7F || table.has_char(#[trigger] chars@[j])),
        decreases chars@.len() - i,
    {
        let c = chars[i];
        proof {
            assert(chars@.subrange(0, i + 1).drop_last() =~= chars@.subrange(0, i as int));
        }
        if (c as u32) > 0x7F || table.contains_char(c) {
            quote = true;
        }
        escape_char_into(&mut body, c);
        proof {
            assert(quote == exists|j: int| 0 <= j < i + 1 && ((chars@[j] as u32) > 0x7F || table.has_char(#[trigger] chars@[j]))) by {
                if (c as u32) > 0x7F || table.has_char(c) {
                    assert(chars@[i as int] == c);
                }
            }
        }
        i = i + 1;
    }
    proof {
        assert(chars@.subrange(0, chars@.len() as int) =~= chars@);
    }
    if quote {
        let mut v: Vec<char> = Vec::new();
        v.push('"');
        push_all(&mut v, &body);
        v.push('"');
        proof {
            assert(v@ =~= quoted_text(table, s@));
        }
        v
    } else {
        body
    }
}

/// The text of a real, looked up by its binary64 pattern in a table of
/// formatted reals (the first entry for the pattern; empty if none).
pub open spec fn real_text(reals: Seq<(u64, Vec<char>)>, bits: u64) -> Seq<char>
    decreases reals.len(),
{
    if reals.len() == 0 {
        Seq::empty()
    } else if reals[0].0 == bits {
        reals[0].1@
    } else {
        real_text(reals.subrange(1, reals.len() as int), bits)
    }
}

/// `s` repeated `n` times.
pub open spec fn repeat(s: Seq<char>, n: nat) -> Seq<char>
    decreases n,
{
    if n == 0 {
        Seq::empty()
    } else {
        repeat(s, (n - 1) as nat) + s
    }
}

/// The line break before an entry: nothing without an indent, else a
/// newline and the indent repeated per depth.
pub open spec fn indent_text(indent: Seq<char>, depth: nat) -> Seq<char> {
    if indent.len() == 0 {
        Seq::empty()
    } else {
        seq!['\n'] + repeat(indent, depth)
    }
}

/// The key delimiter: `=`, or ` = ` when pretty-printing.
pub open spec fn delimiter(indent: Seq<char>) -> Seq<char> {
    if indent.len() == 0 {
        seq!['=']
    } else {
        seq![' ', '=', ' ']
    }
}

/// One more level of nesting (saturating).
pub open spec fn deeper(d: nat) -> nat {
    if d >= usize::MAX {
        usize::MAX as nat
    } else {
        d + 1
    }
}

/// The dialect's quoting set.
pub open spec fn quoting_set(gnustep: bool) -> CharSet {
    if gnustep {
        gs_quotable_set()
    } else {
        os_quotable_set()
    }
}

/// A typed GNUStep scalar `<*` + `kind` + body + `>`, or the bare body
/// under OpenStep.
pub open spec fn typed(gnustep: bool, kind: char, body: Seq<char>) -> Seq<char> {
    if gnustep {
        seq!['<', '*', kind] + body + seq!['>']
    } else {
        body
    }
}

/// Two lowercase hex digits of a byte.
pub open spec fn hex_byte(b: u8) -> Seq<char> {
    seq![hex_char((b / 16) as nat), hex_char((b % 16) as nat)]
}

/// Lowercase hex bytes with a space after every fourth byte but the last.
pub open spec fn hex_groups(d: Seq<u8>) -> Seq<char>
    decreases d.len(),
{
    if d.len() == 0 {
        Seq::empty()
    } else {
        let k = d.len() - 1;
        hex_groups(d.drop_last()) + (if k > 0 && k % 4 == 0 {
            seq![' ']
        } else {
            Seq::empty()
        }) + hex_byte(d.last())
    }
}

/// The text of a value tree in one dialect at nesting `depth`.
pub open spec fn text_node(n: Node, gnustep: bool, indent: Seq<char>, depth: nat, reals: Seq<(u64, Vec<char>)>) -> Seq<char>
    decreases n,
{
    let table = quoting_set(gnustep);
    match n {
        Node::Dictionary(es) => seq!['{'] + dict_text(es, gnustep, indent, deeper(depth), reals) + indent_text(indent, depth)
            + seq!['}'],
        Node::Array(vs) => seq!['('] + array_text(vs, gnustep, indent, deeper(depth), reals) + indent_text(indent, depth)
            + seq![')'],
        Node::String(s) => quoted_text(table, s),
        Node::Integer(i) => typed(gnustep, 'I', signed_decimal(i.value())),
        Node::Real(r) => typed(gnustep, 'R', real_text(reals, r.value_bits())),
        Node::Boolean(b) => bool_text(gnustep, b),
        Node::Uid(u) => uid_text(gnustep, indent, depth, u),
        Node::Data(d) => seq!['<'] + hex_groups(d) + seq!['>'],
        Node::Date(d) => date_text(gnustep, d),
    }
}

/// The OpenStep spelling of a boolean reads back as that boolean through
/// the boolean literal reader: true is written `1`, false `0`.
pub proof fn openstep_boolean_reads_back(b: bool)
    ensures
        crate::scalar::bool_token(bool_text(false, b)) == Some(b),
{
    reveal_strlit("1");
    reveal_strlit("t");
    reveal_strlit("T");
    reveal_strlit("TRUE");
    reveal_strlit("true");
    reveal_strlit("True");
    reveal_strlit("0");
    if !b {
        assert(("1"@)[0] != seq!['0'][0]);
        assert(("t"@)[0] != seq!['0'][0]);
        assert(("T"@)[0] != seq!['0'][0]);
        assert(seq!['0'] != "TRUE"@);
        assert(seq!['0'] != "true"@);
        assert(seq!['0'] != "True"@);
    }
    assert(bool_text(false, b) =~= (if b { "1"@ } else { "0"@ }));
}

/// A boolean: `<*BY>`/`<*BN>` under GNUStep, `1`/`0` under OpenStep.
pub open spec fn bool_text(gnustep: bool, b: bool) -> Seq<char> {
    if gnustep {
        if b {
            seq!['<', '*', 'B', 'Y', '>']
        } else {
            seq!['<', '*', 'B', 'N', '>']
        }
    } else if b {
        seq!['1']
    } else {
        seq!['0']
    }
}

/// A UID: the one-entry dictionary `{"CF$UID" = n;}`.
pub open spec fn uid_text(gnustep: bool, indent: Seq<char>, depth: nat, u: u64) -> Seq<char> {
    uid_head(gnustep, indent, depth) + uid_tail(gnustep, indent, depth, u)
}

/// The UID dictionary up to its value.
pub open spec fn uid_head(gnustep: bool, indent: Seq<char>, depth: nat) -> Seq<char> {
    seq!['{'] + indent_text(indent, deeper(depth)) + quoted_text(quoting_set(gnustep), "CF$UID"@) + delimiter(indent)
}

/// The UID dictionary from its value on.
pub open spec fn uid_tail(gnustep: bool, indent: Seq<char>, depth: nat, u: u64) -> Seq<char> {
    typed(gnustep, 'I', decimal_digits(u as nat)) + seq![';'] + indent_text(indent, depth) + seq!['}']
}

/// A date in the text layout: typed under GNUStep, a quoted string under
/// OpenStep.
pub open spec fn date_text(gnustep: bool, d: Date) -> Seq<char> {
    let f = crate::date::text_layout_text(crate::date::civil_fields_of(d.unix_nanos()));
    if gnustep {
        seq!['<', '*', 'D'] + f + seq!['>']
    } else {
        quoted_text(quoting_set(gnustep), f)
    }
}

/// The entries of a dictionary, each on its own line when indenting.
pub open spec fn dict_text(es: Seq<(Seq<char>, Node)>, gnustep: bool, indent: Seq<char>, depth: nat, reals: Seq<(u64, Vec<char>)>) -> Seq<char>
    decreases es,
{
    if es.len() == 0 {
        Seq::empty()
    } else {
        dict_text(es.drop_last(), gnustep, indent, depth, reals) + indent_text(indent, depth) + quoted_text(
            quoting_set(gnustep),
            es.last().0,
        ) + delimiter(indent) + text_node(es.last().1, gnustep, indent, depth, reals) + seq![';']
    }
}

/// The elements of an array, each followed by a comma.
pub open spec fn array_text(vs: Seq<Node>, gnustep: bool, indent: Seq<char>, depth: nat, reals: Seq<(u64, Vec<char>)>) -> Seq<char>
    decreases vs,
{
    if vs.len() == 0 {
        Seq::empty()
    } else {
        array_text(vs.drop_last(), gnustep, indent, depth, reals) + indent_text(indent, depth) + text_node(
            vs.last(),
            gnustep,
            indent,
            depth,
            reals,
        ) + seq![',']
    }
}

fn push_indent(out: &mut Vec<char>, indent: &Vec<char>, depth: usize)
    ensures
        final(out)@ == old(out)@ + indent_text(indent@, depth as nat),
{
    if indent.len() == 0 {
        proof {
            assert(out@ =~= old(out)@ + indent_text(indent@, depth as nat));
        }
        return;
    }
    let ghost start = out@;
    out.push('\n');
    let mut k: usize = 0;
    while k < depth
        invariant
            k <= depth,
            out@ == start + seq!['\n'] + repeat(indent@, k as nat),
        decreases depth - k,
    {
        push_all(out, indent);
        proof {
            assert(repeat(indent@, (k + 1) as nat) == repeat(indent@, k as nat) + indent@);
        }
        k = k + 1;
    }
    proof {
        assert(out@ =~= start + indent_text(indent@, depth as nat));
    }
}

fn hex_char_exec(d: u8) -> (c: char)
    requires
        d < 16,
    ensures
        c == hex_char(d as nat),
{
    if d < 10 {
        crate::strings::char_from_ascii_range(d as u32 + 48)
    } else {
        crate::strings::char_from_ascii_range(d as u32 + 87)
    }
}

fn push_hex_groups(out: &mut Vec<char>, d: &Vec<u8>)
    ensures
        final(out)@ == old(out)@ + hex_groups(d@),
{
    let ghost start = out@;
    let mut i: usize = 0;
    while i < d.len()
        invariant
            i <= d@.len(),
            out@ == start + hex_groups(d@.subrange(0, i as int)),
        decreases d@.len() - i,
    {
        proof {
            assert(d@.subrange(0, i + 1).drop_last() =~= d@.subrange(0, i as int));
        }
        if i > 0 && i % 4 == 0 {
            out.push(' ');
        }
        out.push(hex_char_exec(d[i] / 16));
        out.push(hex_char_exec(d[i] % 16));
        proof {
            assert(out@ =~= start + hex_groups(d@.subrange(0, i + 1)));
        }
        i = i + 1;
    }
    proof {
        assert(d@.subrange(0, d@.len() as int) =~= d@);
    }
}

fn lookup_real(reals: &Vec<(u64, Vec<char>)>, bits: u64) -> (r: Vec<char>)
    ensures
        r@ == real_text(reals@, bits),
{
    let mut i: usize = 0;
    proof {
        assert(reals@.subrange(0, reals@.len() as int) =~= reals@);
    }
    while i < reals.len()
        invariant
            i <= reals@.len(),
            real_text(reals@, bits) == real_text(reals@.subrange(i as int, reals@.len() as int), bits),
        decreases reals@.len() - i,
    {
        let ghost rest = reals@.subrange(i as int, reals@.len() as int);
        proof {
            assert(rest[0] == reals@[i as int]);
            assert(rest.subrange(1, rest.len() as int) =~= reals@.subrange(i + 1, reals@.len() as int));
        }
        if reals[i].0 == bits {
            let mut out: Vec<char> = Vec::new();
            push_all(&mut out, &reals[i].1);
            return out;
        }
        i = i + 1;
    }
    Vec::new()
}

fn push_typed(out: &mut Vec<char>, gnustep: bool, kind: char, body: &Vec<char>)
    ensures
        final(out)@ == old(out)@ + typed(gnustep, kind, body@),
{
    let ghost start = out@;
    if gnustep {
        out.push('<');
        out.push('*');
        out.push(kind);
    }
    push_all(out, body);
    if gnustep {
        out.push('>');
    }
    proof {
        assert(out@ =~= start + typed(gnustep, kind, body@));
    }
}

fn push_str(out: &mut Vec<char>, s: &str)
    ensures
        final(out)@ == old(out)@ + s@,
{
    push_all(out, &crate::strings::str_chars(s));
}

/// Appends the text of `value` at nesting `depth`.
fn write_value(
    out: &mut Vec<char>,
    value: &Value,
    gnustep: bool,
    table: CharSet,
    indent: &Vec<char>,
    depth: usize,
    reals: &Vec<(u64, Vec<char>)>,
)
    requires
        table == quoting_set(gnustep),
    ensures
        final(out)@ == old(out)@ + text_node(value.deep(), gnustep, indent@, depth as nat, reals@),
    decreases value, 2int,
{
    match value {
        Value::Dictionary(d) => {
            write_dictionary(out, value, d, gnustep, table, indent, depth, reals);
        },
        Value::Array(items) => {
            write_array(out, value, items, gnustep, table, indent, depth, reals);
        },
        Value::String(s) => {
            let q = quote_string(table, s.as_str());
            push_all(out, &q);
        },
        Value::Integer(i) => {
            push_typed(out, gnustep, 'I', &i.decimal_chars());
        },
        Value::Real(x) => {
            push_typed(out, gnustep, 'R', &lookup_real(reals, x.to_f64_bits()));
        },
        Value::Boolean(b) => {
            write_boolean(out, *b, gnustep);
        },
        Value::Uid(u) => {
            write_uid(out, u.get(), gnustep, table, indent, depth);
        },
        Value::Data(d) => {
            write_data(out, d);
        },
        Value::Date(d) => {
            write_date(out, *d, gnustep, table);
        },
    }
}

fn write_boolean(out: &mut Vec<char>, b: bool, gnustep: bool)
    ensures
        final(out)@ == old(out)@ + bool_text(gnustep, b),
{
    let ghost start = out@;
    if gnustep {
        if b {
            push_str(out, "<*BY>");
        } else {
            push_str(out, "<*BN>");
        }
    } else if b {
        out.push('1');
    } else {
        out.push('0');
    }
    proof {
        reveal_strlit("<*BY>");
        reveal_strlit("<*BN>");
        assert(out@ =~= start + bool_text(gnustep, b));
    }
}

fn push_delimiter(out: &mut Vec<char>, indent: &Vec<char>)
    ensures
        final(out)@ == old(out)@ + delimiter(indent@),
{
    let ghost start = out@;
    if indent.len() == 0 {
        out.push('=');
    } else {
        out.push(' ');
        out.push('=');
        out.push(' ');
    }
    proof {
        assert(out@ =~= start + delimiter(indent@));
    }
}

fn write_uid_head(out: &mut Vec<char>, gnustep: bool, table: CharSet, indent: &Vec<char>, depth: usize)
    requires
        table == quoting_set(gnustep),
    ensures
        final(out)@ == old(out)@ + uid_head(gnustep, indent@, depth as nat),
{
    let ghost start = out@;
    let next: usize = if depth == usize::MAX { depth } else { depth + 1 };
    out.push('{');
    push_indent(out, indent, next);
    let q = quote_string(table, "CF$UID");
    push_all(out, &q);
    push_delimiter(out, indent);
    proof {
        assert(out@ =~= start + uid_head(gnustep, indent@, depth as nat));
    }
}

fn write_uid(out: &mut Vec<char>, u: u64, gnustep: bool, table: CharSet, indent: &Vec<char>, depth: usize)
    requires
        table == quoting_set(gnustep),
    ensures
        final(out)@ == old(out)@ + uid_text(gnustep, indent@, depth as nat, u),
{
    let ghost start = out@;
    write_uid_head(out, gnustep, table, indent, depth);
    let ghost mid = out@;
    push_typed(out, gnustep, 'I', &crate::strings::u64_decimal(u));
    out.push(';');
    push_indent(out, indent, depth);
    out.push('}');
    proof {
        assert(out@ =~= mid + uid_tail(gnustep, indent@, depth as nat, u));
        assert(out@ =~= start + uid_text(gnustep, indent@, depth as nat, u));
    }
}

fn write_data(out: &mut Vec<char>, d: &Vec<u8>)
    ensures
        final(out)@ == old(out)@ + seq!['<'] + hex_groups(d@) + seq!['>'],
{
    let ghost start = out@;
    out.push('<');
    push_hex_groups(out, d);
    out.push('>');
    proof {
        assert(out@ =~= start + seq!['<'] + hex_groups(d@) + seq!['>']);
    }
}

fn write_date(out: &mut Vec<char>, d: Date, gnustep: bool, table: CharSet)
    requires
        table == quoting_set(gnustep),
    ensures
        final(out)@ == old(out)@ + date_text(gnustep, d),
{
    let ghost start = out@;
    let f = d.format_text_layout();
    if gnustep {
        out.push('<');
        out.push('*');
        out.push('D');
        push_str(out, f.as_str());
        out.push('>');
    } else {
        let q = quote_string(table, f.as_str());
        push_all(out, &q);
    }
    proof {
        assert(out@ =~= start + date_text(gnustep, d));
    }
}

/// Appends one dictionary entry: line break, quoted key, delimiter, value
/// and `;`.
fn write_entry(
    out: &mut Vec<char>,
    value: &Value,
    key: &String,
    child: &Value,
    gnustep: bool,
    table: CharSet,
    indent: &Vec<char>,
    depth: usize,
    reals: &Vec<(u64, Vec<char>)>,
)
    requires
        table == quoting_set(gnustep),
        decreases_to!(*value => *child),
    ensures
        final(out)@ == old(out)@ + indent_text(indent@, depth as nat) + quoted_text(table, key@) + delimiter(indent@)
            + text_node(child.deep(), gnustep, indent@, depth as nat, reals@) + seq![';'],
    decreases value, 0int,
{
    let ghost start = out@;
    push_indent(out, indent, depth);
    let q = quote_string(table, key.as_str());
    push_all(out, &q);
    push_delimiter(out, indent);
    let ghost mid = out@;
    write_value(out, child, gnustep, table, indent, depth, reals);
    out.push(';');
    proof {
        assert(out@ =~= start + indent_text(indent@, depth as nat) + quoted_text(table, key@) + delimiter(indent@)
            + text_node(child.deep(), gnustep, indent@, depth as nat, reals@) + seq![';']);
    }
}

fn write_dictionary(
    out: &mut Vec<char>,
    value: &Value,
    d: &Dictionary,
    gnustep: bool,
    table: CharSet,
    indent: &Vec<char>,
    depth: usize,
    reals: &Vec<(u64, Vec<char>)>,
)
    requires
        table == quoting_set(gnustep),
        *value == Value::Dictionary(*d),
    ensures
        final(out)@ == old(out)@ + text_node(value.deep(), gnustep, indent@, depth as nat, reals@),
    decreases value, 1int,
{
    let ghost start = out@;
    let next: usize = if depth == usize::MAX { depth } else { depth + 1 };
    out.push('{');
    let n = d.len();
    let mut i: usize = 0;
    proof {
        assert(d.spec_entries().subrange(0, 0) =~= Seq::<(String, Value)>::empty());
    }
    while i < n
        invariant
            *value == Value::Dictionary(*d),
            n == d.spec_entries().len(),
            i <= n,
            table == quoting_set(gnustep),
            next as nat == deeper(depth as nat),
            out@ == start + seq!['{'] + dict_text(
                entries_model(d.spec_entries().subrange(0, i as int)),
                gnustep,
                indent@,
                next as nat,
                reals@,
            ),
        decreases n - i,
    {
        let (key, child) = d.entry_at(i);
        let ghost prefix = d.spec_entries().subrange(0, i as int);
        let ghost p = d.spec_entries().subrange(0, i + 1);
        proof {
            crate::value::lemma_child_decreases(*value, i as int);
            assert(p.drop_last() =~= prefix);
            assert(entries_model(p) == entries_model(prefix).push((key@, child.deep())));
            assert(entries_model(p).drop_last() =~= entries_model(prefix));
        }
        write_entry(out, value, key, child, gnustep, table, indent, next, reals);
        proof {
            assert(out@ =~= start + seq!['{'] + dict_text(entries_model(p), gnustep, indent@, next as nat, reals@));
        }
        i = i + 1;
    }
    push_indent(out, indent, depth);
    out.push('}');
    proof {
        assert(d.spec_entries().subrange(0, n as int) =~= d.spec_entries());
        assert(out@ =~= start + text_node(value.deep(), gnustep, indent@, depth as nat, reals@));
    }
}

fn write_array(
    out: &mut Vec<char>,
    value: &Value,
    items: &Vec<Value>,
    gnustep: bool,
    table: CharSet,
    indent: &Vec<char>,
    depth: usize,
    reals: &Vec<(u64, Vec<char>)>,
)
    requires
        table == quoting_set(gnustep),
        *value == Value::Array(*items),
    ensures
        final(out)@ == old(out)@ + text_node(value.deep(), gnustep, indent@, depth as nat, reals@),
    decreases value, 1int,
{
    let ghost start = out@;
    let next: usize = if depth == usize::MAX { depth } else { depth + 1 };
    out.push('(');
    let n = items.len();
    let mut i: usize = 0;
    proof {
        assert(items@.subrange(0, 0) =~= Seq::<Value>::empty());
    }
    while i < n
        invariant
            *value == Value::Array(*items),
            n == items@.len(),
            i <= n,
            table == quoting_set(gnustep),
            next as nat == deeper(depth as nat),
            out@ == start + seq!['('] + array_text(
                values_model(items@.subrange(0, i as int)),
                gnustep,
                indent@,
                next as nat,
                reals@,
            ),
        decreases n - i,
    {
        let ghost prefix = items@.subrange(0, i as int);
        let ghost p = items@.subrange(0, i + 1);
        proof {
            crate::value::lemma_child_decreases(*value, i as int);
            assert(p.drop_last() =~= prefix);
            assert(values_model(p) == values_model(prefix).push(items@[i as int].deep()));
            assert(values_model(p).drop_last() =~= values_model(prefix));
        }
        let ghost before = out@;
        push_indent(out, indent, next);
        write_value(out, &items[i], gnustep, table, indent, next, reals);
        out.push(',');
        proof {
            assert(out@ =~= start + seq!['('] + array_text(values_model(p), gnustep, indent@, next as nat, reals@));
        }
        i = i + 1;
    }
    push_indent(out, indent, depth);
    out.push(')');
    proof {
        assert(items@.subrange(0, n as int) =~= items@);
        assert(out@ =~= start + text_node(value.deep(), gnustep, indent@, depth as nat, reals@));
    }
}

/// Whether a format selects the GNUStep dialect.
pub open spec fn gnustep_of(f: crate::format::Format) -> bool {
    f == crate::format::Format::GnuStep
}

/// The binary64 patterns of the reals in a tree, in preorder.
pub open spec fn node_reals(n: Node) -> Seq<u64>
    decreases n, 1int,
{
    match n {
        Node::Dictionary(es) => entry_reals(es),
        Node::Array(vs) => seq_reals(vs),
        Node::Real(r) => seq![r.value_bits()],
        _ => Seq::empty(),
    }
}

/// The reals of a sequence of trees, in order.
pub open spec fn seq_reals(vs: Seq<Node>) -> Seq<u64>
    decreases vs, 0int,
{
    if vs.len() == 0 {
        Seq::empty()
    } else {
        seq_reals(vs.drop_last()) + node_reals(vs.last())
    }
}

/// The reals of dictionary entries' values, in order.
pub open spec fn entry_reals(es: Seq<(Seq<char>, Node)>) -> Seq<u64>
    decreases es, 0int,
{
    if es.len() == 0 {
        Seq::empty()
    } else {
        entry_reals(es.drop_last()) + node_reals(es.last().1)
    }
}

/// Appends the binary64 pattern of every real in `value`, in preorder.
pub fn collect_real_bits(value: &Value, acc: &mut Vec<u64>)
    ensures
        final(acc)@ == old(acc)@ + node_reals(value.deep()),
    decreases value,
{
    let ghost start = acc@;
    match value {
        Value::Dictionary(d) => {
            let n = d.len();
            let ghost es = entries_model(d.spec_entries());
            proof {
                lemma_entries_model(d.spec_entries());
                assert(es.take(0) =~= Seq::<(Seq<char>, Node)>::empty());
                assert(start + entry_reals(es.take(0)) =~= start);
            }
            let mut i: usize = 0;
            while i < n
                invariant
                    *value == Value::Dictionary(*d),
                    n == d.spec_entries().len(),
                    es == entries_model(d.spec_entries()),
                    es.len() == n,
                    forall|k: int| #![trigger es[k]] 0 <= k < n ==> es[k] == (d.spec_entries()[k].0@, d.spec_entries()[k].1.deep()),
                    i <= n,
                    acc@ == start + entry_reals(es.take(i as int)),
                decreases n - i,
            {
                let (_, child) = d.entry_at(i);
                proof {
                    crate::value::lemma_child_decreases(*value, i as int);
                }
                let ghost before = acc@;
                collect_real_bits(child, acc);
                proof {
                    let w = es.take(i + 1);
                    assert(w.drop_last() =~= es.take(i as int));
                    assert(w.last() == es[i as int]);
                    assert(acc@ =~= start + entry_reals(w));
                }
                i = i + 1;
            }
            proof {
                assert(es.take(n as int) =~= es);
            }
        },
        Value::Array(items) => {
            let n = items.len();
            let ghost vs = values_model(items@);
            proof {
                lemma_values_model(items@);
                assert(vs.take(0) =~= Seq::<Node>::empty());
                assert(start + seq_reals(vs.take(0)) =~= start);
            }
            let mut i: usize = 0;
            while i < n
                invariant
                    *value == Value::Array(*items),
                    n == items@.len(),
                    vs == values_model(items@),
                    vs.len() == n,
                    forall|k: int| #![trigger vs[k]] 0 <= k < n ==> vs[k] == items@[k].deep(),
                    i <= n,
                    acc@ == start + seq_reals(vs.take(i as int)),
                decreases n - i,
            {
                proof {
                    crate::value::lemma_child_decreases(*value, i as int);
                }
                let ghost before = acc@;
                collect_real_bits(&items[i], acc);
                proof {
                    let w = vs.take(i + 1);
                    assert(w.drop_last() =~= vs.take(i as int));
                    assert(w.last() == vs[i as int]);
                    assert(acc@ =~= start + seq_reals(w));
                }
                i = i + 1;
            }
            proof {
                assert(vs.take(n as int) =~= vs);
            }
        },
        Value::Real(x) => {
            acc.push(x.to_f64_bits());
        },
        _ => {
            assert(acc@ =~= start + node_reals(value.deep()));
        },
    }
}

/// Writes `value` as a text plist with the reals' texts taken from
/// `reals` (binary64 pattern to text). Any non-GNUStep `format` selects
/// OpenStep; a non-empty `indent` switches the key delimiter to ` = ` and
/// puts every entry on its own indented line.
pub fn generate_with_reals(value: &Value, format: crate::format::Format, indent: &str, reals: &Vec<(u64, Vec<char>)>) -> (r: String)
    ensures
        r@ == text_node(value.deep(), gnustep_of(format), indent@, 0, reals@),
{
    let gnustep = match format {
        crate::format::Format::GnuStep => true,
        _ => false,
    };
    let table = if gnustep {
        gs_quotable()
    } else {
        os_quotable()
    };
    let indent_chars = crate::strings::str_chars(indent);
    let mut out: Vec<char> = Vec::new();
    write_value(&mut out, value, gnustep, table, &indent_chars, 0, reals);
    crate::strings::string_from_chars(&out)
}

/// Writes `value` as a text plist: every real formatted in the `%g` style
/// of [`crate::scalar::format_f64`], everything else as
/// [`generate_with_reals`] states.
pub fn generate<H: FloatCodec>(value: &Value, format: crate::format::Format, indent: &str, hooks: &H) -> (r: String)
    ensures
        exists|reals: Seq<(u64, Vec<char>)>|
            r@ == #[trigger] text_node(value.deep(), gnustep_of(format), indent@, 0, reals),
{
    let mut bits: Vec<u64> = Vec::new();
    collect_real_bits(value, &mut bits);
    let mut reals: Vec<(u64, Vec<char>)> = Vec::new();
    let mut i: usize = 0;
    while i < bits.len()
        invariant
            i <= bits@.len(),
        decreases bits@.len() - i,
    {
        let text = crate::scalar::format_f64(bits[i], hooks);
        reals.push((bits[i], crate::strings::str_chars(text.as_str())));
        i = i + 1;
    }
    let r = generate_with_reals(value, format, indent, &reals);
    proof {
        assert(r@ == text_node(value.deep(), gnustep_of(format), indent@, 0, reals@));
    }
    r
}

} // verus!
