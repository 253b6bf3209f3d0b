//! The XML plist generator.

use vstd::prelude::*;

use crate::date::Date;
use crate::scalar::{format_f64, is_inf_bits, nan_bits, FloatCodec, NEG_INF_BITS, POS_INF_BITS};
use crate::strings::{push_all, signed_decimal, decimal_digits, str_chars};
use crate::value::{entries_model, values_model, Dictionary, Node, Value};
use crate::xml::{in_character_range, xml_char};

verus! {

/// The standard base64 alphabet character for a six-bit value.
pub open spec fn b64_char(v: nat) -> char {
    if v < 26 {
        ((v + 65) as u32) as char
    } else if v < 52 {
        ((v + 71) as u32) as char
    } else if v < 62 {
        ((v - 4) as u32) as char
    } else if v == 62 {
        '+'
    } else {
        '/'
    }
}

/// Standard base64 with `=` padding.
pub open spec fn base64_text(d: Seq<u8>) -> Seq<char>
    decreases d.len(),
{
    if d.len() == 0 {
        Seq::empty()
    } else if d.len() == 1 {
        let a = d[0] as nat;
        seq![b64_char(a / 4), b64_char((a % 4) * 16), '=', '=']
    } else if d.len() == 2 {
        let a = d[0] as nat;
        let b = d[1] as nat;
        seq![b64_char(a / 4), b64_char((a % 4) * 16 + b / 16), b64_char((b % 16) * 4), '=']
    } else {
        let a = d[0] as nat;
        let b = d[1] as nat;
        let c = d[2] as nat;
        seq![b64_char(a / 4), b64_char((a % 4) * 16 + b / 16), b64_char((b % 16) * 4 + c / 64), b64_char(c % 64)]
            + base64_text(d.subrange(3, d.len() as int))
    }
}

/// Standard base64 encoding with padding (`Engine::encode` of the `base64`
/// crate's `STANDARD` engine): three bytes to four characters, the last
/// group padded with `=`.
#[verifier::external_body]
fn base64_encode(data: &[u8]) -> (r: String)
    ensures
        r@ == base64_text(data@),
{
    base64::Engine::encode(&base64::engine::general_purpose::STANDARD, data)
}

/// The escaped form of one character of element text: the five markup
/// escapes, numeric escapes for TAB, LF and CR, U+FFFD for characters
/// outside the XML range, everything else unchanged.
pub open spec fn xml_escape_char(c: char) -> Seq<char> {
    if c == '"' {
        "&#34;"@
    } else if c == '\'' {
        "&#39;"@
    } else if c == '&' {
        "&amp;"@
    } else if c == '<' {
        "&lt;"@
    } else if c == '>' {
        "&gt;"@
    } else if c == '\t' {
        "&#x9;"@
    } else if c == '\n' {
        "&#xA;"@
    } else if c == '\r' {
        "&#xD;"@
    } else if !xml_char(c) {
        seq!['\u{FFFD}']
    } else {
        seq![c]
    }
}

/// A short character reference `#` + digits: the digits' value, decimal or
/// after `x` hexadecimal, names that code point.
proof fn lemma_short_reference(name: Seq<char>, v: u32)
    requires
        name.len() >= 2,
        name[0] == '#',
        name.len() <= 4,
        name[1] == 'x' ==> name.len() == 3 && crate::scalar::digit_of(name[2], 16) == Some(v as nat),
        name[1] != 'x' ==> name.len() == 3 && crate::scalar::digit_of(name[1], 10) is Some && crate::scalar::digit_of(
            name[2],
            10,
        ) is Some && v == crate::scalar::digit_of(name[1], 10).unwrap() * 10 + crate::scalar::digit_of(name[2], 10).unwrap(),
    ensures
        crate::xml::parser::numeric_reference(name) == Some(v),
{
    reveal_with_fuel(crate::scalar::scan_digits, 3);
    let numeric = name.subrange(1, name.len() as int);
    if name[1] == 'x' {
        let digits = numeric.subrange(1, numeric.len() as int);
        assert(digits =~= seq![name[2]]);
    } else {
        assert(numeric =~= seq![name[1], name[2]]);
    }
}

/// Whatever the XML writer escapes reads back as the character it escaped:
/// the escape of an XML character `c` is `c` itself, which is then no
/// markup character, or `&name;` for a reference `name` that resolves to
/// `c`.
pub proof fn xml_escapes_read_back(c: char)
    requires
        xml_char(c),
    ensures
        ({
            let e = xml_escape_char(c);
            ||| e == seq![c] && c != '&' && c != '<'
            ||| e.len() >= 3 && e[0] == '&' && e.last() == ';' && crate::xml::parser::reference_char(
                e.subrange(1, e.len() - 1),
            ) == Some(c)
        }),
{
    reveal_strlit("&#34;");
    reveal_strlit("&#39;");
    reveal_strlit("&amp;");
    reveal_strlit("&lt;");
    reveal_strlit("&gt;");
    reveal_strlit("&#x9;");
    reveal_strlit("&#xA;");
    reveal_strlit("&#xD;");
    let e = xml_escape_char(c);
    if c == '"' {
        let name = e.subrange(1, e.len() - 1);
        assert(name =~= seq!['#', '3', '4']);
        lemma_short_reference(name, 34);
    } else if c == '\'' {
        let name = e.subrange(1, e.len() - 1);
        assert(name =~= seq!['#', '3', '9']);
        lemma_short_reference(name, 39);
    } else if c == '&' {
        assert(e.subrange(1, e.len() - 1) =~= seq!['a', 'm', 'p']);
    } else if c == '<' {
        assert(e.subrange(1, e.len() - 1) =~= seq!['l', 't']);
    } else if c == '>' {
        assert(e.subrange(1, e.len() - 1) =~= seq!['g', 't']);
    } else if c == '\t' {
        let name = e.subrange(1, e.len() - 1);
        assert(name =~= seq!['#', 'x', '9']);
        lemma_short_reference(name, 9);
    } else if c == '\n' {
        let name = e.subrange(1, e.len() - 1);
        assert(name =~= seq!['#', 'x', 'A']);
        lemma_short_reference(name, 10);
    } else if c == '\r' {
        let name = e.subrange(1, e.len() - 1);
        assert(name =~= seq!['#', 'x', 'D']);
        lemma_short_reference(name, 13);
    }
}

/// The escaped form of element text.
pub open spec fn xml_escape(s: Seq<char>) -> Seq<char>
    decreases s.len(),
{
    if s.len() == 0 {
        Seq::empty()
    } else {
        xml_escape(s.drop_last()) + xml_escape_char(s.last())
    }
}

/// `s` repeated `n` times.
pub open spec fn repeat(s: Seq<char>, n: nat) -> Seq<char>
    decreases n,
{
    if n == 0 {
        Seq::empty()
    } else {
        repeat(s, (n - 1) as nat) + s
    }
}

/// The break before a line at `depth`: nothing without an indent, else a
/// newline and the indent repeated per depth.
pub open spec fn line_break(indent: Seq<char>, depth: nat) -> Seq<char> {
    if indent.len() == 0 {
        Seq::empty()
    } else {
        seq!['\n'] + repeat(indent, depth)
    }
}

/// One leaf element on its own line; an empty body self-closes.
pub open spec fn element_text(indent: Seq<char>, depth: nat, name: Seq<char>, body: Seq<char>) -> Seq<char> {
    if body.len() == 0 {
        line_break(indent, depth) + seq!['<'] + name + seq!['/', '>']
    } else {
        line_break(indent, depth) + seq!['<'] + name + seq!['>'] + xml_escape(body) + seq!['<', '/'] + name + seq!['>']
    }
}

/// A container: opening tag, children one level deeper, closing tag.
pub open spec fn container_text(indent: Seq<char>, depth: nat, name: Seq<char>, inner: Seq<char>) -> Seq<char> {
    line_break(indent, depth) + seq!['<'] + name + seq!['>'] + inner + line_break(indent, depth) + seq!['<', '/'] + name
        + seq!['>']
}

/// The text of a real, looked up by its binary64 pattern (the first entry
/// for the pattern; empty if none).
pub open spec fn real_text(reals: Seq<(u64, Vec<char>)>, bits: u64) -> Seq<char>
    decreases reals.len(),
{
    if reals.len() == 0 {
        Seq::empty()
    } else if reals[0].0 == bits {
        reals[0].1@
    } else {
        real_text(reals.subrange(1, reals.len() as int), bits)
    }
}

/// One more level of nesting (saturating).
pub open spec fn deeper(d: nat) -> nat {
    if d >= usize::MAX {
        usize::MAX as nat
    } else {
        d + 1
    }
}

/// The XML of a value tree at nesting `depth`.
pub open spec fn xml_node(n: Node, indent: Seq<char>, depth: nat, reals: Seq<(u64, Vec<char>)>) -> Seq<char>
    decreases n,
{
    match n {
        Node::Dictionary(es) => container_text(indent, depth, "dict"@, xml_entries(es, indent, deeper(depth), reals)),
        Node::Array(vs) => container_text(indent, depth, "array"@, xml_values(vs, indent, deeper(depth), reals)),
        Node::String(s) => element_text(indent, depth, "string"@, s),
        Node::Integer(i) => element_text(indent, depth, "integer"@, signed_decimal(i.value())),
        Node::Real(r) => element_text(indent, depth, "real"@, real_text(reals, r.value_bits())),
        Node::Boolean(b) => element_text(indent, depth, if b { "true"@ } else { "false"@ }, Seq::empty()),
        Node::Uid(u) => container_text(
            indent,
            depth,
            "dict"@,
            element_text(indent, deeper(depth), "key"@, "CF$UID"@) + element_text(indent, deeper(depth), "integer"@, decimal_digits(u as nat)),
        ),
        Node::Data(d) => element_text(indent, depth, "data"@, base64_text(d)),
        Node::Date(d) => element_text(indent, depth, "date"@, crate::date::rfc3339_text(crate::date::civil_fields_of(d.unix_nanos()))),
    }
}

/// Dictionary entries: each key element followed by its value.
pub open spec fn xml_entries(es: Seq<(Seq<char>, Node)>, indent: Seq<char>, depth: nat, reals: Seq<(u64, Vec<char>)>) -> Seq<char>
    decreases es,
{
    if es.len() == 0 {
        Seq::empty()
    } else {
        xml_entries(es.drop_last(), indent, depth, reals) + element_text(indent, depth, "key"@, es.last().0) + xml_node(
            es.last().1,
            indent,
            depth,
            reals,
        )
    }
}

/// Array elements in order.
pub open spec fn xml_values(vs: Seq<Node>, indent: Seq<char>, depth: nat, reals: Seq<(u64, Vec<char>)>) -> Seq<char>
    decreases vs,
{
    if vs.len() == 0 {
        Seq::empty()
    } else {
        xml_values(vs.drop_last(), indent, depth, reals) + xml_node(vs.last(), indent, depth, reals)
    }
}

/// The fixed XML declaration and DOCTYPE header.
pub open spec fn header_text() -> Seq<char> {
    "<?xml version=\"1.0\" encoding=\"UTF-8\"?>\n<!DOCTYPE plist PUBLIC \"-//Apple//DTD PLIST 1.0//EN\" \"http://www.apple.com/DTDs/PropertyList-1.0.dtd\">\n"@
}

/// A complete document: the header, the `<plist version="1.0">` wrapper
/// (whose own line gets no leading newline) around the value one level
/// deep, no trailing newline.
pub open spec fn xml_document(n: Node, indent: Seq<char>, reals: Seq<(u64, Vec<char>)>) -> Seq<char> {
    header_text() + "<plist version=\"1.0\">"@ + xml_node(n, indent, 1, reals) + line_break(indent, 0) + "</plist>"@
}

fn push_str(out: &mut Vec<char>, s: &str)
    ensures
        final(out)@ == old(out)@ + s@,
{
    push_all(out, &str_chars(s));
}

fn push_line_break(out: &mut Vec<char>, indent: &Vec<char>, depth: usize)
    ensures
        final(out)@ == old(out)@ + line_break(indent@, depth as nat),
{
    if indent.len() == 0 {
        proof {
            assert(out@ =~= old(out)@ + line_break(indent@, depth as nat));
        }
        return;
    }
    let ghost start = out@;
    out.push('\n');
    let mut k: usize = 0;
    while k < depth
        invariant
            k <= depth,
            out@ == start + seq!['\n'] + repeat(indent@, k as nat),
        decreases depth - k,
    {
        push_all(out, indent);
        k = k + 1;
    }
    proof {
        assert(out@ =~= start + line_break(indent@, depth as nat));
    }
}

fn push_escaped_char(out: &mut Vec<char>, c: char)
    ensures
        final(out)@ == old(out)@ + xml_escape_char(c),
{
    proof {
        reveal_strlit("&#34;");
        reveal_strlit("&#39;");
        reveal_strlit("&amp;");
        reveal_strlit("&lt;");
        reveal_strlit("&gt;");
        reveal_strlit("&#x9;");
        reveal_strlit("&#xA;");
        reveal_strlit("&#xD;");
    }
    if c == '"' {
        push_str(out, "&#34;");
    } else if c == '\'' {
        push_str(out, "&#39;");
    } else if c == '&' {
        push_str(out, "&amp;");
    } else if c == '<' {
        push_str(out, "&lt;");
    } else if c == '>' {
        push_str(out, "&gt;");
    } else if c == '\t' {
        push_str(out, "&#x9;");
    } else if c == '\n' {
        push_str(out, "&#xA;");
    } else if c == '\r' {
        push_str(out, "&#xD;");
    } else if !in_character_range(c) {
        out.push('\u{FFFD}');
    } else {
        out.push(c);
    }
}

fn push_escaped(out: &mut Vec<char>, body: &Vec<char>)
    ensures
        final(out)@ == old(out)@ + xml_escape(body@),
{
    let ghost start = out@;
    let mut i: usize = 0;
    while i < body.len()
        invariant
            i <= body@.len(),
            out@ == start + xml_escape(body@.subrange(0, i as int)),
        decreases body@.len() - i,
    {
        proof {
            assert(body@.subrange(0, i + 1).drop_last() =~= body@.subrange(0, i as int));
        }
        push_escaped_char(out, body[i]);
        proof {
            assert(out@ =~= start + xml_escape(body@.subrange(0, i + 1)));
        }
        i = i + 1;
    }
    proof {
        assert(body@.subrange(0, body@.len() as int) =~= body@);
    }
}

/// Appends one leaf element on its own line.
fn push_element(out: &mut Vec<char>, indent: &Vec<char>, depth: usize, name: &str, body: &Vec<char>)
    ensures
        final(out)@ == old(out)@ + element_text(indent@, depth as nat, name@, body@),
{
    let ghost start = out@;
    push_line_break(out, indent, depth);
    out.push('<');
    push_str(out, name);
    if body.len() == 0 {
        out.push('/');
        out.push('>');
    } else {
        out.push('>');
        push_escaped(out, body);
        out.push('<');
        out.push('/');
        push_str(out, name);
        out.push('>');
    }
    proof {
        assert(out@ =~= start + element_text(indent@, depth as nat, name@, body@));
    }
}

fn push_open(out: &mut Vec<char>, indent: &Vec<char>, depth: usize, name: &str)
    ensures
        final(out)@ == old(out)@ + line_break(indent@, depth as nat) + seq!['<'] + name@ + seq!['>'],
{
    let ghost start = out@;
    push_line_break(out, indent, depth);
    out.push('<');
    push_str(out, name);
    out.push('>');
    proof {
        assert(out@ =~= start + line_break(indent@, depth as nat) + seq!['<'] + name@ + seq!['>']);
    }
}

fn push_close(out: &mut Vec<char>, indent: &Vec<char>, depth: usize, name: &str)
    ensures
        final(out)@ == old(out)@ + line_break(indent@, depth as nat) + seq!['<', '/'] + name@ + seq!['>'],
{
    let ghost start = out@;
    push_line_break(out, indent, depth);
    out.push('<');
    out.push('/');
    push_str(out, name);
    out.push('>');
    proof {
        assert(out@ =~= start + line_break(indent@, depth as nat) + seq!['<', '/'] + name@ + seq!['>']);
    }
}

fn lookup_real(reals: &Vec<(u64, Vec<char>)>, bits: u64) -> (r: Vec<char>)
    ensures
        r@ == real_text(reals@, bits),
{
    let mut i: usize = 0;
    proof {
        assert(reals@.subrange(0, reals@.len() as int) =~= reals@);
    }
    while i < reals.len()
        invariant
            i <= reals@.len(),
            real_text(reals@, bits) == real_text(reals@.subrange(i as int, reals@.len() as int), bits),
        decreases reals@.len() - i,
    {
        let ghost rest = reals@.subrange(i as int, reals@.len() as int);
        proof {
            assert(rest[0] == reals@[i as int]);
            assert(rest.subrange(1, rest.len() as int) =~= reals@.subrange(i + 1, reals@.len() as int));
        }
        if reals[i].0 == bits {
            let mut out: Vec<char> = Vec::new();
            push_all(&mut out, &reals[i].1);
            return out;
        }
        i = i + 1;
    }
    Vec::new()
}

/// Appends the XML of `value` at nesting `depth`.
fn write_value(out: &mut Vec<char>, value: &Value, indent: &Vec<char>, depth: usize, reals: &Vec<(u64, Vec<char>)>)
    ensures
        final(out)@ == old(out)@ + xml_node(value.deep(), indent@, depth as nat, reals@),
    decreases value, 2int,
{
    proof {
        reveal_strlit("string");
        reveal_strlit("integer");
        reveal_strlit("real");
        reveal_strlit("true");
        reveal_strlit("false");
        reveal_strlit("data");
        reveal_strlit("date");
    }
    match value {
        Value::Dictionary(d) => write_dictionary(out, value, d, indent, depth, reals),
        Value::Array(items) => write_array(out, value, items, indent, depth, reals),
        Value::String(s) => push_element(out, indent, depth, "string", &str_chars(s.as_str())),
        Value::Integer(i) => push_element(out, indent, depth, "integer", &i.decimal_chars()),
        Value::Real(x) => push_element(out, indent, depth, "real", &lookup_real(reals, x.to_f64_bits())),
        Value::Boolean(b) => {
            let empty: Vec<char> = Vec::new();
            if *b {
                push_element(out, indent, depth, "true", &empty);
            } else {
                push_element(out, indent, depth, "false", &empty);
            }
        },
        Value::Uid(u) => write_uid(out, u.get(), indent, depth),
        Value::Data(d) => {
            let text = base64_encode(d.as_slice());
            push_element(out, indent, depth, "data", &str_chars(text.as_str()));
        },
        Value::Date(d) => {
            let text = d.format_rfc3339();
            push_element(out, indent, depth, "date", &str_chars(text.as_str()));
        },
    }
}

#[verifier::spinoff_prover]
#[verifier::rlimit(40)]
fn write_uid(out: &mut Vec<char>, u: u64, indent: &Vec<char>, depth: usize)
    ensures
        forall|reals: Seq<(u64, Vec<char>)>|
            final(out)@ == old(out)@ + #[trigger] xml_node(Node::Uid(u), indent@, depth as nat, reals),
{
    proof {
        reveal_strlit("dict");
        reveal_strlit("key");
        reveal_strlit("CF$UID");
        reveal_strlit("integer");
    }
    let ghost start = out@;
    let next: usize = if depth == usize::MAX { depth } else { depth + 1 };
    push_open(out, indent, depth, "dict");
    let ghost a = out@;
    push_element(out, indent, next, "key", &str_chars("CF$UID"));
    push_element(out, indent, next, "integer", &crate::strings::u64_decimal(u));
    let ghost b = out@;
    push_close(out, indent, depth, "dict");
    proof {
        let inner = element_text(indent@, deeper(depth as nat), "key"@, "CF$UID"@) + element_text(
            indent@,
            deeper(depth as nat),
            "integer"@,
            decimal_digits(u as nat),
        );
        assert(b =~= a + inner);
        assert(out@ =~= start + container_text(indent@, depth as nat, "dict"@, inner));
    }
}

#[verifier::spinoff_prover]
#[verifier::rlimit(40)]
fn write_dictionary(
    out: &mut Vec<char>,
    value: &Value,
    d: &Dictionary,
    indent: &Vec<char>,
    depth: usize,
    reals: &Vec<(u64, Vec<char>)>,
)
    requires
        *value == Value::Dictionary(*d),
    ensures
        final(out)@ == old(out)@ + xml_node(value.deep(), indent@, depth as nat, reals@),
    decreases value, 1int,
{
    proof {
        reveal_strlit("dict");
        reveal_strlit("key");
    }
    let ghost start = out@;
    let next: usize = if depth == usize::MAX { depth } else { depth + 1 };
    push_open(out, indent, depth, "dict");
    let ghost opened = out@;
    let n = d.len();
    let mut i: usize = 0;
    proof {
        assert(d.spec_entries().subrange(0, 0) =~= Seq::<(String, Value)>::empty());
    }
    while i < n
        invariant
            *value == Value::Dictionary(*d),
            n == d.spec_entries().len(),
            i <= n,
            next as nat == deeper(depth as nat),
            out@ == opened + xml_entries(entries_model(d.spec_entries().subrange(0, i as int)), indent@, next as nat, reals@),
        decreases n - i,
    {
        let (key, child) = d.entry_at(i);
        let ghost prefix = d.spec_entries().subrange(0, i as int);
        let ghost p = d.spec_entries().subrange(0, i + 1);
        proof {
            crate::value::lemma_child_decreases(*value, i as int);
            assert(p.drop_last() =~= prefix);
            assert(entries_model(p) == entries_model(prefix).push((key@, child.deep())));
            assert(entries_model(p).drop_last() =~= entries_model(prefix));
        }
        write_entry(out, value, key, child, indent, next, reals);
        proof {
            assert(out@ =~= opened + xml_entries(entries_model(p), indent@, next as nat, reals@));
        }
        i = i + 1;
    }
    let ghost inner = out@;
    push_close(out, indent, depth, "dict");
    proof {
        assert(d.spec_entries().subrange(0, n as int) =~= d.spec_entries());
        assert(out@ =~= start + xml_node(value.deep(), indent@, depth as nat, reals@));
    }
}

fn write_entry(
    out: &mut Vec<char>,
    value: &Value,
    key: &String,
    child: &Value,
    indent: &Vec<char>,
    depth: usize,
    reals: &Vec<(u64, Vec<char>)>,
)
    requires
        decreases_to!(*value => *child),
    ensures
        final(out)@ == old(out)@ + element_text(indent@, depth as nat, "key"@, key@) + xml_node(
            child.deep(),
            indent@,
            depth as nat,
            reals@,
        ),
    decreases value, 0int,
{
    proof {
        reveal_strlit("key");
    }
    let ghost start = out@;
    push_element(out, indent, depth, "key", &str_chars(key.as_str()));
    write_value(out, child, indent, depth, reals);
}

fn write_array(
    out: &mut Vec<char>,
    value: &Value,
    items: &Vec<Value>,
    indent: &Vec<char>,
    depth: usize,
    reals: &Vec<(u64, Vec<char>)>,
)
    requires
        *value == Value::Array(*items),
    ensures
        final(out)@ == old(out)@ + xml_node(value.deep(), indent@, depth as nat, reals@),
    decreases value, 1int,
{
    proof {
        reveal_strlit("array");
    }
    let ghost start = out@;
    let next: usize = if depth == usize::MAX { depth } else { depth + 1 };
    push_open(out, indent, depth, "array");
    let ghost opened = out@;
    let n = items.len();
    let mut i: usize = 0;
    proof {
        assert(items@.subrange(0, 0) =~= Seq::<Value>::empty());
    }
    while i < n
        invariant
            *value == Value::Array(*items),
            n == items@.len(),
            i <= n,
            next as nat == deeper(depth as nat),
            out@ == opened + xml_values(values_model(items@.subrange(0, i as int)), indent@, next as nat, reals@),
        decreases n - i,
    {
        let ghost prefix = items@.subrange(0, i as int);
        let ghost p = items@.subrange(0, i + 1);
        proof {
            crate::value::lemma_child_decreases(*value, i as int);
            assert(p.drop_last() =~= prefix);
            assert(values_model(p) == values_model(prefix).push(items@[i as int].deep()));
            assert(values_model(p).drop_last() =~= values_model(prefix));
        }
        write_value(out, &items[i], indent, next, reals);
        proof {
            assert(out@ =~= opened + xml_values(values_model(p), indent@, next as nat, reals@));
        }
        i = i + 1;
    }
    push_close(out, indent, depth, "array");
    proof {
        assert(items@.subrange(0, n as int) =~= items@);
        assert(out@ =~= start + xml_node(value.deep(), indent@, depth as nat, reals@));
    }
}

/// Formats a real for XML: lowercase `inf`, `-inf` and `nan`, else the
/// `%g` style of [`format_f64`].
pub fn format_xml_float<H: FloatCodec>(bits: u64, hooks: &H) -> (r: String)
    ensures
        bits == POS_INF_BITS ==> r@ == "inf"@,
        bits == NEG_INF_BITS ==> r@ == "-inf"@,
        nan_bits(bits) && !is_inf_bits(bits) ==> r@ == "nan"@,
{
    if bits == POS_INF_BITS {
        proof {
            reveal_strlit("inf");
        }
        return "inf".to_owned();
    }
    if bits == NEG_INF_BITS {
        proof {
            reveal_strlit("-inf");
        }
        return "-inf".to_owned();
    }
    if (bits & 0x7FF0_0000_0000_0000u64) == 0x7FF0_0000_0000_0000u64 && (bits & 0x000F_FFFF_FFFF_FFFFu64) != 0 {
        proof {
            reveal_strlit("nan");
        }
        return "nan".to_owned();
    }
    format_f64(bits, hooks)
}

/// Writes `value` as a complete XML plist document with the reals' texts
/// taken from `reals` (binary64 pattern to text). A non-empty `indent`
/// puts every element on its own line, repeated per depth.
pub fn generate_with_reals(value: &Value, indent: &str, reals: &Vec<(u64, Vec<char>)>) -> (r: String)
    ensures
        r@ == xml_document(value.deep(), indent@, reals@),
{
    proof {
        reveal_strlit("<?xml version=\"1.0\" encoding=\"UTF-8\"?>\n<!DOCTYPE plist PUBLIC \"-//Apple//DTD PLIST 1.0//EN\" \"http://www.apple.com/DTDs/PropertyList-1.0.dtd\">\n");
        reveal_strlit("<plist version=\"1.0\">");
        reveal_strlit("</plist>");
        reveal_strlit("plist");
    }
    let indent_chars = str_chars(indent);
    let mut out: Vec<char> = Vec::new();
    push_str(&mut out, "<?xml version=\"1.0\" encoding=\"UTF-8\"?>\n<!DOCTYPE plist PUBLIC \"-//Apple//DTD PLIST 1.0//EN\" \"http://www.apple.com/DTDs/PropertyList-1.0.dtd\">\n");
    push_str(&mut out, "<plist version=\"1.0\">");
    write_value(&mut out, value, &indent_chars, 1, reals);
    push_close(&mut out, &indent_chars, 0, "plist");
    proof {
        assert(out@ =~= xml_document(value.deep(), indent@, reals@));
    }
    crate::strings::string_from_chars(&out)
}

/// Writes `value` as a complete XML plist document: every real formatted
/// by [`format_xml_float`], everything else as [`generate_with_reals`]
/// states.
pub fn generate<H: FloatCodec>(value: &Value, indent: &str, hooks: &H) -> (r: String)
    ensures
        exists|reals: Seq<(u64, Vec<char>)>| r@ == #[trigger] xml_document(value.deep(), indent@, reals),
{
    let mut bits: Vec<u64> = Vec::new();
    crate::text::generator::collect_real_bits(value, &mut bits);
    let mut reals: Vec<(u64, Vec<char>)> = Vec::new();
    let mut i: usize = 0;
    while i < bits.len()
        invariant
            i <= bits@.len(),
        decreases bits@.len() - i,
    {
        let text = format_xml_float(bits[i], hooks);
        reals.push((bits[i], str_chars(text.as_str())));
        i = i + 1;
    }
    let r = generate_with_reals(value, indent, &reals);
    proof {
        assert(r@ == xml_document(value.deep(), indent@, reals@));
    }
    r
}

} // verus!
