//! Reading GNUStep text back: the text the generator writes for a tree, fed
//! to the grammar, gives the tree back.

use vstd::prelude::*;

use crate::binary::generator::node_keys_unique;
use crate::integer::Integer;
use crate::strings::{decimal_digits, lemma_decimal_digits_shape, signed_decimal};
use crate::tables::{gs_quotable_members, gs_quotable_set, whitespace_members, whitespace_set};
use crate::text::generator::{
    array_text, deeper, delimiter, dict_text, escape_body, escape_text_char, hex_byte, hex_char, hex_digits, hex_groups,
    indent_text, needs_quotes, quoted_text, repeat, text_node,
};
use crate::text::grammar::{
    array, close_dictionary, dict, dict_key, digit_of, digits, document, escape, find_char, gs_typed, hex, hex_gap, node_uid,
    quoted, skip, span_in, span_out, value, TextFault,
};
use crate::value::{collect_node_entries, node_eq, Node};

verus! {

/// Whether `c` is inter-token whitespace.
pub open spec fn is_ws(c: char) -> bool {
    whitespace_set().has_char(c)
}

/// Whether `c` ends an unquoted GNUStep token.
pub open spec fn quotable(c: char) -> bool {
    gs_quotable_set().has_char(c)
}

/// Whether a token can start at `q`: the end, or a character that is
/// neither whitespace nor the start of a comment.
pub open spec fn token_start(s: Seq<char>, q: int) -> bool {
    q >= s.len() || (!is_ws(s[q]) && !(s[q] == '/' && q + 1 < s.len() && (s[q + 1] == '/' || s[q + 1] == '*')))
}

/// Whether `t` occurs in `s` at `p`.
pub open spec fn at(s: Seq<char>, p: int, t: Seq<char>) -> bool {
    0 <= p && p + t.len() <= s.len() && s.subrange(p, p + t.len()) == t
}

/// A concatenation occurs where its two parts occur one after the other.
pub proof fn lemma_at_split(s: Seq<char>, p: int, a: Seq<char>, b: Seq<char>)
    requires
        at(s, p, a + b),
    ensures
        at(s, p, a),
        at(s, p + a.len(), b),
{
    let w = s.subrange(p, p + a.len() + b.len());
    assert(w == a + b);
    assert(s.subrange(p, p + a.len()) =~= a) by {
        assert forall|i: int| 0 <= i < a.len() implies s.subrange(p, p + a.len())[i] == a[i] by {
            assert(w[i] == (a + b)[i]);
        }
    }
    assert(s.subrange(p + a.len(), p + a.len() + b.len()) =~= b) by {
        assert forall|i: int| 0 <= i < b.len() implies s.subrange(p + a.len(), p + a.len() + b.len())[i] == b[i] by {
            assert(w[a.len() + i] == (a + b)[a.len() + i]);
        }
    }
}

/// Whitespace is quotable, so an unquoted token never starts with it.
pub proof fn lemma_ws_quotable(c: char)
    requires
        is_ws(c),
    ensures
        quotable(c),
{
    whitespace_members((c as u32) as u8);
    gs_quotable_members((c as u32) as u8);
}

/// The characters that decide the grammar's branches are all quotable.
pub proof fn lemma_structural_quotable()
    ensures
        quotable('"'),
        quotable('{'),
        quotable('}'),
        quotable('('),
        quotable(')'),
        quotable('<'),
        quotable('>'),
        quotable(';'),
        quotable(','),
        quotable('='),
        quotable(' '),
        quotable('\\'),
        is_ws(' '),
        is_ws('\n'),
        !is_ws('"'),
{
    whitespace_members(34);
    gs_quotable_members(34);
    gs_quotable_members(123);
    gs_quotable_members(125);
    gs_quotable_members(40);
    gs_quotable_members(41);
    gs_quotable_members(60);
    gs_quotable_members(62);
    gs_quotable_members(59);
    gs_quotable_members(44);
    gs_quotable_members(61);
    gs_quotable_members(32);
    gs_quotable_members(92);
    whitespace_members(32);
    whitespace_members(10);
}

/// A run of whitespace followed by a token start is skipped exactly.
pub proof fn lemma_skip_run(s: Seq<char>, p: int, w: Seq<char>)
    requires
        at(s, p, w),
        forall|i: int| 0 <= i < w.len() ==> is_ws(#[trigger] w[i]),
        token_start(s, p + w.len()),
    ensures
        skip(s, p) == Some(p + w.len()),
{
    lemma_span_run(s, p, w);
    let q = p + w.len();
    assert(span_in(s, p, whitespace_set()) == q);
}

/// Scanning whitespace over a run of it stops right after the run.
proof fn lemma_span_run(s: Seq<char>, p: int, w: Seq<char>)
    requires
        at(s, p, w),
        forall|i: int| 0 <= i < w.len() ==> is_ws(#[trigger] w[i]),
        p + w.len() < s.len() ==> !is_ws(s[p + w.len()]),
    ensures
        span_in(s, p, whitespace_set()) == p + w.len(),
    decreases w.len(),
{
    if w.len() > 0 {
        assert(s[p] == w[0]);
        let w2 = w.subrange(1, w.len() as int);
        assert(s.subrange(p + 1, p + 1 + w2.len()) =~= w2) by {
            assert forall|i: int| 0 <= i < w2.len() implies s.subrange(p + 1, p + 1 + w2.len())[i] == w2[i] by {
                assert(s[p + 1 + i] == s.subrange(p, p + w.len())[i + 1]);
            }
        }
        assert forall|i: int| 0 <= i < w2.len() implies is_ws(#[trigger] w2[i]) by {
            assert(w2[i] == w[i + 1]);
        }
        lemma_span_run(s, p + 1, w2);
    }
}

/// Scanning for a quotable character over a run of unquotable ones stops
/// right after the run.
pub proof fn lemma_unquoted_run(s: Seq<char>, p: int, t: Seq<char>)
    requires
        at(s, p, t),
        forall|i: int| 0 <= i < t.len() ==> !quotable(#[trigger] t[i]),
        p + t.len() < s.len() ==> quotable(s[p + t.len()]),
    ensures
        span_out(s, p, gs_quotable_set()) == p + t.len(),
    decreases t.len(),
{
    if t.len() > 0 {
        assert(s[p] == t[0]);
        let t2 = t.subrange(1, t.len() as int);
        assert(s.subrange(p + 1, p + 1 + t2.len()) =~= t2) by {
            assert forall|i: int| 0 <= i < t2.len() implies s.subrange(p + 1, p + 1 + t2.len())[i] == t2[i] by {
                assert(s[p + 1 + i] == s.subrange(p, p + t.len())[i + 1]);
            }
        }
        assert forall|i: int| 0 <= i < t2.len() implies !quotable(#[trigger] t2[i]) by {
            assert(t2[i] == t[i + 1]);
        }
        lemma_unquoted_run(s, p + 1, t2);
    }
}

/// Escaping distributes over a leading character.
pub proof fn lemma_escape_front(c: char, t: Seq<char>)
    ensures
        escape_body(seq![c] + t) == escape_text_char(c) + escape_body(t),
    decreases t.len(),
{
    if t.len() == 0 {
        assert(seq![c] + t =~= seq![c]);
        assert(seq![c].drop_last() =~= Seq::<char>::empty());
        assert(escape_body(seq![c]) == escape_body(Seq::<char>::empty()) + escape_text_char(c));
        assert(escape_text_char(c) + escape_body(t) =~= escape_body(Seq::<char>::empty()) + escape_text_char(c));
    } else {
        let u = seq![c] + t;
        assert(u.drop_last() =~= seq![c] + t.drop_last());
        assert(u.last() == t.last());
        lemma_escape_front(c, t.drop_last());
        assert(escape_body(u) == escape_body(u.drop_last()) + escape_text_char(u.last()));
        assert(escape_text_char(c) + escape_body(t) =~= escape_text_char(c) + escape_body(t.drop_last())
            + escape_text_char(t.last()));
    }
}

/// An unquoted string is written as it is.
pub proof fn lemma_escape_bare(t: Seq<char>)
    requires
        !needs_quotes(gs_quotable_set(), t),
    ensures
        escape_body(t) == t,
        forall|i: int| 0 <= i < t.len() ==> !quotable(#[trigger] t[i]),
    decreases t.len(),
{
    assert forall|i: int| 0 <= i < t.len() implies !quotable(#[trigger] t[i]) by {
        if quotable(t[i]) {
            assert(0 <= i < t.len() && ((t[i] as u32) > 0x7F || gs_quotable_set().has_char(t[i])));
        }
    }
    if t.len() > 0 {
        let p = t.drop_last();
        assert(!needs_quotes(gs_quotable_set(), p)) by {
            if needs_quotes(gs_quotable_set(), p) {
                let i = choose|i: int| 0 <= i < p.len() && ((p[i] as u32) > 0x7F || gs_quotable_set().has_char(#[trigger] p[i]));
                assert(p[i] == t[i]);
            }
        }
        lemma_escape_bare(p);
        let c = t.last();
        assert(!quotable(c));
        assert(!((c as u32) > 0x7F)) by {
            if (c as u32) > 0x7F {
                assert(0 <= t.len() - 1 < t.len() && ((t[t.len() - 1] as u32) > 0x7F || gs_quotable_set().has_char(t[t.len() - 1])));
            }
        }
        gs_quotable_members((c as u32) as u8);
        assert(escape_text_char(c) == seq![c]);
        assert(escape_body(t) =~= p.push(c));
    }
}

/// A hex digit reads back as its value.
pub proof fn lemma_hex_char(x: nat)
    requires
        x < 16,
    ensures
        digit_of(hex_char(x), 16) == Some(x as int),
        digit_of(hex_char(x), 8) == (if x < 8 {
            Some(x as int)
        } else {
            None
        }),
        hex_char(x) != '>' && hex_char(x) != '*' && hex_char(x) != '[' && hex_char(x) != '"',
        ('0' <= hex_char(x) <= '9') || ('a' <= hex_char(x) <= 'f'),
{
    if x < 10 {
        let u = (x + 48) as u32;
        assert((u as char) as u32 == u);
    } else {
        let u = (x + 87) as u32;
        assert((u as char) as u32 == u);
    }
}

/// The four hex digits the generator writes for a code point from U+0100
/// to U+FFFF.
pub proof fn lemma_hex4(n: nat)
    requires
        0x100 <= n <= 0xFFFF,
    ensures
        ({
            let h = hex_digits(n);
            let pad: Seq<char> = if h.len() < 4 {
                Seq::new((4 - h.len()) as nat, |i: int| '0')
            } else {
                Seq::empty()
            };
            pad + h == seq![hex_char(n / 4096), hex_char((n / 256) % 16), hex_char((n / 16) % 16), hex_char(n % 16)]
        }),
{
    reveal_with_fuel(hex_digits, 5);
    let h = hex_digits(n);
    assert(hex_char(0) == '0') by {
        let u = 48u32;
        assert((u as char) as u32 == u);
    }
    if n < 0x1000 {
        assert(h =~= seq![hex_char((n / 256) % 16), hex_char((n / 16) % 16), hex_char(n % 16)]) by {
            assert(n / 16 / 16 == n / 256);
            assert(n / 256 < 16);
            assert((n / 256) % 16 == n / 256);
            assert((n / 16) / 16 < 16);
            assert(hex_digits(n / 16 / 16) == seq![hex_char(n / 16 / 16)]);
        }
        assert(n / 4096 == 0);
    } else {
        assert(h =~= seq![hex_char(n / 4096), hex_char((n / 256) % 16), hex_char((n / 16) % 16), hex_char(n % 16)]) by {
            assert(n / 16 / 16 == n / 256);
            assert(n / 16 / 16 / 16 == n / 4096);
            assert(n / 4096 < 16);
            assert(hex_digits(n / 16 / 16 / 16) == seq![hex_char(n / 4096)]);
            assert(((n / 16) / 16) % 16 == (n / 256) % 16);
        }
    }
}

/// A `\U` escape of a code point from U+0100 to U+FFFF reads back.
proof fn lemma_wide_escape(s: Seq<char>, p: int, c: char)
    requires
        0xFF < (c as u32) <= 0xFFFF,
        at(s, p, escape_text_char(c)),
    ensures
        escape_text_char(c).len() == 6,
        s[p] == '\\',
        escape(s, p + 1) == (Some(c), p + 6),
{
    let e = escape_text_char(c);
    let n = (c as u32) as nat;
    lemma_hex4(n);
    let d0 = n / 4096;
    let d1 = (n / 256) % 16;
    let d2 = (n / 16) % 16;
    let d3 = n % 16;
    lemma_hex_char(d0);
    lemma_hex_char(d1);
    lemma_hex_char(d2);
    lemma_hex_char(d3);
    assert(e =~= seq!['\\', 'U', hex_char(d0), hex_char(d1), hex_char(d2), hex_char(d3)]);
    assert forall|i: int| 0 <= i < 6 implies s[p + i] == e[i] by {
        assert(s.subrange(p, p + 6)[i] == s[p + i]);
    }
    assert(digits(s, p + 2, 4, 16, 0) == (n as int, p + 6)) by {
        reveal_with_fuel(digits, 5);
        assert(((d0 * 16 + d1) * 16 + d2) * 16 + d3 == n);
    }
    assert(((c as u32) as char) == c);
}

/// A three-digit octal escape of a code point from U+0080 to U+00FF reads
/// back.
proof fn lemma_octal_escape(s: Seq<char>, p: int, c: char)
    requires
        0x7F < (c as u32) <= 0xFF,
        at(s, p, escape_text_char(c)),
    ensures
        escape_text_char(c).len() == 4,
        s[p] == '\\',
        escape(s, p + 1) == (Some(c), p + 4),
{
    let e = escape_text_char(c);
    let n = (c as u32) as nat;
    let a = (n / 64) % 8;
    let b = (n / 8) % 8;
    let z = n % 8;
    lemma_hex_char(a);
    lemma_hex_char(b);
    lemma_hex_char(z);
    assert(e =~= seq!['\\', hex_char(a), hex_char(b), hex_char(z)]);
    assert forall|i: int| 0 <= i < 4 implies s[p + i] == e[i] by {
        assert(s.subrange(p, p + 4)[i] == s[p + i]);
    }
    assert(n / 64 < 4);
    assert('0' <= s[p + 1] <= '7') by {
        let u = (a + 48) as u32;
        assert((u as char) as u32 == u);
    }
    assert(s[p + 1] != 'a' && s[p + 1] != 'b' && s[p + 1] != 'v' && s[p + 1] != 'f' && s[p + 1] != 't');
    assert(s[p + 1] != 'r' && s[p + 1] != 'n' && s[p + 1] != 'x' && s[p + 1] != 'u' && s[p + 1] != 'U');
    assert(digits(s, p + 1, 3, 8, 0) == (n as int, p + 4)) by {
        reveal_with_fuel(digits, 4);
        assert((a * 8 + b) * 8 + z == n);
    }
    assert(((c as u32) as char) == c);
}

/// One escaped character inside a quoted string reads back as itself.
pub proof fn lemma_escape_reads_back(s: Seq<char>, p: int, c: char)
    requires
        (c as u32) <= 0xFFFF,
        at(s, p, escape_text_char(c)),
        p + escape_text_char(c).len() < s.len(),
    ensures
        quoted(s, p) == match quoted(s, p + escape_text_char(c).len()) {
            None => None,
            Some((t, r)) => Some((seq![c] + t, r)),
        },
{
    let e = escape_text_char(c);
    let code = c as u32;
    if code > 0xFF {
        lemma_wide_escape(s, p, c);
    } else if code > 0x7F {
        lemma_octal_escape(s, p, c);
    } else {
        assert forall|i: int| 0 <= i < e.len() implies s[p + i] == e[i] by {
            assert(s.subrange(p, p + e.len())[i] == s[p + i]);
        }
        if code == 7 || code == 8 || code == 11 || code == 12 || c == '\\' || c == '"' {
            assert(e.len() == 2);
            assert(s[p] == '\\');
            assert(((code as char)) == c);
            assert(escape(s, p + 1) == (Some(c), p + 2));
        } else {
            assert(e =~= seq![c]);
            assert(s[p + 0] == e[0]);
            assert(s[p] == c);
        }
    }
}

/// The escaped body of a string and a closing quote read back as the
/// string.
pub proof fn lemma_quoted_reads_back(s: Seq<char>, p: int, t: Seq<char>)
    requires
        forall|i: int| 0 <= i < t.len() ==> (#[trigger] t[i] as u32) <= 0xFFFF,
        at(s, p, escape_body(t) + seq!['"']),
    ensures
        quoted(s, p) == Some((t, p + escape_body(t).len() + 1)),
    decreases t.len(),
{
    let b = escape_body(t);
    if t.len() == 0 {
        assert(b =~= Seq::<char>::empty());
        assert(s[p] == (b + seq!['"'])[0]) by {
            assert(s.subrange(p, p + 1)[0] == s[p]);
        }
    } else {
        let c = t[0];
        let rest = t.subrange(1, t.len() as int);
        assert(t =~= seq![c] + rest);
        lemma_escape_front(c, rest);
        let e = escape_text_char(c);
        let br = escape_body(rest);
        assert(b == e + br);
        assert(e.len() >= 1);
        assert(b + seq!['"'] =~= e + (br + seq!['"']));
        lemma_at_split(s, p, e, br + seq!['"']);
        assert forall|i: int| 0 <= i < rest.len() implies (#[trigger] rest[i] as u32) <= 0xFFFF by {
            assert(rest[i] == t[i + 1]);
        }
        lemma_escape_reads_back(s, p, c);
        lemma_quoted_reads_back(s, p + e.len(), rest);
        assert(seq![c] + rest == t);
    }
}

/// Whether a string reads back as itself from GNUStep text: no character
/// beyond U+FFFF (the generator writes those as one wide escape, of which
/// the parser reads only four digits), and, when it is written unquoted, no
/// start that opens a comment.
pub open spec fn gs_string_reads_back(t: Seq<char>) -> bool {
    &&& forall|i: int| 0 <= i < t.len() ==> (#[trigger] t[i] as u32) <= 0xFFFF
    &&& (t.len() > 0 && !needs_quotes(gs_quotable_set(), t)) ==> !(t.len() >= 2 && t[0] == '/' && (t[1] == '/' || t[1]
        == '*'))
}

/// Nothing is skipped at the end of the input.
proof fn lemma_skip_end(s: Seq<char>)
    ensures
        skip(s, s.len() as int) == Some(s.len() as int),
{
    let e = Seq::<char>::empty();
    assert(s.subrange(s.len() as int, s.len() as int) =~= e);
    lemma_skip_run(s, s.len() as int, e);
}

/// Nothing is skipped before a token that starts the input.
proof fn lemma_skip_start(s: Seq<char>)
    requires
        token_start(s, 0),
    ensures
        skip(s, 0) == Some(0int),
{
    let e = Seq::<char>::empty();
    assert(s.subrange(0, 0) =~= e);
    lemma_skip_run(s, 0, e);
}




/// Looking for a character over a run that lacks it stops right after the
/// run, where it stands.
proof fn lemma_find_run(s: Seq<char>, p: int, t: Seq<char>, ch: char)
    requires
        at(s, p, t),
        forall|i: int| 0 <= i < t.len() ==> #[trigger] t[i] != ch,
        p + t.len() < s.len() && s[p + t.len()] == ch,
    ensures
        find_char(s, p, ch) == p + t.len(),
    decreases t.len(),
{
    if t.len() > 0 {
        assert(s[p] == t[0]) by {
            assert(s.subrange(p, p + t.len())[0] == s[p]);
        }
        let t2 = t.subrange(1, t.len() as int);
        assert(s.subrange(p + 1, p + 1 + t2.len()) =~= t2) by {
            assert forall|i: int| 0 <= i < t2.len() implies s.subrange(p + 1, p + 1 + t2.len())[i] == t2[i] by {
                assert(s[p + 1 + i] == s.subrange(p, p + t.len())[i + 1]);
            }
        }
        assert forall|i: int| 0 <= i < t2.len() implies #[trigger] t2[i] != ch by {
            assert(t2[i] == t[i + 1]);
        }
        lemma_find_run(s, p + 1, t2, ch);
    }
}



/// Hex groups read back as their bytes, appended to whatever was read
/// before them.
proof fn lemma_hex_groups_read(s: Seq<char>, p: int, d: Seq<u8>, acc: Seq<u8>)
    requires
        at(s, p, hex_groups(d)),
    ensures
        hex(s, p, acc, false) == hex(s, p + hex_groups(d).len(), acc + d, false),
    decreases d.len(),
{
    if d.len() == 0 {
        assert(acc + d =~= acc);
    } else {
        let d2 = d.drop_last();
        let k = d.len() - 1;
        let sp: Seq<char> = if k > 0 && k % 4 == 0 {
            seq![' ']
        } else {
            Seq::empty()
        };
        let b = d.last();
        let hb = hex_byte(b);
        assert(hex_groups(d) == hex_groups(d2) + sp + hb);
        assert(hex_groups(d) =~= hex_groups(d2) + (sp + hb));
        lemma_at_split(s, p, hex_groups(d2), sp + hb);
        lemma_hex_groups_read(s, p, d2, acc);
        let q = p + hex_groups(d2).len();
        lemma_at_split(s, q, sp, hb);
        let r = q + sp.len();
        let hi = (b / 16) as nat;
        let lo = (b % 16) as nat;
        lemma_hex_char(hi);
        lemma_hex_char(lo);
        assert(s[r] == hex_char(hi) && s[r + 1] == hex_char(lo)) by {
            assert(s.subrange(r, r + 2)[0] == s[r]);
            assert(s.subrange(r, r + 2)[1] == s[r + 1]);
        }
        assert(!hex_gap(hex_char(hi)) && !hex_gap(hex_char(lo)));
        if sp.len() == 1 {
            assert(s[q] == ' ') by {
                assert(s.subrange(q, q + 1)[0] == s[q]);
            }
            assert(hex(s, q, acc + d2, false) == hex(s, r, acc + d2, false));
        }
        let a1 = (acc + d2).push(hi as u8);
        assert(hex(s, r, acc + d2, false) == hex(s, r + 1, a1, true));
        assert(a1.update(a1.len() - 1, ((a1.last() as int) * 16 + lo) as u8) =~= acc + d);
        assert(hex(s, r + 1, a1, true) == hex(s, r + 2, acc + d, false));
    }
}


/// Hex groups of some bytes start with a hex digit.
proof fn lemma_first_hex(d: Seq<u8>)
    requires
        d.len() > 0,
    ensures
        hex_groups(d).len() >= 2,
        hex_groups(d)[0] != '*' && hex_groups(d)[0] != '[',
    decreases d.len(),
{
    let d2 = d.drop_last();
    lemma_hex_char((d.last() / 16) as nat);
    if d2.len() == 0 {
        assert(hex_groups(d2) =~= Seq::<char>::empty());
        assert(hex_groups(d)[0] == hex_byte(d.last())[0]);
    } else {
        lemma_first_hex(d2);
        assert(hex_groups(d)[0] == hex_groups(d2)[0]);
    }
}

/// Whether every character of `t` is whitespace.
pub open spec fn ws_text(t: Seq<char>) -> bool {
    forall|i: int| 0 <= i < t.len() ==> is_ws(#[trigger] t[i])
}

/// Whether reading the tree `n` turns the document GNUStep: it holds a
/// typed scalar (an integer, boolean, UID, real or date).
pub open spec fn sets_gnustep(n: Node) -> bool
    decreases n,
{
    match n {
        Node::Array(vs) => exists|i: int| 0 <= i < vs.len() && sets_gnustep(#[trigger] vs[i]),
        Node::Dictionary(es) => exists|i: int| 0 <= i < es.len() && sets_gnustep(#[trigger] es[i].1),
        Node::String(_) => false,
        Node::Data(_) => false,
        _ => true,
    }
}

/// Whether one of the first `i` elements turns the document GNUStep.
pub open spec fn sets_before(vs: Seq<Node>, i: int) -> bool {
    exists|j: int| 0 <= j < i && sets_gnustep(#[trigger] vs[j])
}

/// Whether one of the first `i` entry values turns the document GNUStep.
pub open spec fn sets_before_entries(es: Seq<(Seq<char>, Node)>, i: int) -> bool {
    exists|j: int| 0 <= j < i && sets_gnustep(#[trigger] es[j].1)
}

/// Whether the tree `n`, written as GNUStep text and read with `k` nesting
/// levels to spare in dialect state `g`, reads back as itself: strings
/// read back, no real, dates at whole seconds from year 0 on (with the
/// civil fields the `time` crate gives), no empty string in an array,
/// distinct dictionary keys, and no dictionary that the reader would
/// collapse to a UID.
pub open spec fn gs_tree(n: Node, k: nat, g: bool) -> bool
    decreases n,
{
    k >= 1 && match n {
        Node::String(t) => gs_string_reads_back(t),
        Node::Integer(_) => true,
        Node::Boolean(_) => true,
        Node::Data(_) => true,
        Node::Uid(_) => k >= 2,
        Node::Date(dt) => {
            &&& dt.unix_nanos() % 1_000_000_000 == 0
            &&& crate::date::civil_fields_of(dt.unix_nanos()).0 >= 0
            &&& crate::date::civil_fields_sound(dt.unix_nanos())
        },
        Node::Array(vs) => forall|i: int|
            0 <= i < vs.len() ==> #[trigger] vs[i] != Node::String(Seq::empty()) && gs_tree(
                vs[i],
                (k - 1) as nat,
                g || sets_before(vs, i),
            ),
        Node::Dictionary(es) => {
            &&& node_keys_unique(es)
            &&& node_uid(es, !(g || sets_before_entries(es, es.len() as int))) is None
            &&& forall|i: int|
                0 <= i < es.len() ==> gs_string_reads_back(#[trigger] es[i].0) && gs_tree(
                    es[i].1,
                    (k - 1) as nat,
                    g || sets_before_entries(es, i),
                )
        },
        _ => false,
    }
}

/// Whether an unquoted token stops at `e`.
pub open spec fn follows(s: Seq<char>, e: int) -> bool {
    e >= s.len() || quotable(s[e])
}

/// A string's text at the token `q` that `p` skips to reads back.
proof fn lemma_string_at(s: Seq<char>, p: int, q: int, t: Seq<char>, d: int, g: bool, m: Map<int, Option<u64>>)
    requires
        0 <= d < 128,
        0 <= p <= q,
        skip(s, p) == Some(q),
        gs_string_reads_back(t),
        at(s, q, quoted_text(gs_quotable_set(), t)),
        follows(s, q + quoted_text(gs_quotable_set(), t).len()),
    ensures
        value(s, p, d, g, m) == Ok::<(Node, int, bool), TextFault>(
            (Node::String(t), q + quoted_text(gs_quotable_set(), t).len(), g),
        ),
{
    let w = quoted_text(gs_quotable_set(), t);
    lemma_structural_quotable();
    if t.len() == 0 || needs_quotes(gs_quotable_set(), t) {
        let b = escape_body(t);
        if t.len() == 0 {
            assert(b =~= Seq::<char>::empty());
        }
        assert(w =~= seq!['"'] + (b + seq!['"']));
        lemma_at_split(s, q, seq!['"'], b + seq!['"']);
        assert(s[q] == '"') by {
            assert(s.subrange(q, q + 1)[0] == s[q]);
        }
        lemma_quoted_reads_back(s, q + 1, t);
    } else {
        lemma_escape_bare(t);
        assert(w == t);
        assert(s[q] == t[0]) by {
            assert(s.subrange(q, q + t.len())[0] == s[q]);
        }
        assert(!quotable(t[0]));
        lemma_unquoted_run(s, q, t);
    }
}

/// A typed GNUStep scalar `<*` + letter + body + `>` at `q` finds its body.
proof fn lemma_typed_at(s: Seq<char>, q: int, letter: char, body: Seq<char>, m: Map<int, Option<u64>>)
    requires
        at(s, q, seq!['<', '*', letter] + body + seq!['>']),
        body.len() >= 1,
        body[0] != '"',
        body.last() != '"',
        forall|i: int| 0 <= i < body.len() ==> #[trigger] body[i] != '>',
        letter == 'I' || letter == 'B' || letter == 'D',
    ensures
        s[q] == '<' && s[q + 1] == '*',
        gs_typed(s, q + 2, m) == match crate::text::grammar::typed_node(letter, body, m[q + 2]) {
            Some(n) => Some((n, q + 3 + body.len() + 1)),
            None => None,
        },
{
    let w = seq!['<', '*', letter] + body + seq!['>'];
    assert forall|i: int| 0 <= i < w.len() implies s[q + i] == w[i] by {
        assert(s.subrange(q, q + w.len())[i] == s[q + i]);
    }
    assert(s[q] == w[0] && s[q + 1] == w[1] && s[q + 2] == w[2] && s[q + 3] == w[3]);
    assert(at(s, q + 3, body)) by {
        assert(s.subrange(q + 3, q + 3 + body.len()) =~= body) by {
            assert forall|i: int| 0 <= i < body.len() implies s.subrange(q + 3, q + 3 + body.len())[i] == body[i] by {
                assert(s[q + 3 + i] == w[3 + i]);
            }
        }
    }
    assert(s[q + 3 + body.len()] == w[3int + body.len()]);
    lemma_find_run(s, q + 3, body, '>');
    assert(s.subrange(q + 3, q + 3 + body.len()) == body);
}

/// An integer's text at the token `q` that `p` skips to reads back.
proof fn lemma_integer_at(
    s: Seq<char>,
    p: int,
    q: int,
    i: Integer,
    d: int,
    g: bool,
    indent: Seq<char>,
    depth: nat,
    reals: Seq<(u64, Vec<char>)>,
    m: Map<int, Option<u64>>,
)
    requires
        0 <= d < 128,
        0 <= p <= q,
        skip(s, p) == Some(q),
        at(s, q, text_node(Node::Integer(i), true, indent, depth, reals)),
    ensures
        value(s, p, d, g, m) matches Ok((n, e, g2)) && e == q + text_node(Node::Integer(i), true, indent, depth, reals).len()
            && g2 && node_eq(n, Node::Integer(i)),
{
    let v = i.value();
    let digs = signed_decimal(v);
    assert(text_node(Node::Integer(i), true, indent, depth, reals) =~= seq!['<', '*', 'I'] + digs + seq!['>']);
    let mag: nat = if v < 0 {
        (-v) as nat
    } else {
        v as nat
    };
    lemma_decimal_digits_shape(mag);
    let dd = decimal_digits(mag);
    assert forall|k: int| 0 <= k < digs.len() implies #[trigger] digs[k] != '>' && digs[k] != '"' by {
        if v < 0 {
            if k > 0 {
                assert(digs[k] == dd[k - 1]);
            }
        } else {
            assert(digs[k] == dd[k]);
        }
    }
    lemma_typed_at(s, q, 'I', digs, m);
    match i {
        Integer::Signed(x) => {
            crate::scalar::decimal_text_reads_back(0, x);
            if x >= 0 {
                crate::scalar::decimal_text_reads_back(x as u64, x);
            }
        },
        Integer::Unsigned(u) => {
            crate::scalar::decimal_text_reads_back(u, 0);
        },
    }
    assert(v < 0 <==> digs[0] == '-') by {
        if v >= 0 {
            assert(digs[0] == dd[0]);
        }
    }
    let t = crate::text::grammar::typed_node('I', digs, m[q + 2]);
    assert(t matches Some(Node::Integer(j)) && j.value() == v);
}

/// A boolean's text at the token `q` that `p` skips to reads back.
proof fn lemma_boolean_at(
    s: Seq<char>,
    p: int,
    q: int,
    b: bool,
    d: int,
    g: bool,
    indent: Seq<char>,
    depth: nat,
    reals: Seq<(u64, Vec<char>)>,
    m: Map<int, Option<u64>>,
)
    requires
        0 <= d < 128,
        0 <= p <= q,
        skip(s, p) == Some(q),
        at(s, q, text_node(Node::Boolean(b), true, indent, depth, reals)),
    ensures
        value(s, p, d, g, m) == Ok::<(Node, int, bool), TextFault>((Node::Boolean(b), q + 5, true)),
        text_node(Node::Boolean(b), true, indent, depth, reals).len() == 5,
{
    let l = if b {
        'Y'
    } else {
        'N'
    };
    assert(text_node(Node::Boolean(b), true, indent, depth, reals) =~= seq!['<', '*', 'B'] + seq![l] + seq!['>']);
    lemma_typed_at(s, q, 'B', seq![l], m);
}

/// A date's text at the token `q` that `p` skips to reads back.
proof fn lemma_date_text_at(
    s: Seq<char>,
    p: int,
    q: int,
    dt: crate::date::Date,
    d: int,
    g: bool,
    indent: Seq<char>,
    depth: nat,
    reals: Seq<(u64, Vec<char>)>,
    m: Map<int, Option<u64>>,
)
    requires
        0 <= d < 128,
        0 <= p <= q,
        skip(s, p) == Some(q),
        at(s, q, text_node(Node::Date(dt), true, indent, depth, reals)),
        dt.unix_nanos() % 1_000_000_000 == 0,
        crate::date::civil_fields_of(dt.unix_nanos()).0 >= 0,
        crate::date::civil_fields_sound(dt.unix_nanos()),
    ensures
        value(s, p, d, g, m) matches Ok((x, e, g2)) && e == q + text_node(Node::Date(dt), true, indent, depth, reals).len()
            && g2 && node_eq(x, Node::Date(dt)),
{
    let n = dt.unix_nanos();
    let f = crate::date::text_layout_text(crate::date::civil_fields_of(n));
    crate::date::text_layout_reads_back(n);
    assert(text_node(Node::Date(dt), true, indent, depth, reals) =~= seq!['<', '*', 'D'] + f + seq!['>']);
    assert forall|i: int| 0 <= i < f.len() implies #[trigger] f[i] != '>' by {
        assert(f[i] != '>' && f[i] != '"');
    }
    lemma_typed_at(s, q, 'D', f, m);
    crate::date::lemma_date_at(n);
}

/// Data's text at the token `q` that `p` skips to reads back.
proof fn lemma_data_at(
    s: Seq<char>,
    p: int,
    q: int,
    b: Seq<u8>,
    d: int,
    g: bool,
    indent: Seq<char>,
    depth: nat,
    reals: Seq<(u64, Vec<char>)>,
    m: Map<int, Option<u64>>,
)
    requires
        0 <= d < 128,
        0 <= p <= q,
        skip(s, p) == Some(q),
        at(s, q, text_node(Node::Data(b), true, indent, depth, reals)),
    ensures
        value(s, p, d, g, m) == Ok::<(Node, int, bool), TextFault>(
            (Node::Data(b), q + text_node(Node::Data(b), true, indent, depth, reals).len(), g),
        ),
{
    let gr = hex_groups(b);
    let w = seq!['<'] + gr + seq!['>'];
    assert(text_node(Node::Data(b), true, indent, depth, reals) =~= w);
    assert forall|i: int| 0 <= i < w.len() implies s[q + i] == w[i] by {
        assert(s.subrange(q, q + w.len())[i] == s[q + i]);
    }
    assert(at(s, q + 1, gr)) by {
        assert(s.subrange(q + 1, q + 1 + gr.len()) =~= gr) by {
            assert forall|i: int| 0 <= i < gr.len() implies s.subrange(q + 1, q + 1 + gr.len())[i] == gr[i] by {
                assert(s[q + 1 + i] == w[1 + i]);
            }
        }
    }
    lemma_hex_groups_read(s, q + 1, b, Seq::empty());
    assert(Seq::<u8>::empty() + b =~= b);
    assert(s[q + 1 + gr.len()] == w[1int + gr.len()]);
    assert(s[q] == w[0]);
    if b.len() > 0 {
        lemma_first_hex(b);
        assert(s[q + 1] == w[1]);
    } else {
        assert(s[q + 1] == w[1]);
    }
}

/// Line breaks and indentation made of whitespace are whitespace.
proof fn lemma_indent_ws(indent: Seq<char>, depth: nat)
    requires
        ws_text(indent),
    ensures
        ws_text(indent_text(indent, depth)),
{
    lemma_structural_quotable();
    if indent.len() > 0 {
        lemma_repeat_ws(indent, depth);
        let r = repeat(indent, depth);
        assert forall|i: int| 0 <= i < indent_text(indent, depth).len() implies is_ws(#[trigger] indent_text(indent, depth)[i]) by {
            if i > 0 {
                assert(indent_text(indent, depth)[i] == r[i - 1]);
            }
        }
    }
}

proof fn lemma_repeat_ws(indent: Seq<char>, n: nat)
    requires
        ws_text(indent),
    ensures
        ws_text(repeat(indent, n)),
    decreases n,
{
    if n > 0 {
        lemma_repeat_ws(indent, (n - 1) as nat);
        let r = repeat(indent, (n - 1) as nat);
        assert forall|i: int| 0 <= i < repeat(indent, n).len() implies is_ws(#[trigger] repeat(indent, n)[i]) by {
            if i < r.len() {
                assert(repeat(indent, n)[i] == r[i]);
            } else {
                assert(repeat(indent, n)[i] == indent[i - r.len()]);
            }
        }
    }
}

/// The first character of a tree's text: never whitespace, a separator or
/// a closing bracket, and a `/` never opens a comment inside the text.
proof fn lemma_text_first(v: Node, k: nat, g: bool, indent: Seq<char>, depth: nat, reals: Seq<(u64, Vec<char>)>)
    requires
        gs_tree(v, k, g),
    ensures
        ({
            let t = text_node(v, true, indent, depth, reals);
            &&& t.len() >= 1
            &&& !is_ws(t[0])
            &&& t[0] != ',' && t[0] != ')' && t[0] != '}' && t[0] != '"' || v is String
            &&& t[0] == '/' ==> (v is String && (t.len() >= 2 ==> t[1] != '/' && t[1] != '*'))
            &&& (v is String ==> t[0] != ',' && t[0] != ')' && t[0] != '}')
            &&& 33 <= (t[0] as u32) <= 126
        }),
{
    lemma_structural_quotable();
    whitespace_members(123);
    whitespace_members(40);
    whitespace_members(60);
    let t = text_node(v, true, indent, depth, reals);
    match v {
        Node::String(x) => {
            if x.len() == 0 || needs_quotes(gs_quotable_set(), x) {
                assert(t[0] == '"');
            } else {
                lemma_escape_bare(x);
                assert(t == x);
                assert(!quotable(x[0]));
                if is_ws(x[0]) {
                    lemma_ws_quotable(x[0]);
                }
                gs_quotable_members((x[0] as u32) as u8);
            }
        },
        Node::Dictionary(_) => {
            assert(t[0] == '{');
        },
        Node::Uid(_) => {
            assert(t[0] == '{');
        },
        Node::Array(_) => {
            assert(t[0] == '(');
        },
        _ => {
            assert(t[0] == '<');
        },
    }
}

/// A token can start where a tree's text stands before a quotable
/// character or the end.
proof fn lemma_token_at(s: Seq<char>, q: int, v: Node, k: nat, g: bool, indent: Seq<char>, depth: nat, reals: Seq<(u64, Vec<char>)>)
    requires
        gs_tree(v, k, g),
        at(s, q, text_node(v, true, indent, depth, reals)),
        follows(s, q + text_node(v, true, indent, depth, reals).len()),
    ensures
        token_start(s, q),
        q < s.len(),
{
    let t = text_node(v, true, indent, depth, reals);
    lemma_text_first(v, k, g, indent, depth, reals);
    assert(s[q] == t[0]) by {
        assert(s.subrange(q, q + t.len())[0] == s[q]);
    }
    if t.len() >= 2 {
        assert(s[q + 1] == t[1]) by {
            assert(s.subrange(q, q + t.len())[1] == s[q + 1]);
        }
    } else if q + 1 < s.len() {
        gs_quotable_members(47);
        gs_quotable_members(42);
        assert(quotable(s[q + 1]));
        assert(s[q + 1] != '/' && s[q + 1] != '*') by {
            if s[q + 1] == '/' {
                assert((s[q + 1] as u32) as u8 == 47);
            }
            if s[q + 1] == '*' {
                assert((s[q + 1] as u32) as u8 == 42);
            }
        }
    }
}

/// A dictionary key at `q`, quoted or bare, before a quotable character.
proof fn lemma_key_at(s: Seq<char>, q: int, key: Seq<char>)
    requires
        gs_string_reads_back(key),
        at(s, q, quoted_text(gs_quotable_set(), key)),
        follows(s, q + quoted_text(gs_quotable_set(), key).len()),
    ensures
        dict_key(s, q) == Some((key, q + quoted_text(gs_quotable_set(), key).len())),
        s[q] != '}',
{
    let w = quoted_text(gs_quotable_set(), key);
    lemma_structural_quotable();
    gs_quotable_members(125);
    if key.len() == 0 || needs_quotes(gs_quotable_set(), key) {
        let b = escape_body(key);
        if key.len() == 0 {
            assert(b =~= Seq::<char>::empty());
        }
        assert(w =~= seq!['"'] + (b + seq!['"']));
        lemma_at_split(s, q, seq!['"'], b + seq!['"']);
        assert(s[q] == '"') by {
            assert(s.subrange(q, q + 1)[0] == s[q]);
        }
        lemma_quoted_reads_back(s, q + 1, key);
    } else {
        lemma_escape_bare(key);
        assert(w == key);
        assert(s[q] == key[0]) by {
            assert(s.subrange(q, q + key.len())[0] == s[q]);
        }
        assert(!quotable(key[0]));
        lemma_unquoted_run(s, q, key);
        assert(s.subrange(q, q + key.len()) == key);
    }
}

/// The head of a dictionary entry at `pp` (line break, key, delimiter):
/// the dictionary reads the key and stands before its value, which starts
/// `vq` after skipping.
proof fn lemma_entry_head(
    s: Seq<char>,
    pp: int,
    key: Seq<char>,
    rest: Seq<char>,
    child: Node,
    kc: nat,
    gj: bool,
    indent: Seq<char>,
    depth: nat,
    reals: Seq<(u64, Vec<char>)>,
) -> (vq: int)
    requires
        0 <= pp,
        ws_text(indent),
        gs_string_reads_back(key),
        gs_tree(child, kc, gj),
        at(s, pp, indent_text(indent, depth) + quoted_text(gs_quotable_set(), key) + delimiter(indent) + text_node(
            child,
            true,
            indent,
            depth,
            reals,
        ) + rest),
        rest.len() >= 1,
        quotable(rest[0]),
        !is_ws(rest[0]),
    ensures
        ({
            let q = pp + indent_text(indent, depth).len();
            let r = q + quoted_text(gs_quotable_set(), key).len();
            let r2 = if indent.len() == 0 {
                r
            } else {
                r + 1
            };
            &&& skip(s, pp) == Some(q)
            &&& q < s.len() && s[q] != '}'
            &&& dict_key(s, q) == Some((key, r))
            &&& skip(s, r) == Some(r2)
            &&& r2 < s.len() && s[r2] == '='
            &&& vq == r + delimiter(indent).len()
            &&& skip(s, r2 + 1) == Some(vq)
            &&& at(s, vq, text_node(child, true, indent, depth, reals))
            &&& at(s, vq + text_node(child, true, indent, depth, reals).len(), rest)
            &&& follows(s, vq + text_node(child, true, indent, depth, reals).len())
        }),
{
    lemma_structural_quotable();
    whitespace_members(61);
    let it = indent_text(indent, depth);
    let kt = quoted_text(gs_quotable_set(), key);
    let dl = delimiter(indent);
    let tc = text_node(child, true, indent, depth, reals);
    assert(it + kt + dl + tc + rest =~= it + (kt + (dl + (tc + rest))));
    lemma_at_split(s, pp, it, kt + (dl + (tc + rest)));
    let q = pp + it.len();
    lemma_at_split(s, q, kt, dl + (tc + rest));
    let r = q + kt.len();
    lemma_at_split(s, r, dl, tc + rest);
    let vq = r + dl.len();
    lemma_at_split(s, vq, tc, rest);
    let e = vq + tc.len();
    assert(s[e] == rest[0]) by {
        assert(s.subrange(e, e + rest.len())[0] == s[e]);
    }
    assert(follows(s, e));
    lemma_token_at(s, vq, child, kc, gj, indent, depth, reals);
    assert forall|i: int| 0 <= i < dl.len() implies s[r + i] == dl[i] by {
        assert(s.subrange(r, r + dl.len())[i] == s[r + i]);
    }
    assert(s[r] == dl[0]);
    assert(quotable(dl[0]));
    assert(follows(s, q + kt.len()));
    lemma_token_at(s, q, Node::String(key), 1, gj, indent, depth, reals);
    lemma_indent_ws(indent, depth);
    lemma_skip_run(s, pp, it);
    lemma_key_at(s, q, key);
    let e0 = Seq::<char>::empty();
    if indent.len() == 0 {
        assert(dl =~= seq!['=']);
        assert(s.subrange(r, r) =~= e0);
        lemma_skip_run(s, r, e0);
        assert(s.subrange(vq, vq) =~= e0);
        lemma_skip_run(s, vq, e0);
    } else {
        assert(dl =~= seq![' ', '=', ' ']);
        assert(s.subrange(r, r + 1) =~= seq![' ']);
        assert forall|i: int| 0 <= i < seq![' '].len() implies is_ws(#[trigger] seq![' '][i]) by {}
        lemma_skip_run(s, r, seq![' ']);
        assert(s.subrange(r + 2, r + 3) =~= seq![' ']);
        lemma_skip_run(s, r + 2, seq![' ']);
    }
    vq
}

/// The tail of a dictionary entry: after the value comes `;`, and the
/// dictionary goes on after it with the entry added.
proof fn lemma_entry_tail(
    s: Seq<char>,
    pp: int,
    q: int,
    key: Seq<char>,
    r: int,
    r2: int,
    vp: int,
    n: Node,
    e: int,
    d1: int,
    gj: bool,
    g2: bool,
    r0: Seq<(Seq<char>, Node)>,
    m: Map<int, Option<u64>>,
)
    requires
        0 <= pp <= q < r <= r2,
        r2 < s.len(),
        vp == r2 + 1,
        skip(s, pp) == Some(q),
        s[q] != '}',
        dict_key(s, q) == Some((key, r)),
        skip(s, r) == Some(r2),
        s[r2] == '=',
        value(s, vp, d1, gj, m) == Ok::<(Node, int, bool), TextFault>((n, e, g2)),
        vp <= e < s.len(),
        s[e] == ';',
    ensures
        dict(s, pp, d1, gj, r0, false, m) == dict(s, e + 1, d1, g2, r0.push((key, n)), false, m),
{
    lemma_structural_quotable();
    whitespace_members(59);
    let e0 = Seq::<char>::empty();
    assert(s.subrange(e, e) =~= e0);
    assert(token_start(s, e));
    lemma_skip_run(s, e, e0);
}

/// Entries read back with the same keys and equal values make an equal
/// dictionary, which collecting leaves as it is.
proof fn lemma_dict_node(r: Seq<(Seq<char>, Node)>, es: Seq<(Seq<char>, Node)>)
    requires
        node_keys_unique(es),
        r.len() == es.len(),
        forall|i: int| 0 <= i < r.len() ==> #[trigger] r[i].0 == es[i].0 && node_eq(r[i].1, es[i].1),
    ensures
        collect_node_entries(r) == r,
        node_eq(Node::Dictionary(r), Node::Dictionary(es)),
{
    assert(node_keys_unique(r)) by {
        assert forall|i: int, j: int| 0 <= i < j < r.len() implies #[trigger] r[i].0 != #[trigger] r[j].0 by {
            assert(r[i].0 == es[i].0 && r[j].0 == es[j].0);
            assert(es[i].0 != es[j].0);
        }
    }
    crate::binary::readback::lemma_collect_distinct(r);
    assert forall|i: int| #![trigger r[i]] 0 <= i < r.len() implies ({
        let j = crate::value::node_key_index(es, r[i].0);
        j >= 0 && node_eq(r[i].1, es[j].1)
    }) by {
        crate::binary::readback::lemma_node_key_index(es, r[i].0);
        let j = crate::value::node_key_index(es, r[i].0);
        assert(r[i].0 == es[i].0);
        if j != i {
            if j < i {
                assert(es[j].0 != es[i].0);
            } else {
                assert(es[i].0 != es[i].0);
            }
        }
    }
}

/// The UID collapse treats entries read back as it treats the written
/// ones.
proof fn lemma_uid_transfer(r: Seq<(Seq<char>, Node)>, es: Seq<(Seq<char>, Node)>, lax: bool)
    requires
        r.len() == es.len(),
        forall|i: int| 0 <= i < r.len() ==> #[trigger] r[i].0 == es[i].0 && node_eq(r[i].1, es[i].1),
        node_uid(es, lax) is None,
    ensures
        node_uid(r, lax) is None,
{
    if r.len() == 1 {
        assert(r[0].0 == es[0].0 && node_eq(r[0].1, es[0].1));
    }
}

/// The end of a dictionary whose entries all read back: it closes to an
/// equal dictionary.
proof fn lemma_dict_close(
    s: Seq<char>,
    pe: int,
    r: Seq<(Seq<char>, Node)>,
    v: Node,
    k: nat,
    d: int,
    g: bool,
    indent: Seq<char>,
    depth: nat,
    m: Map<int, Option<u64>>,
)
    requires
        v is Dictionary,
        gs_tree(v, k, g),
        ws_text(indent),
        0 <= pe,
        at(s, pe, indent_text(indent, depth)),
        pe + indent_text(indent, depth).len() < s.len(),
        s[pe + indent_text(indent, depth).len()] == '}',
        r.len() == v->Dictionary_0.len(),
        forall|i: int|
            0 <= i < v->Dictionary_0.len() ==> #[trigger] r[i].0 == v->Dictionary_0[i].0 && node_eq(r[i].1, v->Dictionary_0[i].1),
    ensures
        ({
            let gn = g || sets_before_entries(v->Dictionary_0, v->Dictionary_0.len() as int);
            &&& dict(s, pe, d + 1, gn, r, false, m) == Ok::<(Node, int, bool), TextFault>(
                (Node::Dictionary(r), pe + indent_text(indent, depth).len() + 1, gn),
            )
            &&& node_eq(Node::Dictionary(r), v)
        }),
{
    let es = v->Dictionary_0;
    let it0 = indent_text(indent, depth);
    lemma_structural_quotable();
    lemma_indent_ws(indent, depth);
    whitespace_members(125);
    lemma_skip_run(s, pe, it0);
    let gn = g || sets_before_entries(es, es.len() as int);
    lemma_uid_transfer(r, es, !gn);
    lemma_dict_node(r, es);
    assert(close_dictionary(r, gn) == Node::Dictionary(r));
}

/// The `CF$UID` key is written bare and reads back.
proof fn lemma_cfuid_key()
    ensures
        gs_string_reads_back("CF$UID"@),
{
    reveal_strlit("CF$UID");
    let key = "CF$UID"@;
    assert forall|i: int| 0 <= i < key.len() implies (#[trigger] key[i] as u32) <= 0xFFFF && !quotable(key[i]) by {
        gs_quotable_members((key[i] as u32) as u8);
    }
    assert(!needs_quotes(gs_quotable_set(), key)) by {
        if needs_quotes(gs_quotable_set(), key) {
            let i = choose|i: int| 0 <= i < key.len() && ((key[i] as u32) > 0x7F || gs_quotable_set().has_char(#[trigger] key[i]));
            assert(!quotable(key[i]));
        }
    }
}

/// The close of a UID's dictionary: its one entry collapses it.
proof fn lemma_uid_close(s: Seq<char>, pe: int, key: Seq<char>, n: Node, u: u64, d1: int, indent: Seq<char>, depth: nat, m: Map<int, Option<u64>>)
    requires
        key == "CF$UID"@,
        n matches Node::Integer(j) && j.value() == u,
        ws_text(indent),
        0 <= pe,
        at(s, pe, indent_text(indent, depth) + seq!['}']),
    ensures
        dict(s, pe, d1, true, Seq::<(Seq<char>, Node)>::empty().push((key, n)), false, m) == Ok::<(Node, int, bool), TextFault>(
            (Node::Uid(u), pe + indent_text(indent, depth).len() + 1, true),
        ),
{
    let it0 = indent_text(indent, depth);
    lemma_at_split(s, pe, it0, seq!['}']);
    assert(s[pe + it0.len()] == '}') by {
        assert(s.subrange(pe + it0.len(), pe + it0.len() + 1)[0] == s[pe + it0.len()]);
    }
    lemma_structural_quotable();
    lemma_indent_ws(indent, depth);
    whitespace_members(125);
    lemma_skip_run(s, pe, it0);
    let ent = Seq::<(Seq<char>, Node)>::empty().push((key, n));
    assert(node_uid(ent, false) == Some(u));
    assert(close_dictionary(ent, true) == Node::Uid(u));
}

#[verifier::spinoff_prover]
#[verifier::rlimit(60)]
/// A GNUStep UID at the token `q` that `p` skips to reads back: the
/// one-entry `CF$UID` dictionary collapses to it.
proof fn lemma_uid_at(
    s: Seq<char>,
    p: int,
    q: int,
    u: u64,
    d: int,
    g: bool,
    indent: Seq<char>,
    depth: nat,
    reals: Seq<(u64, Vec<char>)>,
    m: Map<int, Option<u64>>,
)
    requires
        0 <= d < 127,
        0 <= p <= q,
        skip(s, p) == Some(q),
        ws_text(indent),
        at(s, q, text_node(Node::Uid(u), true, indent, depth, reals)),
    ensures
        value(s, p, d, g, m) == Ok::<(Node, int, bool), TextFault>(
            (Node::Uid(u), q + text_node(Node::Uid(u), true, indent, depth, reals).len(), true),
        ),
{
    reveal_strlit("CF$UID");
    let key = "CF$UID"@;
    let child = Node::Integer(Integer::Unsigned(u));
    let dd = deeper(depth);
    let it = indent_text(indent, dd);
    let kt = quoted_text(gs_quotable_set(), key);
    let dl = delimiter(indent);
    let tc = text_node(child, true, indent, dd, reals);
    let close = seq![';'] + indent_text(indent, depth) + seq!['}'];
    assert(tc == text_node(Node::Integer(Integer::Unsigned(u)), true, indent, depth, reals));
    let t = text_node(Node::Uid(u), true, indent, depth, reals);
    assert(t =~= seq!['{'] + (it + kt + dl + tc + close));
    lemma_at_split(s, q, seq!['{'], it + kt + dl + tc + close);
    assert(s[q] == '{') by {
        assert(s.subrange(q, q + 1)[0] == s[q]);
    }
    lemma_cfuid_key();
    assert(gs_tree(child, 1, g));
    lemma_structural_quotable();
    whitespace_members(59);
    let vq = lemma_entry_head(s, q + 1, key, close, child, 1, g, indent, dd, reals);
    let q2 = q + 1 + it.len();
    let r = q2 + kt.len();
    let r2 = if indent.len() == 0 {
        r
    } else {
        r + 1
    };
    lemma_integer_at(s, r2 + 1, vq, Integer::Unsigned(u), d + 1, g, indent, dd, reals, m);
    let e = vq + tc.len();
    let n = value(s, r2 + 1, d + 1, g, m)->Ok_0.0;
    assert(s[e] == ';') by {
        assert(s.subrange(e, e + close.len())[0] == s[e]);
    }
    lemma_entry_tail(s, q + 1, q2, key, r, r2, r2 + 1, n, e, d + 1, g, true, Seq::empty(), m);
    let it0 = indent_text(indent, depth);
    assert(close =~= seq![';'] + (it0 + seq!['}']));
    lemma_at_split(s, e, seq![';'], it0 + seq!['}']);
    lemma_uid_close(s, e + 1, key, n, u, d + 1, indent, depth, m);
    assert(e + 1 + it0.len() + 1 == q + t.len());
}

#[verifier::spinoff_prover]
/// The text of a tree at the token `q` that `p` skips to, `d` levels deep
/// with `k` to spare, reads back as an equal tree, and leaves the document
/// GNUStep exactly when it was or the tree holds a typed scalar.
proof fn lemma_value_at(
    s: Seq<char>,
    p: int,
    q: int,
    v: Node,
    k: nat,
    d: int,
    g: bool,
    indent: Seq<char>,
    depth: nat,
    reals: Seq<(u64, Vec<char>)>,
    m: Map<int, Option<u64>>,
)
    requires
        0 <= d,
        d + k == 128,
        gs_tree(v, k, g),
        ws_text(indent),
        0 <= p <= q,
        skip(s, p) == Some(q),
        at(s, q, text_node(v, true, indent, depth, reals)),
        follows(s, q + text_node(v, true, indent, depth, reals).len()),
    ensures
        value(s, p, d, g, m) matches Ok((n, e, g2)) && e == q + text_node(v, true, indent, depth, reals).len()
            && node_eq(n, v) && g2 == (g || sets_gnustep(v)),
    decreases v, 1int, 0int,
{
    let t = text_node(v, true, indent, depth, reals);
    lemma_structural_quotable();
    match v {
        Node::String(x) => {
            lemma_string_at(s, p, q, x, d, g, m);
        },
        Node::Integer(i) => {
            lemma_integer_at(s, p, q, i, d, g, indent, depth, reals, m);
        },
        Node::Boolean(b) => {
            lemma_boolean_at(s, p, q, b, d, g, indent, depth, reals, m);
        },
        Node::Data(b) => {
            lemma_data_at(s, p, q, b, d, g, indent, depth, reals, m);
        },
        Node::Uid(u) => {
            lemma_uid_at(s, p, q, u, d, g, indent, depth, reals, m);
        },
        Node::Date(dt) => {
            lemma_date_text_at(s, p, q, dt, d, g, indent, depth, reals, m);
        },
        Node::Array(vs) => {
            let dd = deeper(depth);
            let body = array_text(vs, true, indent, dd, reals);
            let it0 = indent_text(indent, depth);
            assert(t =~= seq!['('] + (body + (it0 + seq![')'])));
            lemma_at_split(s, q, seq!['('], body + (it0 + seq![')']));
            lemma_at_split(s, q + 1, body, it0 + seq![')']);
            lemma_at_split(s, q + 1 + body.len(), it0, seq![')']);
            assert(s[q] == '(') by {
                assert(s.subrange(q, q + 1)[0] == s[q]);
            }
            assert(vs.take(vs.len() as int) =~= vs);
            let r = lemma_array_prefix(s, q + 1, v, vs.len() as int, k, d, g, indent, depth, reals, m);
            let pe = q + 1 + body.len();
            assert(s[pe + it0.len()] == ')') by {
                assert(s.subrange(pe + it0.len(), pe + it0.len() + 1)[0] == s[pe + it0.len()]);
            }
            lemma_indent_ws(indent, depth);
            whitespace_members(41);
            lemma_skip_run(s, pe, it0);
            assert(array(s, pe, d + 1, g || sets_before(vs, vs.len() as int), r, m) == Ok::<(Node, int, bool), TextFault>(
                (Node::Array(r), pe + it0.len() + 1, g || sets_before(vs, vs.len() as int)),
            ));
            assert(sets_before(vs, vs.len() as int) == sets_gnustep(v));
        },
        Node::Dictionary(es) => {
            let dd = deeper(depth);
            let body = dict_text(es, true, indent, dd, reals);
            let it0 = indent_text(indent, depth);
            assert(t =~= seq!['{'] + (body + (it0 + seq!['}'])));
            lemma_at_split(s, q, seq!['{'], body + (it0 + seq!['}']));
            lemma_at_split(s, q + 1, body, it0 + seq!['}']);
            lemma_at_split(s, q + 1 + body.len(), it0, seq!['}']);
            assert(s[q] == '{') by {
                assert(s.subrange(q, q + 1)[0] == s[q]);
            }
            assert(es.take(es.len() as int) =~= es);
            let r = lemma_dict_prefix(s, q + 1, v, es.len() as int, k, d, g, indent, depth, reals, m);
            let pe = q + 1 + body.len();
            assert(s[pe + it0.len()] == '}') by {
                assert(s.subrange(pe + it0.len(), pe + it0.len() + 1)[0] == s[pe + it0.len()]);
            }
            lemma_dict_close(s, pe, r, v, k, d, g, indent, depth, m);
            assert(sets_before_entries(es, es.len() as int) == sets_gnustep(v));
        },
        _ => {},
    }
}

/// One element of an array: after it comes `,`, and the array goes on
/// after that with the element added.
proof fn lemma_array_step(
    s: Seq<char>,
    pp: int,
    qq: int,
    e: int,
    n: Node,
    d1: int,
    gj: bool,
    g2: bool,
    r0: Seq<Node>,
    m: Map<int, Option<u64>>,
)
    requires
        0 <= pp <= qq < e < s.len(),
        skip(s, pp) == Some(qq),
        s[qq] != ')' && s[qq] != ',',
        value(s, qq, d1, gj, m) == Ok::<(Node, int, bool), TextFault>((n, e, g2)),
        n != Node::String(Seq::empty()),
        s[e] == ',',
        skip(s, e) == Some(e),
    ensures
        array(s, pp, d1, gj, r0, m) == array(s, e + 1, d1, g2, r0.push(n), m),
{
    assert(array(s, e, d1, g2, r0.push(n), m) == array(s, e + 1, d1, g2, r0.push(n), m));
    assert(array(s, pp, d1, gj, r0, m) == array(s, e, d1, g2, r0.push(n), m));
}

#[verifier::spinoff_prover]
#[verifier::rlimit(60)]
/// The first `j` elements of an array read back, each equal to the one
/// written, with the reader standing after them.
proof fn lemma_array_prefix(
    s: Seq<char>,
    q1: int,
    v: Node,
    j: int,
    k: nat,
    d: int,
    g: bool,
    indent: Seq<char>,
    depth: nat,
    reals: Seq<(u64, Vec<char>)>,
    m: Map<int, Option<u64>>,
) -> (r: Seq<Node>)
    requires
        v is Array,
        0 <= d,
        d + k == 128,
        gs_tree(v, k, g),
        ws_text(indent),
        0 <= q1,
        0 <= j <= v->Array_0.len(),
        at(s, q1, array_text(v->Array_0.take(j), true, indent, deeper(depth), reals)),
    ensures
        r.len() == j,
        forall|i: int| 0 <= i < j ==> node_eq(#[trigger] r[i], v->Array_0[i]),
        array(s, q1, d + 1, g, Seq::empty(), m) == array(
            s,
            q1 + array_text(v->Array_0.take(j), true, indent, deeper(depth), reals).len(),
            d + 1,
            g || sets_before(v->Array_0, j),
            r,
            m,
        ),
    decreases v, 0int, j,
{
    let vs = v->Array_0;
    let dd = deeper(depth);
    if j == 0 {
        assert(vs.take(0) =~= Seq::<Node>::empty());
        assert(!sets_before(vs, 0));
        Seq::empty()
    } else {
        let pre = vs.take(j - 1);
        let full = vs.take(j);
        assert(full.drop_last() =~= pre);
        let c = vs[j - 1];
        assert(full.last() == c);
        let ap = array_text(pre, true, indent, dd, reals);
        let it = indent_text(indent, dd);
        let tc = text_node(c, true, indent, dd, reals);
        assert(array_text(full, true, indent, dd, reals) == ap + it + tc + seq![',']);
        assert(ap + it + tc + seq![','] =~= ap + (it + (tc + seq![','])));
        lemma_at_split(s, q1, ap, it + (tc + seq![',']));
        let r0 = lemma_array_prefix(s, q1, v, j - 1, k, d, g, indent, depth, reals, m);
        let pp = q1 + ap.len();
        lemma_at_split(s, pp, it, tc + seq![',']);
        let qq = pp + it.len();
        lemma_at_split(s, qq, tc, seq![',']);
        let e = qq + tc.len();
        lemma_structural_quotable();
        assert(s[e] == ',') by {
            assert(s.subrange(e, e + 1)[0] == s[e]);
        }
        let gj = g || sets_before(vs, j - 1);
        assert(c != Node::String(Seq::empty()) && gs_tree(c, (k - 1) as nat, gj));
        lemma_token_at(s, qq, c, (k - 1) as nat, gj, indent, dd, reals);
        lemma_text_first(c, (k - 1) as nat, gj, indent, dd, reals);
        assert(s[qq] == tc[0]) by {
            assert(s.subrange(qq, qq + tc.len())[0] == s[qq]);
        }
        lemma_indent_ws(indent, dd);
        lemma_skip_run(s, pp, it);
        let e0 = Seq::<char>::empty();
        assert(s.subrange(qq, qq) =~= e0);
        lemma_skip_run(s, qq, e0);
        lemma_value_at(s, qq, qq, c, (k - 1) as nat, d + 1, gj, indent, dd, reals, m);
        let n = value(s, qq, d + 1, gj, m)->Ok_0.0;
        let g2 = gj || sets_gnustep(c);
        assert(n != Node::String(Seq::empty())) by {
            if n == Node::String(Seq::empty()) {
                assert(node_eq(n, c));
            }
        }
        whitespace_members(44);
        assert(s.subrange(e, e) =~= e0);
        lemma_skip_run(s, e, e0);
        assert(tc[0] != ')' && tc[0] != ',') by {
            if c is String {
            } else {
            }
        }
        lemma_array_step(s, pp, qq, e, n, d + 1, gj, g2, r0, m);
        assert(g2 == (g || sets_before(vs, j))) by {
            if sets_before(vs, j) && !sets_before(vs, j - 1) {
                let w = choose|w: int| 0 <= w < j && sets_gnustep(#[trigger] vs[w]);
                assert(w == j - 1);
            }
            if sets_gnustep(c) {
                assert(0 <= j - 1 < j && sets_gnustep(vs[j - 1]));
            }
        }
        let r = r0.push(n);
        assert forall|i: int| 0 <= i < j implies node_eq(#[trigger] r[i], vs[i]) by {
            if i < j - 1 {
                assert(r[i] == r0[i]);
            }
        }
        r
    }
}

#[verifier::spinoff_prover]
#[verifier::rlimit(100)]
/// The first `j` entries of a dictionary read back, each with the same key
/// and an equal value, with the reader standing after them.
proof fn lemma_dict_prefix(
    s: Seq<char>,
    q1: int,
    v: Node,
    j: int,
    k: nat,
    d: int,
    g: bool,
    indent: Seq<char>,
    depth: nat,
    reals: Seq<(u64, Vec<char>)>,
    m: Map<int, Option<u64>>,
) -> (r: Seq<(Seq<char>, Node)>)
    requires
        v is Dictionary,
        0 <= d,
        d + k == 128,
        gs_tree(v, k, g),
        ws_text(indent),
        0 <= q1,
        0 <= j <= v->Dictionary_0.len(),
        at(s, q1, dict_text(v->Dictionary_0.take(j), true, indent, deeper(depth), reals)),
    ensures
        r.len() == j,
        forall|i: int| 0 <= i < j ==> #[trigger] r[i].0 == v->Dictionary_0[i].0 && node_eq(r[i].1, v->Dictionary_0[i].1),
        dict(s, q1, d + 1, g, Seq::empty(), false, m) == dict(
            s,
            q1 + dict_text(v->Dictionary_0.take(j), true, indent, deeper(depth), reals).len(),
            d + 1,
            g || sets_before_entries(v->Dictionary_0, j),
            r,
            false,
            m,
        ),
    decreases v, 0int, j,
{
    let es = v->Dictionary_0;
    let dd = deeper(depth);
    if j == 0 {
        assert(es.take(0) =~= Seq::<(Seq<char>, Node)>::empty());
        assert(!sets_before_entries(es, 0));
        Seq::empty()
    } else {
        let pre = es.take(j - 1);
        let full = es.take(j);
        assert(full.drop_last() =~= pre);
        let key = es[j - 1].0;
        let c = es[j - 1].1;
        assert(full.last() == es[j - 1]);
        let ap = dict_text(pre, true, indent, dd, reals);
        let it = indent_text(indent, dd);
        let kt = quoted_text(gs_quotable_set(), key);
        let dl = delimiter(indent);
        let tc = text_node(c, true, indent, dd, reals);
        assert(dict_text(full, true, indent, dd, reals) == ap + it + kt + dl + tc + seq![';']);
        assert(ap + it + kt + dl + tc + seq![';'] =~= ap + (it + kt + dl + tc + seq![';']));
        lemma_at_split(s, q1, ap, it + kt + dl + tc + seq![';']);
        let r0 = lemma_dict_prefix(s, q1, v, j - 1, k, d, g, indent, depth, reals, m);
        let pp = q1 + ap.len();
        let gj = g || sets_before_entries(es, j - 1);
        assert(gs_string_reads_back(key) && gs_tree(c, (k - 1) as nat, gj));
        lemma_structural_quotable();
        whitespace_members(59);
        let vq = lemma_entry_head(s, pp, key, seq![';'], c, (k - 1) as nat, gj, indent, dd, reals);
        let qq = pp + it.len();
        let rr = qq + kt.len();
        let r2 = if indent.len() == 0 {
            rr
        } else {
            rr + 1
        };
        lemma_value_at(s, r2 + 1, vq, c, (k - 1) as nat, d + 1, gj, indent, dd, reals, m);
        let n = value(s, r2 + 1, d + 1, gj, m)->Ok_0.0;
        let e = vq + tc.len();
        let g2 = gj || sets_gnustep(c);
        assert(s[e] == ';') by {
            assert(s.subrange(e, e + 1)[0] == s[e]);
        }
        lemma_entry_tail(s, pp, qq, key, rr, r2, r2 + 1, n, e, d + 1, gj, g2, r0, m);
        assert(g2 == (g || sets_before_entries(es, j))) by {
            if sets_before_entries(es, j) && !sets_before_entries(es, j - 1) {
                let w = choose|w: int| 0 <= w < j && sets_gnustep(#[trigger] es[w].1);
                assert(w == j - 1);
            }
            if sets_gnustep(c) {
                assert(0 <= j - 1 < j && sets_gnustep(es[j - 1].1));
            }
        }
        let r = r0.push((key, n));
        assert forall|i: int| 0 <= i < j implies #[trigger] r[i].0 == es[i].0 && node_eq(r[i].1, es[i].1) by {
            if i < j - 1 {
                assert(r[i] == r0[i]);
            }
        }
        r
    }
}

/// A tree written as GNUStep text, with an indent made of whitespace, reads
/// back as an equal tree (integers compare by value), and the document
/// reads as GNUStep exactly when the tree holds a typed scalar. This holds
/// of trees without reals, with whole-second dates from year 0 on, whose
/// strings read back, whose arrays
/// hold no empty string, whose dictionaries have distinct keys and are none
/// that the reader collapses to a UID, nested within the parse limit.
pub proof fn gnustep_text_reads_back(v: Node, indent: Seq<char>, reals: Seq<(u64, Vec<char>)>, m: Map<int, Option<u64>>)
    requires
        gs_tree(v, 128, false),
        ws_text(indent),
    ensures
        document(text_node(v, true, indent, 0, reals), m) matches Ok((n, g)) && node_eq(n, v) && g == sets_gnustep(v),
{
    let s = text_node(v, true, indent, 0, reals);
    assert(at(s, 0, s)) by {
        assert(s.subrange(0, s.len() as int) =~= s);
    }
    lemma_token_at(s, 0, v, 128, false, indent, 0, reals);
    lemma_skip_start(s);
    lemma_skip_end(s);
    lemma_value_at(s, 0, 0, v, 128, 0, false, indent, 0, reals, m);
}

/// The first bytes of UTF-8 text that starts with a printable ASCII
/// character: that character, then a byte that is zero only for NUL.
proof fn lemma_first_bytes(t: Seq<char>)
    requires
        t.len() >= 1,
        33 <= (t[0] as u32) <= 126,
    ensures
        vstd::utf8::encode_utf8(t).len() >= 1,
        vstd::utf8::encode_utf8(t)[0] == (t[0] as u32) as u8,
        t.len() == 1 ==> vstd::utf8::encode_utf8(t).len() == 1,
        t.len() >= 2 && t[1] != '\0' ==> vstd::utf8::encode_utf8(t).len() >= 2 && vstd::utf8::encode_utf8(t)[1] != 0,
{
    let x = t[0] as u32;
    let b = vstd::utf8::encode_utf8(t);
    let rest = vstd::utf8::encode_utf8(t.drop_first());
    assert(b == vstd::utf8::encode_scalar(x) + rest);
    assert(x & 0x7F == x) by (bit_vector)
        requires
            x <= 126,
    ;
    assert(vstd::utf8::encode_scalar(x) == seq![x as u8]);
    if t.len() == 1 {
        assert(t.drop_first() =~= Seq::<char>::empty());
    }
    if t.len() >= 2 && t[1] != '\0' {
        let y = t[1] as u32;
        vstd::utf8::char_is_scalar(t[1]);
        let u = t.drop_first();
        assert(u[0] == t[1]);
        assert(rest == vstd::utf8::encode_scalar(y) + vstd::utf8::encode_utf8(u.drop_first()));
        assert(y != 0) by {
            vstd::utf8::char_u32_cast(t[1], y);
            vstd::utf8::char_u32_cast('\0', 0u32);
        }
        assert(1 <= y <= 0x7F ==> (y & 0x7F) as u8 != 0) by (bit_vector);
        assert(0xC0u8 | ((y >> 6) & 0x1F) as u8 != 0) by (bit_vector);
        assert(0xE0u8 | ((y >> 12) & 0x0F) as u8 != 0) by (bit_vector);
        assert(0xF0u8 | ((y >> 18) & 0x7) as u8 != 0) by (bit_vector);
        assert(rest[0] == vstd::utf8::encode_scalar(y)[0]);
    }
}

/// The UTF-8 bytes of a tree's GNUStep text, as the text parser takes
/// them, read back as an equal tree, for the trees of
/// [`gnustep_text_reads_back`] whose text does not have NUL as its second
/// character (a `00` second byte makes the reader take the bytes as
/// UTF-16) and fits the reader's size limit.
pub proof fn gnustep_bytes_read_back(v: Node, indent: Seq<char>, reals: Seq<(u64, Vec<char>)>, m: Map<int, Option<u64>>)
    requires
        gs_tree(v, 128, false),
        ws_text(indent),
        text_node(v, true, indent, 0, reals).len() < 2 || text_node(v, true, indent, 0, reals)[1] != '\0',
        text_node(v, true, indent, 0, reals).len() + 4 < usize::MAX,
    ensures
        crate::text::grammar::text_outcome(vstd::utf8::encode_utf8(text_node(v, true, indent, 0, reals)), m) matches Ok((n, g))
            && node_eq(n, v) && g == sets_gnustep(v),
{
    let t = text_node(v, true, indent, 0, reals);
    let b = vstd::utf8::encode_utf8(t);
    lemma_text_first(v, 128, false, indent, 0, reals);
    lemma_first_bytes(t);
    vstd::utf8::encode_utf8_valid_utf8(t);
    vstd::utf8::encode_utf8_decode_utf8(t);
    assert(b.subrange(0, b.len() as int) =~= b);
    assert(crate::text::grammar::longest_valid(b, b.len() as int) == b.len());
    assert(crate::text::grammar::latin_text(b) == t);
    assert(crate::text::grammar::decoded_text(b) == Some(t));
    gnustep_text_reads_back(v, indent, reals, m);
}

} // verus!
