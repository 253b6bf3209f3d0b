//! What the parser reads back of the objects the generator writes.

use vstd::prelude::*;

use crate::binary::generator::{all_ascii, be_bytes, counted_marker, int_object, lemma_be_bytes_len, lemma_be_round_trip, pow256, units_be, utf16_units};
use crate::binary::generator::{lemma_within_array, lemma_within_dictionary, lemma_within_trans, lemma_same_key_entry, lemma_map_lookup, node_keys_unique, depth_within, crc32, entry_has_key, key_matches, node_has_data, node_within, no_nan, zero_normalized, map_lookup, min_int_size, narrow_wire_bits, real_object, refs_bytes, slot_index, string_object, uid_object, written, FlatEntry, Flattener, RefSlot, UniqueKey};
use crate::binary::parser::{decode_binary, header_ok, trailer_of, container_node, node_text, decode_object, decode_refs, be_uint, container_read, count_read, entry_offset, is_container_tag, payload_read, read_slice, scalar_node, sized_read, Trailer};
use crate::date::{date_at, Date};
use crate::integer::Integer;
use crate::reals::Real;
use crate::value::{collect_node_entries, insert_node_entry, node_eq, node_key_index, Node};
use crate::reals::{is_nan_bits, widen_f32, ieee_eq};

verus! {

/// The bits of the marker bytes in use.
proof fn lemma_marker_bits()
    by (bit_vector)
    ensures
        (0x10u8 & 0xF0u8) == 0x10u8 && (0x10u8 & 0x0Fu8) == 0u8 && (1u64 << 0u64) == 1u64,
        (0x11u8 & 0xF0u8) == 0x10u8 && (0x11u8 & 0x0Fu8) == 1u8 && (1u64 << 1u64) == 2u64,
        (0x12u8 & 0xF0u8) == 0x10u8 && (0x12u8 & 0x0Fu8) == 2u8 && (1u64 << 2u64) == 4u64,
        (0x14u8 & 0xF0u8) == 0x10u8 && (0x14u8 & 0x0Fu8) == 4u8 && (1u64 << 4u64) == 16u64,
        (0x13u8 & 0xF0u8) == 0x10u8 && (0x13u8 & 0x0Fu8) == 3u8 && (1u64 << 3u64) == 8u64,
        (0x50u8 & 0x0Fu8) == 0u8 && (0x60u8 & 0x0Fu8) == 0u8 && (0x40u8 & 0x0Fu8) == 0u8,
        (0x50u8 & 0xF0u8) == 0x50u8,
        (0x60u8 & 0xF0u8) == 0x60u8,
        (0x23u8 & 0xF0u8) == 0x20u8 && (0x23u8 & 0x0Fu8) == 3u8,
        (0x22u8 & 0xF0u8) == 0x20u8 && (0x22u8 & 0x0Fu8) == 2u8,
        (0x08u8 & 0xF0u8) == 0u8 && (0x09u8 & 0xF0u8) == 0u8,
        (0x40u8 & 0xF0u8) == 0x40u8,
        (0x33u8 & 0xF0u8) == 0x30u8,
        (0xA0u8 & 0x0Fu8) == 0u8 && (0xD0u8 & 0x0Fu8) == 0u8,
        (0xA0u8 & 0xF0u8) == 0xA0u8 && (0xD0u8 & 0xF0u8) == 0xD0u8,
        (0u64 & 0x7FFF_FFFF_FFFF_FFFFu64) == 0u64,
{
}

/// `256^n` for the widths in use.
proof fn lemma_pow256_values()
    ensures
        pow256(1) == 0x100,
        pow256(2) == 0x1_0000,
        pow256(4) == 0x1_0000_0000,
        pow256(7) == 0x100_0000_0000_0000,
        pow256(8) == 0x1_0000_0000_0000_0000,
{
    reveal_with_fuel(pow256, 9);
}

/// The first big-endian byte is the number's top byte.
proof fn lemma_be_first(v: nat, n: nat)
    requires
        n >= 1,
        v < pow256(n),
    ensures
        be_bytes(v, n)[0] == v / pow256((n - 1) as nat),
    decreases n,
{
    lemma_be_bytes_len(v, n);
    if n == 1 {
        assert(pow256(0) == 1);
        assert(v < 256);
    } else {
        let p = pow256((n - 2) as nat);
        assert(pow256((n - 1) as nat) == 256 * p);
        assert(v / 256 < pow256((n - 1) as nat)) by (nonlinear_arith)
            requires
                v < pow256(n),
                pow256(n) == 256 * pow256((n - 1) as nat),
        ;
        lemma_be_first(v / 256, (n - 1) as nat);
        lemma_be_bytes_len(v / 256, (n - 1) as nat);
        assert(be_bytes(v, n)[0] == be_bytes(v / 256, (n - 1) as nat)[0]);
        assert(v / 256 / p == v / (256 * p)) by {
            vstd::arithmetic::div_mod::lemma_div_denominator(v as int, 256, p as int);
        }
    }
}

/// A big-endian field of 1, 2, 4 or 8 bytes reads back as the number it
/// holds; the eight-byte form reports a set top bit in its high word.
pub proof fn lemma_sized_read_be(doc: Seq<u8>, p: u64, v: nat, w: u64)
    requires
        w == 1 || w == 2 || w == 4 || w == 8,
        v < pow256(w as nat),
        p + w <= doc.len(),
        doc.subrange(p as int, p + w) == be_bytes(v, w as nat),
    ensures
        sized_read(doc, p, w) == Some(
            (
                v as u64,
                if w == 8 && v >= 0x8000_0000_0000_0000 {
                    u64::MAX
                } else {
                    0u64
                },
                (p + w) as u64,
            ),
        ),
{
    lemma_pow256_values();
    lemma_be_round_trip(v, w as nat);
    assert(read_slice(doc, p, w) == Some(be_bytes(v, w as nat)));
    if w == 8 {
        lemma_be_first(v, 8);
        assert(pow256(7) == 0x100_0000_0000_0000);
        assert(v >= 0x8000_0000_0000_0000 <==> v / 0x100_0000_0000_0000 >= 0x80) by (nonlinear_arith)
            requires
                v < 0x1_0000_0000_0000_0000,
        ;
    }
}

/// The integer the parser reads from the object for the raw pair
/// `(signed, raw)`: the short forms and the 16-byte form read unsigned, the
/// eight-byte form signed exactly when its top bit is set.
pub open spec fn int_decoded(signed: bool, raw: u64) -> Integer {
    if raw <= 0xFFFF_FFFF {
        Integer::Unsigned(raw)
    } else if raw > 0x7FFF_FFFF_FFFF_FFFF && !signed {
        Integer::Unsigned(raw)
    } else if raw >= 0x8000_0000_0000_0000 {
        Integer::Signed(raw as i64)
    } else {
        Integer::Unsigned(raw)
    }
}

/// A piece of a segment is the same piece of the document.
pub proof fn lemma_sub_sub(doc: Seq<u8>, off: int, seg: Seq<u8>, a: int, b: int)
    requires
        0 <= off,
        off + seg.len() <= doc.len(),
        doc.subrange(off, off + seg.len()) == seg,
        0 <= a <= b <= seg.len(),
    ensures
        doc.subrange(off + a, off + b) == seg.subrange(a, b),
{
    assert forall|k: int| 0 <= k < b - a implies doc.subrange(off + a, off + b)[k] == seg.subrange(a, b)[k] by {
        assert(doc.subrange(off, off + seg.len())[a + k] == doc[off + a + k]);
    }
    assert(doc.subrange(off + a, off + b) =~= seg.subrange(a, b));
}

/// The width and high word the parser reads for the integer object of
/// `(signed, raw)` written at `off`.
#[verifier::spinoff_prover]
#[verifier::rlimit(40)]
pub proof fn lemma_int_object_read(doc: Seq<u8>, off: u64, signed: bool, raw: u64)
    requires
        doc.len() <= u64::MAX,
        off + int_object(signed, raw).len() <= doc.len(),
        doc.subrange(off as int, off + int_object(signed, raw).len()) == int_object(signed, raw),
    ensures
        doc[off as int] & 0xF0u8 == 0x10u8,
        int_object(signed, raw).len() == 1 + (1u64 << ((doc[off as int] & 0x0Fu8) as u64)),
        sized_read(doc, (off + 1) as u64, 1u64 << ((doc[off as int] & 0x0Fu8) as u64)) matches Some((lo, hi, next)) && lo
            == raw && next == off + int_object(signed, raw).len() && (if hi == u64::MAX {
            Integer::Signed(lo as i64)
        } else {
            Integer::Unsigned(lo)
        }) == int_decoded(signed, raw),
{
    lemma_pow256_values();
    let obj = int_object(signed, raw);
    assert(doc.subrange(off as int, off + obj.len())[0] == doc[off as int]);
    let p = (off + 1) as u64;
    assert(p == off + 1);
    if raw <= 0xFF {
        lemma_be_bytes_len(raw as nat, 1);
        assert(doc[off as int] == 0x10u8);
        lemma_marker_bits();
        lemma_sub_sub(doc, off as int, obj, 1, 2);
        assert(obj.subrange(1, 2) =~= be_bytes(raw as nat, 1));
        lemma_sized_read_be(doc, p, raw as nat, 1);
    } else if raw <= 0xFFFF {
        lemma_be_bytes_len(raw as nat, 2);
        assert(doc[off as int] == 0x11u8);
        lemma_marker_bits();
        lemma_sub_sub(doc, off as int, obj, 1, 3);
        assert(obj.subrange(1, 3) =~= be_bytes(raw as nat, 2));
        lemma_sized_read_be(doc, p, raw as nat, 2);
    } else if raw <= 0xFFFF_FFFF {
        lemma_be_bytes_len(raw as nat, 4);
        assert(doc[off as int] == 0x12u8);
        lemma_marker_bits();
        lemma_sub_sub(doc, off as int, obj, 1, 5);
        assert(obj.subrange(1, 5) =~= be_bytes(raw as nat, 4));
        lemma_sized_read_be(doc, p, raw as nat, 4);
    } else if raw > 0x7FFF_FFFF_FFFF_FFFF && !signed {
        lemma_be_bytes_len(raw as nat, 8);
        assert(doc[off as int] == 0x14u8);
        lemma_marker_bits();
        lemma_sub_sub(doc, off as int, obj, 1, 17);
        let bytes = doc.subrange(p as int, p + 16);
        assert(bytes =~= Seq::new(8, |i: int| 0u8) + be_bytes(raw as nat, 8));
        assert(bytes.subrange(8, 16) =~= be_bytes(raw as nat, 8));
        lemma_be_round_trip(raw as nat, 8);
        assert(bytes.subrange(0, 8) =~= be_bytes(0, 8)) by {
            reveal_with_fuel(be_bytes, 9);
        }
        lemma_be_round_trip(0, 8);
        assert(read_slice(doc, p, 16) == Some(bytes));
    } else {
        lemma_be_bytes_len(raw as nat, 8);
        assert(doc[off as int] == 0x13u8);
        lemma_marker_bits();
        lemma_sub_sub(doc, off as int, obj, 1, 9);
        assert(obj.subrange(1, 9) =~= be_bytes(raw as nat, 8));
        lemma_sized_read_be(doc, p, raw as nat, 8);
    }
}

/// A counted marker reads back as its count, with the payload right after
/// it; a long count must not pass the offset table.
pub proof fn lemma_count_read(doc: Seq<u8>, t: Trailer, off: u64, tag: u8, count: u64)
    requires
        doc.len() <= u64::MAX,
        tag & 0x0Fu8 == 0u8,
        off + counted_marker(tag, count).len() <= doc.len(),
        doc.subrange(off as int, off + counted_marker(tag, count).len()) == counted_marker(tag, count),
        count >= 15 ==> count <= t.offset_table_offset,
    ensures
        count_read(doc, t, off) == Some((count, (off + counted_marker(tag, count).len()) as u64)),
        doc[off as int] & 0xF0u8 == tag & 0xF0u8,
{
    let cm = counted_marker(tag, count);
    assert(doc.subrange(off as int, off + cm.len())[0] == doc[off as int]);
    if count >= 15 {
        assert(((tag | 0x0Fu8) & 0x0Fu8) == 0x0Fu8 && ((tag | 0x0Fu8) & 0xF0u8) == (tag & 0xF0u8)) by (bit_vector);
        let io = int_object(false, count);
        lemma_sub_sub(doc, off as int, cm, 1, cm.len() as int);
        assert(cm.subrange(1, cm.len() as int) =~= io);
        lemma_int_object_read(doc, (off + 1) as u64, false, count);
        assert(doc.subrange(off + 1, off + 1 + io.len())[0] == doc[off + 1]);
    } else {
        let c8 = count as u8;
        assert(((tag | c8) & 0x0Fu8) == c8 && ((tag | c8) & 0xF0u8) == (tag & 0xF0u8)) by (bit_vector)
            requires
                tag & 0x0Fu8 == 0u8,
                c8 < 15u8,
        ;
    }
}

/// Big-endian byte pairs of code units read back as the code units.
pub proof fn lemma_units_read(u: Seq<u16>)
    ensures
        units_be(u).len() == 2 * u.len(),
        crate::binary::parser::utf16_units(units_be(u)) == u,
    decreases u.len(),
{
    if u.len() > 0 {
        lemma_units_read(u.drop_last());
        lemma_be_bytes_len(u.last() as nat, 2);
        let prev = units_be(u.drop_last());
        let b = units_be(u);
        assert(b == prev + be_bytes(u.last() as nat, 2));
        let k = u.len() - 1;
        assert forall|i: int| 0 <= i < u.len() implies #[trigger] crate::binary::parser::utf16_units(b)[i] == u[i] by {
            if i < k {
                assert(b[2 * i] == prev[2 * i]);
                assert(b[2 * i + 1] == prev[2 * i + 1]);
                assert(crate::binary::parser::utf16_units(prev)[i] == u.drop_last()[i]);
            } else {
                let x = u.last() as nat;
                reveal_with_fuel(be_bytes, 3);
                assert(b[2 * i] == ((x / 256) % 256) as u8);
                assert(b[2 * i + 1] == (x % 256) as u8);
                assert(((x / 256) % 256) * 256 + x % 256 == x) by (nonlinear_arith)
                    requires
                        x < 0x10000,
                ;
            }
        }
        assert(crate::binary::parser::utf16_units(b) =~= u);
    } else {
        assert(crate::binary::parser::utf16_units(units_be(u)) =~= u);
    }
}

/// The code units of text split where the text splits.
pub proof fn lemma_utf16_append(a: Seq<char>, b: Seq<char>)
    ensures
        utf16_units(a + b) == utf16_units(a) + utf16_units(b),
    decreases b.len(),
{
    if b.len() == 0 {
        assert(a + b =~= a);
        assert(utf16_units(a) + utf16_units(b) =~= utf16_units(a));
    } else {
        lemma_utf16_append(a, b.drop_last());
        assert((a + b).drop_last() =~= a + b.drop_last());
        assert((a + b).last() == b.last());
        let c = b.last() as u32;
        if c <= 0xFFFF {
            assert(utf16_units(a) + utf16_units(b) =~= (utf16_units(a) + utf16_units(b.drop_last())).push(c as u16));
        } else {
            let v = (c - 0x10000) as u32;
            assert(utf16_units(a) + utf16_units(b) =~= (utf16_units(a) + utf16_units(b.drop_last())).push(
                (0xD800 + (v / 1024)) as u16,
            ).push((0xDC00 + (v % 1024)) as u16));
        }
    }
}

/// The code units of one character decode back to it, whatever follows.
pub proof fn lemma_utf16_one(c: char, rest: Seq<u16>)
    ensures
        crate::binary::parser::utf16_decode(utf16_units(seq![c]) + rest) == seq![c] + crate::binary::parser::utf16_decode(rest),
{
    let x = c as u32;
    vstd::utf8::char_is_scalar(c);
    assert(seq![c].drop_last() =~= Seq::<char>::empty());
    assert(seq![c].last() == c);
    assert(utf16_units(seq![c].drop_last()) == Seq::<u16>::empty());
    let u = utf16_units(seq![c]) + rest;
    if x <= 0xFFFF {
        assert(utf16_units(seq![c]) =~= seq![x as u16]);
        assert(u[0] == x as u16);
        assert((x as u16) as u32 == x);
        assert(!(0xD800 <= x <= 0xDFFF));
        vstd::utf8::char_u32_cast(c, x);
        assert(u.subrange(1, u.len() as int) =~= rest);
    } else {
        let v = (x - 0x10000) as u32;
        let hi = (0xD800 + (v / 1024)) as u16;
        let lo = (0xDC00 + (v % 1024)) as u16;
        assert(utf16_units(seq![c]) =~= seq![hi, lo]);
        assert(x <= 0x10FFFF);
        assert(0xD800 <= hi as u32 <= 0xDBFF);
        assert(0xDC00 <= lo as u32 <= 0xDFFF);
        assert(u[0] == hi && u[1] == lo);
        assert((0x10000 + (hi as u32 - 0xD800) * 1024 + (lo as u32 - 0xDC00)) as u32 == x) by (nonlinear_arith)
            requires
                hi as u32 == 0xD800 + v / 1024,
                lo as u32 == 0xDC00 + v % 1024,
                v == x - 0x10000,
                x >= 0x10000,
        ;
        vstd::utf8::char_u32_cast(c, x);
        assert(u.subrange(2, u.len() as int) =~= rest);
    }
}

/// Text written as UTF-16 reads back as itself.
pub proof fn lemma_utf16_read(s: Seq<char>)
    ensures
        crate::binary::parser::utf16_decode(utf16_units(s)) == s,
    decreases s.len(),
{
    if s.len() > 0 {
        let first = seq![s[0]];
        let rest = s.subrange(1, s.len() as int);
        assert(s =~= first + rest);
        lemma_utf16_append(first, rest);
        lemma_utf16_one(s[0], utf16_units(rest));
        lemma_utf16_read(rest);
        assert(seq![s[0]] + rest =~= s);
    } else {
        assert(utf16_units(s) =~= Seq::<u16>::empty());
    }
}

/// ASCII text written as bytes reads back as itself.
pub proof fn lemma_ascii_read(s: Seq<char>)
    requires
        all_ascii(s),
    ensures
        crate::binary::parser::latin1(s.map_values(|c: char| (c as u32) as u8)) == s,
{
    let b = s.map_values(|c: char| (c as u32) as u8);
    assert forall|i: int| 0 <= i < s.len() implies #[trigger] crate::binary::parser::latin1(b)[i] == s[i] by {
        let x = s[i] as u32;
        assert(x <= 0x7F);
        assert((x as u8) as u32 == x);
        vstd::utf8::char_u32_cast(s[i], x);
    }
    assert(crate::binary::parser::latin1(b) =~= s);
}

/// The model the parser reads of a non-container object, a date object
/// reading as `d`.
pub open spec fn scalar_decoded(e: FlatEntry, d: Date) -> Node {
    match e {
        FlatEntry::Text(s) => Node::String(s@),
        FlatEntry::Int(signed, raw) => Node::Integer(int_decoded(signed, raw)),
        FlatEntry::Float(x) => Node::Real(
            if x.spec_wide() {
                Real::wide_real(x.spec_raw())
            } else {
                Real::narrow_real(narrow_wire_bits(x.spec_raw() as u32))
            },
        ),
        FlatEntry::Bool(b) => Node::Boolean(b),
        FlatEntry::UidNum(v) => Node::Uid(v),
        FlatEntry::Bytes(b) => Node::Data(b@),
        FlatEntry::When(_) => Node::Date(d),
        FlatEntry::Container(..) => Node::Boolean(false),
    }
}

/// A counted payload of `len` bytes right after its marker, ending at or
/// before the offset table, reads back as those bytes.
proof fn lemma_payload(doc: Seq<u8>, t: Trailer, off: u64, seg: Seq<u8>, a: int, len: int)
    requires
        doc.len() <= u64::MAX,
        off + seg.len() <= t.offset_table_offset,
        t.offset_table_offset <= doc.len(),
        doc.subrange(off as int, off + seg.len()) == seg,
        0 <= a,
        a + len == seg.len(),
        len >= 0,
    ensures
        payload_read(doc, t, (off + a) as u64, len as u64) == Some(seg.subrange(a, a + len)),
{
    lemma_sub_sub(doc, off as int, seg, a, a + len);
}

/// Every non-container object reads back as its decoded model, and its
/// marker is not a container's.
#[verifier::spinoff_prover]
#[verifier::rlimit(60)]
pub proof fn lemma_scalar_read(
    doc: Seq<u8>,
    t: Trailer,
    off: u64,
    end: u64,
    e: FlatEntry,
    size: u8,
    map: Seq<(UniqueKey, u64)>,
    d: Date,
)
    requires
        doc.len() <= u64::MAX,
        off < end <= t.offset_table_offset,
        t.offset_table_offset <= doc.len(),
        e !is Container,
        written(doc.subrange(off as int, end as int), e, size, map),
    ensures
        !is_container_tag(doc[off as int]),
        scalar_node(doc, t, off, doc[off as int], d) == Some(scalar_decoded(e, d)),
{
    lemma_pow256_values();
    let seg = doc.subrange(off as int, end as int);
    assert(seg[0] == doc[off as int]);
    let tag = doc[off as int];
    lemma_marker_bits();
    match e {
        FlatEntry::Text(s) => {
            let text = s@;
            if all_ascii(text) {
                let cm = counted_marker(0x50, text.len() as u64);
                lemma_sub_sub(doc, off as int, seg, 0, cm.len() as int);
                assert(seg.subrange(0, cm.len() as int) =~= cm);
                lemma_count_read(doc, t, off, 0x50, text.len() as u64);
                let body = text.map_values(|c: char| (c as u32) as u8);
                lemma_payload(doc, t, off, seg, cm.len() as int, text.len() as int);
                assert(seg.subrange(cm.len() as int, seg.len() as int) =~= body);
                lemma_ascii_read(text);
                lemma_marker_bits();
            } else {
                let units = utf16_units(text);
                let cm = counted_marker(0x60, units.len() as u64);
                lemma_units_read(units);
                lemma_sub_sub(doc, off as int, seg, 0, cm.len() as int);
                assert(seg.subrange(0, cm.len() as int) =~= cm);
                lemma_count_read(doc, t, off, 0x60, units.len() as u64);
                lemma_payload(doc, t, off, seg, cm.len() as int, 2 * units.len() as int);
                assert(seg.subrange(cm.len() as int, seg.len() as int) =~= units_be(units));
                lemma_utf16_read(text);
                lemma_marker_bits();
            }
        },
        FlatEntry::Int(signed, raw) => {
            lemma_int_object_read(doc, off, signed, raw);
            let low = tag & 0x0Fu8;
            assert(tag & 0x0Fu8 == low);
        },
        FlatEntry::Float(x) => {
            if x.spec_wide() {
                lemma_be_bytes_len(x.spec_raw() as nat, 8);
                assert(tag == 0x23u8);
                lemma_marker_bits();
                lemma_sub_sub(doc, off as int, seg, 1, 9);
                assert(seg.subrange(1, 9) =~= be_bytes(x.spec_raw() as nat, 8));
                lemma_be_round_trip(x.spec_raw() as nat, 8);
            } else {
                let w = narrow_wire_bits(x.spec_raw() as u32);
                lemma_be_bytes_len(w as nat, 4);
                assert(tag == 0x22u8);
                lemma_marker_bits();
                lemma_sub_sub(doc, off as int, seg, 1, 5);
                assert(seg.subrange(1, 5) =~= be_bytes(w as nat, 4));
                lemma_be_round_trip(w as nat, 4);
            }
        },
        FlatEntry::Bool(b) => {
            lemma_marker_bits();
        },
        FlatEntry::UidNum(v) => {
            let n = min_int_size(v);
            lemma_be_bytes_len(v as nat, n as nat);
            let t8 = (0x80u8 | ((n - 1) as u8)) as u8;
            assert(tag == t8);
            let k = (n - 1) as u8;
            assert((0x80u8 | k) & 0xF0u8 == 0x80u8 && (0x80u8 | k) & 0x0Fu8 == k) by (bit_vector)
                requires
                    k < 8u8,
            ;
            lemma_sub_sub(doc, off as int, seg, 1, 1 + n);
            assert(seg.subrange(1, 1 + n) =~= be_bytes(v as nat, n as nat));
            lemma_sized_read_be(doc, (off + 1) as u64, v as nat, n as u64);
        },
        FlatEntry::Bytes(b) => {
            let cm = counted_marker(0x40, b@.len() as u64);
            lemma_sub_sub(doc, off as int, seg, 0, cm.len() as int);
            assert(seg.subrange(0, cm.len() as int) =~= cm);
            lemma_count_read(doc, t, off, 0x40, b@.len() as u64);
            lemma_payload(doc, t, off, seg, cm.len() as int, b@.len() as int);
            assert(seg.subrange(cm.len() as int, seg.len() as int) =~= b@);
            lemma_marker_bits();
        },
        FlatEntry::When(_) => {
            assert(tag == 0x33u8);
            lemma_marker_bits();
        },
        FlatEntry::Container(..) => {},
    }
}

/// Where the objects of a finished flattening sit in a document whose
/// trailer reads as `t`.
pub open spec fn doc_ok(doc: Seq<u8>, t: Trailer, fl: Flattener, offs: Seq<u64>, ends: Seq<u64>) -> bool {
    let n = fl.objtable@.len();
    &&& doc.len() <= u64::MAX
    &&& fl.wf()
    &&& forall|j: int| 0 <= j < n ==> #[trigger] fl.done@[j]
    &&& t.num_objects == n
    &&& n >= 1
    &&& t.object_ref_size == min_int_size(n as u64)
    &&& t.offset_table_offset <= doc.len()
    &&& offs.len() == n
    &&& ends.len() == n
    &&& forall|j: int| #![trigger offs[j]] 0 <= j < n ==> 8 <= offs[j] < ends[j] <= t.offset_table_offset
    &&& forall|j: int| #![trigger ends[j]] 0 <= j < n - 1 ==> ends[j] == offs[j + 1]
    &&& forall|j: int| #![trigger fl.objtable@[j]] 0 <= j < n ==> written(
        doc.subrange(offs[j] as int, ends[j] as int),
        fl.objtable@[j],
        t.object_ref_size,
        fl.objmap@,
    )
    &&& forall|j: int| #![trigger offs[j]] 0 <= j < n ==> entry_offset(doc, t, j as u64) == Some(offs[j])
}

/// Objects sit in table order.
pub proof fn lemma_offsets_increase(offs: Seq<u64>, ends: Seq<u64>, i: int, j: int)
    requires
        offs.len() == ends.len(),
        forall|k: int| #![trigger offs[k]] 0 <= k < offs.len() ==> offs[k] < ends[k],
        forall|k: int| #![trigger ends[k]] 0 <= k < offs.len() - 1 ==> ends[k] == offs[k + 1],
        0 <= i < j < offs.len(),
    ensures
        offs[i] < offs[j],
    decreases j - i,
{
    assert(offs[j - 1] < ends[j - 1]);
    assert(ends[j - 1] == offs[j]);
    if i < j - 1 {
        lemma_offsets_increase(offs, ends, i, j - 1);
    }
}

/// `n` objects can be named in `min_int_size(n)` bytes.
pub proof fn lemma_ref_fits(n: u64, idx: u64)
    requires
        idx < n,
    ensures
        (idx as nat) < pow256(min_int_size(n) as nat),
        min_int_size(n) == 1 || min_int_size(n) == 2 || min_int_size(n) == 4 || min_int_size(n) == 8,
{
    lemma_pow256_values();
}

/// The reference list is `size` bytes per reference.
pub proof fn lemma_refs_bytes(refs: Seq<RefSlot>, map: Seq<(UniqueKey, u64)>, size: u8)
    ensures
        refs_bytes(refs, map, size).len() == refs.len() * size,
        forall|k: int| 0 <= k < refs.len() ==> #[trigger] refs_bytes(refs, map, size).subrange(k * size, (k + 1) * size)
            == be_bytes(slot_index(refs[k], map) as nat, size as nat),
    decreases refs.len(),
{
    if refs.len() > 0 {
        let prev = refs.drop_last();
        lemma_refs_bytes(prev, map, size);
        let b = refs_bytes(refs, map, size);
        let last = be_bytes(slot_index(refs.last(), map) as nat, size as nat);
        lemma_be_bytes_len(slot_index(refs.last(), map) as nat, size as nat);
        assert(b == refs_bytes(prev, map, size) + last);
        assert((refs.len() - 1) * size + size == refs.len() * size) by (nonlinear_arith);
        assert forall|k: int| 0 <= k < refs.len() implies #[trigger] b.subrange(k * size, (k + 1) * size) == be_bytes(
            slot_index(refs[k], map) as nat,
            size as nat,
        ) by {
            assert((k + 1) * size == k * size + size) by (nonlinear_arith);
            if k < refs.len() - 1 {
                assert((k + 1) * size <= (refs.len() - 1) * size) by (nonlinear_arith)
                    requires
                        k + 1 <= refs.len() - 1,
                ;
                assert(0 <= k * size) by (nonlinear_arith)
                    requires
                        k >= 0,
                ;
                assert(b.subrange(k * size, (k + 1) * size) =~= refs_bytes(prev, map, size).subrange(k * size, (k + 1) * size));
                assert(prev[k] == refs[k]);
            } else {
                assert(b.subrange(k * size, (k + 1) * size) =~= last);
            }
        }
    }
}

/// A container object reads back as its header, and its reference list
/// sits right after the marker.
#[verifier::spinoff_prover]
#[verifier::rlimit(40)]
pub proof fn lemma_container_read(
    doc: Seq<u8>,
    t: Trailer,
    off: u64,
    end: u64,
    tag: u8,
    count: u64,
    refs: Seq<RefSlot>,
    map: Seq<(UniqueKey, u64)>,
    size: u8,
) -> (start: u64)
    requires
        doc.len() <= u64::MAX,
        off < end <= t.offset_table_offset,
        t.offset_table_offset <= doc.len(),
        doc.subrange(off as int, end as int) == counted_marker(tag, count) + refs_bytes(refs, map, size),
        tag == 0xA0u8 || tag == 0xD0u8,
        refs.len() == (if tag == 0xD0u8 {
            2 * count
        } else {
            count as int
        }),
        size >= 1,
        size == t.object_ref_size,
    ensures
        is_container_tag(doc[off as int]),
        (doc[off as int] & 0xF0u8 == 0xD0u8) == (tag == 0xD0u8),
        container_read(doc, t, off, doc[off as int]) == Some((count, start, refs.len() as u64, tag == 0xD0u8)),
        start + refs.len() * size == end,
        forall|k: int| 0 <= k < refs.len() ==> #[trigger] doc.subrange(start + k * size, start + (k + 1) * size)
            == be_bytes(slot_index(refs[k], map) as nat, size as nat),
{
    let seg = doc.subrange(off as int, end as int);
    let cm = counted_marker(tag, count);
    lemma_refs_bytes(refs, map, size);
    let rb = refs_bytes(refs, map, size);
    assert(seg.len() == cm.len() + rb.len());
    assert(refs.len() * size >= refs.len()) by (nonlinear_arith)
        requires
            size >= 1,
    ;
    lemma_sub_sub(doc, off as int, seg, 0, cm.len() as int);
    assert(seg.subrange(0, cm.len() as int) =~= cm);
    lemma_marker_bits();
    lemma_marker_bits();
    lemma_count_read(doc, t, off, tag, count);
    let start = (off + cm.len()) as u64;
    assert forall|k: int| 0 <= k < refs.len() implies #[trigger] doc.subrange(start + k * size, start + (k + 1) * size)
        == be_bytes(slot_index(refs[k], map) as nat, size as nat) by {
        assert((k + 1) * size <= refs.len() * size) by (nonlinear_arith)
            requires
                k + 1 <= refs.len(),
                size >= 1,
        ;
        assert(0 <= k * size) by (nonlinear_arith)
            requires
                k >= 0,
        ;
        assert(rb.len() == refs.len() * size);
        assert(seg.len() == cm.len() + rb.len());
        assert((k + 1) * size == k * size + size) by (nonlinear_arith);
        assert(seg == cm + rb);
        lemma_sub_sub(doc, off as int, seg, cm.len() + k * size, cm.len() + (k + 1) * size);
        assert forall|q: int| 0 <= q < size implies #[trigger] seg.subrange(cm.len() + k * size, cm.len() + (k + 1) * size)[q]
            == rb.subrange(k * size, (k + 1) * size)[q] by {
            assert(seg[cm.len() + k * size + q] == rb[k * size + q]);
        }
        assert(seg.subrange(cm.len() + k * size, cm.len() + (k + 1) * size) =~= rb.subrange(k * size, (k + 1) * size));
    }
    start
}

/// The integer read back has the value written.
pub proof fn lemma_int_equiv(i: Integer)
    ensures
        int_decoded(i.raw_parts().0, i.raw_parts().1).value() == i.value(),
{
    match i {
        Integer::Signed(v) => {
            let raw = v as u64;
            assert(raw <= 0x7FFF_FFFF_FFFF_FFFFu64 ==> raw as int == v as int) by (bit_vector)
                requires
                    raw == v as u64,
            ;
            assert(raw >= 0x8000_0000_0000_0000u64 ==> (raw as i64) as int == v as int) by (bit_vector)
                requires
                    raw == v as u64,
            ;
        },
        Integer::Unsigned(v) => {},
    }
}

/// A binary32 NaN widens to a binary64 NaN.
pub proof fn lemma_widen_nan(b: u32)
    requires
        crate::binary::generator::is_nan32(b),
    ensures
        crate::reals::is_nan_bits(crate::reals::widen_f32(b)),
{
    let sign = ((b >> 31u32) as u64) << 63u64;
    let frac = b & 0x7F_FFFFu32;
    assert((b >> 23u32) & 0xFFu32 == 0xFFu32) by (bit_vector)
        requires
            (b & 0x7F80_0000u32) == 0x7F80_0000u32,
    ;
    let x = sign | (0x7FFu64 << 52u64) | ((frac as u64) << 29u64);
    assert((x & 0x7FF0_0000_0000_0000u64) == 0x7FF0_0000_0000_0000u64 && (x & 0x000F_FFFF_FFFF_FFFFu64) != 0) by (bit_vector)
        requires
            x == sign | (0x7FFu64 << 52u64) | ((frac as u64) << 29u64),
            frac == b & 0x7F_FFFFu32,
            sign == ((b >> 31u32) as u64) << 63u64,
            (b & 0x007F_FFFFu32) != 0,
    ;
}

/// Whether no two different data payloads of `root` share a CRC-32.
pub open spec fn crc_distinct(root: Node) -> bool {
    forall|a: Seq<u8>, b: Seq<u8>|
        #![trigger node_has_data(root, a), node_has_data(root, b)]
        node_has_data(root, a) && node_has_data(root, b) && crc32(a) == crc32(b) ==> a == b
}

/// A data value inside a tree is one of its payloads.
pub proof fn lemma_within_data(b: Seq<u8>, root: Node)
    requires
        node_within(Node::Data(b), root),
    ensures
        node_has_data(root, b),
    decreases root,
{
    if Node::Data(b) != root {
        match root {
            Node::Array(items) => {
                let i = choose|i: int| 0 <= i < items.len() && node_within(Node::Data(b), #[trigger] items[i]);
                lemma_within_data(b, items[i]);
            },
            Node::Dictionary(es) => {
                let i = choose|i: int| 0 <= i < es.len() && node_within(Node::Data(b), #[trigger] es[i].1);
                lemma_within_data(b, es[i].1);
            },
            _ => {},
        }
    }
}

/// A real inside a tree without NaNs is not a NaN.
pub proof fn lemma_within_real(r: Real, root: Node)
    requires
        node_within(Node::Real(r), root),
        no_nan(root),
    ensures
        !is_nan_bits(r.value_bits()),
    decreases root,
{
    if Node::Real(r) != root {
        match root {
            Node::Array(items) => {
                let i = choose|i: int| 0 <= i < items.len() && node_within(Node::Real(r), #[trigger] items[i]);
                lemma_within_real(r, items[i]);
            },
            Node::Dictionary(es) => {
                let i = choose|i: int| 0 <= i < es.len() && node_within(Node::Real(r), #[trigger] es[i].1);
                lemma_within_real(r, es[i].1);
            },
            _ => {},
        }
    }
}

/// What the parser reads of an object with key `k` equals, as property
/// lists compare, any value with that key.
pub proof fn lemma_key_equiv(e: FlatEntry, k: UniqueKey, c: Node, d: Date, root: Node)
    requires
        entry_has_key(e, k),
        key_matches(k, c),
        e matches FlatEntry::Bytes(b) ==> node_has_data(root, b@),
        c matches Node::Data(x) ==> node_has_data(root, x),
        crc_distinct(root),
        e matches FlatEntry::Float(r) ==> !is_nan_bits(r.value_bits()),
        c matches Node::Real(r) ==> !is_nan_bits(r.value_bits()),
        e matches FlatEntry::When(x) ==> d == x,
    ensures
        node_eq(scalar_decoded(e, d), c),
{
    match e {
        FlatEntry::Int(signed, raw) => {
            assert(k is Int);
            assert(c is Integer);
            let i = c->Integer_0;
            assert(i.raw_parts() == (signed, raw));
            lemma_int_equiv(i);
            assert(node_eq(scalar_decoded(e, d), c));
        },
        FlatEntry::Float(r) => {
            if let Node::Real(r2) = c {
                Real::lemma_ctors(r.spec_raw(), narrow_wire_bits(r.spec_raw() as u32));
                let dec = if r.spec_wide() {
                    Real::wide_real(r.spec_raw())
                } else {
                    Real::narrow_real(narrow_wire_bits(r.spec_raw() as u32))
                };
                if !r.spec_wide() {
                    let b = r.spec_raw() as u32;
                    if crate::binary::generator::is_nan32(b) {
                        lemma_widen_nan(b);
                    }
                    assert(narrow_wire_bits(b) == b);
                    assert((b as u64) as u32 == b);
                }
                assert(dec.value_bits() == r.value_bits());
                let x = r.value_bits();
                let y = r2.value_bits();
                assert(zero_normalized(x) == zero_normalized(y));
                lemma_marker_bits();
                assert(ieee_eq(x, y));
            }
            assert(node_eq(scalar_decoded(e, d), c));
        },
        FlatEntry::Bytes(b) => {
            if let Node::Data(x) = c {
                assert(node_has_data(root, b@) && node_has_data(root, x));
            }
            assert(node_eq(scalar_decoded(e, d), c));
        },
        FlatEntry::Text(x) => {
            assert(c == Node::String(x@));
            assert(node_eq(scalar_decoded(e, d), c));
        },
        FlatEntry::Bool(x) => {
            assert(c == Node::Boolean(x));
            assert(node_eq(scalar_decoded(e, d), c));
        },
        FlatEntry::UidNum(x) => {
            assert(c == Node::Uid(x));
            assert(node_eq(scalar_decoded(e, d), c));
        },
        FlatEntry::When(x) => {
            assert(c is Date);
            assert(c->Date_0.unix_nanos() == x.unix_nanos());
            assert(node_eq(scalar_decoded(e, d), c));
        },
        FlatEntry::Container(..) => {},
    }
}

/// Looking up the key of entry `k` among entries with distinct keys finds
/// entry `k`; a key none has is not found.
pub proof fn lemma_node_key_index(es: Seq<(Seq<char>, Node)>, key: Seq<char>)
    ensures
        node_key_index(es, key) >= -1,
        node_key_index(es, key) == -1 <==> forall|j: int| 0 <= j < es.len() ==> es[j].0 != key,
        node_key_index(es, key) >= 0 ==> node_key_index(es, key) < es.len() && es[node_key_index(es, key)].0 == key && forall|j: int|
            0 <= j < node_key_index(es, key) ==> es[j].0 != key,
    decreases es.len(),
{
    if es.len() > 0 {
        let p = es.drop_last();
        lemma_node_key_index(p, key);
        assert forall|j: int| 0 <= j < p.len() implies p[j] == es[j] by {}
        if node_key_index(p, key) < 0 && es.last().0 != key {
            assert forall|j: int| 0 <= j < es.len() implies es[j].0 != key by {
                if j < p.len() {
                    assert(p[j] == es[j]);
                }
            }
        }
    }
}

/// Collecting entries whose keys are distinct keeps them as they are.
pub proof fn lemma_collect_distinct(p: Seq<(Seq<char>, Node)>)
    requires
        node_keys_unique(p),
    ensures
        collect_node_entries(p) == p,
    decreases p.len(),
{
    if p.len() > 0 {
        let q = p.drop_last();
        assert(node_keys_unique(q)) by {
            assert forall|i: int, j: int| 0 <= i < j < q.len() implies #[trigger] q[i].0 != #[trigger] q[j].0 by {
                assert(q[i] == p[i] && q[j] == p[j]);
            }
        }
        lemma_collect_distinct(q);
        lemma_node_key_index(q, p.last().0);
        assert forall|j: int| 0 <= j < q.len() implies q[j].0 != p.last().0 by {
            assert(q[j] == p[j]);
            assert(p[j].0 != p[p.len() - 1].0);
        }
        assert(insert_node_entry(q, p.last().0, p.last().1) =~= q.push(p.last()));
        assert(q.push(p.last()) =~= p);
    }
}

/// A container built from members that equal the children of a value
/// equals that value.
pub proof fn lemma_container_node(nodes: Seq<Node>, count: u64, is_dictionary: bool, model: Node)
    requires
        model matches Node::Array(items) ==> !is_dictionary && count == items.len() && nodes.len() == items.len()
            && forall|k: int| 0 <= k < items.len() ==> node_eq(#[trigger] nodes[k], items[k]),
        model matches Node::Dictionary(es) ==> is_dictionary && count == es.len() && nodes.len() == 2 * es.len()
            && node_keys_unique(es) && (forall|k: int| 0 <= k < es.len() ==> #[trigger] nodes[k] == Node::String(es[k].0))
            && forall|k: int| 0 <= k < es.len() ==> node_eq(#[trigger] nodes[count + k], es[k].1),
        model is Array || model is Dictionary,
    ensures
        container_node(nodes, count, is_dictionary) matches Some(n) && node_eq(n, model),
{
    match model {
        Node::Array(items) => {},
        Node::Dictionary(es) => {
            assert(!(exists|i: int| 0 <= i < count && !(#[trigger] nodes[i] is String))) by {
                assert forall|i: int| 0 <= i < count implies #[trigger] nodes[i] is String by {
                    assert(nodes[i] == Node::String(es[i].0));
                }
            }
            let pairs = Seq::new(count as nat, |i: int| (node_text(nodes[i]), nodes[count + i]));
            assert forall|k: int| 0 <= k < es.len() implies #[trigger] pairs[k].0 == es[k].0 by {
                assert(nodes[k] == Node::String(es[k].0));
            }
            assert(node_keys_unique(pairs)) by {
                assert forall|i: int, j: int| 0 <= i < j < pairs.len() implies #[trigger] pairs[i].0 != #[trigger] pairs[j].0 by {
                    assert(pairs[i].0 == es[i].0 && pairs[j].0 == es[j].0);
                }
            }
            lemma_collect_distinct(pairs);
            let n = Node::Dictionary(pairs);
            assert forall|i: int| #![trigger pairs[i]] 0 <= i < pairs.len() implies {
                let j = node_key_index(es, pairs[i].0);
                j >= 0 && node_eq(pairs[i].1, es[j].1)
            } by {
                lemma_node_key_index(es, pairs[i].0);
                let j = node_key_index(es, pairs[i].0);
                assert(pairs[i].0 == es[i].0);
                if j != i {
                    if j < i {
                        assert(es[j].0 == es[i].0);
                    } else {
                        assert(j >= 0);
                    }
                }
                assert(j == i);
                assert(node_eq(nodes[count + i], es[i].1));
            }
        },
        _ => {},
    }
}

/// The model decoding object `j` must give: a container equals the value
/// it was made from, any other object reads as `scalar_decoded`.
pub open spec fn expected(fl: Flattener, d: spec_fn(u64) -> Date, j: int, n: Node) -> bool {
    if fl.objtable@[j] is Container {
        node_eq(n, fl.models@[j])
    } else {
        n == scalar_decoded(fl.objtable@[j], d(j as u64))
    }
}

/// Every memoized object holds what decoding it must give.
pub open spec fn memo_right(fl: Flattener, d: spec_fn(u64) -> Date, memo: Seq<Option<Node>>) -> bool {
    &&& memo.len() == fl.objtable@.len()
    &&& forall|j: int| 0 <= j < memo.len() && #[trigger] memo[j] is Some ==> expected(fl, d, j, memo[j].unwrap())
}

/// Every date object reads as the date it was made from.
pub open spec fn dates_match(fl: Flattener, d: spec_fn(u64) -> Date) -> bool {
    forall|j: int| 0 <= j < fl.objtable@.len() ==> (#[trigger] fl.objtable@[j] matches FlatEntry::When(x) ==> d(j as u64) == x)
}

/// A non-container object decodes as `scalar_decoded`, from any memo that
/// is right.
pub proof fn lemma_scalar_decodes(
    doc: Seq<u8>,
    t: Trailer,
    fl: Flattener,
    offs: Seq<u64>,
    ends: Seq<u64>,
    d: spec_fn(u64) -> Date,
    memo: Seq<Option<Node>>,
    stack: Seq<u64>,
    j: int,
)
    requires
        doc_ok(doc, t, fl, offs, ends),
        memo_right(fl, d, memo),
        0 <= j < fl.objtable@.len(),
        fl.objtable@[j] !is Container,
    ensures
        decode_object(doc, t, d, memo, stack, j as u64) matches (Ok(n), m2) && n == scalar_decoded(fl.objtable@[j], d(j as u64))
            && memo_right(fl, d, m2),
{
    if memo[j] is None {
        assert(entry_offset(doc, t, j as u64) == Some(offs[j]));
        assert(written(doc.subrange(offs[j] as int, ends[j] as int), fl.objtable@[j], t.object_ref_size, fl.objmap@));
        lemma_scalar_read(doc, t, offs[j], ends[j], fl.objtable@[j], t.object_ref_size, fl.objmap@, d(j as u64));
        let n = scalar_decoded(fl.objtable@[j], d(j as u64));
        let m2 = memo.update(j, Some(n));
        assert forall|k: int| 0 <= k < m2.len() && #[trigger] m2[k] is Some implies expected(fl, d, k, m2[k].unwrap()) by {
            if k != j {
                assert(memo[k] is Some);
            }
        }
    }
}

/// The model of child `c` of a container made from `model`: a dictionary
/// lists its keys, then its values.
pub open spec fn child_model(model: Node, c: int) -> Node {
    match model {
        Node::Array(items) => items[c],
        Node::Dictionary(es) => if c < es.len() {
            Node::String(es[c].0)
        } else {
            es[c - es.len()].1
        },
        _ => model,
    }
}

/// A complete container decodes as the value it was made from, given a
/// right memo, room for its nesting, and only earlier containers open.
pub proof fn lemma_object_decodes(
    doc: Seq<u8>,
    t: Trailer,
    fl: Flattener,
    offs: Seq<u64>,
    ends: Seq<u64>,
    d: spec_fn(u64) -> Date,
    memo: Seq<Option<Node>>,
    stack: Seq<u64>,
    i: int,
)
    requires
        doc_ok(doc, t, fl, offs, ends),
        memo_right(fl, d, memo),
        dates_match(fl, d),
        no_nan(fl.root@),
        crc_distinct(fl.root@),
        0 <= i < fl.objtable@.len(),
        fl.objtable@[i] is Container,
        stack.len() <= 128,
        depth_within(fl.models@[i], (128 - stack.len()) as nat),
        forall|k: int| 0 <= k < stack.len() ==> #[trigger] stack[k] < offs[i],
    ensures
        decode_object(doc, t, d, memo, stack, i as u64) matches (Ok(n), m2) && node_eq(n, fl.models@[i]) && memo_right(fl, d, m2),
    decreases fl.objtable@.len() - i, 1int, 0int,
{
    if memo[i] is None {
        assert(fl.done@[i]);
        assert(fl.container_ok(i));
        let tag = fl.objtable@[i]->Container_0;
        let count = fl.objtable@[i]->Container_1;
        let refs = fl.objtable@[i]->Container_2;
        let size = t.object_ref_size;
        assert(written(doc.subrange(offs[i] as int, ends[i] as int), fl.objtable@[i], size, fl.objmap@));
        assert(entry_offset(doc, t, i as u64) == Some(offs[i]));
        lemma_ref_fits(t.num_objects, 0);
        let start = lemma_container_read(doc, t, offs[i], ends[i], tag, count, refs@, fl.objmap@, size);
        assert(!stack.contains(offs[i]));
        assert(depth_within(fl.models@[i], (128 - stack.len()) as nat));
        assert(stack.len() < 128);
        lemma_refs_decode(doc, t, fl, offs, ends, d, memo, stack, i, start, 0);
        let stack2 = stack.push(offs[i]);
        let (items, m) = decode_refs(doc, t, d, memo, stack2, start, refs@.len() as nat);
        let nodes = items->Ok_0;
        assert(start + 0 * size == start);
        match fl.models@[i] {
            Node::Array(its) => {},
            Node::Dictionary(es) => {
                assert forall|k: int| 0 <= k < es.len() implies #[trigger] nodes[k] == Node::String(es[k].0) by {
                    assert(node_eq(nodes[k], child_model(fl.models@[i], k)));
                }
                assert forall|k: int| 0 <= k < es.len() implies node_eq(#[trigger] nodes[count + k], es[k].1) by {
                    assert(node_eq(nodes[es.len() + k], child_model(fl.models@[i], es.len() + k)));
                }
            },
            _ => {},
        }
        lemma_container_node(nodes, count, tag == 0xD0u8, fl.models@[i]);
        let n = container_node(nodes, count, tag == 0xD0u8)->Some_0;
        let m2 = m.update(i, Some(n));
        assert forall|k: int| 0 <= k < m2.len() && #[trigger] m2[k] is Some implies expected(fl, d, k, m2[k].unwrap()) by {
            if k != i {
                assert(m[k] is Some);
            }
        }
    }
}

/// The context of decoding the references of the complete container `i`
/// whose list starts at `start`.
pub open spec fn refs_context(
    doc: Seq<u8>,
    t: Trailer,
    fl: Flattener,
    offs: Seq<u64>,
    ends: Seq<u64>,
    d: spec_fn(u64) -> Date,
    stack: Seq<u64>,
    i: int,
    start: u64,
) -> bool {
    &&& doc_ok(doc, t, fl, offs, ends)
    &&& dates_match(fl, d)
    &&& no_nan(fl.root@)
    &&& crc_distinct(fl.root@)
    &&& 0 <= i < fl.objtable@.len()
    &&& fl.objtable@[i] is Container
    &&& stack.len() < 128
    &&& depth_within(fl.models@[i], (128 - stack.len()) as nat)
    &&& forall|k: int| 0 <= k < stack.len() ==> #[trigger] stack[k] < offs[i]
    &&& start + fl.objtable@[i]->Container_2@.len() * t.object_ref_size == ends[i]
    &&& forall|k: int| 0 <= k < fl.objtable@[i]->Container_2@.len() ==> #[trigger] doc.subrange(
        start + k * t.object_ref_size,
        start + (k + 1) * t.object_ref_size,
    ) == be_bytes(slot_index(fl.objtable@[i]->Container_2@[k], fl.objmap@) as nat, t.object_ref_size as nat)
}

/// Reference `c0` of a complete container decodes as its child.
#[verifier::spinoff_prover]
#[verifier::rlimit(60)]
pub proof fn lemma_child_decodes(
    doc: Seq<u8>,
    t: Trailer,
    fl: Flattener,
    offs: Seq<u64>,
    ends: Seq<u64>,
    d: spec_fn(u64) -> Date,
    memo: Seq<Option<Node>>,
    stack: Seq<u64>,
    i: int,
    start: u64,
    c0: int,
)
    requires
        refs_context(doc, t, fl, offs, ends, d, stack, i, start),
        memo_right(fl, d, memo),
        0 <= c0 < fl.objtable@[i]->Container_2@.len(),
    ensures
        decode_object(doc, t, d, memo, stack.push(offs[i]), slot_index(fl.objtable@[i]->Container_2@[c0], fl.objmap@))
            matches (Ok(n1), m1) && node_eq(n1, child_model(fl.models@[i], c0)) && memo_right(fl, d, m1),
        slot_index(fl.objtable@[i]->Container_2@[c0], fl.objmap@) < t.num_objects,
    decreases fl.objtable@.len() - i, 0int, 0int,
{
    let refs = fl.objtable@[i]->Container_2@;
    let stack2 = stack.push(offs[i]);
    let root = fl.root@;
    let model = fl.models@[i];
    assert(fl.done@[i]);
    assert(fl.container_ok(i));
    let slot = refs[c0];
    let child = child_model(model, c0);
    assert(fl.slot_ok(i, slot, child)) by {
        match model {
            Node::Array(items) => {},
            Node::Dictionary(es) => {
                if c0 >= es.len() {
                    assert(refs[es.len() + (c0 - es.len())] == slot);
                }
            },
            _ => {},
        }
    }
    assert(node_within(model, root));
    assert(node_within(child, root) || child is String) by {
        match model {
            Node::Array(items) => {
                lemma_within_array(child, items, c0);
                lemma_within_trans(child, model, root);
            },
            Node::Dictionary(es) => {
                if c0 >= es.len() {
                    lemma_within_dictionary(child, es, c0 - es.len());
                    lemma_within_trans(child, model, root);
                }
            },
            _ => {},
        }
    }
    match slot {
        RefSlot::Fixed(c) => {
            assert(c < fl.objtable@.len());
            lemma_offsets_increase(offs, ends, i, c as int);
            assert forall|k: int| 0 <= k < stack2.len() implies #[trigger] stack2[k] < offs[c as int] by {
                if k < stack.len() {
                    assert(stack[k] < offs[i]);
                }
            }
            assert(depth_within(fl.models@[c as int], (128 - stack2.len()) as nat)) by {
                match model {
                    Node::Array(items) => {
                        assert(depth_within(items[c0], ((128 - stack.len()) - 1) as nat));
                    },
                    Node::Dictionary(es) => {
                        assert(depth_within(es[c0 - es.len()].1, ((128 - stack.len()) - 1) as nat));
                    },
                    _ => {},
                }
            }
            lemma_object_decodes(doc, t, fl, offs, ends, d, memo, stack2, c as int);
        },
        RefSlot::Find(key) => {
            let j = map_lookup(fl.objmap@, key)->Some_0;
            lemma_map_lookup(fl.objmap@, key);
            let jj = choose|jj: int|
                0 <= jj < fl.objmap@.len() && #[trigger] fl.objmap@[jj].1 == j && crate::binary::generator::same_key(
                    fl.objmap@[jj].0,
                    key,
                );
            lemma_same_key_entry(fl.objtable@[j as int], fl.objmap@[jj].0, key);
            let e = fl.objtable@[j as int];
            lemma_scalar_decodes(doc, t, fl, offs, ends, d, memo, stack2, j as int);
            if let FlatEntry::Bytes(b) = e {
                lemma_within_data(b@, root);
            }
            if let FlatEntry::Float(r) = e {
                lemma_within_real(r, root);
            }
            if let Node::Data(x) = child {
                lemma_within_data(x, root);
            }
            if let Node::Real(r) = child {
                lemma_within_real(r, root);
            }
            lemma_key_equiv(e, key, child, d(j), root);
        },
        RefSlot::Missing => {
            lemma_within_real(child->Real_0, root);
        },
    }
}

/// The references of a complete container from the `c0`-th on decode as
/// its children, in order.
#[verifier::spinoff_prover]
#[verifier::rlimit(60)]
pub proof fn lemma_refs_decode(
    doc: Seq<u8>,
    t: Trailer,
    fl: Flattener,
    offs: Seq<u64>,
    ends: Seq<u64>,
    d: spec_fn(u64) -> Date,
    memo: Seq<Option<Node>>,
    stack: Seq<u64>,
    i: int,
    start: u64,
    c0: int,
)
    requires
        refs_context(doc, t, fl, offs, ends, d, stack, i, start),
        memo_right(fl, d, memo),
        0 <= c0 <= fl.objtable@[i]->Container_2@.len(),
    ensures
        decode_refs(
            doc,
            t,
            d,
            memo,
            stack.push(offs[i]),
            (start + c0 * t.object_ref_size) as u64,
            (fl.objtable@[i]->Container_2@.len() - c0) as nat,
        ) matches (Ok(nodes), m2) && nodes.len() == fl.objtable@[i]->Container_2@.len() - c0 && (forall|k: int|
            0 <= k < nodes.len() ==> node_eq(#[trigger] nodes[k], child_model(fl.models@[i], c0 + k))) && memo_right(fl, d, m2),
    decreases fl.objtable@.len() - i, 0int, fl.objtable@[i]->Container_2@.len() - c0,
{
    let refs = fl.objtable@[i]->Container_2@;
    let size = t.object_ref_size;
    let stack2 = stack.push(offs[i]);
    let model = fl.models@[i];
    if c0 < refs.len() {
        let pos = start + c0 * size;
        assert((c0 + 1) * size == c0 * size + size) by (nonlinear_arith);
        lemma_child_decodes(doc, t, fl, offs, ends, d, memo, stack, i, start, c0);
        let idx = slot_index(refs[c0], fl.objmap@);
        let (first, m1) = decode_object(doc, t, d, memo, stack2, idx);
        lemma_ref_fits(t.num_objects, idx);
        assert(doc.subrange(start + c0 * size, start + (c0 + 1) * size) == be_bytes(idx as nat, size as nat));
        assert(doc.subrange(pos, pos + size) == be_bytes(idx as nat, size as nat));
        assert(pos + size <= ends[i]) by (nonlinear_arith)
            requires
                pos + size == start + (c0 + 1) * size,
                start + refs.len() * size == ends[i],
                c0 + 1 <= refs.len(),
                size >= 0,
        ;
        lemma_sized_read_be(doc, pos as u64, idx as nat, size as u64);
        lemma_refs_decode(doc, t, fl, offs, ends, d, m1, stack, i, start, c0 + 1);
        let (rest, m2) = decode_refs(doc, t, d, m1, stack2, (start + (c0 + 1) * size) as u64, (refs.len() - (c0 + 1)) as nat);
        let ns = rest->Ok_0;
        let all = seq![first->Ok_0] + ns;
        assert forall|k: int| 0 <= k < all.len() implies node_eq(#[trigger] all[k], child_model(model, c0 + k)) by {
            if k > 0 {
                assert(all[k] == ns[k - 1]);
                assert(node_eq(ns[k - 1], child_model(model, (c0 + 1) + (k - 1))));
            }
        }
    }
}

/// A finished flattening laid out in a document that passes the header
/// checks decodes as the tree it was made from, each date object reading
/// as the date it was made from.
pub proof fn lemma_generated_decodes(
    doc: Seq<u8>,
    fl: Flattener,
    offs: Seq<u64>,
    ends: Seq<u64>,
    root_slot: RefSlot,
    root: Node,
)
    requires
        header_ok(doc),
        doc_ok(doc, trailer_of(doc), fl, offs, ends),
        trailer_of(doc).top_object == slot_index(root_slot, fl.objmap@),
        fl.slot_ok(-1, root_slot, root),
        fl.root@ == root,
        no_nan(root),
        depth_within(root, 128),
        crc_distinct(root),
    ensures
        exists|dates: spec_fn(u64) -> Date| #[trigger] decode_binary(doc, dates) matches Ok(n) && node_eq(n, root),
{
    let t = trailer_of(doc);
    let n_obj = fl.objtable@.len();
    let d = |j: u64|
        if j < n_obj && fl.objtable@[j as int] is When {
            fl.objtable@[j as int]->When_0
        } else {
            date_at(0)
        };
    assert(dates_match(fl, d));
    let memo0 = Seq::new(t.num_objects as nat, |i: int| None::<Node>);
    assert(memo_right(fl, d, memo0));
    let empty = Seq::<u64>::empty();
    assert(node_within(root, root));
    match root_slot {
        RefSlot::Fixed(c) => {
            lemma_object_decodes(doc, t, fl, offs, ends, d, memo0, empty, c as int);
        },
        RefSlot::Find(key) => {
            let j = map_lookup(fl.objmap@, key)->Some_0;
            lemma_map_lookup(fl.objmap@, key);
            let jj = choose|jj: int|
                0 <= jj < fl.objmap@.len() && #[trigger] fl.objmap@[jj].1 == j && crate::binary::generator::same_key(
                    fl.objmap@[jj].0,
                    key,
                );
            lemma_same_key_entry(fl.objtable@[j as int], fl.objmap@[jj].0, key);
            let e = fl.objtable@[j as int];
            lemma_scalar_decodes(doc, t, fl, offs, ends, d, memo0, empty, j as int);
            if let FlatEntry::Bytes(b) = e {
                lemma_within_data(b@, root);
            }
            if let FlatEntry::Float(r) = e {
                lemma_within_real(r, root);
            }
            if let Node::Data(x) = root {
                lemma_within_data(x, root);
            }
            if let Node::Real(r) = root {
                lemma_within_real(r, root);
            }
            lemma_key_equiv(e, key, root, d(j), root);
        },
        RefSlot::Missing => {
            lemma_within_real(root->Real_0, root);
        },
    }
    assert(decode_binary(doc, d) matches Ok(n) && node_eq(n, root));
}

/// A NaN inside a container inside `root` is a NaN inside a container of
/// `root`.
pub proof fn lemma_within_nan_in_container(m: Node, root: Node)
    requires
        node_within(m, root),
        crate::binary::generator::nan_in_container(m),
    ensures
        crate::binary::generator::nan_in_container(root),
    decreases root,
{
    if m != root {
        match root {
            Node::Array(items) => {
                let i = choose|i: int| 0 <= i < items.len() && node_within(m, #[trigger] items[i]);
                lemma_within_nan_in_container(m, items[i]);
            },
            Node::Dictionary(es) => {
                let i = choose|i: int| 0 <= i < es.len() && node_within(m, #[trigger] es[i].1);
                lemma_within_nan_in_container(m, es[i].1);
            },
            _ => {},
        }
    }
}

/// Without a NaN inside a container of the tree, every reference of a
/// complete container can be written.
pub proof fn lemma_entry_resolves_without_nested_nan(fl: Flattener, i: int)
    requires
        fl.wf(),
        0 <= i < fl.objtable@.len(),
        fl.done@[i],
        !crate::binary::generator::nan_in_container(fl.root@),
    ensures
        crate::binary::generator::entry_resolves(fl.objtable@[i], fl.objmap@),
{
    if let FlatEntry::Container(tag, count, refs) = fl.objtable@[i] {
        assert(fl.container_ok(i));
        let model = fl.models@[i];
        assert(node_within(model, fl.root@));
        assert forall|c: int| 0 <= c < refs@.len() implies crate::binary::generator::slot_resolves(#[trigger] refs@[c], fl.objmap@) by {
            let child = child_model(model, c);
            assert(fl.slot_ok(i, refs@[c], child)) by {
                match model {
                    Node::Array(items) => {},
                    Node::Dictionary(es) => {
                        if c >= es.len() {
                            assert(refs@[es.len() + (c - es.len())] == refs@[c]);
                        }
                    },
                    _ => {},
                }
            }
            if refs@[c] is Missing {
                match model {
                    Node::Array(items) => {
                        assert(crate::binary::generator::is_nan_node(items[c]));
                        assert(crate::binary::generator::nan_in_container(model));
                        lemma_within_nan_in_container(model, fl.root@);
                    },
                    Node::Dictionary(es) => {
                        if c >= es.len() {
                            let k = c - es.len();
                            assert(crate::binary::generator::is_nan_node(es[k].1));
                            assert(crate::binary::generator::nan_in_container(model));
                            lemma_within_nan_in_container(model, fl.root@);
                        }
                    },
                    _ => {},
                }
            }
        }
    }
}

/// Without NaNs in the tree, every reference of a complete container can
/// be written.
pub proof fn lemma_entry_resolves(fl: Flattener, i: int)
    requires
        fl.wf(),
        0 <= i < fl.objtable@.len(),
        fl.done@[i],
        no_nan(fl.root@),
    ensures
        crate::binary::generator::entry_resolves(fl.objtable@[i], fl.objmap@),
{
    if let FlatEntry::Container(tag, count, refs) = fl.objtable@[i] {
        assert(fl.container_ok(i));
        let model = fl.models@[i];
        assert(node_within(model, fl.root@));
        assert forall|c: int| 0 <= c < refs@.len() implies crate::binary::generator::slot_resolves(#[trigger] refs@[c], fl.objmap@) by {
            let child = child_model(model, c);
            assert(fl.slot_ok(i, refs@[c], child)) by {
                match model {
                    Node::Array(items) => {},
                    Node::Dictionary(es) => {
                        if c >= es.len() {
                            assert(refs@[es.len() + (c - es.len())] == refs@[c]);
                        }
                    },
                    _ => {},
                }
            }
            if refs@[c] is Missing {
                match model {
                    Node::Array(items) => {
                        lemma_within_array(child, items, c);
                        lemma_within_trans(child, model, fl.root@);
                    },
                    Node::Dictionary(es) => {
                        lemma_within_dictionary(child, es, c - es.len());
                        lemma_within_trans(child, model, fl.root@);
                    },
                    _ => {},
                }
                lemma_within_real(child->Real_0, fl.root@);
            }
        }
    }
}

} // verus!
