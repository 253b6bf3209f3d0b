//! The `bplist00` generator: preorder flatten with object uniquing.

use vstd::prelude::*;

use crate::date::Date;
use crate::error::Error;
use crate::integer::Integer;
use crate::reals::Real;
use crate::scalar::FloatCodec;
use crate::strings::push_bytes;
use crate::value::{entries_model, lemma_entries_model, lemma_values_model, Dictionary, Node, Value};
use crate::reals::is_nan_bits;
use crate::binary::parser::{be_u64_at, be_uint, entry_offset, header_ok, trailer_fault, trailer_of, wrapped_version, bplist_magic};
use crate::binary::readback::{crc_distinct, doc_ok};
use crate::binary::parser::decode_binary;
use crate::value::node_eq;

verus! {

/// The CRC-32 (IEEE) checksum of `data`, as `crc32fast::hash` computes it.
pub uninterp spec fn crc32(data: Seq<u8>) -> u32;

/// The CRC-32 checksum of `data` (`crc32fast::hash`).
#[verifier::external_body]
fn crc32_of(data: &[u8]) -> (r: u32)
    ensures
        r == crc32(data@),
{
    crc32fast::hash(data)
}

/// The big-endian encoding of the low `n` bytes of `v`.
pub open spec fn be_bytes(v: nat, n: nat) -> Seq<u8>
    decreases n,
{
    if n == 0 {
        Seq::empty()
    } else {
        be_bytes(v / 256, (n - 1) as nat).push((v % 256) as u8)
    }
}

/// 1, 2, 4, or 8: the fewest of these bytes that hold `n`.
pub open spec fn min_int_size(n: u64) -> u8 {
    if n <= 0xFF {
        1
    } else if n <= 0xFFFF {
        2
    } else if n <= 0xFFFF_FFFF {
        4
    } else {
        8
    }
}

/// The integer object for the raw `(signed, n)` pair: the smallest of the
/// 1/2/4-byte forms that holds it, else 8 bytes, except unsigned values
/// above `i64::MAX`, which take the 16-byte form with a zero high half.
pub open spec fn int_object(signed: bool, n: u64) -> Seq<u8> {
    if n <= 0xFF {
        seq![0x10u8] + be_bytes(n as nat, 1)
    } else if n <= 0xFFFF {
        seq![0x11u8] + be_bytes(n as nat, 2)
    } else if n <= 0xFFFF_FFFF {
        seq![0x12u8] + be_bytes(n as nat, 4)
    } else if n > 0x7FFF_FFFF_FFFF_FFFF && !signed {
        seq![0x14u8] + Seq::new(8, |i: int| 0u8) + be_bytes(n as nat, 8)
    } else {
        seq![0x13u8] + be_bytes(n as nat, 8)
    }
}

/// A marker with an inline count 0–14, or nibble `0xF` plus an unsigned
/// integer object for larger counts.
pub open spec fn counted_marker(tag: u8, count: u64) -> Seq<u8> {
    if count >= 15 {
        seq![(tag | 0x0F) as u8] + int_object(false, count)
    } else {
        seq![(tag | (count as u8)) as u8]
    }
}

/// The UID object: marker `0x80 | (width - 1)` and the minimal-width payload.
pub open spec fn uid_object(v: u64) -> Seq<u8> {
    let n = min_int_size(v);
    seq![(0x80u8 | ((n - 1) as u8)) as u8] + be_bytes(v as nat, n as nat)
}

/// The UTF-16 code units of a character sequence.
pub open spec fn utf16_units(s: Seq<char>) -> Seq<u16>
    decreases s.len(),
{
    if s.len() == 0 {
        Seq::empty()
    } else {
        let c = s.last() as u32;
        let prefix = utf16_units(s.drop_last());
        if c <= 0xFFFF {
            prefix.push(c as u16)
        } else {
            let v = (c - 0x10000) as u32;
            prefix.push((0xD800 + (v / 1024)) as u16).push((0xDC00 + (v % 1024)) as u16)
        }
    }
}

/// The big-endian bytes of a sequence of code units.
pub open spec fn units_be(u: Seq<u16>) -> Seq<u8>
    decreases u.len(),
{
    if u.len() == 0 {
        Seq::empty()
    } else {
        units_be(u.drop_last()) + be_bytes(u.last() as nat, 2)
    }
}

/// Whether every character is ASCII.
pub open spec fn all_ascii(s: Seq<char>) -> bool {
    forall|i: int| 0 <= i < s.len() ==> (#[trigger] s[i] as u32) <= 0x7F
}

/// The string object: ASCII text as its bytes with a byte count, anything
/// else as UTF-16BE with a code-unit count.
pub open spec fn string_object(s: Seq<char>) -> Seq<u8> {
    if all_ascii(s) {
        counted_marker(0x50, s.len() as u64) + s.map_values(|c: char| (c as u32) as u8)
    } else {
        counted_marker(0x60, utf16_units(s).len() as u64) + units_be(utf16_units(s))
    }
}

/// Whether a binary32 pattern is a NaN.
pub open spec fn is_nan32(b: u32) -> bool {
    (b & 0x7F80_0000u32) == 0x7F80_0000u32 && (b & 0x007F_FFFFu32) != 0
}

/// The binary32 pattern written for a narrow real: its own, with a NaN
/// made quiet by the round trip through `f64`.
pub open spec fn narrow_wire_bits(b: u32) -> u32 {
    if is_nan32(b) {
        b | 0x0040_0000u32
    } else {
        b
    }
}

/// The real object: `0x23` and eight bytes when wide, `0x22` and four when
/// narrow.
pub open spec fn real_object(r: Real) -> Seq<u8> {
    if r.spec_wide() {
        seq![0x23u8] + be_bytes(r.spec_raw() as nat, 8)
    } else {
        seq![0x22u8] + be_bytes(narrow_wire_bits(r.spec_raw() as u32) as nat, 4)
    }
}

/// 1, 2, 4, or 8: the fewest of these bytes that hold `n`.
pub fn minimum_int_size(n: u64) -> (r: u8)
    ensures
        r == min_int_size(n),
{
    if n <= 0xFF {
        1
    } else if n <= 0xFFFF {
        2
    } else if n <= 0xFFFF_FFFF {
        4
    } else {
        8
    }
}

pub(crate) proof fn lemma_be_bytes_len(v: nat, n: nat)
    ensures
        be_bytes(v, n).len() == n,
    decreases n,
{
    if n > 0 {
        lemma_be_bytes_len(v / 256, (n - 1) as nat);
    }
}

/// Appends the big-endian low `size` bytes of `value`.
pub fn write_sized_int(out: &mut Vec<u8>, value: u64, size: u8)
    ensures
        final(out)@ == old(out)@ + be_bytes(value as nat, size as nat),
    decreases size,
{
    if size > 0 {
        write_sized_int(out, value / 256, size - 1);
        out.push((value % 256) as u8);
    } else {
        proof {
            assert(out@ =~= old(out)@ + be_bytes(value as nat, 0));
        }
    }
}

/// Appends the integer object for the raw pair `(signed, n)`.
pub fn write_int_tag(out: &mut Vec<u8>, signed: bool, n: u64)
    ensures
        final(out)@ == old(out)@ + int_object(signed, n),
{
    let ghost start = out@;
    if n <= 0xFF {
        out.push(0x10);
        write_sized_int(out, n, 1);
    } else if n <= 0xFFFF {
        out.push(0x11);
        write_sized_int(out, n, 2);
    } else if n <= 0xFFFF_FFFF {
        out.push(0x12);
        write_sized_int(out, n, 4);
    } else if n > 0x7FFF_FFFF_FFFF_FFFF && !signed {
        out.push(0x14);
        let mut k: usize = 0;
        while k < 8
            invariant
                k <= 8,
                out@ == start + seq![0x14u8] + Seq::new(k as nat, |i: int| 0u8),
            decreases 8 - k,
        {
            out.push(0);
            proof {
                assert(Seq::new((k + 1) as nat, |i: int| 0u8) =~= Seq::new(k as nat, |i: int| 0u8).push(0u8));
            }
            k = k + 1;
        }
        write_sized_int(out, n, 8);
    } else {
        out.push(0x13);
        write_sized_int(out, n, 8);
    }
    proof {
        assert(out@ =~= start + int_object(signed, n));
    }
}

/// Appends a marker with an inline count 0–14, or nibble `0xF` plus an
/// integer object for larger counts.
pub fn write_counted_tag(out: &mut Vec<u8>, tag: u8, count: u64)
    ensures
        final(out)@ == old(out)@ + counted_marker(tag, count),
{
    let ghost start = out@;
    if count >= 15 {
        out.push(tag | 0x0F);
        write_int_tag(out, false, count);
    } else {
        out.push(tag | (count as u8));
    }
    proof {
        assert(out@ =~= start + counted_marker(tag, count));
    }
}

/// Appends the minimum-width UID object: markers `0x80`, `0x81`, `0x83`,
/// or `0x87` only.
pub fn write_uid(out: &mut Vec<u8>, value: u64)
    ensures
        final(out)@ == old(out)@ + uid_object(value),
{
    let ghost start = out@;
    let nbytes = minimum_int_size(value);
    out.push(0x80 | (nbytes - 1));
    write_sized_int(out, value, nbytes);
    proof {
        assert(out@ =~= start + uid_object(value));
    }
}

/// Appends the real object.
pub fn write_real(out: &mut Vec<u8>, x: Real)
    ensures
        final(out)@ == old(out)@ + real_object(x),
{
    let ghost start = out@;
    if x.wide() {
        out.push(0x23);
        write_sized_int(out, x.to_f64_bits(), 8);
    } else {
        out.push(0x22);
        let b = x.f32_bits();
        let w = if (b & 0x7F80_0000u32) == 0x7F80_0000u32 && (b & 0x007F_FFFFu32) != 0 {
            b | 0x0040_0000u32
        } else {
            b
        };
        write_sized_int(out, w as u64, 4);
    }
    proof {
        assert(out@ =~= start + real_object(x));
    }
}

/// Whether every character is ASCII.
fn is_all_ascii(s: &Vec<char>) -> (r: bool)
    ensures
        r == all_ascii(s@),
{
    let mut i: usize = 0;
    while i < s.len()
        invariant
            i <= s@.len(),
            forall|j: int| 0 <= j < i ==> (#[trigger] s@[j] as u32) <= 0x7F,
        decreases s@.len() - i,
    {
        if (s[i] as u32) > 0x7F {
            return false;
        }
        i = i + 1;
    }
    true
}

/// The UTF-16 code units of `s`.
fn encode_utf16(s: &Vec<char>) -> (r: Vec<u16>)
    ensures
        r@ == utf16_units(s@),
{
    let mut out: Vec<u16> = Vec::new();
    let mut i: usize = 0;
    while i < s.len()
        invariant
            i <= s@.len(),
            out@ == utf16_units(s@.subrange(0, i as int)),
        decreases s@.len() - i,
    {
        let c = s[i] as u32;
        proof {
            assert(s@.subrange(0, i + 1).drop_last() =~= s@.subrange(0, i as int));
        }
        if c <= 0xFFFF {
            out.push(c as u16);
        } else {
            let v = c - 0x10000;
            out.push((0xD800 + v / 1024) as u16);
            out.push((0xDC00 + v % 1024) as u16);
        }
        i = i + 1;
    }
    proof {
        assert(s@.subrange(0, s@.len() as int) =~= s@);
    }
    out
}

/// Appends a string object: ASCII as its bytes, anything else as UTF-16BE.
pub fn write_string(out: &mut Vec<u8>, string: &str)
    ensures
        final(out)@ == old(out)@ + string_object(string@),
{
    let ghost start = out@;
    let chars = crate::strings::str_chars(string);
    if is_all_ascii(&chars) {
        write_counted_tag(out, 0x50, chars.len() as u64);
        let ghost mid = out@;
        let mut i: usize = 0;
        while i < chars.len()
            invariant
                i <= chars@.len(),
                chars@ == string@,
                all_ascii(chars@),
                out@ == mid + chars@.subrange(0, i as int).map_values(|c: char| (c as u32) as u8),
            decreases chars@.len() - i,
        {
            proof {
                assert((chars@[i as int] as u32) <= 0x7F);
                assert(chars@.subrange(0, i + 1).map_values(|c: char| (c as u32) as u8)
                    =~= chars@.subrange(0, i as int).map_values(|c: char| (c as u32) as u8).push(
                    (chars@[i as int] as u32) as u8));
            }
            out.push((chars[i] as u32) as u8);
            i = i + 1;
        }
        proof {
            assert(chars@.subrange(0, chars@.len() as int) =~= chars@);
            assert(out@ =~= start + string_object(string@));
        }
    } else {
        let units = encode_utf16(&chars);
        write_counted_tag(out, 0x60, units.len() as u64);
        let ghost mid = out@;
        let mut i: usize = 0;
        while i < units.len()
            invariant
                i <= units@.len(),
                out@ == mid + units_be(units@.subrange(0, i as int)),
            decreases units@.len() - i,
        {
            proof {
                assert(units@.subrange(0, i + 1).drop_last() =~= units@.subrange(0, i as int));
            }
            write_sized_int(out, units[i] as u64, 2);
            proof {
                assert(out@ =~= mid + units_be(units@.subrange(0, i + 1)));
            }
            i = i + 1;
        }
        proof {
            assert(units@.subrange(0, units@.len() as int) =~= units@);
            assert(out@ =~= start + string_object(string@));
        }
    }
}

/// The uniquing-map key, one variant per type: raw representation for
/// integers (signed 5 and unsigned 5 stay distinct), zero-normalized bits
/// plus width for reals, and the CRC-32 for data (collisions merge).
#[derive(Debug)]
pub enum UniqueKey {
    /// A string's text.
    Str(String),
    /// An integer's raw pair.
    Int(bool, u64),
    /// A real's zero-normalized binary64 pattern and width.
    RealBits(u64, bool),
    /// A boolean.
    Bool(bool),
    /// A UID's number.
    UidNum(u64),
    /// The CRC-32 of a data payload.
    DataSum(u32),
    /// A date's Unix nanoseconds.
    Instant(i128),
}

/// Whether two keys are the same key (strings by their text).
pub open spec fn same_key(a: UniqueKey, b: UniqueKey) -> bool {
    match (a, b) {
        (UniqueKey::Str(x), UniqueKey::Str(y)) => x@ == y@,
        (UniqueKey::Int(s1, r1), UniqueKey::Int(s2, r2)) => s1 == s2 && r1 == r2,
        (UniqueKey::RealBits(b1, w1), UniqueKey::RealBits(b2, w2)) => b1 == b2 && w1 == w2,
        (UniqueKey::Bool(x), UniqueKey::Bool(y)) => x == y,
        (UniqueKey::UidNum(x), UniqueKey::UidNum(y)) => x == y,
        (UniqueKey::DataSum(x), UniqueKey::DataSum(y)) => x == y,
        (UniqueKey::Instant(x), UniqueKey::Instant(y)) => x == y,
        _ => false,
    }
}

/// Key equality.
fn key_equal(a: &UniqueKey, b: &UniqueKey) -> (r: bool)
    ensures
        r == same_key(*a, *b),
{
    match (a, b) {
        (UniqueKey::Str(x), UniqueKey::Str(y)) => crate::scalar::str_equals(x.as_str(), y.as_str()),
        (UniqueKey::Int(s1, r1), UniqueKey::Int(s2, r2)) => *s1 == *s2 && *r1 == *r2,
        (UniqueKey::RealBits(b1, w1), UniqueKey::RealBits(b2, w2)) => *b1 == *b2 && *w1 == *w2,
        (UniqueKey::Bool(x), UniqueKey::Bool(y)) => *x == *y,
        (UniqueKey::UidNum(x), UniqueKey::UidNum(y)) => *x == *y,
        (UniqueKey::DataSum(x), UniqueKey::DataSum(y)) => *x == *y,
        (UniqueKey::Instant(x), UniqueKey::Instant(y)) => *x == *y,
        _ => false,
    }
}

fn copy_key(k: &UniqueKey) -> (r: UniqueKey)
    ensures
        same_key(r, *k) || !same_key(*k, *k),
        same_key(*k, *k) ==> same_key(r, *k),
{
    match k {
        UniqueKey::Str(x) => UniqueKey::Str(x.clone()),
        UniqueKey::Int(s, r) => UniqueKey::Int(*s, *r),
        UniqueKey::RealBits(b, w) => UniqueKey::RealBits(*b, *w),
        UniqueKey::Bool(x) => UniqueKey::Bool(*x),
        UniqueKey::UidNum(x) => UniqueKey::UidNum(*x),
        UniqueKey::DataSum(x) => UniqueKey::DataSum(*x),
        UniqueKey::Instant(x) => UniqueKey::Instant(*x),
    }
}

/// How a container resolves one child reference at write time.
#[derive(Debug)]
pub enum RefSlot {
    /// A container child: its occurrence's own table index.
    Fixed(u64),
    /// A scalar child: looked up in the final map (first-wins for uniqued
    /// types, last-wins for booleans and UIDs).
    Find(UniqueKey),
    /// A NaN real: a lookup that can never succeed.
    Missing,
}

/// One object of the flattened table.
#[derive(Debug)]
pub enum FlatEntry {
    /// A string object.
    Text(String),
    /// An integer object from its raw pair.
    Int(bool, u64),
    /// A real object.
    Float(Real),
    /// A boolean object.
    Bool(bool),
    /// A UID object.
    UidNum(u64),
    /// A data object.
    Bytes(Vec<u8>),
    /// A date object.
    When(Date),
    /// An array (`0xA0`) or dictionary (`0xD0`) with its child references.
    Container(u8, u64, Vec<RefSlot>),
}

/// The index the map holds for `k` (the first entry with that key), if any.
pub open spec fn map_lookup(m: Seq<(UniqueKey, u64)>, k: UniqueKey) -> Option<u64>
    decreases m.len(),
{
    if m.len() == 0 {
        None
    } else if same_key(m[0].0, k) {
        Some(m[0].1)
    } else {
        map_lookup(m.subrange(1, m.len() as int), k)
    }
}

fn lookup_exec(m: &Vec<(UniqueKey, u64)>, k: &UniqueKey) -> (r: Option<usize>)
    ensures
        r matches Some(i) ==> i < m@.len() && map_lookup(m@, *k) == Some(m@[i as int].1),
        r is None ==> map_lookup(m@, *k) is None,
{
    let mut i: usize = 0;
    proof {
        assert(m@.subrange(0, m@.len() as int) =~= m@);
    }
    while i < m.len()
        invariant
            i <= m@.len(),
            map_lookup(m@, *k) == map_lookup(m@.subrange(i as int, m@.len() as int), *k),
        decreases m@.len() - i,
    {
        let ghost rest = m@.subrange(i as int, m@.len() as int);
        proof {
            assert(rest[0] == m@[i as int]);
            assert(rest.subrange(1, rest.len() as int) =~= m@.subrange(i + 1, m@.len() as int));
        }
        if key_equal(&m[i].0, k) {
            return Some(i);
        }
        i = i + 1;
    }
    None
}

/// The flattening state: the uniquing map and the object table.
pub struct Flattener {
    /// Key to object index.
    pub objmap: Vec<(UniqueKey, u64)>,
    /// The objects in preorder.
    pub objtable: Vec<FlatEntry>,
    /// The model of the value each object was made from.
    pub models: Ghost<Seq<Node>>,
    /// Which objects are complete (a container gets its references last).
    pub done: Ghost<Seq<bool>>,
    /// The model of the whole tree being flattened.
    pub root: Ghost<Node>,
}

impl Flattener {
    /// Every index the map holds names an object of the table.
    pub open spec fn indices_in_table(&self) -> bool {
        forall|j: int| 0 <= j < self.objmap@.len() ==> #[trigger] self.objmap@[j].1 < self.objtable@.len()
    }
}

/// Whether `b` is the payload of a data value somewhere in `n`.
pub open spec fn node_has_data(n: Node, b: Seq<u8>) -> bool
    decreases n,
{
    match n {
        Node::Data(x) => x == b,
        Node::Array(items) => exists|i: int| 0 <= i < items.len() && node_has_data(#[trigger] items[i], b),
        Node::Dictionary(es) => exists|i: int| 0 <= i < es.len() && node_has_data(#[trigger] es[i].1, b),
        _ => false,
    }
}

/// Whether `x` is `n` or a value somewhere inside it.
pub open spec fn node_within(x: Node, n: Node) -> bool
    decreases n,
{
    x == n || match n {
        Node::Array(items) => exists|i: int| 0 <= i < items.len() && node_within(x, #[trigger] items[i]),
        Node::Dictionary(es) => exists|i: int| 0 <= i < es.len() && node_within(x, #[trigger] es[i].1),
        _ => false,
    }
}

/// An element of an array is inside it.
pub proof fn lemma_within_array(x: Node, s: Seq<Node>, i: int)
    requires
        0 <= i < s.len(),
        x == s[i],
    ensures
        node_within(x, Node::Array(s)),
{
    assert(node_within(x, s[i]));
    assert(exists|k: int| 0 <= k < s.len() && node_within(x, #[trigger] s[k]));
    let n = Node::Array(s);
    assert(n->Array_0 == s);
    assert(node_within(x, n) == (x == n || (exists|k: int| 0 <= k < s.len() && node_within(x, #[trigger] s[k]))));
}

/// A value of a dictionary is inside it.
pub proof fn lemma_within_dictionary(x: Node, es: Seq<(Seq<char>, Node)>, i: int)
    requires
        0 <= i < es.len(),
        x == es[i].1,
    ensures
        node_within(x, Node::Dictionary(es)),
{
    assert(node_within(x, es[i].1));
    assert(exists|k: int| 0 <= k < es.len() && node_within(x, #[trigger] es[k].1));
    let n = Node::Dictionary(es);
    assert(n->Dictionary_0 == es);
    assert(node_within(x, n) == (x == n || (exists|k: int| 0 <= k < es.len() && node_within(x, #[trigger] es[k].1))));
}

/// Being inside is transitive.
pub proof fn lemma_within_trans(x: Node, y: Node, n: Node)
    requires
        node_within(x, y),
        node_within(y, n),
    ensures
        node_within(x, n),
    decreases n,
{
    if y != n {
        match n {
            Node::Array(items) => {
                let i = choose|i: int| 0 <= i < items.len() && node_within(y, #[trigger] items[i]);
                lemma_within_trans(x, y, items[i]);
            },
            Node::Dictionary(es) => {
                let i = choose|i: int| 0 <= i < es.len() && node_within(y, #[trigger] es[i].1);
                lemma_within_trans(x, y, es[i].1);
            },
            _ => {},
        }
    }
}

/// Whether `n` is a NaN real.
pub open spec fn is_nan_node(n: Node) -> bool {
    n matches Node::Real(x) && is_nan_bits(x.value_bits())
}

/// Whether a NaN real stands inside a container of `n`, as an array
/// element or a dictionary value at any depth.
pub open spec fn nan_in_container(n: Node) -> bool
    decreases n,
{
    match n {
        Node::Array(items) => exists|i: int|
            0 <= i < items.len() && (is_nan_node(#[trigger] items[i]) || nan_in_container(items[i])),
        Node::Dictionary(es) => exists|i: int|
            0 <= i < es.len() && (is_nan_node(#[trigger] es[i].1) || nan_in_container(es[i].1)),
        _ => false,
    }
}

/// Whether no real in `n` is a NaN.
pub open spec fn no_nan(n: Node) -> bool
    decreases n,
{
    match n {
        Node::Real(r) => !is_nan_bits(r.value_bits()),
        Node::Array(items) => forall|i: int| 0 <= i < items.len() ==> no_nan(#[trigger] items[i]),
        Node::Dictionary(es) => forall|i: int| 0 <= i < es.len() ==> no_nan(#[trigger] es[i].1),
        _ => true,
    }
}

/// Whether containers nest at most `k` deep in `n`.
pub open spec fn depth_within(n: Node, k: nat) -> bool
    decreases n,
{
    match n {
        Node::Array(items) => k >= 1 && forall|i: int| 0 <= i < items.len() ==> depth_within(#[trigger] items[i], (k - 1) as nat),
        Node::Dictionary(es) => k >= 1 && forall|i: int| 0 <= i < es.len() ==> depth_within(#[trigger] es[i].1, (k - 1) as nat),
        _ => true,
    }
}

/// Whether no key occurs twice among model entries.
pub open spec fn node_keys_unique(es: Seq<(Seq<char>, Node)>) -> bool {
    forall|i: int, j: int| 0 <= i < j < es.len() ==> #[trigger] es[i].0 != #[trigger] es[j].0
}

/// Whether the object `e` carries the uniquing key `k`.
pub open spec fn entry_has_key(e: FlatEntry, k: UniqueKey) -> bool {
    match (e, k) {
        (FlatEntry::Text(s), UniqueKey::Str(x)) => s@ == x@,
        (FlatEntry::Int(s1, r1), UniqueKey::Int(s2, r2)) => s1 == s2 && r1 == r2,
        (FlatEntry::Float(r), UniqueKey::RealBits(b, w)) => zero_normalized(r.value_bits()) == b && r.spec_wide() == w,
        (FlatEntry::Bool(x), UniqueKey::Bool(y)) => x == y,
        (FlatEntry::UidNum(x), UniqueKey::UidNum(y)) => x == y,
        (FlatEntry::Bytes(b), UniqueKey::DataSum(c)) => crc32(b@) == c,
        (FlatEntry::When(d), UniqueKey::Instant(x)) => d.unix_nanos() == x as int,
        _ => false,
    }
}

/// Whether a value of model `n` has the uniquing key `k`.
pub open spec fn key_matches(k: UniqueKey, n: Node) -> bool {
    match (k, n) {
        (UniqueKey::Str(x), Node::String(s)) => x@ == s,
        (UniqueKey::Int(sg, raw), Node::Integer(i)) => i.raw_parts() == (sg, raw),
        (UniqueKey::RealBits(b, w), Node::Real(r)) => zero_normalized(r.value_bits()) == b && r.spec_wide() == w,
        (UniqueKey::Bool(x), Node::Boolean(y)) => x == y,
        (UniqueKey::UidNum(x), Node::Uid(y)) => x == y,
        (UniqueKey::DataSum(c), Node::Data(b)) => crc32(b) == c,
        (UniqueKey::Instant(x), Node::Date(d)) => d.unix_nanos() == x as int,
        _ => false,
    }
}

impl Flattener {
    /// How a container at `i` refers to a child of model `child`: a later
    /// complete container made from it, or a key it has that the map holds.
    pub open spec fn slot_ok(&self, i: int, s: RefSlot, child: Node) -> bool {
        match s {
            RefSlot::Fixed(c) => i < c < self.objtable@.len() && self.objtable@[c as int] is Container
                && self.done@[c as int] && self.models@[c as int] == child,
            RefSlot::Find(k) => key_matches(k, child) && map_lookup(self.objmap@, k) is Some,
            RefSlot::Missing => child matches Node::Real(x) && is_nan_bits(x.value_bits()),
        }
    }

    /// Whether the complete container at `i` refers to the children of the
    /// value it was made from, keys first for a dictionary.
    pub open spec fn container_ok(&self, i: int) -> bool {
        match self.objtable@[i] {
            FlatEntry::Container(tag, count, refs) => match self.models@[i] {
                Node::Array(items) => {
                    &&& tag == 0xA0u8
                    &&& count == items.len()
                    &&& refs@.len() == items.len()
                    &&& forall|c: int| 0 <= c < items.len() ==> self.slot_ok(i, #[trigger] refs@[c], items[c])
                },
                Node::Dictionary(es) => {
                    &&& tag == 0xD0u8
                    &&& count == es.len()
                    &&& refs@.len() == 2 * es.len()
                    &&& node_keys_unique(es)
                    &&& forall|c: int| 0 <= c < es.len() ==> self.slot_ok(i, #[trigger] refs@[c], Node::String(es[c].0))
                    &&& forall|c: int| 0 <= c < es.len() ==> self.slot_ok(i, #[trigger] refs@[es.len() + c], es[c].1)
                },
                _ => false,
            },
            _ => true,
        }
    }

    /// The flattening invariant.
    pub open spec fn wf(&self) -> bool {
        &&& self.models@.len() == self.objtable@.len()
        &&& self.done@.len() == self.objtable@.len()
        &&& forall|j: int| #![trigger self.objmap@[j]] 0 <= j < self.objmap@.len() ==> {
            &&& self.objmap@[j].1 < self.objtable@.len()
            &&& entry_has_key(self.objtable@[self.objmap@[j].1 as int], self.objmap@[j].0)
        }
        &&& forall|j: int| #![trigger self.objtable@[j]] 0 <= j < self.objtable@.len() ==> {
            &&& (self.objtable@[j] matches FlatEntry::Bytes(b) ==> self.models@[j] == Node::Data(b@) && node_within(self.models@[j], self.root@))
            &&& (self.objtable@[j] matches FlatEntry::Float(r) ==> self.models@[j] == Node::Real(r) && node_within(self.models@[j], self.root@))
            &&& (self.objtable@[j] !is Container ==> self.done@[j])
            &&& (self.objtable@[j] is Container ==> node_within(self.models@[j], self.root@))
            &&& (self.done@[j] ==> self.container_ok(j))
        }
    }

    /// What a step of flattening keeps: the root, every earlier object, and
    /// what the map finds.
    pub open spec fn extends(&self, prev: &Flattener) -> bool {
        &&& self.root@ == prev.root@
        &&& self.objtable@.len() >= prev.objtable@.len()
        &&& forall|j: int| #![trigger prev.objtable@[j]] 0 <= j < prev.objtable@.len() ==> {
            &&& self.objtable@[j] == prev.objtable@[j]
            &&& self.models@[j] == prev.models@[j]
            &&& self.done@[j] == prev.done@[j]
        }
        &&& forall|k: UniqueKey| #[trigger] map_lookup(prev.objmap@, k) is Some ==> map_lookup(self.objmap@, k) is Some
    }
}


proof fn lemma_same_key_reflexive(k: UniqueKey)
    ensures
        same_key(k, k),
{
}

/// A map lookup finds an entry of the map that has the key, and finds one
/// whenever some entry has the key.
pub(crate) proof fn lemma_map_lookup(m: Seq<(UniqueKey, u64)>, k: UniqueKey)
    ensures
        map_lookup(m, k) matches Some(i) ==> exists|j: int| 0 <= j < m.len() && #[trigger] m[j].1 == i && same_key(m[j].0, k),
        (exists|j: int| 0 <= j < m.len() && same_key(#[trigger] m[j].0, k)) ==> map_lookup(m, k) is Some,
    decreases m.len(),
{
    if m.len() > 0 {
        let rest = m.subrange(1, m.len() as int);
        lemma_map_lookup(rest, k);
        if !same_key(m[0].0, k) {
            if map_lookup(rest, k) is Some {
                let j = choose|j: int| 0 <= j < rest.len() && #[trigger] rest[j].1 == map_lookup(rest, k).unwrap() && same_key(rest[j].0, k);
                assert(m[j + 1] == rest[j]);
            }
            if exists|j: int| 0 <= j < m.len() && same_key(#[trigger] m[j].0, k) {
                let j = choose|j: int| 0 <= j < m.len() && same_key(#[trigger] m[j].0, k);
                assert(j != 0);
                assert(rest[j - 1] == m[j]);
            }
        } else {
            assert(m[0].1 == map_lookup(m, k).unwrap());
        }
    }
}

/// Keys are interchangeable when they are the same key.
pub(crate) proof fn lemma_same_key_entry(e: FlatEntry, a: UniqueKey, b: UniqueKey)
    requires
        entry_has_key(e, a),
        same_key(a, b),
    ensures
        entry_has_key(e, b),
{
}

/// Appending to the map, or re-pointing an entry at a key it already has,
/// keeps every lookup that succeeded succeeding.
proof fn lemma_lookup_kept(m: Seq<(UniqueKey, u64)>, m2: Seq<(UniqueKey, u64)>, k: UniqueKey)
    requires
        map_lookup(m, k) is Some,
        m2.len() >= m.len(),
        forall|j: int| 0 <= j < m.len() ==> same_key(#[trigger] m2[j].0, m[j].0) || m2[j].0 == m[j].0,
    ensures
        map_lookup(m2, k) is Some,
{
    lemma_map_lookup(m, k);
    let j = choose|j: int| 0 <= j < m.len() && #[trigger] m[j].1 == map_lookup(m, k).unwrap() && same_key(m[j].0, k);
    assert(same_key(m2[j].0, k));
    lemma_map_lookup(m2, k);
}

/// The zero-normalized binary64 pattern: both zeros share `0`.
pub open spec fn zero_normalized(bits: u64) -> u64 {
    if bits & 0x7FFF_FFFF_FFFF_FFFFu64 == 0 {
        0
    } else {
        bits
    }
}

impl Flattener {
    /// First-wins uniquing: a present key keeps its object.
    fn flatten_unique(&mut self, key: UniqueKey, entry: FlatEntry, model: Ghost<Node>) -> (r: RefSlot)
        requires
            old(self).wf(),
            entry_has_key(entry, key),
            key_matches(key, model@),
            entry !is Container,
            entry is Bytes || entry is Float ==> node_within(model@, old(self).root@),
            entry matches FlatEntry::Bytes(b) ==> model@ == Node::Data(b@),
            entry matches FlatEntry::Float(x) ==> model@ == Node::Real(x),
        ensures
            final(self).wf(),
            final(self).extends(old(self)),
            final(self).objtable@.len() <= old(self).objtable@.len() + 1,
            forall|j: int| old(self).objtable@.len() <= j < final(self).objtable@.len() ==> #[trigger] final(self).done@[j],
            final(self).slot_ok(-1, r, model@),
            r is Find,
            forall|i: int| final(self).slot_ok(i, r, model@),
    {
        proof {
            lemma_same_key_reflexive(key);
        }
        match lookup_exec(&self.objmap, &key) {
            Some(_) => {},
            None => {
                let k2 = copy_key(&key);
                let index = self.objtable.len() as u64;
                let ghost old_map = self.objmap@;
                let ghost before = *self;
                self.objmap.push((k2, index));
                self.objtable.push(entry);
                proof {
                    self.models@ = self.models@.push(model@);
                    self.done@ = self.done@.push(true);
                    let m = self.objmap@;
                    assert(same_key(m[m.len() - 1].0, key));
                    lemma_same_key_entry(entry, key, k2);
                    lemma_map_lookup(m, key);
                    assert forall|k: UniqueKey| #[trigger] map_lookup(old_map, k) is Some implies map_lookup(m, k) is Some by {
                        lemma_lookup_kept(old_map, m, k);
                    }
                    assert forall|j: int| #![trigger m[j]] 0 <= j < m.len() implies {
                        &&& m[j].1 < self.objtable@.len()
                        &&& entry_has_key(self.objtable@[m[j].1 as int], m[j].0)
                    } by {
                        if j < old_map.len() {
                            assert(old_map[j] == m[j]);
                            assert(entry_has_key(before.objtable@[old_map[j].1 as int], old_map[j].0));
                        }
                    }
                    lemma_wf_push(&before, self, entry, model@, true);
                }
            },
        }
        RefSlot::Find(key)
    }

    /// Last-wins uniquing (booleans and UIDs): always appends, and the map
    /// entry points at the newest occurrence.
    fn flatten_overwrite(&mut self, key: UniqueKey, entry: FlatEntry, model: Ghost<Node>) -> (r: RefSlot)
        requires
            old(self).wf(),
            entry_has_key(entry, key),
            key_matches(key, model@),
            entry is Bool || entry is UidNum,
        ensures
            final(self).wf(),
            final(self).extends(old(self)),
            final(self).objtable@.len() == old(self).objtable@.len() + 1,
            forall|j: int| old(self).objtable@.len() <= j < final(self).objtable@.len() ==> #[trigger] final(self).done@[j],
            r is Find,
            forall|i: int| final(self).slot_ok(i, r, model@),
    {
        proof {
            lemma_same_key_reflexive(key);
        }
        let index = self.objtable.len() as u64;
        let ghost at: int;
        let ghost old_map = self.objmap@;
        let ghost before = *self;
        match lookup_exec(&self.objmap, &key) {
            Some(i) => {
                let k2 = copy_key(&key);
                proof {
                    lemma_map_lookup(old_map, key);
                }
                self.objmap.set(i, (k2, index));
                proof {
                    at = i as int;
                }
            },
            None => {
                let k2 = copy_key(&key);
                self.objmap.push((k2, index));
                proof {
                    at = self.objmap@.len() - 1;
                }
            },
        }
        self.objtable.push(entry);
        proof {
            self.models@ = self.models@.push(model@);
            self.done@ = self.done@.push(true);
            let m = self.objmap@;
            assert(same_key(m[at].0, key));
            lemma_same_key_entry(entry, key, m[at].0);
            lemma_map_lookup(m, key);
            assert forall|k: UniqueKey| #[trigger] map_lookup(old_map, k) is Some implies map_lookup(m, k) is Some by {
                assert forall|j: int| 0 <= j < old_map.len() implies same_key(#[trigger] m[j].0, old_map[j].0) || m[j].0
                    == old_map[j].0 by {
                    if j == at {
                        assert(same_key(old_map[j].0, key));
                    }
                }
                lemma_lookup_kept(old_map, m, k);
            }
            assert forall|j: int| #![trigger m[j]] 0 <= j < m.len() implies {
                &&& m[j].1 < self.objtable@.len()
                &&& entry_has_key(self.objtable@[m[j].1 as int], m[j].0)
            } by {
                if j != at {
                    assert(old_map[j] == m[j]);
                    assert(entry_has_key(before.objtable@[old_map[j].1 as int], old_map[j].0));
                }
            }
            lemma_wf_push(&before, self, entry, model@, true);
        }
        RefSlot::Find(key)
    }
}

/// Appending an object (complete unless it is a container placeholder)
/// keeps the invariant, given that every map entry names an object with its
/// key and every lookup that succeeded still succeeds.
proof fn lemma_wf_push(f1: &Flattener, f2: &Flattener, e: FlatEntry, m: Node, fin: bool)
    requires
        f1.wf(),
        f2.objtable@ == f1.objtable@.push(e),
        f2.models@ == f1.models@.push(m),
        f2.done@ == f1.done@.push(fin),
        f2.root@ == f1.root@,
        e is Container <==> !fin,
        e is Container ==> node_within(m, f1.root@),
        e matches FlatEntry::Bytes(b) ==> m == Node::Data(b@) && node_within(m, f1.root@),
        e matches FlatEntry::Float(r) ==> m == Node::Real(r) && node_within(m, f1.root@),
        forall|j: int| #![trigger f2.objmap@[j]] 0 <= j < f2.objmap@.len() ==> {
            &&& f2.objmap@[j].1 < f2.objtable@.len()
            &&& entry_has_key(f2.objtable@[f2.objmap@[j].1 as int], f2.objmap@[j].0)
        },
        forall|k: UniqueKey| #[trigger] map_lookup(f1.objmap@, k) is Some ==> map_lookup(f2.objmap@, k) is Some,
    ensures
        f2.wf(),
        f2.extends(f1),
{
    assert forall|j: int| #![trigger f1.objtable@[j]] 0 <= j < f1.objtable@.len() implies {
        &&& f2.objtable@[j] == f1.objtable@[j]
        &&& f2.models@[j] == f1.models@[j]
        &&& f2.done@[j] == f1.done@[j]
    } by {}
    assert(f2.extends(f1));
    assert forall|i: int, s: RefSlot, child: Node| #[trigger] f1.slot_ok(i, s, child) implies f2.slot_ok(i, s, child) by {
        if let RefSlot::Fixed(c) = s {
            assert(f1.objtable@[c as int] == f2.objtable@[c as int]);
        }
    }
    assert forall|j: int| #![trigger f2.objtable@[j]] 0 <= j < f2.objtable@.len() implies {
        &&& (f2.objtable@[j] matches FlatEntry::Bytes(b) ==> f2.models@[j] == Node::Data(b@) && node_within(f2.models@[j], f2.root@))
        &&& (f2.objtable@[j] matches FlatEntry::Float(r) ==> f2.models@[j] == Node::Real(r) && node_within(f2.models@[j], f2.root@))
        &&& (f2.objtable@[j] !is Container ==> f2.done@[j])
        &&& (f2.objtable@[j] is Container ==> node_within(f2.models@[j], f2.root@))
        &&& (f2.done@[j] ==> f2.container_ok(j))
    } by {
        if j < f1.objtable@.len() {
            assert(f1.objtable@[j] == f2.objtable@[j]);
            if f2.done@[j] {
                lemma_container_kept(f1, f2, j);
            }
        }
    }
}

/// A reference that was in order stays in order as flattening goes on.
proof fn lemma_slot_kept(f1: &Flattener, f2: &Flattener, i: int, s: RefSlot, child: Node)
    requires
        f2.extends(f1),
        f1.slot_ok(i, s, child),
    ensures
        f2.slot_ok(i, s, child),
{
    if let RefSlot::Fixed(c) = s {
        assert(f1.objtable@[c as int] == f2.objtable@[c as int]);
    }
}

/// A complete container stays in order when every reference that was in
/// order stays in order and its entry and model stay.
proof fn lemma_container_kept(f1: &Flattener, f2: &Flattener, j: int)
    requires
        0 <= j < f1.objtable@.len(),
        j < f2.objtable@.len(),
        f1.objtable@[j] == f2.objtable@[j],
        f1.models@[j] == f2.models@[j],
        f1.container_ok(j),
        forall|i: int, s: RefSlot, child: Node| #[trigger] f1.slot_ok(i, s, child) ==> f2.slot_ok(i, s, child),
    ensures
        f2.container_ok(j),
{
    if let FlatEntry::Container(tag, count, refs) = f1.objtable@[j] {
        match f1.models@[j] {
            Node::Array(items) => {
                assert forall|c: int| 0 <= c < items.len() implies f2.slot_ok(j, #[trigger] refs@[c], items[c]) by {
                    assert(f1.slot_ok(j, refs@[c], items[c]));
                }
            },
            Node::Dictionary(es) => {
                assert forall|c: int| 0 <= c < es.len() implies f2.slot_ok(j, #[trigger] refs@[c], Node::String(es[c].0)) by {
                    assert(f1.slot_ok(j, refs@[c], Node::String(es[c].0)));
                }
                assert forall|c: int| 0 <= c < es.len() implies f2.slot_ok(j, #[trigger] refs@[es.len() + c], es[c].1) by {
                    assert(f1.slot_ok(j, refs@[es.len() + c], es[c].1));
                }
            },
            _ => {},
        }
    }
}

/// The invariant survives a step that extends the table with complete
/// objects only where the step says so.
proof fn lemma_extends_trans(f1: &Flattener, f2: &Flattener, f3: &Flattener)
    requires
        f2.extends(f1),
        f3.extends(f2),
    ensures
        f3.extends(f1),
{
    assert forall|j: int| #![trigger f1.objtable@[j]] 0 <= j < f1.objtable@.len() implies {
        &&& f3.objtable@[j] == f1.objtable@[j]
        &&& f3.models@[j] == f1.models@[j]
        &&& f3.done@[j] == f1.done@[j]
    } by {
        assert(f2.objtable@[j] == f1.objtable@[j]);
        assert(f2.models@[j] == f1.models@[j]);
        assert(f2.done@[j] == f1.done@[j]);
        assert(j < f2.objtable@.len());
        assert(f3.objtable@[j] == f2.objtable@[j] && f3.models@[j] == f2.models@[j] && f3.done@[j] == f2.done@[j]);
    }
    assert forall|k: UniqueKey| #[trigger] map_lookup(f1.objmap@, k) is Some implies map_lookup(f3.objmap@, k) is Some by {
        assert(map_lookup(f2.objmap@, k) is Some);
    }
}

/// Completing the placeholder at `index` with its references keeps every
/// other complete container in order.
proof fn lemma_finish(f1: &Flattener, f2: &Flattener, index: int)
    requires
        f1.wf(),
        0 <= index < f1.objtable@.len(),
        !f1.done@[index],
        f1.objtable@[index] is Container,
        f2.objtable@[index] is Container,
        f2.objtable@ == f1.objtable@.update(index, f2.objtable@[index]),
        f2.models@ == f1.models@,
        f2.done@ == f1.done@.update(index, true),
        f2.objmap@ == f1.objmap@,
        f2.root@ == f1.root@,
        f2.container_ok(index),
    ensures
        f2.wf(),
{
    assert forall|j: int| #![trigger f2.objtable@[j]] 0 <= j < f2.objtable@.len() implies {
        &&& (f2.objtable@[j] matches FlatEntry::Bytes(b) ==> f2.models@[j] == Node::Data(b@) && node_within(f2.models@[j], f2.root@))
        &&& (f2.objtable@[j] matches FlatEntry::Float(r) ==> f2.models@[j] == Node::Real(r) && node_within(f2.models@[j], f2.root@))
        &&& (f2.objtable@[j] !is Container ==> f2.done@[j])
        &&& (f2.objtable@[j] is Container ==> node_within(f2.models@[j], f2.root@))
        &&& (f2.done@[j] ==> f2.container_ok(j))
    } by {
        if j != index {
            assert(f1.objtable@[j] == f2.objtable@[j]);
            if f2.done@[j] {
                assert(f1.container_ok(j));
                assert forall|i: int, s: RefSlot, child: Node| #[trigger] f1.slot_ok(i, s, child) implies f2.slot_ok(i, s, child) by {
                    if let RefSlot::Fixed(cc) = s {
                        assert(cc != index);
                        assert(f1.objtable@[cc as int] == f2.objtable@[cc as int]);
                    }
                }
                lemma_container_kept(f1, f2, j);
            }
        }
    }
    assert forall|j: int| #![trigger f2.objmap@[j]] 0 <= j < f2.objmap@.len() implies {
        &&& f2.objmap@[j].1 < f2.objtable@.len()
        &&& entry_has_key(f2.objtable@[f2.objmap@[j].1 as int], f2.objmap@[j].0)
    } by {
        assert(f1.objmap@[j] == f2.objmap@[j]);
        let t = f1.objmap@[j].1 as int;
        if t == index {
            assert(entry_has_key(f1.objtable@[t], f1.objmap@[j].0));
        }
    }
}

/// Completing a placeholder opened after `start` keeps what `start` had.
proof fn lemma_finish_extends(start: &Flattener, opened: &Flattener, filled: &Flattener, fin: &Flattener, index: int)
    requires
        opened.extends(start),
        filled.extends(opened),
        index == opened.objtable@.len() - 1,
        index >= start.objtable@.len(),
        filled.done@.len() == filled.objtable@.len(),
        fin.objtable@ == filled.objtable@.update(index, fin.objtable@[index]),
        fin.models@ == filled.models@,
        fin.done@ == filled.done@.update(index, true),
        fin.objmap@ == filled.objmap@,
        fin.root@ == filled.root@,
    ensures
        fin.extends(start),
{
    lemma_extends_trans(start, opened, filled);
    assert forall|j: int| #![trigger start.objtable@[j]] 0 <= j < start.objtable@.len() implies {
        &&& fin.objtable@[j] == start.objtable@[j]
        &&& fin.models@[j] == start.models@[j]
        &&& fin.done@[j] == start.done@[j]
    } by {
        assert(filled.objtable@[j] == start.objtable@[j]);
        assert(filled.models@[j] == start.models@[j]);
        assert(filled.done@[j] == start.done@[j]);
        assert(j != index);
        assert(index < filled.objtable@.len());
        assert(fin.objtable@[j] == filled.objtable@[j]);
        assert(fin.done@[j] == filled.done@[j]);
    }
    assert forall|k: UniqueKey| #[trigger] map_lookup(start.objmap@, k) is Some implies map_lookup(fin.objmap@, k) is Some by {
        assert(map_lookup(filled.objmap@, k) is Some);
    }
}

impl Flattener {
    /// Appends the objects of `value` in preorder and returns how its
    /// parent refers to it.
    fn flatten_value(&mut self, value: &Value) -> (r: RefSlot)
        requires
            old(self).wf(),
            node_within(value.deep(), old(self).root@),
        ensures
            final(self).wf(),
            final(self).extends(old(self)),
            final(self).objtable@.len() > old(self).objtable@.len() || r is Find,
            forall|j: int| old(self).objtable@.len() <= j < final(self).objtable@.len() ==> #[trigger] final(self).done@[j],
            forall|i: int| i < old(self).objtable@.len() ==> #[trigger] final(self).slot_ok(i, r, value.deep()),
        decreases value,
    {
        let ghost start = *self;
        match value {
            Value::Dictionary(dict) => {
                let index = self.objtable.len();
                let n = dict.len();
                let ghost es = entries_model(dict.spec_entries());
                proof {
                    lemma_entries_model(dict.spec_entries());
                    assert(value.deep() == Node::Dictionary(es));
                }
                let ghost before_open = *self;
                self.objtable.push(FlatEntry::Container(0xD0, n as u64, Vec::new()));
                proof {
                    self.models@ = self.models@.push(value.deep());
                    self.done@ = self.done@.push(false);
                    lemma_wf_push(&before_open, self, self.objtable@[index as int], value.deep(), false);
                }
                let ghost opened = *self;
                let mut refs: Vec<RefSlot> = Vec::new();
                let mut i: usize = 0;
                while i < n
                    invariant
                        n == dict.spec_entries().len(),
                        es == entries_model(dict.spec_entries()),
                        es.len() == n,
                        forall|c: int| #![trigger es[c]] 0 <= c < n ==> es[c] == (dict.spec_entries()[c].0@, dict.spec_entries()[c].1.deep()),
                        i <= n,
                        index == opened.objtable@.len() - 1,
                        opened.objtable@[index as int] is Container,
                        !opened.done@[index as int],
                        self.wf(),
                        self.extends(&opened),
                        opened.extends(&start),
                        forall|k: int| index < k < self.objtable@.len() ==> #[trigger] self.done@[k],
                        refs@.len() == i,
                        forall|c: int| 0 <= c < i ==> self.slot_ok(index as int, #[trigger] refs@[c], Node::String(es[c].0)),
                    decreases n - i,
                {
                    let (key, _) = dict.entry_at(i);
                    let ghost before = *self;
                    let slot = self.flatten_unique(UniqueKey::Str(key.clone()), FlatEntry::Text(key.clone()), Ghost(Node::String(key@)));
                    proof {
                        assert forall|k: int| index < k < self.objtable@.len() implies #[trigger] self.done@[k] by {
                            if k < before.objtable@.len() {
                                assert(before.objtable@[k] == self.objtable@[k]);
                                assert(before.done@[k]);
                            }
                        }
                        assert forall|c: int| 0 <= c < i implies self.slot_ok(index as int, #[trigger] refs@[c], Node::String(es[c].0)) by {
                            lemma_slot_kept(&before, self, index as int, refs@[c], Node::String(es[c].0));
                        }
                        lemma_extends_trans(&opened, &before, self);
                    }
                    refs.push(slot);
                    i = i + 1;
                }
                let mut j: usize = 0;
                while j < n
                    invariant
                        *value == Value::Dictionary(*dict),
                        n == dict.spec_entries().len(),
                        es == entries_model(dict.spec_entries()),
                        es.len() == n,
                        forall|c: int| #![trigger es[c]] 0 <= c < n ==> es[c] == (dict.spec_entries()[c].0@, dict.spec_entries()[c].1.deep()),
                        value.deep() == Node::Dictionary(es),
                        node_within(value.deep(), start.root@),
                        j <= n,
                        index == opened.objtable@.len() - 1,
                        opened.objtable@[index as int] is Container,
                        !opened.done@[index as int],
                        opened.root@ == start.root@,
                        self.wf(),
                        self.extends(&opened),
                        opened.extends(&start),
                        forall|k: int| index < k < self.objtable@.len() ==> #[trigger] self.done@[k],
                        refs@.len() == n + j,
                        forall|c: int| 0 <= c < n ==> self.slot_ok(index as int, #[trigger] refs@[c], Node::String(es[c].0)),
                        forall|c: int| 0 <= c < j ==> self.slot_ok(index as int, #[trigger] refs@[n + c], es[c].1),
                    decreases n - j,
                {
                    let (_, child) = dict.entry_at(j);
                    proof {
                        crate::value::lemma_child_decreases(*value, j as int);
                        assert(es[j as int].1 == child.deep());
                        lemma_within_dictionary(child.deep(), es, j as int);
                        lemma_within_trans(child.deep(), value.deep(), start.root@);
                    }
                    let ghost before = *self;
                    let slot = self.flatten_value(child);
                    proof {
                        assert forall|k: int| index < k < self.objtable@.len() implies #[trigger] self.done@[k] by {
                            if k < before.objtable@.len() {
                                assert(before.objtable@[k] == self.objtable@[k]);
                                assert(before.done@[k]);
                            }
                        }
                        assert forall|c: int| 0 <= c < n implies self.slot_ok(index as int, #[trigger] refs@[c], Node::String(es[c].0)) by {
                            lemma_slot_kept(&before, self, index as int, refs@[c], Node::String(es[c].0));
                        }
                        assert forall|c: int| 0 <= c < j implies self.slot_ok(index as int, #[trigger] refs@[n + c], es[c].1) by {
                            lemma_slot_kept(&before, self, index as int, refs@[n + c], es[c].1);
                        }
                        lemma_extends_trans(&opened, &before, self);
                        assert(self.slot_ok(index as int, slot, es[j as int].1));
                    }
                    refs.push(slot);
                    proof {
                        assert(refs@[n + j] == slot);
                    }
                    j = j + 1;
                }
                let ghost filled = *self;
                self.objtable.set(index, FlatEntry::Container(0xD0, n as u64, refs));
                proof {
                    self.done@ = self.done@.update(index as int, true);
                    assert(self.objtable@[index as int] is Container);
                    assert(opened.objtable@[index as int] == filled.objtable@[index as int]);
                    assert(self.container_ok(index as int)) by {
                        crate::value::lemma_entries_model(dict.spec_entries());
                        assert(node_keys_unique(es));
                    }
                    lemma_finish(&filled, self, index as int);
                    lemma_finish_extends(&start, &opened, &filled, self, index as int);
                }
                RefSlot::Fixed(index as u64)
            },
            Value::Array(items) => {
                let index = self.objtable.len();
                let n = items.len();
                let ghost ms = crate::value::values_model(items@);
                proof {
                    lemma_values_model(items@);
                }
                let ghost before_open = *self;
                self.objtable.push(FlatEntry::Container(0xA0, n as u64, Vec::new()));
                proof {
                    self.models@ = self.models@.push(value.deep());
                    self.done@ = self.done@.push(false);
                    lemma_wf_push(&before_open, self, self.objtable@[index as int], value.deep(), false);
                }
                let ghost opened = *self;
                let mut refs: Vec<RefSlot> = Vec::new();
                let mut i: usize = 0;
                while i < n
                    invariant
                        *value == Value::Array(*items),
                        n == items@.len(),
                        ms == crate::value::values_model(items@),
                        ms.len() == n,
                        forall|c: int| #![trigger ms[c]] 0 <= c < n ==> ms[c] == items@[c].deep(),
                        value.deep() == Node::Array(ms),
                        node_within(value.deep(), start.root@),
                        i <= n,
                        index == opened.objtable@.len() - 1,
                        opened.objtable@[index as int] is Container,
                        !opened.done@[index as int],
                        opened.root@ == start.root@,
                        self.wf(),
                        self.extends(&opened),
                        opened.extends(&start),
                        forall|k: int| index < k < self.objtable@.len() ==> #[trigger] self.done@[k],
                        refs@.len() == i,
                        forall|c: int| 0 <= c < i ==> self.slot_ok(index as int, #[trigger] refs@[c], ms[c]),
                    decreases n - i,
                {
                    proof {
                        crate::value::lemma_child_decreases(*value, i as int);
                        assert(ms[i as int] == items@[i as int].deep());
                        lemma_within_array(items@[i as int].deep(), ms, i as int);
                        lemma_within_trans(items@[i as int].deep(), value.deep(), start.root@);
                    }
                    let ghost before = *self;
                    let slot = self.flatten_value(&items[i]);
                    proof {
                        assert forall|k: int| index < k < self.objtable@.len() implies #[trigger] self.done@[k] by {
                            if k < before.objtable@.len() {
                                assert(before.objtable@[k] == self.objtable@[k]);
                                assert(before.done@[k]);
                            }
                        }
                        assert forall|c: int| 0 <= c < i implies self.slot_ok(index as int, #[trigger] refs@[c], ms[c]) by {
                            lemma_slot_kept(&before, self, index as int, refs@[c], ms[c]);
                        }
                        lemma_extends_trans(&opened, &before, self);
                    }
                    refs.push(slot);
                    i = i + 1;
                }
                let ghost filled = *self;
                self.objtable.set(index, FlatEntry::Container(0xA0, n as u64, refs));
                proof {
                    self.done@ = self.done@.update(index as int, true);
                    assert(opened.objtable@[index as int] == filled.objtable@[index as int]);
                    assert(self.container_ok(index as int));
                    lemma_finish(&filled, self, index as int);
                    lemma_finish_extends(&start, &opened, &filled, self, index as int);
                }
                RefSlot::Fixed(index as u64)
            },
            Value::String(s) => self.flatten_unique(UniqueKey::Str(s.clone()), FlatEntry::Text(s.clone()), Ghost(value.deep())),
            Value::Integer(integer) => {
                let (signed, raw) = integer.to_raw_parts();
                self.flatten_unique(UniqueKey::Int(signed, raw), FlatEntry::Int(signed, raw), Ghost(value.deep()))
            },
            Value::Real(x) => {
                if x.is_nan() {
                    let ghost before_nan = *self;
                    self.objtable.push(FlatEntry::Float(*x));
                    proof {
                        self.models@ = self.models@.push(value.deep());
                        self.done@ = self.done@.push(true);
                        lemma_wf_push(&before_nan, self, FlatEntry::Float(*x), value.deep(), true);
                    }
                    return RefSlot::Missing;
                }
                let bits = x.to_f64_bits();
                let key_bits = if bits & 0x7FFF_FFFF_FFFF_FFFFu64 == 0 {
                    0
                } else {
                    bits
                };
                self.flatten_unique(UniqueKey::RealBits(key_bits, x.wide()), FlatEntry::Float(*x), Ghost(value.deep()))
            },
            Value::Boolean(b) => self.flatten_overwrite(UniqueKey::Bool(*b), FlatEntry::Bool(*b), Ghost(value.deep())),
            Value::Uid(u) => self.flatten_overwrite(UniqueKey::UidNum(u.get()), FlatEntry::UidNum(u.get()), Ghost(value.deep())),
            Value::Data(d) => {
                let sum = crc32_of(d.as_slice());
                self.flatten_unique(UniqueKey::DataSum(sum), FlatEntry::Bytes(crate::strings::copy_bytes(d)), Ghost(value.deep()))
            },
            Value::Date(d) => self.flatten_unique(UniqueKey::Instant(d.nanos()), FlatEntry::When(*d), Ghost(value.deep())),
        }
    }
}

/// The error for a NaN real inside a container.
fn nan_error() -> (r: Error)
    ensures
        r is Message,
{
    Error::Message("nan cannot be uniqued in a binary property list container".to_owned())
}

/// The object index a reference resolves to.
fn resolve(slot: &RefSlot, objmap: &Vec<(UniqueKey, u64)>) -> (r: Result<u64, Error>)
    ensures
        match *slot {
            RefSlot::Fixed(i) => r == Ok::<u64, Error>(i),
            RefSlot::Find(k) => match map_lookup(objmap@, k) {
                Some(i) => r == Ok::<u64, Error>(i),
                None => r matches Err(e) && e is Message,
            },
            RefSlot::Missing => r matches Err(e) && e is Message,
        },
{
    match slot {
        RefSlot::Fixed(index) => Ok(*index),
        RefSlot::Find(key) => match lookup_exec(objmap, key) {
            Some(i) => Ok(objmap[i].1),
            None => Err(nan_error()),
        },
        RefSlot::Missing => Err(nan_error()),
    }
}

/// The index a reference names in the final map.
pub open spec fn slot_index(s: RefSlot, map: Seq<(UniqueKey, u64)>) -> u64 {
    match s {
        RefSlot::Fixed(i) => i,
        RefSlot::Find(k) => match map_lookup(map, k) {
            Some(i) => i,
            None => 0,
        },
        RefSlot::Missing => 0,
    }
}

/// Whether a reference can be written: not a NaN, and found in the map.
pub open spec fn slot_resolves(s: RefSlot, map: Seq<(UniqueKey, u64)>) -> bool {
    match s {
        RefSlot::Fixed(_) => true,
        RefSlot::Find(k) => map_lookup(map, k) is Some,
        RefSlot::Missing => false,
    }
}

/// The reference list of a container: each index big-endian in `size`
/// bytes.
pub open spec fn refs_bytes(refs: Seq<RefSlot>, map: Seq<(UniqueKey, u64)>, size: u8) -> Seq<u8>
    decreases refs.len(),
{
    if refs.len() == 0 {
        Seq::empty()
    } else {
        refs_bytes(refs.drop_last(), map, size) + be_bytes(slot_index(refs.last(), map) as nat, size as nat)
    }
}

/// Whether `seg` is the encoding of the object `e` (a date object: its
/// marker and eight payload bytes).
pub open spec fn written(seg: Seq<u8>, e: FlatEntry, size: u8, map: Seq<(UniqueKey, u64)>) -> bool {
    match e {
        FlatEntry::Text(s) => seg == string_object(s@),
        FlatEntry::Int(signed, raw) => seg == int_object(signed, raw),
        FlatEntry::Float(x) => seg == real_object(x),
        FlatEntry::Bool(b) => seg == seq![if b { 0x09u8 } else { 0x08u8 }],
        FlatEntry::UidNum(v) => seg == uid_object(v),
        FlatEntry::Bytes(d) => seg == counted_marker(0x40, d@.len() as u64) + d@,
        FlatEntry::When(_) => seg.len() == 9 && seg[0] == 0x33u8,
        FlatEntry::Container(tag, count, refs) => seg == counted_marker(tag, count) + refs_bytes(refs@, map, size),
    }
}

/// Whether every reference of a container can be written.
pub open spec fn entry_resolves(e: FlatEntry, map: Seq<(UniqueKey, u64)>) -> bool {
    match e {
        FlatEntry::Container(_, _, refs) => forall|c: int| 0 <= c < refs@.len() ==> slot_resolves(#[trigger] refs@[c], map),
        _ => true,
    }
}

/// Appends one object of the table.
fn write_entry<H: FloatCodec>(
    out: &mut Vec<u8>,
    entry: &FlatEntry,
    ref_size: u8,
    objmap: &Vec<(UniqueKey, u64)>,
    hooks: &H,
) -> (r: Result<(), Error>)
    requires
        ref_size <= 8,
    ensures
        r matches Err(e) ==> e is Message,
        final(out)@.len() > old(out)@.len(),
        final(out)@.subrange(0, old(out)@.len() as int) == old(out)@,
        r is Ok ==> written(final(out)@.subrange(old(out)@.len() as int, final(out)@.len() as int), *entry, ref_size, objmap@),
        entry_resolves(*entry, objmap@) ==> r is Ok,
{
    let ghost start = out@;
    let ghost mut seg: Seq<u8> = Seq::empty();
    match entry {
        FlatEntry::Text(s) => {
            write_string(out, s.as_str());
            proof {
                seg = string_object(s@);
            }
        },
        FlatEntry::Int(signed, raw) => {
            write_int_tag(out, *signed, *raw);
            proof {
                seg = int_object(*signed, *raw);
            }
        },
        FlatEntry::Float(x) => {
            write_real(out, *x);
            proof {
                seg = real_object(*x);
            }
        },
        FlatEntry::Bool(b) => {
            out.push(if *b { 0x09 } else { 0x08 });
            proof {
                seg = seq![if *b { 0x09u8 } else { 0x08u8 }];
            }
        },
        FlatEntry::UidNum(v) => {
            write_uid(out, *v);
            proof {
                seg = uid_object(*v);
            }
        },
        FlatEntry::Bytes(d) => {
            write_counted_tag(out, 0x40, d.len() as u64);
            push_bytes(out, d.as_slice());
            proof {
                seg = counted_marker(0x40, d@.len() as u64) + d@;
            }
        },
        FlatEntry::When(d) => {
            out.push(0x33);
            let bits = hooks.unix_to_apple_epoch(d.nanos());
            write_sized_int(out, bits, 8);
            proof {
                lemma_be_bytes_len(bits as nat, 8);
                seg = seq![0x33u8] + be_bytes(bits as nat, 8);
            }
        },
        FlatEntry::Container(tag, count, refs) => {
            write_counted_tag(out, *tag, *count);
            let ghost mid = out@;
            let mut i: usize = 0;
            while i < refs.len()
                invariant
                    ref_size <= 8,
                    start == old(out)@,
                    i <= refs@.len(),
                    mid == start + counted_marker(*tag, *count),
                    *entry == FlatEntry::Container(*tag, *count, *refs),
                    out@ == mid + refs_bytes(refs@.subrange(0, i as int), objmap@, ref_size),
                    forall|c: int| 0 <= c < i ==> slot_resolves(#[trigger] refs@[c], objmap@),
                decreases refs@.len() - i,
            {
                let index = match resolve(&refs[i], objmap) {
                    Ok(x) => x,
                    Err(e) => {
                        proof {
                            assert(!slot_resolves(refs@[i as int], objmap@));
                            assert(*entry == FlatEntry::Container(*tag, *count, *refs));
                            assert(!entry_resolves(*entry, objmap@)) by {
                                if entry_resolves(*entry, objmap@) {
                                    let rs = (*entry)->Container_2;
                                    assert(rs == *refs);
                                    assert(slot_resolves(rs@[i as int], objmap@));
                                }
                            }
                            assert(out@ =~= start + (counted_marker(*tag, *count) + refs_bytes(refs@.subrange(0, i as int), objmap@, ref_size)));
                            assert(counted_marker(*tag, *count).len() > 0);
                            assert(out@.subrange(0, start.len() as int) =~= start);
                        }
                        return Err(e);
                    },
                };
                write_sized_int(out, index, ref_size);
                proof {
                    assert(refs@.subrange(0, i + 1).drop_last() =~= refs@.subrange(0, i as int));
                    assert(out@ =~= mid + refs_bytes(refs@.subrange(0, i + 1), objmap@, ref_size));
                }
                i = i + 1;
            }
            proof {
                assert(refs@.subrange(0, refs@.len() as int) =~= refs@);
                seg = counted_marker(*tag, *count) + refs_bytes(refs@, objmap@, ref_size);
            }
        },
    }
    proof {
        assert(out@ =~= start + seg);
        assert(seg.len() > 0);
        assert(out@.subrange(0, start.len() as int) =~= start);
        assert(out@.subrange(start.len() as int, out@.len() as int) =~= seg);
    }
    Ok(())
}

/// The bytes of a prefix are the same bytes in anything it prefixes.
proof fn lemma_sub_of_prefix(whole: Seq<u8>, prefix: Seq<u8>, lo: int, hi: int)
    requires
        prefix.len() <= whole.len(),
        whole.subrange(0, prefix.len() as int) == prefix,
        0 <= lo <= hi <= prefix.len(),
    ensures
        whole.subrange(lo, hi) == prefix.subrange(lo, hi),
{
    assert forall|k: int| 0 <= k < hi - lo implies whole.subrange(lo, hi)[k] == prefix.subrange(lo, hi)[k] by {
        assert(whole.subrange(0, prefix.len() as int)[lo + k] == whole[lo + k]);
    }
    assert(whole.subrange(lo, hi) =~= prefix.subrange(lo, hi));
}

/// The `bplist00` magic.
pub open spec fn magic() -> Seq<u8> {
    seq![0x62u8, 0x70u8, 0x6cu8, 0x69u8, 0x73u8, 0x74u8, 0x30u8, 0x30u8]
}

/// The shape of a finished document: the magic, then objects and the offset
/// table, then the 32-byte trailer whose first six bytes are zero and whose
/// sizes and counts are big-endian.
pub open spec fn framed(doc: Seq<u8>, offset_int_size: u8, ref_size: u8, num_objects: u64, top: u64, table: u64) -> bool {
    let n = doc.len() as int;
    &&& n >= 40
    &&& doc.subrange(0, 8) == magic()
    &&& doc.subrange(n - 32, n - 26) == Seq::new(6, |i: int| 0u8)
    &&& doc[n - 26] == offset_int_size
    &&& doc[n - 25] == ref_size
    &&& doc.subrange(n - 24, n - 16) == be_bytes(num_objects as nat, 8)
    &&& doc.subrange(n - 16, n - 8) == be_bytes(top as nat, 8)
    &&& doc.subrange(n - 8, n) == be_bytes(table as nat, 8)
    &&& 8 <= table <= n - 32
    &&& offset_int_size == min_int_size(table)
    &&& ref_size == min_int_size(num_objects)
}

/// Whether a document has the `bplist00` frame for some trailer values.
pub open spec fn well_framed(doc: Seq<u8>) -> bool {
    exists|o: u8, s: u8, n: u64, t: u64, tab: u64| #[trigger] framed(doc, o, s, n, t, tab)
}

/// The 32-byte trailer.
pub open spec fn trailer_bytes(offset_int_size: u8, ref_size: u8, num_objects: u64, top: u64, table: u64) -> Seq<u8> {
    Seq::new(6, |i: int| 0u8) + seq![offset_int_size, ref_size] + be_bytes(num_objects as nat, 8) + be_bytes(top as nat, 8)
        + be_bytes(table as nat, 8)
}

fn append_trailer(out: &mut Vec<u8>, offset_int_size: u8, ref_size: u8, num_objects: u64, top: u64, table: u64)
    ensures
        final(out)@ == old(out)@ + trailer_bytes(offset_int_size, ref_size, num_objects, top, table),
{
    let ghost body = out@;
    let mut z: usize = 0;
    while z < 6
        invariant
            z <= 6,
            out@ == body + Seq::new(z as nat, |i: int| 0u8),
        decreases 6 - z,
    {
        out.push(0);
        proof {
            assert(Seq::new((z + 1) as nat, |i: int| 0u8) =~= Seq::new(z as nat, |i: int| 0u8).push(0u8));
        }
        z = z + 1;
    }
    out.push(offset_int_size);
    out.push(ref_size);
    write_sized_int(out, num_objects, 8);
    write_sized_int(out, top, 8);
    write_sized_int(out, table, 8);
    proof {
        assert(out@ =~= body + trailer_bytes(offset_int_size, ref_size, num_objects, top, table));
    }
}

proof fn lemma_framed(body: Seq<u8>, o: u8, s: u8, n: u64, t: u64, tab: u64)
    requires
        body.len() >= 8,
        body.subrange(0, 8) == magic(),
        8 <= tab <= body.len(),
        o == min_int_size(tab),
        s == min_int_size(n),
    ensures
        framed(body + trailer_bytes(o, s, n, t, tab), o, s, n, t, tab),
{
    lemma_be_bytes_len(n as nat, 8);
    lemma_be_bytes_len(t as nat, 8);
    lemma_be_bytes_len(tab as nat, 8);
    let doc = body + trailer_bytes(o, s, n, t, tab);
    let m = doc.len() as int;
    assert(doc.subrange(0, 8) =~= body.subrange(0, 8));
    assert(doc.subrange(m - 32, m - 26) =~= Seq::new(6, |i: int| 0u8));
    assert(doc.subrange(m - 24, m - 16) =~= be_bytes(n as nat, 8));
    assert(doc.subrange(m - 16, m - 8) =~= be_bytes(t as nat, 8));
    assert(doc.subrange(m - 8, m) =~= be_bytes(tab as nat, 8));
}

/// `256^n`.
pub open spec fn pow256(n: nat) -> nat
    decreases n,
{
    if n == 0 {
        1
    } else {
        256 * pow256((n - 1) as nat)
    }
}

/// Big-endian bytes read back big-endian give the number they encode.
pub(crate) proof fn lemma_be_round_trip(v: nat, n: nat)
    requires
        v < pow256(n),
    ensures
        be_uint(be_bytes(v, n)) == v,
    decreases n,
{
    if n > 0 {
        let p = pow256((n - 1) as nat);
        assert(v / 256 < p) by (nonlinear_arith)
            requires
                v < 256 * p,
        ;
        lemma_be_round_trip(v / 256, (n - 1) as nat);
        assert(be_bytes(v, n).drop_last() =~= be_bytes(v / 256, (n - 1) as nat));
        assert((v / 256) * 256 + v % 256 == v) by (nonlinear_arith);
    }
}

/// The trailer a framed document carries reads back as the values written.
#[verifier::spinoff_prover]
#[verifier::rlimit(40)]
pub(crate) proof fn lemma_trailer_reads_back(body: Seq<u8>, o: u8, s: u8, n: u64, t: u64, tab: u64)
    requires
        body.len() <= u64::MAX,
    ensures
        trailer_of(body + trailer_bytes(o, s, n, t, tab)).offset_int_size == o,
        trailer_of(body + trailer_bytes(o, s, n, t, tab)).object_ref_size == s,
        trailer_of(body + trailer_bytes(o, s, n, t, tab)).num_objects == n,
        trailer_of(body + trailer_bytes(o, s, n, t, tab)).top_object == t,
        trailer_of(body + trailer_bytes(o, s, n, t, tab)).offset_table_offset == tab,
        trailer_of(body + trailer_bytes(o, s, n, t, tab)).start == body.len(),
{
    lemma_be_bytes_len(n as nat, 8);
    lemma_be_bytes_len(t as nat, 8);
    lemma_be_bytes_len(tab as nat, 8);
    let doc = body + trailer_bytes(o, s, n, t, tab);
    let b = body.len() as int;
    assert(pow256(8) == 0x1_0000_0000_0000_0000) by {
        reveal_with_fuel(pow256, 9);
    }
    lemma_be_round_trip(n as nat, 8);
    lemma_be_round_trip(t as nat, 8);
    lemma_be_round_trip(tab as nat, 8);
    assert(doc.subrange(b + 8, b + 16) =~= be_bytes(n as nat, 8));
    assert(doc.subrange(b + 16, b + 24) =~= be_bytes(t as nat, 8));
    assert(doc.subrange(b + 24, b + 32) =~= be_bytes(tab as nat, 8));
    assert(doc[b + 6] == o);
    assert(doc[b + 7] == s);
}

/// A document of a magic header, a table of `n` entries of the minimal width
/// for its offset, and the trailer passes every check the parser makes
/// before reading objects, unless the count needs eight-byte references.
proof fn lemma_header_accepted(body: Seq<u8>, o: u8, s: u8, n: u64, t: u64, tab: u64)
    requires
        body.len() >= 8,
        body.len() <= u64::MAX,
        body.subrange(0, 8) == magic(),
        9 <= tab,
        body.len() == tab + n * o,
        n >= 1,
        t < n,
        o == min_int_size(tab),
        s == min_int_size(n),
        n <= 0xFFFF_FFFF,
    ensures
        header_ok(body + trailer_bytes(o, s, n, t, tab)),
{
    let doc = body + trailer_bytes(o, s, n, t, tab);
    lemma_trailer_reads_back(body, o, s, n, t, tab);
    lemma_be_bytes_len(n as nat, 8);
    lemma_be_bytes_len(t as nat, 8);
    lemma_be_bytes_len(tab as nat, 8);
    vstd::arithmetic::power2::lemma2_to64();
    assert(doc.subrange(0, 6) =~= bplist_magic()) by {
        assert(doc.subrange(0, 6) =~= body.subrange(0, 8).subrange(0, 6));
    }
    assert(doc[6] == 0x30u8 && doc[7] == 0x30u8) by {
        assert(doc[6] == body.subrange(0, 8)[6]);
        assert(doc[7] == body.subrange(0, 8)[7]);
    }
    assert(wrapped_version(doc) == 0);
    assert(o >= 1);
    assert(n * o >= 1) by (nonlinear_arith)
        requires
            n >= 1,
            o >= 1,
    ;
}

/// The document of a finished flattening: each object where the offsets
/// say, the offset table, and the trailer.
#[verifier::spinoff_prover]
#[verifier::rlimit(60)]
proof fn lemma_doc_layout(
    objects: Seq<u8>,
    body: Seq<u8>,
    fl: &Flattener,
    offs: Seq<u64>,
    ends: Seq<u64>,
    o: u8,
    s: u8,
    n: u64,
    top: u64,
    tab: u64,
)
    requires
        objects.len() == tab,
        tab >= 9,
        body.len() >= tab,
        body.subrange(0, tab as int) == objects,
        body.len() == tab + n * o,
        body.len() + 32 <= u64::MAX,
        n == fl.objtable@.len(),
        n >= 1,
        o == min_int_size(tab),
        s == min_int_size(n),
        fl.wf(),
        forall|j: int| 0 <= j < n ==> #[trigger] fl.done@[j],
        offs.len() == n,
        ends.len() == n,
        forall|j: int| #![trigger offs[j]] 0 <= j < n ==> 8 <= offs[j] < ends[j] <= tab,
        forall|j: int| #![trigger ends[j]] 0 <= j < n - 1 ==> ends[j] == offs[j + 1],
        forall|j: int| #![trigger fl.objtable@[j]] 0 <= j < n ==> written(
            objects.subrange(offs[j] as int, ends[j] as int),
            fl.objtable@[j],
            s,
            fl.objmap@,
        ),
        forall|j: int| #![trigger offs[j]] 0 <= j < n ==> body.subrange(tab + j * o, tab + (j + 1) * o) == be_bytes(
            offs[j] as nat,
            o as nat,
        ),
    ensures
        doc_ok(body + trailer_bytes(o, s, n, top, tab), trailer_of(body + trailer_bytes(o, s, n, top, tab)), *fl, offs, ends),
{
    let doc = body + trailer_bytes(o, s, n, top, tab);
    lemma_trailer_reads_back(body, o, s, n, top, tab);
    lemma_be_bytes_len(n as nat, 8);
    lemma_be_bytes_len(top as nat, 8);
    lemma_be_bytes_len(tab as nat, 8);
    let t = trailer_of(doc);
    assert(doc.subrange(0, body.len() as int) =~= body);
    assert forall|j: int| #![trigger fl.objtable@[j]] 0 <= j < n implies written(
        doc.subrange(offs[j] as int, ends[j] as int),
        fl.objtable@[j],
        t.object_ref_size,
        fl.objmap@,
    ) by {
        assert(offs[j] < ends[j] <= tab);
        lemma_sub_of_prefix(doc, body, offs[j] as int, ends[j] as int);
        lemma_sub_of_prefix(body, objects, offs[j] as int, ends[j] as int);
    }
    assert forall|j: int| #![trigger offs[j]] 0 <= j < n implies entry_offset(doc, t, j as u64) == Some(offs[j]) by {
        assert(8 <= offs[j] < ends[j] <= tab);
        crate::binary::readback::lemma_ref_fits(tab, offs[j]);
        assert((j + 1) * o == j * o + o) by (nonlinear_arith);
        assert((j + 1) * o <= n * o) by (nonlinear_arith)
            requires
                j + 1 <= n,
        ;
        assert(0 <= j * o) by (nonlinear_arith)
            requires
                j >= 0,
        ;
        let pos = j * o + tab;
        lemma_sub_of_prefix(doc, body, tab + j * o, tab + (j + 1) * o);
        crate::binary::readback::lemma_sized_read_be(doc, pos as u64, offs[j] as nat, o as u64);
    }
}

/// Serializes a value tree into a complete `bplist00` document.
///
/// Object IDs are assigned in preorder; strings, integers, reals, dates, and
/// data are uniqued (first occurrence wins), while booleans and UIDs are
/// appended every time and every reference resolves to the last
/// occurrence. A NaN root encodes as object 0; a NaN inside a container
/// fails with [`Error::Message`]. The document passes the binary parser's
/// header and trailer checks, except when it holds more objects than four
/// bytes can count.
#[verifier::spinoff_prover]
#[verifier::rlimit(100)]
pub fn generate<H: FloatCodec>(root: &Value, hooks: &H) -> (r: Result<Vec<u8>, Error>)
    ensures
        r matches Ok(doc) ==> well_framed(doc@),
        r matches Ok(doc) ==> header_ok(doc@) || trailer_of(doc@).num_objects > 0xFFFF_FFFF,
        r matches Err(e) ==> e is Message,
        no_nan(root.deep()) ==> r is Ok,
        !nan_in_container(root.deep()) ==> r is Ok,
        r matches Ok(doc) ==> (no_nan(root.deep()) && depth_within(root.deep(), 128) && crc_distinct(root.deep())
            && trailer_of(doc@).num_objects <= 0xFFFF_FFFF ==> exists|dates: spec_fn(u64) -> Date|
            #[trigger] decode_binary(doc@, dates) matches Ok(n) && node_eq(n, root.deep())),
{
    let mut flattener = Flattener {
        objmap: Vec::new(),
        objtable: Vec::new(),
        models: Ghost(Seq::empty()),
        done: Ghost(Seq::empty()),
        root: Ghost(root.deep()),
    };
    proof {
        assert(node_within(root.deep(), root.deep()));
    }
    let root_slot = flattener.flatten_value(root);
    proof {
        assert(flattener.slot_ok(-1, root_slot, root.deep()));
        assert(forall|j: int| 0 <= j < flattener.objtable@.len() ==> #[trigger] flattener.done@[j]);
    }
    let num_objects = flattener.objtable.len() as u64;
    proof {
        if root_slot is Find {
            lemma_map_lookup(flattener.objmap@, root_slot->Find_0);
        }
    }
    assert(num_objects >= 1);
    let object_ref_size = minimum_int_size(num_objects);
    let mut out: Vec<u8> = Vec::new();
    out.push(0x62);
    out.push(0x70);
    out.push(0x6c);
    out.push(0x69);
    out.push(0x73);
    out.push(0x74);
    out.push(0x30);
    out.push(0x30);
    proof {
        assert(out@ =~= magic());
    }
    let mut offsets: Vec<u64> = Vec::new();
    let ghost mut ends: Seq<u64> = Seq::empty();
    let mut i: usize = 0;
    while i < flattener.objtable.len()
        invariant
            i <= flattener.objtable@.len(),
            object_ref_size <= 8,
            flattener.wf(),
            flattener.root@ == root.deep(),
            forall|j: int| 0 <= j < flattener.objtable@.len() ==> #[trigger] flattener.done@[j],
            out@.len() >= 8 + i,
            out@.subrange(0, 8) == magic(),
            offsets@.len() == i,
            ends.len() == i,
            i == 0 ==> out@.len() == 8,
            i > 0 ==> ends[i - 1] == out@.len(),
            forall|j: int| #![trigger offsets@[j]] 0 <= j < i ==> 8 <= offsets@[j] < ends[j] <= out@.len(),
            forall|j: int| #![trigger ends[j]] 0 <= j < i - 1 ==> ends[j] == offsets@[j + 1],
            forall|j: int| #![trigger flattener.objtable@[j]] 0 <= j < i ==> written(
                out@.subrange(offsets@[j] as int, ends[j] as int),
                flattener.objtable@[j],
                object_ref_size,
                flattener.objmap@,
            ),
        decreases flattener.objtable@.len() - i,
    {
        let ghost before = out@;
        offsets.push(out.len() as u64);
        match write_entry(&mut out, &flattener.objtable[i], object_ref_size, &flattener.objmap, hooks) {
            Ok(()) => {},
            Err(e) => {
                proof {
                    if no_nan(root.deep()) {
                        crate::binary::readback::lemma_entry_resolves(flattener, i as int);
                    }
                    if !nan_in_container(root.deep()) {
                        crate::binary::readback::lemma_entry_resolves_without_nested_nan(flattener, i as int);
                    }
                }
                return Err(e);
            },
        }
        let end = out.len() as u64;
        proof {
            assert(out@.subrange(0, 8) =~= before.subrange(0, 8));
            ends = ends.push(end);
            assert(offsets@[i as int] == before.len());
            assert forall|j: int| #![trigger flattener.objtable@[j]] 0 <= j < i implies written(
                out@.subrange(offsets@[j] as int, ends[j] as int),
                flattener.objtable@[j],
                object_ref_size,
                flattener.objmap@,
            ) by {
                lemma_sub_of_prefix(out@, before, offsets@[j] as int, ends[j] as int);
            }
        }
        i = i + 1;
    }
    let offset_table_offset = out.len() as u64;
    assert(offset_table_offset >= 9);
    let offset_int_size = minimum_int_size(offset_table_offset);
    let ghost objects = out@;
    let mut j: usize = 0;
    while j < offsets.len()
        invariant
            j <= offsets@.len(),
            offsets@.len() == flattener.objtable@.len(),
            offset_int_size <= 8,
            offset_int_size == min_int_size(offset_table_offset),
            out@.len() == offset_table_offset + j * offset_int_size,
            offset_table_offset >= 9,
            offset_table_offset == objects.len(),
            out@.subrange(0, objects.len() as int) == objects,
            out@.subrange(0, 8) == magic(),
            out@.len() >= objects.len(),
            forall|k: int| #![trigger offsets@[k]] 0 <= k < j ==> out@.subrange(
                offset_table_offset + k * offset_int_size,
                offset_table_offset + (k + 1) * offset_int_size,
            ) == be_bytes(offsets@[k] as nat, offset_int_size as nat),
        decreases offsets@.len() - j,
    {
        let ghost before = out@;
        write_sized_int(&mut out, offsets[j], offset_int_size);
        proof {
            lemma_be_bytes_len(offsets[j as int] as nat, offset_int_size as nat);
            assert(out@.subrange(0, 8) =~= before.subrange(0, 8));
            assert((j + 1) * offset_int_size == j * offset_int_size + offset_int_size) by (nonlinear_arith);
            assert(out@.subrange(0, before.len() as int) =~= before);
            lemma_sub_of_prefix(out@, before, 0, objects.len() as int);
            assert forall|k: int| #![trigger offsets@[k]] 0 <= k < j + 1 implies out@.subrange(
                offset_table_offset + k * offset_int_size,
                offset_table_offset + (k + 1) * offset_int_size,
            ) == be_bytes(offsets@[k] as nat, offset_int_size as nat) by {
                if k < j {
                    assert((k + 1) * offset_int_size <= j * offset_int_size) by (nonlinear_arith)
                        requires
                            k < j,
                            offset_int_size >= 0,
                    ;
                    assert(0 <= k * offset_int_size) by (nonlinear_arith)
                        requires
                            k >= 0,
                            offset_int_size >= 0,
                    ;
                    lemma_sub_of_prefix(
                        out@,
                        before,
                        offset_table_offset + k * offset_int_size,
                        offset_table_offset + (k + 1) * offset_int_size,
                    );
                } else {
                    assert(out@.subrange(
                        offset_table_offset + k * offset_int_size,
                        offset_table_offset + (k + 1) * offset_int_size,
                    ) =~= be_bytes(offsets@[k] as nat, offset_int_size as nat));
                }
            }
        }
        j = j + 1;
    }
    let top_object: u64 = match root_slot {
        RefSlot::Fixed(index) => index,
        RefSlot::Find(key) => match lookup_exec(&flattener.objmap, &key) {
            Some(k) => flattener.objmap[k].1,
            None => 0,
        },
        RefSlot::Missing => 0,
    };
    assert(top_object < num_objects);
    let body_len = out.len();
    assert(body_len as int <= u64::MAX);
    let ghost body = out@;
    append_trailer(&mut out, offset_int_size, object_ref_size, num_objects, top_object, offset_table_offset);
    let total_len = out.len();
    assert(total_len as int <= u64::MAX);
    proof {
        lemma_be_bytes_len(num_objects as nat, 8);
        lemma_be_bytes_len(top_object as nat, 8);
        lemma_be_bytes_len(offset_table_offset as nat, 8);
        assert(trailer_bytes(offset_int_size, object_ref_size, num_objects, top_object, offset_table_offset).len() == 32);
        assert(out@.len() == body.len() + 32);
        assert(top_object == slot_index(root_slot, flattener.objmap@));
        lemma_doc_layout(
            objects,
            body,
            &flattener,
            offsets@,
            ends,
            offset_int_size,
            object_ref_size,
            num_objects,
            top_object,
            offset_table_offset,
        );
        if no_nan(root.deep()) && depth_within(root.deep(), 128) && crc_distinct(root.deep()) && num_objects <= 0xFFFF_FFFF {
            lemma_trailer_reads_back(body, offset_int_size, object_ref_size, num_objects, top_object, offset_table_offset);
            lemma_header_accepted(body, offset_int_size, object_ref_size, num_objects, top_object, offset_table_offset);
            crate::binary::readback::lemma_generated_decodes(out@, flattener, offsets@, ends, root_slot, root.deep());
        }
        lemma_framed(body, offset_int_size, object_ref_size, num_objects, top_object, offset_table_offset);
        assert(framed(out@, offset_int_size, object_ref_size, num_objects, top_object, offset_table_offset));
        assert(well_framed(out@));
        lemma_trailer_reads_back(body, offset_int_size, object_ref_size, num_objects, top_object, offset_table_offset);
        if num_objects <= 0xFFFF_FFFF {
            lemma_header_accepted(body, offset_int_size, object_ref_size, num_objects, top_object, offset_table_offset);
        }
    }
    Ok(out)
}

} // verus!
