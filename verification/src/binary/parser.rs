//! The `bplist00` parser: fully buffered, bounds-checked, panic-free.

use vstd::prelude::*;

use crate::date::{clamp_nanos, date_at, Date};
use crate::depth::MAX_PARSE_DEPTH;
use crate::error::Error;
use crate::integer::Integer;
use crate::reals::Real;
use crate::scalar::FloatCodec;
use crate::strings::{push_all, string_from_chars, u64_decimal};
use crate::uid::Uid;
use crate::value::{collect_node_entries, entries_model, lemma_collect_model, lemma_entries_model, lemma_values_model, values_model, Dictionary, Node, Value};

verus! {

/// Whether `e` is a binary parse failure.
pub open spec fn is_binary_error(e: Error) -> bool {
    e matches Error::Parse { format, source } && format@ == "binary"@ && source is Some
}

/// The big-endian value of a byte sequence.
pub open spec fn be_uint(s: Seq<u8>) -> nat
    decreases s.len(),
{
    if s.len() == 0 {
        0
    } else {
        be_uint(s.drop_last()) * 256 + s.last() as nat
    }
}

/// The eight bytes at `pos` read big-endian (zero when out of range).
pub open spec fn be_u64_at(buf: Seq<u8>, pos: int) -> nat {
    if 0 <= pos && pos + 8 <= buf.len() {
        be_uint(buf.subrange(pos, pos + 8))
    } else {
        0
    }
}

/// The `bplist` magic.
pub open spec fn bplist_magic() -> Seq<u8> {
    seq![0x62u8, 0x70u8, 0x6cu8, 0x69u8, 0x73u8, 0x74u8]
}

/// The two version bytes as `((b6 - '0') * 10) + (b7 - '0')` in wrapping
/// `u8` arithmetic.
pub open spec fn wrapped_version(buf: Seq<u8>) -> u8 {
    let d6 = (buf[6] as int + 208) % 256;
    let d7 = (buf[7] as int + 208) % 256;
    ((d6 * 10 + d7) % 256) as u8
}

/// The trailer fields of a document of at least 32 bytes.
pub struct Trailer {
    /// Width of one offset-table entry.
    pub offset_int_size: u8,
    /// Width of one object reference.
    pub object_ref_size: u8,
    /// Number of objects.
    pub num_objects: u64,
    /// Index of the root object.
    pub top_object: u64,
    /// Where the offset table starts.
    pub offset_table_offset: u64,
    /// Where the trailer starts (`len - 32`).
    pub start: u64,
}

/// The trailer fields as read from the last 32 bytes of `buf`.
pub open spec fn trailer_of(buf: Seq<u8>) -> Trailer {
    let base = buf.len() - 32;
    Trailer {
        offset_int_size: buf[base + 6],
        object_ref_size: buf[base + 7],
        num_objects: be_u64_at(buf, base + 8) as u64,
        top_object: be_u64_at(buf, base + 16) as u64,
        offset_table_offset: be_u64_at(buf, base + 24) as u64,
        start: base as u64,
    }
}

/// Which trailer check fails first, in the fixed order; `None` when all
/// seven pass.
pub open spec fn trailer_fault(t: Trailer) -> Option<nat> {
    let table = t.offset_table_offset as int;
    let trailer = t.start as int;
    let objects = t.num_objects as int;
    let entry = t.offset_int_size as int;
    let shift = ((8 * t.object_ref_size as int) % 256) as int;
    let max_ref: int = if shift >= 64 {
        0
    } else {
        vstd::arithmetic::power2::pow2(shift as nat) as int
    };
    if table >= trailer {
        Some(1)
    } else if table < 9 {
        Some(2)
    } else if objects * entry + table > u64::MAX {
        Some(3)
    } else if trailer > objects * entry + table {
        Some(3)
    } else if objects * entry + table > trailer {
        Some(4)
    } else if objects > max_ref {
        Some(5)
    } else if entry < 8 && vstd::arithmetic::power2::pow2((8 * entry) as nat) <= table {
        Some(6)
    } else if t.top_object >= t.num_objects {
        Some(7)
    } else {
        None
    }
}

/// The checks every document passes before any object is read: length,
/// magic, version, and the seven trailer checks.
pub open spec fn header_ok(buf: Seq<u8>) -> bool {
    &&& buf.len() >= 40
    &&& buf.subrange(0, 6) == bplist_magic()
    &&& wrapped_version(buf) <= 1
    &&& trailer_fault(trailer_of(buf)) is None
}

/// A binary parse failure carrying `message`.
pub fn parse_error(message: String) -> (r: Error)
    ensures
        is_binary_error(r),
{
    proof {
        reveal_strlit("binary");
    }
    Error::Parse { format: "binary", source: Some(message) }
}

fn parse_error_str(message: &str) -> (r: Error)
    ensures
        is_binary_error(r),
{
    parse_error(message.to_owned())
}

/// The big-endian value of `bytes` (at most eight of them).
pub fn be_uint_exec(bytes: &[u8]) -> (r: u64)
    requires
        bytes@.len() <= 8,
    ensures
        r as nat == be_uint(bytes@),
{
    let mut acc: u64 = 0;
    let mut i: usize = 0;
    proof {
        vstd::arithmetic::power2::lemma2_to64();
    }
    while i < bytes.len()
        invariant
            i <= bytes@.len() <= 8,
            acc as nat == be_uint(bytes@.subrange(0, i as int)),
            (acc as nat) < vstd::arithmetic::power2::pow2(8 * i as nat),
        decreases bytes@.len() - i,
    {
        proof {
            assert(bytes@.subrange(0, i + 1).drop_last() =~= bytes@.subrange(0, i as int));
            lemma_pow2_8(i as nat);
            vstd::arithmetic::power2::lemma2_to64();
        }
        acc = acc * 256 + bytes[i] as u64;
        i = i + 1;
    }
    proof {
        assert(bytes@.subrange(0, bytes@.len() as int) =~= bytes@);
    }
    acc
}

proof fn lemma_pow2_8(i: nat)
    requires
        i < 8,
    ensures
        vstd::arithmetic::power2::pow2(8 * (i + 1)) == 256 * vstd::arithmetic::power2::pow2(8 * i),
        vstd::arithmetic::power2::pow2(8 * (i + 1)) <= 0x1_0000_0000_0000_0000,
{
    vstd::arithmetic::power2::lemma2_to64();
    vstd::arithmetic::power2::lemma2_to64_rest();
    vstd::arithmetic::power2::lemma_pow2_adds(8 * i, 8);
    if 8 * (i + 1) < 64 {
        vstd::arithmetic::power2::lemma_pow2_strictly_increases(8 * (i + 1), 64);
    }
}

fn be_u64_exec(buf: &[u8], pos: usize) -> (r: u64)
    requires
        pos + 8 <= buf@.len(),
    ensures
        r as nat == be_u64_at(buf@, pos as int),
{
    let mut bytes: Vec<u8> = Vec::new();
    let mut i: usize = pos;
    let n = buf.len();
    assert(n == buf@.len());
    let end: usize = pos + 8;
    while i < end
        invariant
            end == pos + 8,
            pos <= i <= pos + 8,
            pos + 8 <= buf@.len(),
            bytes@ == buf@.subrange(pos as int, i as int),
        decreases pos + 8 - i,
    {
        bytes.push(buf[i]);
        proof {
            assert(buf@.subrange(pos as int, i + 1) =~= buf@.subrange(pos as int, i as int).push(buf@[i as int]));
        }
        i = i + 1;
    }
    be_uint_exec(bytes.as_slice())
}

/// Reads the trailer fields from the last 32 bytes.
fn read_trailer(buf: &[u8]) -> (r: Trailer)
    requires
        buf@.len() >= 40,
    ensures
        r == trailer_of(buf@),
{
    let base = buf.len() - 32;
    Trailer {
        offset_int_size: buf[base + 6],
        object_ref_size: buf[base + 7],
        num_objects: be_u64_exec(buf, base + 8),
        top_object: be_u64_exec(buf, base + 16),
        offset_table_offset: be_u64_exec(buf, base + 24),
        start: base as u64,
    }
}

/// The seven trailer checks, in their fixed order.
fn validate_trailer(t: &Trailer) -> (r: Result<(), Error>)
    ensures
        r is Ok <==> trailer_fault(*t) is None,
        r matches Err(e) ==> is_binary_error(e),
{
    let table = t.offset_table_offset;
    let trailer = t.start;
    let objects = t.num_objects;
    let entry_size = t.offset_int_size as u64;
    if table >= trailer {
        return Err(parse_error_str("offset table begins beyond the trailer"));
    }
    if table < 9 {
        return Err(parse_error_str("offset table begins inside the header"));
    }
    let table_end = match objects.checked_mul(entry_size) {
        Some(len) => match len.checked_add(table) {
            Some(end) => end,
            None => {
                return Err(parse_error_str("garbage between offset table and trailer"));
            },
        },
        None => {
            proof {
                assert(objects * entry_size + table > u64::MAX);
            }
            return Err(parse_error_str("garbage between offset table and trailer"));
        },
    };
    if trailer > table_end {
        return Err(parse_error_str("garbage between offset table and trailer"));
    }
    if table_end > trailer {
        return Err(parse_error_str("offset table too short to address every object"));
    }
    let shift: u8 = 8u8.wrapping_mul(t.object_ref_size);
    let max_ref: u64 = if shift >= 64 {
        0
    } else {
        proof {
            vstd::bits::lemma_u64_pow2_no_overflow(shift as nat);
            vstd::bits::lemma_u64_shl_is_mul(1, shift as u64);
        }
        1u64 << (shift as u64)
    };
    proof {
        assert(shift as int == (8 * t.object_ref_size as int) % 256);
    }
    if objects > max_ref {
        return Err(parse_error_str("more objects than the object reference size can support"));
    }
    if t.offset_int_size < 8 {
        let bits: u64 = 8 * (t.offset_int_size as u64);
        proof {
            vstd::bits::lemma_u64_pow2_no_overflow(bits as nat);
            vstd::bits::lemma_u64_shl_is_mul(1, bits);
        }
        if (1u64 << bits) <= table {
            return Err(parse_error_str("offset size cannot address the entire file"));
        }
    }
    if t.top_object >= objects {
        return Err(parse_error_str("top object out of range"));
    }
    Ok(())
}

fn has_magic(buf: &[u8]) -> (r: bool)
    requires
        buf@.len() >= 8,
    ensures
        r == (buf@.subrange(0, 6) == bplist_magic()),
{
    let r = buf[0] == 0x62 && buf[1] == 0x70 && buf[2] == 0x6c && buf[3] == 0x69 && buf[4] == 0x73 && buf[5] == 0x74;
    proof {
        if r {
            assert(buf@.subrange(0, 6) =~= bplist_magic());
        } else {
            if buf@.subrange(0, 6) == bplist_magic() {
                assert(buf@.subrange(0, 6)[0] == buf@[0]);
                assert(buf@.subrange(0, 6)[1] == buf@[1]);
                assert(buf@.subrange(0, 6)[2] == buf@[2]);
                assert(buf@.subrange(0, 6)[3] == buf@[3]);
                assert(buf@.subrange(0, 6)[4] == buf@[4]);
                assert(buf@.subrange(0, 6)[5] == buf@[5]);
            }
        }
    }
    r
}

fn version_of(buf: &[u8]) -> (r: u8)
    requires
        buf@.len() >= 8,
    ensures
        r == wrapped_version(buf@),
{
    let d6: u32 = (buf[6] as u32 + 208) % 256;
    let d7: u32 = (buf[7] as u32 + 208) % 256;
    ((d6 * 10 + d7) % 256) as u8
}

/// The length, magic, version and trailer checks.
fn check_header(buf: &[u8]) -> (r: Result<Trailer, Error>)
    ensures
        r is Ok <==> header_ok(buf@),
        r matches Ok(t) ==> t == trailer_of(buf@),
        r matches Err(e) ==> is_binary_error(e),
{
    if buf.len() < 40 {
        return Err(parse_error_str("not enough data"));
    }
    if !has_magic(buf) {
        return Err(parse_error_str("incomprehensible magic"));
    }
    let version = version_of(buf);
    if version > 1 {
        let mut text: Vec<char> = crate::strings::str_chars("unexpected version ");
        push_all(&mut text, &u64_decimal(version as u64));
        return Err(parse_error(string_from_chars(&text)));
    }
    let trailer = read_trailer(buf);
    validate_trailer(&trailer)?;
    Ok(trailer)
}

/// The bytes `start..start + len` of `buf`, when they exist.
pub open spec fn read_slice(buf: Seq<u8>, start: u64, len: u64) -> Option<Seq<u8>> {
    if start as int + len as int <= buf.len() {
        Some(buf.subrange(start as int, start as int + len as int))
    } else {
        None
    }
}

/// A sized integer read as `(lo, hi, next)`: widths 0–7 zero-extend, width
/// 8 sign-extends into `hi`, width 16 keeps the low half plus the high half
/// for the sign test; other widths are refused.
pub open spec fn sized_read(buf: Seq<u8>, off: u64, nbytes: u64) -> Option<(u64, u64, u64)> {
    if !(nbytes <= 8 || nbytes == 16) {
        None
    } else {
    match read_slice(buf, off, nbytes) {
        None => None,
        Some(bytes) => if nbytes <= 7 {
            Some((be_uint(bytes) as u64, 0, (off + nbytes) as u64))
        } else if nbytes == 8 {
            Some((be_uint(bytes) as u64, if bytes[0] >= 0x80 { u64::MAX } else { 0 }, (off + nbytes) as u64))
        } else if nbytes == 16 {
            Some((be_uint(bytes.subrange(8, 16)) as u64, be_uint(bytes.subrange(0, 8)) as u64, (off + nbytes) as u64))
        } else {
            None
        },
    }
    }
}

/// Whether `sized_read` accepts the width at all.
pub open spec fn legal_width(nbytes: u64) -> bool {
    nbytes <= 8 || nbytes == 16
}

/// The offset recorded for object `index` in the offset table.
pub open spec fn entry_offset(buf: Seq<u8>, t: Trailer, index: u64) -> Option<u64> {
    let pos = index as int * t.offset_int_size as int + t.offset_table_offset as int;
    if pos > u64::MAX {
        None
    } else {
        match sized_read(buf, pos as u64, t.offset_int_size as u64) {
            Some((lo, _, _)) => Some(lo),
            None => None,
        }
    }
}

/// Whether the marker byte opens a container (array or dictionary).
pub open spec fn is_container_tag(tag: u8) -> bool {
    (tag & 0xF0u8) == 0xA0u8 || (tag & 0xF0u8) == 0xD0u8
}

/// The count of a data, string or container object at `off` and where its
/// payload starts: an inline count 0–14, or an extended-count integer after
/// the marker (its marker's high nibble ignored), refused past the offset
/// table.
pub open spec fn count_read(buf: Seq<u8>, t: Trailer, off: u64) -> Option<(u64, u64)> {
    if off >= buf.len() {
        None
    } else if (buf[off as int] & 0x0Fu8) != 0x0Fu8 {
        Some(((buf[off as int] & 0x0Fu8) as u64, off.saturating_add(1)))
    } else {
        let p = off.saturating_add(1);
        if p >= buf.len() {
            None
        } else {
            match sized_read(buf, off.saturating_add(2), 1u64 << ((buf[p as int] & 0x0Fu8) as u64)) {
                Some((count, _, next)) => if count > t.offset_table_offset {
                    None
                } else {
                    Some((count, next))
                },
                None => None,
            }
        }
    }
}

/// A counted payload of `len` bytes at `start`, which must end at or before
/// the offset table.
pub open spec fn payload_read(buf: Seq<u8>, t: Trailer, start: u64, len: u64) -> Option<Seq<u8>> {
    if start as int + len as int > u64::MAX || start as int + len as int > t.offset_table_offset {
        None
    } else {
        read_slice(buf, start, len)
    }
}

/// Bytes read as Latin-1 characters.
pub open spec fn latin1(bytes: Seq<u8>) -> Seq<char> {
    Seq::new(bytes.len(), |i: int| (bytes[i] as u32) as char)
}

/// Big-endian byte pairs read as UTF-16 code units.
pub open spec fn utf16_units(bytes: Seq<u8>) -> Seq<u16> {
    Seq::new(bytes.len() / 2, |i: int| (bytes[2 * i] as int * 256 + bytes[2 * i + 1] as int) as u16)
}

/// The model of the non-container object with marker `tag` at `off`, where
/// a date object reads as `d`; `None` where the object is malformed.
pub open spec fn scalar_node(buf: Seq<u8>, t: Trailer, off: u64, tag: u8, d: Date) -> Option<Node> {
    let high = tag & 0xF0u8;
    let low = tag & 0x0Fu8;
    if high == 0x00u8 {
        if tag == 0x08u8 {
            Some(Node::Boolean(false))
        } else if tag == 0x09u8 {
            Some(Node::Boolean(true))
        } else {
            None
        }
    } else if high == 0x10u8 {
        match sized_read(buf, off.saturating_add(1), 1u64 << (low as u64)) {
            Some((lo, hi, _)) => Some(
                Node::Integer(
                    if hi == u64::MAX {
                        Integer::Signed(lo as i64)
                    } else {
                        Integer::Unsigned(lo)
                    },
                ),
            ),
            None => None,
        }
    } else if high == 0x20u8 {
        if low == 2u8 {
            match read_slice(buf, off.saturating_add(1), 4) {
                Some(b) => Some(Node::Real(Real::narrow_real(be_uint(b) as u32))),
                None => None,
            }
        } else if low == 3u8 {
            match read_slice(buf, off.saturating_add(1), 8) {
                Some(b) => Some(Node::Real(Real::wide_real(be_uint(b) as u64))),
                None => None,
            }
        } else {
            None
        }
    } else if high == 0x30u8 {
        match read_slice(buf, off.saturating_add(1), 8) {
            Some(_) => Some(Node::Date(d)),
            None => None,
        }
    } else if high == 0x40u8 || high == 0x50u8 {
        match count_read(buf, t, off) {
            Some((count, start)) => match payload_read(buf, t, start, count) {
                Some(b) => if high == 0x40u8 {
                    Some(Node::Data(b))
                } else {
                    Some(Node::String(latin1(b)))
                },
                None => None,
            },
            None => None,
        }
    } else if high == 0x60u8 {
        match count_read(buf, t, off) {
            Some((count, start)) => if count as int * 2 > u64::MAX {
                None
            } else {
                match payload_read(buf, t, start, (count * 2) as u64) {
                    Some(b) => Some(Node::String(utf16_decode(utf16_units(b)))),
                    None => None,
                }
            },
            None => None,
        }
    } else if high == 0x80u8 {
        match sized_read(buf, off.saturating_add(1), ((low as u64) + 1) as u64) {
            Some((lo, _, _)) => Some(Node::Uid(lo)),
            None => None,
        }
    } else {
        None
    }
}

/// The date a value holds, or the epoch for any other value.
pub open spec fn date_of(v: Value) -> Date {
    match v {
        Value::Date(d) => d,
        _ => date_at(0),
    }
}

fn slice_at(buf: &[u8], start: u64, len: u64) -> (r: Result<Vec<u8>, Error>)
    ensures
        match read_slice(buf@, start, len) {
            Some(bytes) => r matches Ok(v) && v@ == bytes,
            None => r matches Err(e) && is_binary_error(e),
        },
{
    let n = buf.len();
    assert(n == buf@.len());
    let end = match start.checked_add(len) {
        Some(e) => e,
        None => {
            return Err(range_error(start, len, n));
        },
    };
    if end > n as u64 {
        return Err(range_error(start, len, n));
    }
    let from = start as usize;
    let to = end as usize;
    let slice = &buf[from..to];
    let mut out: Vec<u8> = Vec::new();
    crate::strings::push_bytes(&mut out, slice);
    proof {
        assert(out@ =~= buf@.subrange(start as int, start as int + len as int));
    }
    Ok(out)
}

/// The lowercase hex digits of `v`.
fn hex_digits(v: u64) -> (r: Vec<char>)
    ensures
        r@ == crate::text::generator::hex_digits(v as nat),
    decreases v,
{
    let d = (v % 16) as u32;
    let c = if d < 10 {
        crate::strings::char_from_ascii_range(48 + d)
    } else {
        crate::strings::char_from_ascii_range(87 + d)
    };
    assert(c == crate::text::generator::hex_char((v % 16) as nat));
    let mut out = if v < 16 {
        Vec::new()
    } else {
        hex_digits(v / 16)
    };
    out.push(c);
    proof {
        if v < 16 {
            assert(out@ =~= seq![c]);
        }
    }
    out
}

/// `0x` and the lowercase hex digits of `v`.
pub(crate) fn hex_text(v: u64) -> (r: Vec<char>)
    ensures
        r@ == seq!['0', 'x'] + crate::text::generator::hex_digits(v as nat),
{
    let mut out: Vec<char> = Vec::new();
    out.push('0');
    out.push('x');
    let ghost head = out@;
    push_all(&mut out, &hex_digits(v));
    assert(head =~= seq!['0', 'x']);
    out
}

fn range_error(start: u64, len: u64, buf_len: usize) -> (r: Error)
    ensures
        is_binary_error(r),
{
    let mut text: Vec<char> = crate::strings::str_chars("read of ");
    push_all(&mut text, &u64_decimal(len));
    push_all(&mut text, &crate::strings::str_chars(" bytes at offset "));
    push_all(&mut text, &hex_text(start));
    push_all(&mut text, &crate::strings::str_chars(" exceeds buffer length "));
    push_all(&mut text, &u64_decimal(buf_len as u64));
    parse_error(string_from_chars(&text))
}

/// Reads a sized integer as `(lo, hi, next)`.
fn sized_integer(buf: &[u8], off: u64, nbytes: u64) -> (r: Result<(u64, u64, u64), Error>)
    ensures
        match sized_read(buf@, off, nbytes) {
            Some(x) => r == Ok::<(u64, u64, u64), Error>(x),
            None => r matches Err(e) && is_binary_error(e),
        },
{
    let n = buf.len();
    assert(n == buf@.len());
    if nbytes <= 7 {
        let bytes = slice_at(buf, off, nbytes)?;
        let lo = be_uint_exec(bytes.as_slice());
        Ok((lo, 0, off + nbytes))
    } else if nbytes == 8 {
        let bytes = slice_at(buf, off, 8)?;
        let hi: u64 = if bytes[0] >= 0x80 { 0xFFFF_FFFF_FFFF_FFFFu64 } else { 0 };
        Ok((be_uint_exec(bytes.as_slice()), hi, off + 8))
    } else if nbytes == 16 {
        let bytes = slice_at(buf, off, 16)?;
        let low_half = &bytes.as_slice()[8..16];
        let high_half = &bytes.as_slice()[0..8];
        let lo = be_uint_exec(low_half);
        let hi = be_uint_exec(high_half);
        Ok((lo, hi, off + 16))
    } else {
        Err(parse_error_str("illegal integer size"))
    }
}

/// The offset of object `index`, read from the offset table.
fn object_offset(buf: &[u8], t: &Trailer, index: u64) -> (r: Result<u64, Error>)
    ensures
        match entry_offset(buf@, *t, index) {
            Some(o) => r == Ok::<u64, Error>(o),
            None => r matches Err(e) && is_binary_error(e),
        },
{
    let entry_size = t.offset_int_size as u64;
    let pos = match index.checked_mul(entry_size) {
        Some(p) => match p.checked_add(t.offset_table_offset) {
            Some(q) => q,
            None => {
                return Err(overflow_error());
            },
        },
        None => {
            return Err(overflow_error());
        },
    };
    let (lo, _, _) = sized_integer(buf, pos, entry_size)?;
    Ok(lo)
}

fn overflow_error() -> (r: Error)
    ensures
        is_binary_error(r),
{
    parse_error_str("offset arithmetic exceeds document bounds")
}

fn container_error() -> (r: Error)
    ensures
        is_binary_error(r),
{
    parse_error_str("container exceeds object region")
}

/// The marker byte at `off`.
fn tag_at(buf: &[u8], off: u64) -> (r: Result<u8, Error>)
    ensures
        off < buf@.len() ==> r == Ok::<u8, Error>(buf@[off as int]),
        off >= buf@.len() ==> (r matches Err(e) && is_binary_error(e)),
{
    let bytes = slice_at(buf, off, 1)?;
    Ok(bytes[0])
}

/// An inline count 0–14, or an extended-count integer object after the
/// marker; counts beyond the offset table are refused.
fn count_for_tag_at(buf: &[u8], t: &Trailer, off: u64) -> (r: Result<(u64, u64), Error>)
    ensures
        match count_read(buf@, *t, off) {
            Some(x) => r == Ok::<(u64, u64), Error>(x),
            None => r matches Err(e) && is_binary_error(e),
        },
{
    let tag = tag_at(buf, off)?;
    let count = (tag & 0x0F) as u64;
    assert((tag & 0x0Fu8) <= 15) by (bit_vector);
    if count != 0xF {
        return Ok((count, off.saturating_add(1)));
    }
    let marker = tag_at(buf, off.saturating_add(1))?;
    let width_bits = (marker & 0x0F) as u64;
    assert(width_bits < 16) by (bit_vector)
        requires
            width_bits == (marker & 0x0Fu8) as u64,
    ;
    let width: u64 = 1u64 << width_bits;
    let (count, _, next) = sized_integer(buf, off.saturating_add(2), width)?;
    if count > t.offset_table_offset {
        return Err(parse_error_str("element count exceeds object region"));
    }
    Ok((count, next))
}

/// A counted payload, which must end at or before the offset table.
fn counted_payload(buf: &[u8], t: &Trailer, start: u64, byte_len: u64, message: &str) -> (r: Result<Vec<u8>, Error>)
    ensures
        match payload_read(buf@, *t, start, byte_len) {
            Some(b) => r matches Ok(v) && v@ == b,
            None => r matches Err(e) && is_binary_error(e),
        },
{
    let end = match start.checked_add(byte_len) {
        Some(e) => e,
        None => {
            return Err(parse_error_str(message));
        },
    };
    if end > t.offset_table_offset {
        return Err(parse_error_str(message));
    }
    let v = slice_at(buf, start, byte_len)?;
    Ok(v)
}

/// Decodes UTF-16 code units; well-formed surrogate pairs combine and
/// unpaired surrogates become U+FFFD.
pub open spec fn utf16_decode(u: Seq<u16>) -> Seq<char>
    decreases u.len(),
{
    if u.len() == 0 {
        Seq::empty()
    } else {
        let a = u[0] as u32;
        if 0xD800 <= a <= 0xDBFF && u.len() >= 2 && 0xDC00 <= (u[1] as u32) <= 0xDFFF {
            let c = (0x10000 + (a - 0xD800) * 1024 + ((u[1] as u32) - 0xDC00)) as u32;
            seq![c as char] + utf16_decode(u.subrange(2, u.len() as int))
        } else if 0xD800 <= a <= 0xDFFF {
            seq!['\u{FFFD}'] + utf16_decode(u.subrange(1, u.len() as int))
        } else {
            seq![a as char] + utf16_decode(u.subrange(1, u.len() as int))
        }
    }
}

/// Decodes big-endian UTF-16 bytes (an even number of them).
fn decode_utf16_be(bytes: &Vec<u8>) -> (r: Vec<char>)
    requires
        bytes@.len() % 2 == 0,
    ensures
        r@ == utf16_decode(utf16_units(bytes@)),
{
    let mut units: Vec<u16> = Vec::new();
    let mut i: usize = 0;
    while i < bytes.len() && bytes.len() - i >= 2
        invariant
            i <= bytes@.len(),
            i % 2 == 0,
            bytes@.len() % 2 == 0,
            units@.len() == i / 2,
            forall|j: int| 0 <= j < i / 2 ==> #[trigger] units@[j] == utf16_units(bytes@)[j],
        decreases bytes@.len() - i,
    {
        let b0 = bytes[i];
        let b1 = bytes[i + 1];
        let u: u16 = ((b0 as u16) << 8u16) | (b1 as u16);
        assert(u == (b0 as int * 256 + b1 as int) as u16) by (bit_vector)
            requires
                u == ((b0 as u16) << 8u16) | (b1 as u16),
        ;
        units.push(u);
        i = i + 2;
    }
    assert(units@ =~= utf16_units(bytes@));
    let ghost all = units@;
    let mut out: Vec<char> = Vec::new();
    let mut k: usize = 0;
    assert(all.subrange(0, all.len() as int) =~= all);
    while k < units.len()
        invariant
            k <= units@.len(),
            units@ == all,
            out@ + utf16_decode(all.subrange(k as int, all.len() as int)) == utf16_decode(all),
        decreases units@.len() - k,
    {
        let ghost rest = all.subrange(k as int, all.len() as int);
        let a = units[k] as u32;
        if 0xD800 <= a && a <= 0xDBFF && k + 1 < units.len() && 0xDC00 <= (units[k + 1] as u32) && (units[k + 1] as u32) <= 0xDFFF {
            let code = 0x10000 + (a - 0xD800) * 1024 + ((units[k + 1] as u32) - 0xDC00);
            proof {
                assert(rest.subrange(2, rest.len() as int) =~= all.subrange(k + 2, all.len() as int));
            }
            match crate::strings::char_from_u32_checked(code) {
                Some(c) => out.push(c),
                None => out.push('\u{FFFD}'),
            }
            k = k + 2;
        } else if 0xD800 <= a && a <= 0xDFFF {
            proof {
                assert(rest.subrange(1, rest.len() as int) =~= all.subrange(k + 1, all.len() as int));
            }
            out.push('\u{FFFD}');
            k = k + 1;
        } else {
            proof {
                assert(rest.subrange(1, rest.len() as int) =~= all.subrange(k + 1, all.len() as int));
            }
            match crate::strings::char_from_u32_checked(a) {
                Some(c) => out.push(c),
                None => out.push('\u{FFFD}'),
            }
            k = k + 1;
        }
    }
    proof {
        assert(all.subrange(k as int, all.len() as int) =~= Seq::<u16>::empty());
        assert(out@ + Seq::<char>::empty() =~= out@);
    }
    out
}

/// Decodes single bytes as Latin-1 characters.
fn decode_latin1(bytes: &Vec<u8>) -> (r: Vec<char>)
    ensures
        r@ == latin1(bytes@),
{
    let mut out: Vec<char> = Vec::new();
    let mut i: usize = 0;
    while i < bytes.len()
        invariant
            i <= bytes@.len(),
            out@.len() == i,
            forall|j: int| 0 <= j < i ==> out@[j] == (bytes@[j] as u32) as char,
        decreases bytes@.len() - i,
    {
        out.push(crate::strings::char_from_ascii_range(bytes[i] as u32));
        i = i + 1;
    }
    assert(out@ =~= latin1(bytes@));
    out
}

fn unexpected_atom(tag: u8, off: u64) -> (r: Error)
    ensures
        is_binary_error(r),
{
    let mut text: Vec<char> = crate::strings::str_chars("unexpected atom ");
    push_all(&mut text, &hex_text(tag as u64));
    push_all(&mut text, &crate::strings::str_chars(" at offset "));
    push_all(&mut text, &hex_text(off));
    parse_error(string_from_chars(&text))
}

/// The binary64 pattern a date object at `off` holds: its eight payload
/// bytes, big-endian.
pub open spec fn date_payload(buf: Seq<u8>, off: u64) -> u64 {
    match read_slice(buf, off.saturating_add(1), 8) {
        Some(b) => be_uint(b) as u64,
        None => 0,
    }
}

/// Whether `d` is the date one answer `(secs, nanos)` of the hook's
/// `apple_epoch_to_unix` for `bits` names: the instant `secs` seconds and
/// `nanos` nanoseconds after the Unix epoch.
pub open spec fn hook_date<H: FloatCodec>(hooks: &H, bits: u64, d: Date) -> bool {
    exists|answer: (i64, i64)|
        #[trigger] call_ensures(H::apple_epoch_to_unix, (hooks, bits), answer) && d.unix_nanos() == clamp_nanos(
            answer.0 as int * 1_000_000_000 + answer.1 as int,
        )
}

/// Whether every logged date object holds the date the hook gives for the
/// payload of the object at that index.
pub open spec fn log_hooked<H: FloatCodec>(hooks: &H, buf: Seq<u8>, t: Trailer, log: Map<u64, Date>) -> bool {
    forall|i: u64|
        #[trigger] log.contains_key(i) ==> (entry_offset(buf, t, i) matches Some(off) && hook_date(
            hooks,
            date_payload(buf, off),
            log[i],
        ))
}

/// Parses the non-container object with marker `tag` at `off`.
fn parse_scalar_at<H: FloatCodec>(buf: &[u8], t: &Trailer, hooks: &H, off: u64, tag: u8) -> (r: Result<Value, Error>)
    ensures
        r matches Ok(v) ==> scalar_node(buf@, *t, off, tag, date_of(v)) == Some(v.deep()),
        r matches Err(e) ==> is_binary_error(e) && forall|d: Date| scalar_node(buf@, *t, off, tag, d) is None,
        tag & 0xF0u8 == 0x30u8 ==> (r matches Ok(v) ==> (v matches Value::Date(d) && hook_date(
            hooks,
            date_payload(buf@, off),
            d,
        ))),
{
    let high = tag & 0xF0;
    let low = tag & 0x0F;
    assert(low < 16) by (bit_vector)
        requires
            low == tag & 0x0Fu8,
    ;
    assert((1u32 << (low as u32)) == 4u32 <==> low == 2u8) by (bit_vector)
        requires
            low < 16u8,
    ;
    assert((1u32 << (low as u32)) == 8u32 <==> low == 3u8) by (bit_vector)
        requires
            low < 16u8,
    ;
    if high == 0x00 {
        if tag == 0x08 {
            Ok(Value::Boolean(false))
        } else if tag == 0x09 {
            Ok(Value::Boolean(true))
        } else {
            Err(unexpected_atom(tag, off))
        }
    } else if high == 0x10 {
        let width: u64 = 1u64 << (low as u64);
        let (lo, hi, _) = sized_integer(buf, off.saturating_add(1), width)?;
        if hi == 0xFFFF_FFFF_FFFF_FFFFu64 {
            Ok(Value::Integer(Integer::Signed(lo as i64)))
        } else {
            Ok(Value::Integer(Integer::Unsigned(lo)))
        }
    } else if high == 0x20 {
        let width: u32 = 1u32 << (low as u32);
        if width == 4 {
            let bytes = slice_at(buf, off.saturating_add(1), 4)?;
            let bits = be_uint_exec(bytes.as_slice());
            proof {
                vstd::arithmetic::power2::lemma2_to64();
                lemma_be_uint_bound(bytes@);
            }
            Ok(Value::Real(Real::from_f32_bits(bits as u32)))
        } else if width == 8 {
            let bytes = slice_at(buf, off.saturating_add(1), 8)?;
            Ok(Value::Real(Real::from_f64_bits(be_uint_exec(bytes.as_slice()))))
        } else {
            Err(parse_error_str("illegal float size"))
        }
    } else if high == 0x30 {
        let bytes = slice_at(buf, off.saturating_add(1), 8)?;
        let bits = be_uint_exec(bytes.as_slice());
        let (secs, nanos) = hooks.apple_epoch_to_unix(bits);
        Ok(Value::Date(Date::from_unix(secs, nanos)))
    } else if high == 0x40 {
        let (count, start) = count_for_tag_at(buf, t, off)?;
        let bytes = counted_payload(buf, t, start, count, "data exceeds object region")?;
        Ok(Value::Data(bytes))
    } else if high == 0x50 {
        let (count, start) = count_for_tag_at(buf, t, off)?;
        let bytes = counted_payload(buf, t, start, count, "string exceeds object region")?;
        let chars = decode_latin1(&bytes);
        Ok(Value::String(string_from_chars(&chars)))
    } else if high == 0x60 {
        let message = "utf-16 string exceeds object region";
        let (count, start) = count_for_tag_at(buf, t, off)?;
        let byte_len = match count.checked_mul(2) {
            Some(b) => b,
            None => {
                return Err(parse_error_str(message));
            },
        };
        let bytes = counted_payload(buf, t, start, byte_len, message)?;
        let chars = decode_utf16_be(&bytes);
        Ok(Value::String(string_from_chars(&chars)))
    } else if high == 0x80 {
        let nbytes = (low as u64) + 1;
        let (lo, _, _) = sized_integer(buf, off.saturating_add(1), nbytes)?;
        Ok(Value::Uid(Uid::new(lo)))
    } else {
        Err(unexpected_atom(tag, off))
    }
}

proof fn lemma_be_uint_bound(s: Seq<u8>)
    ensures
        be_uint(s) < vstd::arithmetic::power2::pow2(8 * s.len()),
    decreases s.len(),
{
    if s.len() > 0 {
        lemma_be_uint_bound(s.drop_last());
        vstd::arithmetic::power2::lemma_pow2_adds(8 * (s.len() - 1) as nat, 8);
        vstd::arithmetic::power2::lemma2_to64();
        let p = vstd::arithmetic::power2::pow2(8 * (s.len() - 1) as nat);
        let x = be_uint(s.drop_last());
        assert(x * 256 + s.last() < p * 256) by (nonlinear_arith)
            requires
                x < p,
                s.last() < 256,
        ;
    } else {
        vstd::arithmetic::power2::lemma2_to64();
    }
}

/// The text of a string model (empty for any other model).
pub open spec fn node_text(n: Node) -> Seq<char> {
    match n {
        Node::String(s) => s,
        _ => Seq::empty(),
    }
}

/// The model of a finished container from the models of its resolved
/// references: an array keeps them in order; a dictionary takes the first
/// `count` as keys, which must all be strings, pairs them with the next
/// `count`, and keeps the last value of a duplicate key.
pub open spec fn container_node(nodes: Seq<Node>, count: u64, is_dictionary: bool) -> Option<Node> {
    if !is_dictionary {
        Some(Node::Array(nodes))
    } else if nodes.len() < count || nodes.len() - count < count {
        None
    } else if exists|i: int| 0 <= i < count && !(#[trigger] nodes[i] is String) {
        None
    } else {
        Some(
            Node::Dictionary(
                collect_node_entries(Seq::new(count as nat, |i: int| (node_text(nodes[i]), nodes[count + i]))),
            ),
        )
    }
}

/// Splits a resolved `[keys..., values...]` list into a dictionary; every
/// key must be a string, and duplicate keys keep the last value.
fn build_dictionary(objects: Vec<Value>, count: u64) -> (r: Result<Value, Error>)
    ensures
        match container_node(values_model(objects@), count, true) {
            Some(n) => r matches Ok(v) && v.deep() == n,
            None => r matches Err(e) && is_binary_error(e),
        },
{
    let ghost all = objects@;
    proof {
        lemma_values_model(all);
    }
    let n = objects.len();
    if (n as u64) < count || (n as u64) - count < count {
        return Err(overflow_error());
    }
    let c = count as usize;
    assert(c as int == count as int);
    let mut index: usize = 0;
    while index < c
        invariant
            index <= c,
            c as int == count as int,
            c as int * 2 <= n,
            n == all.len(),
            objects@ == all,
            forall|j: int| 0 <= j < index ==> #[trigger] all[j] is String,
            values_model(all).len() == all.len(),
            forall|j: int| #![trigger values_model(all)[j]] 0 <= j < all.len() ==> values_model(all)[j] == all[j].deep(),
        decreases c - index,
    {
        match &objects[index] {
            Value::String(_) => {},
            _ => {
                proof {
                    let nodes = values_model(all);
                    assert(!(nodes[index as int] is String));
                    assert(exists|i: int| 0 <= i < count && !(#[trigger] nodes[i] is String));
                }
                let mut text: Vec<char> = crate::strings::str_chars("dictionary contains non-string key at index ");
                push_all(&mut text, &u64_decimal(index as u64));
                return Err(parse_error(string_from_chars(&text)));
            },
        }
        index = index + 1;
    }
    let mut keys = objects;
    keys.truncate(2 * c);
    let mut values = keys.split_off(c);
    assert(keys@ =~= all.subrange(0, c as int));
    assert(values@ =~= all.subrange(c as int, 2 * c as int));
    let mut reversed: Vec<(String, Value)> = Vec::new();
    let mut k: usize = c;
    while k > 0
        invariant
            k <= c,
            keys@ == all.subrange(0, k as int),
            values@ == all.subrange(c as int, c + k),
            c as int * 2 <= all.len(),
            forall|j: int| 0 <= j < c ==> #[trigger] all[j] is String,
            reversed@.len() == c - k,
            forall|j: int| 0 <= j < c - k ==> (#[trigger] reversed@[j]).0@ == node_text(all[c - 1 - j].deep())
                && reversed@[j].1 == all[c + c - 1 - j],
        decreases k,
    {
        let key = keys.pop().unwrap();
        let value = values.pop().unwrap();
        assert(key == all[k - 1]);
        assert(value == all[c + k - 1]);
        match key {
            Value::String(s) => {
                reversed.push((s, value));
            },
            _ => {
                assert(all[k - 1] is String);
                return Err(overflow_error());
            },
        }
        k = k - 1;
        assert(keys@ =~= all.subrange(0, k as int));
        assert(values@ =~= all.subrange(c as int, c + k));
    }
    let mut pairs: Vec<(String, Value)> = Vec::new();
    while reversed.len() > 0
        invariant
            reversed@.len() + pairs@.len() == c,
            forall|j: int| 0 <= j < reversed@.len() ==> (#[trigger] reversed@[j]).0@ == node_text(all[c - 1 - j].deep())
                && reversed@[j].1 == all[c + c - 1 - j],
            forall|j: int| 0 <= j < pairs@.len() ==> (#[trigger] pairs@[j]).0@ == node_text(all[j].deep())
                && pairs@[j].1 == all[c + j],
        decreases reversed@.len(),
    {
        let ghost before = reversed@;
        let p = reversed.pop().unwrap();
        assert(p == before[before.len() - 1]);
        pairs.push(p);
    }
    let ghost model = Seq::new(count as nat, |i: int| (node_text(values_model(all)[i]), values_model(all)[count + i]));
    proof {
        lemma_entries_model(pairs@);
        assert(entries_model(pairs@) =~= model);
        lemma_collect_model(pairs@);
    }
    Ok(Value::dictionary_from(pairs))
}

fn self_reference_error(off: u64) -> (r: Error)
    ensures
        is_binary_error(r),
{
    let mut text: Vec<char> = crate::strings::str_chars("self-referential collection at ");
    push_all(&mut text, &hex_text(off));
    parse_error(string_from_chars(&text))
}

fn invalid_object_error(index: u64, num_objects: u64) -> (r: Error)
    ensures
        is_binary_error(r),
{
    let mut text: Vec<char> = crate::strings::str_chars("invalid object ");
    push_all(&mut text, &u64_decimal(index));
    push_all(&mut text, &crate::strings::str_chars(" (only "));
    push_all(&mut text, &u64_decimal(num_objects));
    push_all(&mut text, &crate::strings::str_chars(" exist)"));
    parse_error(string_from_chars(&text))
}

fn beyond_table_error(index: u64) -> (r: Error)
    ensures
        is_binary_error(r),
{
    let mut text: Vec<char> = crate::strings::str_chars("object ");
    push_all(&mut text, &u64_decimal(index));
    push_all(&mut text, &crate::strings::str_chars(" starts beyond the offset table"));
    parse_error(string_from_chars(&text))
}

/// Why a document cannot be decoded: nesting past the cap, or anything
/// malformed.
pub enum Fault {
    /// A container opened at the nesting cap.
    Depth,
    /// Any other defect.
    Malformed,
}

/// The header of the container with marker `tag` at `off`: its count, where
/// its references start, how many references it has (twice the count for a
/// dictionary), and whether it is a dictionary; `None` when the reference
/// list would run into the offset table.
pub open spec fn container_read(buf: Seq<u8>, t: Trailer, off: u64, tag: u8) -> Option<(u64, u64, u64, bool)> {
    match count_read(buf, t, off) {
        None => None,
        Some((count, start)) => {
            let is_dictionary = (tag & 0xF0u8) == 0xD0u8;
            let total: int = if is_dictionary {
                count * 2
            } else {
                count as int
            };
            if total > u64::MAX || total * t.object_ref_size as int > u64::MAX || start as int + total
                * t.object_ref_size as int > u64::MAX || start as int + total * t.object_ref_size as int
                > t.offset_table_offset {
                None
            } else {
                Some((count, start, total as u64, is_dictionary))
            }
        },
    }
}

/// The decoding of object `index`, given the objects decoded so far
/// (`memo`, by index), the offsets of the containers being decoded
/// (`stack`), and the date each date object reads as; with the memo after
/// it. A decoded object is memoized and reused; a container is refused at
/// the nesting cap and when its offset is already being decoded.
pub open spec fn decode_object(
    buf: Seq<u8>,
    t: Trailer,
    dates: spec_fn(u64) -> Date,
    memo: Seq<Option<Node>>,
    stack: Seq<u64>,
    index: u64,
) -> (Result<Node, Fault>, Seq<Option<Node>>)
    decreases 129 - stack.len(), 0int, 0int,
{
    if index >= t.num_objects || index >= memo.len() {
        (Err(Fault::Malformed), memo)
    } else if memo[index as int] is Some {
        (Ok(memo[index as int].unwrap()), memo)
    } else {
        match entry_offset(buf, t, index) {
            None => (Err(Fault::Malformed), memo),
            Some(off) => if off >= t.offset_table_offset || off >= buf.len() {
                (Err(Fault::Malformed), memo)
            } else if is_container_tag(buf[off as int]) {
                if stack.len() >= 128 {
                    (Err(Fault::Depth), memo)
                } else if stack.contains(off) {
                    (Err(Fault::Malformed), memo)
                } else {
                    match container_read(buf, t, off, buf[off as int]) {
                        None => (Err(Fault::Malformed), memo),
                        Some((count, start, total, is_dictionary)) => {
                            let (items, m) = decode_refs(buf, t, dates, memo, stack.push(off), start, total as nat);
                            match items {
                                Err(f) => (Err(f), m),
                                Ok(nodes) => match container_node(nodes, count, is_dictionary) {
                                    Some(n) => (Ok(n), m.update(index as int, Some(n))),
                                    None => (Err(Fault::Malformed), m),
                                },
                            }
                        },
                    }
                }
            } else {
                match scalar_node(buf, t, off, buf[off as int], dates(index)) {
                    Some(n) => (Ok(n), memo.update(index as int, Some(n))),
                    None => (Err(Fault::Malformed), memo),
                }
            },
        }
    }
}

/// The decoding of the `k` references listed at `pos`, in order, each read
/// with the memo its predecessors left.
pub open spec fn decode_refs(
    buf: Seq<u8>,
    t: Trailer,
    dates: spec_fn(u64) -> Date,
    memo: Seq<Option<Node>>,
    stack: Seq<u64>,
    pos: u64,
    k: nat,
) -> (Result<Seq<Node>, Fault>, Seq<Option<Node>>)
    decreases 129 - stack.len(), 1int, k,
{
    if k == 0 {
        (Ok(Seq::empty()), memo)
    } else {
        match sized_read(buf, pos, t.object_ref_size as u64) {
            None => (Err(Fault::Malformed), memo),
            Some((oid, _, next)) => {
                let (first, m1) = decode_object(buf, t, dates, memo, stack, oid);
                match first {
                    Err(f) => (Err(f), m1),
                    Ok(n) => {
                        let (rest, m2) = decode_refs(buf, t, dates, m1, stack, next, (k - 1) as nat);
                        match rest {
                            Err(f) => (Err(f), m2),
                            Ok(ns) => (Ok(seq![n] + ns), m2),
                        }
                    },
                }
            },
        }
    }
}

/// The decoding of a whole document, where the date object at each index
/// reads as `dates` gives it.
pub open spec fn decode_binary(buf: Seq<u8>, dates: spec_fn(u64) -> Date) -> Result<Node, Fault> {
    if !header_ok(buf) {
        Err(Fault::Malformed)
    } else {
        let t = trailer_of(buf);
        decode_object(buf, t, dates, Seq::new(t.num_objects as nat, |i: int| None), Seq::empty(), t.top_object).0
    }
}

/// The models of the memoized objects.
pub open spec fn memo_model(objects: Seq<Option<Value>>) -> Seq<Option<Node>> {
    Seq::new(
        objects.len(),
        |i: int|
            match objects[i] {
                Some(v) => Some(v.deep()),
                None => None,
            },
    )
}

/// Whether `dates` gives every logged date object the date it was read as.
pub open spec fn agrees(dates: spec_fn(u64) -> Date, log: Map<u64, Date>) -> bool {
    forall|i: u64| #[trigger] log.contains_key(i) ==> dates(i) == log[i]
}

/// The memo has a slot per object, and every logged date object is
/// memoized.
pub open spec fn memo_ok(t: Trailer, objects: Seq<Option<Value>>, log: Map<u64, Date>) -> bool {
    &&& objects.len() == t.num_objects
    &&& forall|i: u64| #[trigger] log.contains_key(i) ==> i < objects.len() && objects[i as int] is Some
}

/// How a result of the resolver matches its decoding.
pub open spec fn fault_matches(e: Error, f: Fault) -> bool {
    match f {
        Fault::Depth => e is MaxDepthExceeded,
        Fault::Malformed => is_binary_error(e),
    }
}

/// How a resolved object and the memo after it match their decoding.
pub open spec fn node_outcome(
    r: Result<Value, Error>,
    objects: Seq<Option<Value>>,
    s: (Result<Node, Fault>, Seq<Option<Node>>),
) -> bool {
    match s.0 {
        Ok(n) => r matches Ok(v) && v.deep() == n && memo_model(objects) == s.1,
        Err(f) => r matches Err(e) && fault_matches(e, f),
    }
}

/// How resolved references and the memo after them match their decoding.
pub open spec fn refs_outcome(
    r: Result<Vec<Value>, Error>,
    objects: Seq<Option<Value>>,
    s: (Result<Seq<Node>, Fault>, Seq<Option<Node>>),
) -> bool {
    match s.0 {
        Ok(ns) => r matches Ok(v) && values_model(v@) == ns && memo_model(objects) == s.1,
        Err(f) => r matches Err(e) && fault_matches(e, f),
    }
}

/// The decoding of references after some have been decoded already.
pub open spec fn after(pre: Seq<Node>, s: (Result<Seq<Node>, Fault>, Seq<Option<Node>>)) -> (
    Result<Seq<Node>, Fault>,
    Seq<Option<Node>>,
) {
    match s.0 {
        Ok(ns) => (Ok(pre + ns), s.1),
        Err(f) => (Err(f), s.1),
    }
}

/// Whether a container at `off` is being decoded.
fn on_stack(stack: &Vec<u64>, off: u64) -> (r: bool)
    ensures
        r == stack@.contains(off),
{
    let mut i: usize = 0;
    while i < stack.len()
        invariant
            i <= stack@.len(),
            forall|k: int| 0 <= k < i ==> stack@[k] != off,
        decreases stack@.len() - i,
    {
        if stack[i] == off {
            assert(stack@[i as int] == off);
            return true;
        }
        i = i + 1;
    }
    false
}

/// The container header at `off`, read as `container_read` says.
fn container_header(buf: &[u8], t: &Trailer, off: u64, tag: u8) -> (r: Result<(u64, u64, u64, bool), Error>)
    ensures
        match container_read(buf@, *t, off, tag) {
            Some(x) => r == Ok::<(u64, u64, u64, bool), Error>(x),
            None => r matches Err(e) && is_binary_error(e),
        },
{
    let (count, start) = count_for_tag_at(buf, t, off)?;
    let is_dictionary = (tag & 0xF0) == 0xD0;
    let total = if is_dictionary {
        match count.checked_mul(2) {
            Some(x) => x,
            None => {
                return Err(container_error());
            },
        }
    } else {
        count
    };
    let end = match total.checked_mul(t.object_ref_size as u64) {
        Some(len) => match start.checked_add(len) {
            Some(e) => e,
            None => {
                return Err(container_error());
            },
        },
        None => {
            return Err(container_error());
        },
    };
    if end > t.offset_table_offset {
        return Err(container_error());
    }
    Ok((count, start, total, is_dictionary))
}

/// A log that grows keeps agreeing with what agreed with the larger log.
proof fn lemma_agrees_sub(d: spec_fn(u64) -> Date, small: Map<u64, Date>, big: Map<u64, Date>)
    requires
        small.submap_of(big),
        agrees(d, big),
    ensures
        agrees(d, small),
{
    assert forall|i: u64| #[trigger] small.contains_key(i) implies d(i) == small[i] by {
        assert(big.contains_key(i));
    }
}

/// A log inside a log inside a third is inside the third.
proof fn lemma_log_grows(a: Map<u64, Date>, b: Map<u64, Date>, c: Map<u64, Date>)
    requires
        a.submap_of(b),
        b.submap_of(c),
    ensures
        a.submap_of(c),
{
    assert forall|k: u64| #[trigger] a.contains_key(k) implies c.contains_key(k) && c[k] == a[k] by {
        assert(b.contains_key(k));
    }
}

/// Filling an empty memo slot keeps every logged date object memoized.
proof fn lemma_memo_fill(t: Trailer, objects: Seq<Option<Value>>, log: Map<u64, Date>, i: int, v: Value)
    requires
        memo_ok(t, objects, log),
        0 <= i < objects.len(),
    ensures
        memo_ok(t, objects.update(i, Some(v)), log),
        memo_ok(t, objects.update(i, Some(v)), log.insert(i as u64, date_of(v))),
        memo_model(objects.update(i, Some(v))) == memo_model(objects).update(i, Some(v.deep())),
{
    assert(memo_model(objects.update(i, Some(v))) =~= memo_model(objects).update(i, Some(v.deep())));
    let o = objects.update(i, Some(v));
    let l = log.insert(i as u64, date_of(v));
    assert forall|k: u64| #[trigger] l.contains_key(k) implies k < o.len() && o[k as int] is Some by {
        if k != i as u64 {
            assert(log.contains_key(k));
        }
    }
}

/// Resolves object `index`: memoized objects are reused; a container is
/// refused at the nesting cap (before it is entered) and when its offset is
/// already being resolved, and is memoized once all its references are.
fn resolve<H: FloatCodec>(
    buf: &[u8],
    t: &Trailer,
    hooks: &H,
    objects: &mut Vec<Option<Value>>,
    stack: &mut Vec<u64>,
    index: u64,
    log: Ghost<Map<u64, Date>>,
) -> (r: (Result<Value, Error>, Ghost<Map<u64, Date>>))
    requires
        memo_ok(*t, old(objects)@, log@),
        old(stack)@.len() <= 128,
        log_hooked(hooks, buf@, *t, log@),
    ensures
        final(stack)@ == old(stack)@,
        final(objects)@.len() == t.num_objects,
        log@.submap_of(r.1@),
        r.0 is Ok ==> memo_ok(*t, final(objects)@, r.1@),
        log_hooked(hooks, buf@, *t, r.1@),
        forall|d: spec_fn(u64) -> Date|
            agrees(d, r.1@) ==> node_outcome(
                r.0,
                final(objects)@,
                #[trigger] decode_object(buf@, *t, d, memo_model(old(objects)@), old(stack)@, index),
            ),
    decreases 128 - old(stack)@.len(), 0int,
{
    let ghost m0 = memo_model(objects@);
    let ghost s0 = stack@;
    if index >= t.num_objects {
        return (Err(invalid_object_error(index, t.num_objects)), log);
    }
    let slot = index as usize;
    assert(objects@.len() == objects.len());
    let memo = match &objects[slot] {
        Some(v) => Some(v.deep_clone()),
        None => None,
    };
    if let Some(v) = memo {
        return (Ok(v), log);
    }
    let offset = match object_offset(buf, t, index) {
        Ok(o) => o,
        Err(e) => {
            return (Err(e), log);
        },
    };
    if offset >= t.offset_table_offset {
        return (Err(beyond_table_error(index)), log);
    }
    let tag = match tag_at(buf, offset) {
        Ok(g) => g,
        Err(e) => {
            return (Err(e), log);
        },
    };
    let high = tag & 0xF0;
    if high == 0xA0 || high == 0xD0 {
        if stack.len() >= MAX_PARSE_DEPTH {
            return (Err(Error::MaxDepthExceeded), log);
        }
        if on_stack(stack, offset) {
            return (Err(self_reference_error(offset)), log);
        }
        let (count, start, total, is_dictionary) = match container_header(buf, t, offset, tag) {
            Ok(h) => h,
            Err(e) => {
                return (Err(e), log);
            },
        };
        stack.push(offset);
        let ghost inner = stack@;
        let (items, lg) = resolve_refs(buf, t, hooks, objects, stack, start, total, log);
        stack.pop();
        assert(stack@ =~= s0);
        let values = match items {
            Ok(vs) => vs,
            Err(e) => {
                proof {
                    assert forall|d: spec_fn(u64) -> Date| agrees(d, lg@) implies node_outcome(
                        Err::<Value, Error>(e),
                        objects@,
                        #[trigger] decode_object(buf@, *t, d, m0, s0, index),
                    ) by {
                        let _ = decode_refs(buf@, *t, d, m0, inner, start, total as nat);
                    }
                }
                return (Err(e), lg);
            },
        };
        let ghost nodes = values_model(values@);
        let ghost m1 = memo_model(objects@);
        let value = if is_dictionary {
            match build_dictionary(values, count) {
                Ok(v) => v,
                Err(e) => {
                    proof {
                        assert forall|d: spec_fn(u64) -> Date| agrees(d, lg@) implies node_outcome(
                            Err::<Value, Error>(e),
                            objects@,
                            #[trigger] decode_object(buf@, *t, d, m0, s0, index),
                        ) by {
                            let _ = decode_refs(buf@, *t, d, m0, inner, start, total as nat);
                        }
                    }
                    return (Err(e), lg);
                },
            }
        } else {
            Value::Array(values)
        };
        let copy = value.deep_clone();
        proof {
            lemma_memo_fill(*t, objects@, lg@, slot as int, copy);
        }
        objects.set(slot, Some(copy));
        proof {
            assert forall|d: spec_fn(u64) -> Date| agrees(d, lg@) implies node_outcome(
                Ok::<Value, Error>(value),
                objects@,
                #[trigger] decode_object(buf@, *t, d, m0, s0, index),
            ) by {
                let _ = decode_refs(buf@, *t, d, m0, inner, start, total as nat);
            }
        }
        (Ok(value), lg)
    } else {
        let value = match parse_scalar_at(buf, t, hooks, offset, tag) {
            Ok(v) => v,
            Err(e) => {
                return (Err(e), log);
            },
        };
        let copy = value.deep_clone();
        proof {
            lemma_memo_fill(*t, objects@, log@, slot as int, copy);
        }
        objects.set(slot, Some(copy));
        let ghost lg = if high == 0x30 {
            log@.insert(index, date_of(value))
        } else {
            log@
        };
        proof {
            assert forall|k: u64| #[trigger] lg.contains_key(k) implies (entry_offset(buf@, *t, k) matches Some(o)
                && hook_date(hooks, date_payload(buf@, o), lg[k])) by {
                if k != index {
                    assert(log@.contains_key(k));
                }
            }
        }
        proof {
            assert(date_of(copy) == date_of(value)) by {
                assert(copy.deep() == value.deep());
            }
            assert forall|d: spec_fn(u64) -> Date| agrees(d, lg) implies node_outcome(
                Ok::<Value, Error>(value),
                objects@,
                #[trigger] decode_object(buf@, *t, d, m0, s0, index),
            ) by {
                if high == 0x30 {
                    assert(lg.contains_key(index));
                } else {
                    assert(scalar_node(buf@, *t, offset, tag, d(index)) == scalar_node(buf@, *t, offset, tag, date_of(value)));
                }
            }
        }
        (Ok(value), Ghost(lg))
    }
}

/// Resolves the `total` references listed at `start`, in order.
fn resolve_refs<H: FloatCodec>(
    buf: &[u8],
    t: &Trailer,
    hooks: &H,
    objects: &mut Vec<Option<Value>>,
    stack: &mut Vec<u64>,
    start: u64,
    total: u64,
    log: Ghost<Map<u64, Date>>,
) -> (r: (Result<Vec<Value>, Error>, Ghost<Map<u64, Date>>))
    requires
        memo_ok(*t, old(objects)@, log@),
        old(stack)@.len() <= 128,
        log_hooked(hooks, buf@, *t, log@),
    ensures
        final(stack)@ == old(stack)@,
        final(objects)@.len() == t.num_objects,
        log@.submap_of(r.1@),
        r.0 is Ok ==> memo_ok(*t, final(objects)@, r.1@),
        log_hooked(hooks, buf@, *t, r.1@),
        forall|d: spec_fn(u64) -> Date|
            agrees(d, r.1@) ==> refs_outcome(
                r.0,
                final(objects)@,
                #[trigger] decode_refs(buf@, *t, d, memo_model(old(objects)@), old(stack)@, start, total as nat),
            ),
    decreases 128 - old(stack)@.len(), 1int,
{
    let ghost m0 = memo_model(objects@);
    let ghost s0 = stack@;
    let ghost log0 = log@;
    let mut collected: Vec<Value> = Vec::new();
    let mut pos = start;
    let mut left = total;
    let ghost mut lg = log@;
    proof {
        assert forall|d: spec_fn(u64) -> Date| agrees(d, lg) implies #[trigger] decode_refs(
            buf@,
            *t,
            d,
            m0,
            s0,
            start,
            total as nat,
        ) == after(values_model(collected@), decode_refs(buf@, *t, d, memo_model(objects@), s0, pos, left as nat)) by {
            let x = decode_refs(buf@, *t, d, m0, s0, start, total as nat);
            if x.0 is Ok {
                assert(Seq::<Node>::empty() + x.0->Ok_0 =~= x.0->Ok_0);
            }
        }
    }
    loop
        invariant
            stack@ == s0,
            s0 == old(stack)@,
            m0 == memo_model(old(objects)@),
            log0 == log@,
            s0.len() <= 128,
            memo_ok(*t, objects@, lg),
            log0.submap_of(lg),
            log_hooked(hooks, buf@, *t, lg),
            forall|d: spec_fn(u64) -> Date|
                agrees(d, lg) ==> #[trigger] decode_refs(buf@, *t, d, m0, s0, start, total as nat) == after(
                    values_model(collected@),
                    decode_refs(buf@, *t, d, memo_model(objects@), s0, pos, left as nat),
                ),
        decreases left,
    {
        let ghost m_cur = memo_model(objects@);
        if left == 0 {
            proof {
                assert forall|d: spec_fn(u64) -> Date| agrees(d, lg) implies refs_outcome(
                    Ok::<Vec<Value>, Error>(collected),
                    objects@,
                    #[trigger] decode_refs(buf@, *t, d, m0, s0, start, total as nat),
                ) by {
                    assert(values_model(collected@) + Seq::<Node>::empty() =~= values_model(collected@));
                }
            }
            return (Ok(collected), Ghost(lg));
        }
        let (oid, next) = match sized_integer(buf, pos, t.object_ref_size as u64) {
            Ok((o, _, n)) => (o, n),
            Err(e) => {
                proof {
                    assert forall|d: spec_fn(u64) -> Date| agrees(d, lg) implies refs_outcome(
                        Err::<Vec<Value>, Error>(e),
                        objects@,
                        #[trigger] decode_refs(buf@, *t, d, m0, s0, start, total as nat),
                    ) by {
                        let _ = decode_refs(buf@, *t, d, m_cur, s0, pos, left as nat);
                    }
                }
                return (Err(e), Ghost(lg));
            },
        };
        let ghost pre = values_model(collected@);
        let ghost lg_before = lg;
        let (res, lg2) = resolve(buf, t, hooks, objects, stack, oid, Ghost(lg));
        proof {
            lemma_log_grows(log0, lg_before, lg2@);
        }
        let v = match res {
            Ok(v) => v,
            Err(e) => {
                proof {
                    assert forall|d: spec_fn(u64) -> Date| agrees(d, lg2@) implies refs_outcome(
                        Err::<Vec<Value>, Error>(e),
                        objects@,
                        #[trigger] decode_refs(buf@, *t, d, m0, s0, start, total as nat),
                    ) by {
                        lemma_agrees_sub(d, lg_before, lg2@);
                        let _ = decode_refs(buf@, *t, d, m_cur, s0, pos, left as nat);
                        let _ = decode_object(buf@, *t, d, m_cur, s0, oid);
                    }
                }
                return (Err(e), lg2);
            },
        };
        let ghost old_c = collected@;
        collected.push(v);
        proof {
            assert(collected@.drop_last() =~= old_c);
            assert(values_model(collected@) == pre.push(v.deep()));
            assert forall|d: spec_fn(u64) -> Date| agrees(d, lg2@) implies #[trigger] decode_refs(
                buf@,
                *t,
                d,
                m0,
                s0,
                start,
                total as nat,
            ) == after(
                values_model(collected@),
                decode_refs(buf@, *t, d, memo_model(objects@), s0, next, (left - 1) as nat),
            ) by {
                lemma_agrees_sub(d, lg_before, lg2@);
                let _ = decode_refs(buf@, *t, d, m_cur, s0, pos, left as nat);
                let _ = decode_object(buf@, *t, d, m_cur, s0, oid);
                let rest = decode_refs(buf@, *t, d, memo_model(objects@), s0, next, (left - 1) as nat);
                if rest.0 is Ok {
                    assert(pre + (seq![v.deep()] + rest.0->Ok_0) =~= values_model(collected@) + rest.0->Ok_0);
                }
            }
            lg = lg2@;
        }
        pos = next;
        left = left - 1;
    }
}

/// Parses a complete binary property-list document.
///
/// Every malformed input returns a binary parse error, except nesting
/// beyond [`MAX_PARSE_DEPTH`], which returns [`Error::MaxDepthExceeded`].
/// A document is only read past its header when the length, magic,
/// version and seven trailer checks all pass. The result is the decoding
/// of the document, each date object read through the float hooks.
pub fn parse<H: FloatCodec>(buf: &[u8], hooks: &H) -> (r: Result<Value, Error>)
    ensures
        exists|dates: spec_fn(u64) -> Date|
            match #[trigger] decode_binary(buf@, dates) {
                Ok(n) => r matches Ok(v) && v.deep() == n,
                Err(f) => r matches Err(e) && fault_matches(e, f),
            },
        r is Ok ==> header_ok(buf@),
        !header_ok(buf@) ==> (r matches Err(e) && is_binary_error(e)),
        exists|log: Map<u64, Date>|
            #[trigger] log_hooked(hooks, buf@, trailer_of(buf@), log) && forall|dates: spec_fn(u64) -> Date|
                agrees(dates, log) ==> match #[trigger] decode_binary(buf@, dates) {
                    Ok(n) => r matches Ok(v) && v.deep() == n,
                    Err(f) => r matches Err(e) && fault_matches(e, f),
                },
{
    let t = match check_header(buf) {
        Ok(t) => t,
        Err(e) => {
            proof {
                let d = |i: u64| date_at(0);
                assert(decode_binary(buf@, d) is Err);
                assert(log_hooked(hooks, buf@, trailer_of(buf@), Map::<u64, Date>::empty()));
            }
            return Err(e);
        },
    };
    let mut objects: Vec<Option<Value>> = Vec::new();
    let mut i: u64 = 0;
    while i < t.num_objects
        invariant
            objects@.len() == i,
            i <= t.num_objects,
            forall|k: int| 0 <= k < i ==> objects@[k] is None,
        decreases t.num_objects - i,
    {
        objects.push(None);
        i = i + 1;
    }
    let ghost m0 = memo_model(objects@);
    assert(m0 =~= Seq::new(t.num_objects as nat, |k: int| None::<Node>));
    let mut stack: Vec<u64> = Vec::new();
    assert(stack@ =~= Seq::<u64>::empty());
    assert(log_hooked(hooks, buf@, t, Map::<u64, Date>::empty()));
    let (r, lg) = resolve(buf, &t, hooks, &mut objects, &mut stack, t.top_object, Ghost(Map::empty()));
    proof {
        let d = |i: u64|
            if lg@.contains_key(i) {
                lg@[i]
            } else {
                date_at(0)
            };
        assert(agrees(d, lg@));
        let _ = decode_object(buf@, t, d, m0, Seq::empty(), t.top_object);
        let _ = decode_binary(buf@, d);
        assert forall|dates: spec_fn(u64) -> Date| agrees(dates, lg@) implies match #[trigger] decode_binary(
            buf@,
            dates,
        ) {
            Ok(n) => r matches Ok(v) && v.deep() == n,
            Err(f) => r matches Err(e) && fault_matches(e, f),
        } by {
            let _ = decode_object(buf@, t, dates, m0, Seq::empty(), t.top_object);
        }
        assert(log_hooked(hooks, buf@, trailer_of(buf@), lg@));
    }
    r
}

} // verus!
