//! The on-disk record format.
//!
//! ```text
//! record := key_length:u32 value_length:i32 key value?
//! ```
//! Both header fields are little-endian.  `value_length == -1` marks a
//! tombstone, which carries no value bytes.
use vstd::prelude::*;

verus! {

/// The value-length field of a tombstone, as raw little-endian bits (`-1i32`).
pub const TOMBSTONE_FIELD: u32 = 0xFFFF_FFFF;

/// Length of the fixed record header.
pub const HEADER_LEN: usize = 8;

/// Little-endian encoding of a 32-bit unsigned number.
pub open spec fn le32(x: nat) -> Seq<u8> {
    seq![
        (x % 256) as u8,
        ((x / 256) % 256) as u8,
        ((x / 65536) % 256) as u8,
        ((x / 16777216) % 256) as u8,
    ]
}

/// The number held by four little-endian bytes.
pub open spec fn le32_value(b: Seq<u8>) -> nat {
    (b[0] + b[1] * 256 + b[2] * 65536 + b[3] * 16777216) as nat
}

/// Two's-complement reading of a 32-bit field.
pub open spec fn signed32(u: nat) -> int {
    if u < 0x8000_0000 {
        u as int
    } else {
        u - 0x1_0000_0000
    }
}

/// Number of value bytes that a record with this value-length field carries.
pub open spec fn body_len(value_len: int) -> nat {
    if value_len >= 0 {
        value_len as nat
    } else {
        0
    }
}

/// The key length declared by the header at the start of `b`.
pub open spec fn key_len_of(b: Seq<u8>) -> nat {
    le32_value(b.subrange(0, 4))
}

/// The (signed) value length declared by the header at the start of `b`.
pub open spec fn value_len_of(b: Seq<u8>) -> int {
    signed32(le32_value(b.subrange(4, 8)))
}

/// Total length (header, key and value) of the record whose header starts `b`.
pub open spec fn declared_len(b: Seq<u8>) -> nat {
    8 + key_len_of(b) + body_len(value_len_of(b))
}

/// The record that stores `value` under `key`.
pub open spec fn put_record(key: Seq<u8>, value: Seq<u8>) -> Seq<u8> {
    le32(key.len()) + le32(value.len()) + key + value
}

/// The tombstone record that deletes `key`.
pub open spec fn tombstone_record(key: Seq<u8>) -> Seq<u8> {
    le32(key.len()) + le32(TOMBSTONE_FIELD as nat) + key
}

/// A put record can be written for these lengths: the value length fits the
/// signed field and the whole record fits a `u32` length.
pub open spec fn put_fits(key_len: nat, value_len: nat) -> bool {
    &&& value_len < 0x8000_0000
    &&& 8 + key_len + value_len <= u32::MAX
}

/// A tombstone can be written for a key of this length.
pub open spec fn tombstone_fits(key_len: nat) -> bool {
    8 + key_len <= u32::MAX
}

/// What a buffer holding one whole record decodes to: its key, and its value,
/// or `None` for a tombstone.  A buffer shorter than the lengths its header
/// declares does not decode.
pub open spec fn decode_record(b: Seq<u8>) -> Option<(Seq<u8>, Option<Seq<u8>>)> {
    if b.len() < 8 || b.len() < declared_len(b) {
        None
    } else {
        let k = key_len_of(b);
        let v = value_len_of(b);
        let key = b.subrange(8, 8 + k as int);
        if v == -1 {
            Some((key, None))
        } else {
            Some((key, Some(b.subrange(8 + k as int, declared_len(b) as int))))
        }
    }
}

pub proof fn lemma_le32_round_trip(x: nat)
    requires
        x <= u32::MAX,
    ensures
        le32(x).len() == 4,
        le32_value(le32(x)) == x,
{
    let b = le32(x);
    assert(b[0] == x % 256);
    assert(b[1] == (x / 256) % 256);
    assert(b[2] == (x / 65536) % 256);
    assert(b[3] == (x / 16777216) % 256);
    assert(x == x % 256 + ((x / 256) % 256) * 256 + ((x / 65536) % 256) * 65536 + ((x
        / 16777216) % 256) * 16777216) by (nonlinear_arith)
        requires
            x <= u32::MAX,
    ;
}

/// Writes the little-endian bytes of `x` at the end of `out`.
fn push_le32(out: &mut Vec<u8>, x: u32)
    ensures
        final(out)@ == old(out)@ + le32(x as nat),
{
    out.push((x % 256) as u8);
    out.push(((x / 256) % 256) as u8);
    out.push(((x / 65536) % 256) as u8);
    out.push(((x / 16777216) % 256) as u8);
    assert(final(out)@ =~= old(out)@ + le32(x as nat));
}


/// A record read back from the log: its key, and its value, or `None` for a
/// tombstone.
pub struct Record {
    pub key: Vec<u8>,
    pub value: Option<Vec<u8>>,
}

impl Record {
    pub open spec fn view(&self) -> (Seq<u8>, Option<Seq<u8>>) {
        (
            self.key@,
            match self.value {
                Some(v) => Some(v@),
                None => None,
            },
        )
    }

    /// Whether the record is a tombstone.
    pub fn is_deleted(&self) -> (r: bool)
        ensures
            r == (self.view().1 is None),
    {
        self.value.is_none()
    }
}

/// Appends `src` to `out`, byte by byte.
pub(crate) fn push_bytes(out: &mut Vec<u8>, src: &[u8])
    ensures
        final(out)@ == old(out)@ + src@,
{
    let mut i: usize = 0;
    while i < src.len()
        invariant
            i <= src@.len(),
            out@ == old(out)@ + src@.subrange(0, i as int),
        decreases src@.len() - i,
    {
        out.push(src[i]);
        i = i + 1;
        assert(src@.subrange(0, i as int) =~= src@.subrange(0, i - 1) + seq![src@[i - 1]]);
    }
    assert(src@.subrange(0, i as int) =~= src@);
}

/// A copy of `buf[start..end]`.
pub(crate) fn copy_range(buf: &[u8], start: usize, end: usize) -> (r: Vec<u8>)
    requires
        start <= end <= buf@.len(),
    ensures
        r@ == buf@.subrange(start as int, end as int),
{
    let mut out: Vec<u8> = Vec::new();
    let mut i: usize = start;
    while i < end
        invariant
            start <= i <= end <= buf@.len(),
            out@ == buf@.subrange(start as int, i as int),
        decreases end - i,
    {
        out.push(buf[i]);
        i = i + 1;
        assert(out@ =~= buf@.subrange(start as int, i as int));
    }
    out
}

/// Serialises a put of `value` under `key`.
pub fn encode_put(key: &Vec<u8>, value: &Vec<u8>) -> (r: Vec<u8>)
    requires
        put_fits(key@.len(), value@.len()),
    ensures
        r@ == put_record(key@, value@),
{
    let mut out: Vec<u8> = Vec::new();
    push_le32(&mut out, key.len() as u32);
    push_le32(&mut out, value.len() as u32);
    push_bytes(&mut out, key.as_slice());
    push_bytes(&mut out, value.as_slice());
    assert(out@ =~= put_record(key@, value@));
    out
}

/// Serialises a tombstone for `key`.
pub fn encode_tombstone(key: &Vec<u8>) -> (r: Vec<u8>)
    requires
        tombstone_fits(key@.len()),
    ensures
        r@ == tombstone_record(key@),
{
    let mut out: Vec<u8> = Vec::new();
    push_le32(&mut out, key.len() as u32);
    push_le32(&mut out, TOMBSTONE_FIELD);
    push_bytes(&mut out, key.as_slice());
    assert(out@ =~= tombstone_record(key@));
    out
}

/// Reads the little-endian `u32` at `buf[off..off + 4]`.
pub(crate) fn read_le32(buf: &[u8], off: usize) -> (r: u32)
    requires
        off + 4 <= buf@.len(),
    ensures
        r as nat == le32_value(buf@.subrange(off as int, off + 4)),
{
    let b0 = buf[off] as u32;
    let b1 = buf[off + 1] as u32;
    let b2 = buf[off + 2] as u32;
    let b3 = buf[off + 3] as u32;
    let ghost sub = buf@.subrange(off as int, off + 4);
    assert(sub[0] == b0 && sub[1] == b1 && sub[2] == b2 && sub[3] == b3);
    b0 + b1 * 256 + b2 * 65536 + b3 * 16777216
}

/// The two's-complement reading of a raw 32-bit field.
pub(crate) fn to_signed(u: u32) -> (r: i32)
    ensures
        r as int == signed32(u as nat),
{
    if u < 0x8000_0000 {
        u as i32
    } else {
        ((u - 0x8000_0000) as i32) - 0x7FFF_FFFF - 1
    }
}

/// Decodes the record header at `buf[off..off + 8]` into the key length and
/// the signed value length.
pub(crate) fn header_at(buf: &[u8], off: usize) -> (r: (u32, i32))
    requires
        off + 8 <= buf@.len(),
    ensures
        r.0 as nat == key_len_of(buf@.subrange(off as int, buf@.len() as int)),
        r.1 as int == value_len_of(buf@.subrange(off as int, buf@.len() as int)),
{
    let ghost b = buf@.subrange(off as int, buf@.len() as int);
    let _n = buf.len();
    let k = read_le32(buf, off);
    let v = read_le32(buf, off + 4);
    assert(b.subrange(0, 4) =~= buf@.subrange(off as int, off + 4));
    assert(b.subrange(4, 8) =~= buf@.subrange(off + 4, off + 8));
    (k, to_signed(v))
}

/// Decodes a record header: the key length and the signed value length, or
/// `None` when `buf` is shorter than a header.
pub fn decode_header(buf: &[u8]) -> (r: Option<(u32, i32)>)
    ensures
        r is Some <==> buf@.len() >= 8,
        r matches Some((k, v)) ==> k as nat == key_len_of(buf@) && v as int == value_len_of(buf@),
{
    if buf.len() < HEADER_LEN {
        None
    } else {
        let h = header_at(buf, 0);
        assert(buf@.subrange(0, buf@.len() as int) =~= buf@);
        Some(h)
    }
}

/// Decodes a buffer that holds one whole record.  A buffer too short for the
/// lengths its header declares does not decode.
pub fn decode(buf: &[u8]) -> (r: Option<Record>)
    ensures
        match r {
            Some(rec) => decode_record(buf@) == Some(rec.view()),
            None => decode_record(buf@) is None,
        },
{
    let Some((k, v)) = decode_header(buf) else {
        return None;
    };
    let total: u64 = 8 + k as u64 + if v >= 0 { v as u64 } else { 0 };
    if (buf.len() as u64) < total {
        return None;
    }
    let key_end = 8 + k as usize;
    let key = copy_range(buf, 8, key_end);
    if v == -1 {
        Some(Record { key, value: None })
    } else {
        let value = copy_range(buf, key_end, total as usize);
        Some(Record { key, value: Some(value) })
    }
}

} // verus!
