//! Reading and writing little-endian values at byte positions of a container.
use byteorder::{ByteOrder, LittleEndian};
use vstd::prelude::*;

verus! {

/// The byte at `p`, or 0 past the end of `d`.
pub open spec fn byte_at(d: Seq<u8>, p: int) -> u8 {
    if 0 <= p < d.len() {
        d[p]
    } else {
        0
    }
}

/// Two bytes read as a little-endian 16-bit value.
pub open spec fn le16(b0: u8, b1: u8) -> int {
    b0 + 256 * b1
}

/// Four bytes read as a little-endian 32-bit value.
pub open spec fn le32(b0: u8, b1: u8, b2: u8, b3: u8) -> int {
    b0 + 256 * b1 + 65536 * b2 + 16777216 * b3
}

/// The little-endian 16-bit value at `p`, or 0 where fewer than two bytes remain.
pub open spec fn u16_at(d: Seq<u8>, p: int) -> int {
    if 0 <= p && p + 2 <= d.len() {
        le16(d[p], d[p + 1])
    } else {
        0
    }
}

/// The little-endian 32-bit value at `p` (which must lie inside `d`).
pub open spec fn u32_at(d: Seq<u8>, p: int) -> int {
    le32(d[p], d[p + 1], d[p + 2], d[p + 3])
}

/// `d` with `b` written at `at`, zero-filled where `at` lies past its end.
pub open spec fn written(d: Seq<u8>, at: int, b: Seq<u8>) -> Seq<u8> {
    let n = if d.len() > at + b.len() {
        d.len() as int
    } else {
        at + b.len()
    };
    Seq::new(
        n as nat,
        |i: int|
            if at <= i < at + b.len() {
                b[i - at]
            } else if i < d.len() {
                d[i]
            } else {
                0
            },
    )
}

/// Relies on `byteorder::LittleEndian::read_u16`: the first two bytes of the
/// slice, least significant first.
#[verifier::external_body]
fn le_u16_of(b: &[u8]) -> (r: u16)
    requires
        b@.len() >= 2,
    ensures
        r == le16(b@[0], b@[1]),
{
    LittleEndian::read_u16(b)
}

/// Relies on `byteorder::LittleEndian::read_u32`: the first four bytes of the
/// slice, least significant first.
#[verifier::external_body]
fn le_u32_of(b: &[u8]) -> (r: u32)
    requires
        b@.len() >= 4,
    ensures
        r == le32(b@[0], b@[1], b@[2], b@[3]),
{
    LittleEndian::read_u32(b)
}

/// Relies on `byteorder::LittleEndian::write_u16`: the value's low byte, then
/// its high byte.
#[verifier::external_body]
fn le_bytes_of_u16(v: u16) -> (r: (u8, u8))
    ensures
        r.0 == v % 256,
        r.1 == v / 256,
{
    let mut b = [0u8; 2];
    LittleEndian::write_u16(&mut b, v);
    (b[0], b[1])
}

/// Relies on `byteorder::LittleEndian::write_u32`: the value's four bytes, least
/// significant first.
#[verifier::external_body]
fn le_bytes_of_u32(v: u32) -> (r: [u8; 4])
    ensures
        r@ == le32_bytes(v as int),
{
    let mut b = [0u8; 4];
    LittleEndian::write_u32(&mut b, v);
    b
}

/// The four little-endian bytes of a 32-bit value.
pub open spec fn le32_bytes(v: int) -> Seq<u8> {
    seq![(v % 256) as u8, ((v / 256) % 256) as u8, ((v / 65536) % 256) as u8, ((v / 16777216) % 256) as u8]
}

/// Appends the four little-endian bytes of `v`.
pub fn push_u32(out: &mut Vec<u8>, v: u32)
    ensures
        final(out)@ == old(out)@ + le32_bytes(v as int),
{
    let b = le_bytes_of_u32(v);
    out.push(b[0]);
    out.push(b[1]);
    out.push(b[2]);
    out.push(b[3]);
    assert(final(out)@ =~= old(out)@ + le32_bytes(v as int));
}

/// The byte at `p`, or 0 past the end.
pub fn read_u8_or_zero(d: &[u8], p: usize) -> (r: u8)
    ensures
        r == byte_at(d@, p as int),
{
    if p < d.len() {
        d[p]
    } else {
        0
    }
}

/// The little-endian 16-bit value at `p`, or 0 where fewer than two bytes remain.
pub fn read_u16_or_zero(d: &[u8], p: usize) -> (r: u16)
    ensures
        r == u16_at(d@, p as int),
{
    if p < d.len() && d.len() - p >= 2 {
        le_u16_of(slice_from(d, p))
    } else {
        0
    }
}

/// The little-endian 32-bit value at `p`.
pub fn read_u32(d: &[u8], p: usize) -> (r: u32)
    requires
        p + 4 <= d@.len(),
    ensures
        r == u32_at(d@, p as int),
{
    le_u32_of(slice_from(d, p))
}

fn slice_from(d: &[u8], p: usize) -> (r: &[u8])
    requires
        p <= d@.len(),
    ensures
        r@ == d@.subrange(p as int, d@.len() as int),
{
    vstd::slice::slice_subrange(d, p, d.len())
}

/// A 16-bit value as two little-endian bytes.
pub fn u16_bytes(v: u16) -> (r: (u8, u8))
    ensures
        le16(r.0, r.1) == v,
{
    le_bytes_of_u16(v)
}

/// Writes `bytes` at `at`, first extending `data` with zeros where `at` lies past
/// its end.
pub fn write_at(data: &mut Vec<u8>, at: usize, bytes: &Vec<u8>)
    requires
        at + bytes@.len() <= usize::MAX,
    ensures
        final(data)@ == written(old(data)@, at as int, bytes@),
{
    let end = at + bytes.len();
    while data.len() < end
        invariant
            end == at + bytes@.len(),
            old(data)@.len() <= data@.len(),
            data@.len() <= end || data@.len() == old(data)@.len(),
            forall|i: int| 0 <= i < old(data)@.len() ==> #[trigger] data@[i] == old(data)@[i],
            forall|i: int| old(data)@.len() <= i < data@.len() ==> #[trigger] data@[i] == 0,
        decreases end - data@.len(),
    {
        data.push(0);
    }
    let ghost padded = data@;
    let mut i: usize = 0;
    while i < bytes.len()
        invariant
            end == at + bytes@.len(),
            data@.len() == padded.len(),
            padded.len() >= end,
            i <= bytes@.len(),
            forall|k: int| 0 <= k < padded.len() && !(at <= k < at + i) ==> #[trigger] data@[k] == padded[k],
            forall|k: int| at <= k < at + i ==> #[trigger] data@[k] == bytes@[k - at],
        decreases bytes@.len() - i,
    {
        data.set(at + i, bytes[i]);
        i = i + 1;
    }
    assert(data@ =~= written(old(data)@, at as int, bytes@));
}

} // verus!
