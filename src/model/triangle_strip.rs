//! One triangle strip: its signature scan and its position, normal, unknown and
//! texture-coordinate sub-blocks.
use crate::cursor::{byte_at, le32_bytes, push_u32, read_u32, u32_at};
use crate::vec::{Vec2, Vec3};
use vstd::prelude::*;

verus! {

/// Header tag (under the mask `0xFF00FFFF`) of the position sub-block.
pub const POS_TAG: u32 = 0x78008004;

/// Header tag of the normal sub-block.
pub const NORM_TAG: u32 = 0x7E008005;

/// Header tag of the unknown sub-block.
pub const UNKNOWN_TAG: u32 = 0x6E00C006;

/// Header tag of the texture-coordinate sub-block.
pub const UV_TAG: u32 = 0x64008007;

/// Why a strip or model could not be decoded.
#[derive(Clone, Copy, Debug, PartialEq, Eq, Structural)]
pub enum DecodeError {
    /// The data ended inside the structure.
    UnexpectedEof,
    /// A sub-block header does not carry its tag.
    BadHeader,
    /// The position, normal and texture-coordinate counts differ.
    CountMismatch,
    /// A strip has fewer than three vertices.
    Degenerate,
    /// A model's strips hold more vertices than its header declares.
    VertexCountMismatch,
}

/// A triangle strip. Positions and texture coordinates are IEEE-754 single
/// precision values, kept as their bit patterns; normals are signed bytes for
/// -1.0..1.0.
#[derive(Clone, Debug)]
pub struct TriangleStrip {
    pub pos: Vec<Vec3<u32>>,
    pub norm: Vec<Vec3<i8>>,
    pub uv: Vec<Vec2<u32>>,
    pub material: u32,
}

/// The contents of a strip: positions, normals, texture coordinates, material.
pub type StripView = (Seq<Vec3<u32>>, Seq<Vec3<i8>>, Seq<Vec2<u32>>, u32);

impl View for TriangleStrip {
    type V = StripView;

    open spec fn view(&self) -> StripView {
        (self.pos@, self.norm@, self.uv@, self.material)
    }
}

/// The 8 bytes that start a strip.
pub open spec fn strip_signature() -> Seq<u8> {
    seq![0u8, 0, 0, 0x20, 0x40, 0x40, 0x40, 0x40]
}

/// The 8 bytes that announce a new material id.
pub open spec fn material_signature() -> Seq<u8> {
    seq![0u8, 0, 0, 0, 0xFE, 0xFF, 0xFF, 0xFF]
}

/// Up to 8 bytes read at `p`: those that remain, then zeros.
pub open spec fn chunk8(d: Seq<u8>, p: int) -> Seq<u8> {
    Seq::new(8, |i: int| byte_at(d, p + i))
}

/// Position after a read of up to 8 bytes at `p < d.len()`.
pub open spec fn after8(d: Seq<u8>, p: int) -> int {
    if p + 8 <= d.len() {
        p + 8
    } else {
        d.len() as int
    }
}

/// `p` rounded up to a multiple of 16.
pub open spec fn align16(p: int) -> int {
    if p % 16 == 0 {
        p
    } else {
        p + 16 - p % 16
    }
}

/// `v` carries `tag` under the mask `0xFF00FFFF`.
pub open spec fn tag_ok(v: int, tag: int) -> bool {
    v % 65536 == tag % 65536 && v / 16777216 == tag / 16777216
}

/// The entry count of a sub-block header: bits 16 to 23.
pub open spec fn count_of(v: int) -> int {
    (v / 65536) % 256
}

/// Scans 8-byte words from `p` for the strip signature, skipping 8 bytes after
/// each other word and taking a new material id (stored doubled) after each
/// material signature. The position after the signature and the material in
/// force there.
#[verifier::opaque]
pub open spec fn strip_scan(d: Seq<u8>, p: int, mat: u32) -> Result<(int, u32), DecodeError>
    decreases d.len() - p,
{
    if p < 0 || p >= d.len() {
        Err(DecodeError::UnexpectedEof)
    } else {
        let q = after8(d, p);
        if chunk8(d, p) == strip_signature() {
            Ok((q, mat))
        } else if chunk8(d, p) == material_signature() {
            if q + 8 >= d.len() {
                Err(DecodeError::UnexpectedEof)
            } else {
                strip_scan(d, q + 8, (u32_at(d, q) / 2) as u32)
            }
        } else if q + 8 >= d.len() {
            Err(DecodeError::UnexpectedEof)
        } else {
            strip_scan(d, q + 8, mat)
        }
    }
}

/// The `n` positions of the position sub-block whose header is at `h`.
pub open spec fn pos_entries(d: Seq<u8>, h: int, n: int) -> Seq<Vec3<u32>> {
    Seq::new(
        n as nat,
        |i: int|
            Vec3 {
                x: u32_at(d, h + 4 + 12 * i) as u32,
                y: u32_at(d, h + 8 + 12 * i) as u32,
                z: u32_at(d, h + 12 + 12 * i) as u32,
            },
    )
}

/// The `n` normals of the normal sub-block whose header is at `h` (each three
/// signed bytes and a padding byte).
pub open spec fn norm_entries(d: Seq<u8>, h: int, n: int) -> Seq<Vec3<i8>> {
    Seq::new(
        n as nat,
        |i: int|
            Vec3 {
                x: d[h + 4 + 4 * i] as i8,
                y: d[h + 5 + 4 * i] as i8,
                z: d[h + 6 + 4 * i] as i8,
            },
    )
}

/// The `n` coordinate pairs of the texture-coordinate sub-block at `h`.
pub open spec fn uv_entries(d: Seq<u8>, h: int, n: int) -> Seq<Vec2<u32>> {
    Seq::new(
        n as nat,
        |i: int| Vec2 { x: u32_at(d, h + 4 + 8 * i) as u32, y: u32_at(d, h + 8 + 8 * i) as u32 },
    )
}

/// The header at `h` of a sub-block with `size`-byte entries: its entry count
/// and the position after the sub-block.
pub open spec fn block(d: Seq<u8>, h: int, tag: int, size: int) -> Result<(int, int), DecodeError> {
    if h + 4 > d.len() {
        Err(DecodeError::UnexpectedEof)
    } else if !tag_ok(u32_at(d, h), tag) {
        Err(DecodeError::BadHeader)
    } else {
        let n = count_of(u32_at(d, h));
        if h + 4 + size * n > d.len() {
            Err(DecodeError::UnexpectedEof)
        } else {
            Ok((n, h + 4 + size * n))
        }
    }
}

/// The four sub-blocks of a strip starting at `h`: positions, normals, texture
/// coordinates, and the position after them.
#[verifier::opaque]
pub open spec fn strip_body(d: Seq<u8>, h: int) -> Result<
    (Seq<Vec3<u32>>, Seq<Vec3<i8>>, Seq<Vec2<u32>>, int),
    DecodeError,
> {
    match block(d, h, POS_TAG as int, 12) {
        Err(e) => Err(e),
        Ok((n, h1)) => match block(d, h1, NORM_TAG as int, 4) {
            Err(e) => Err(e),
            Ok((m, h2)) => match block(d, h2, UNKNOWN_TAG as int, 4) {
                Err(e) => Err(e),
                Ok((_k, h3)) => match block(d, h3, UV_TAG as int, 8) {
                    Err(e) => Err(e),
                    Ok((u, h4)) => if n != m || n != u {
                        Err(DecodeError::CountMismatch)
                    } else if n < 3 {
                        Err(DecodeError::Degenerate)
                    } else {
                        Ok((pos_entries(d, h, n), norm_entries(d, h1, m), uv_entries(d, h3, u), h4))
                    },
                },
            },
        },
    }
}

/// The strip read from position `p` with material `mat` in force: the strip,
/// the position after it (16-aligned), and the material in force after it.
pub open spec fn strip_at(d: Seq<u8>, p: int, mat: u32) -> Result<(StripView, int), DecodeError> {
    match strip_scan(d, align16(p) + 8, mat) {
        Err(e) => Err(e),
        Ok((h, m)) => match strip_body(d, h) {
            Err(e) => Err(e),
            Ok((pos, norm, uv, end)) => Ok(((pos, norm, uv, m), align16(end))),
        },
    }
}

/// Bounds kept on positions so that they fit in `usize` with room to spare.
pub open spec fn small(d: Seq<u8>) -> bool {
    d.len() <= 0xFFFF_0000
}

fn chunk8_equals(d: &[u8], p: usize, expected: &[u8; 8]) -> (r: bool)
    ensures
        r == (chunk8(d@, p as int) == expected@),
{
    let mut i: usize = 0;
    while i < 8
        invariant
            i <= 8,
            expected@.len() == 8,
            forall|k: int| 0 <= k < i ==> byte_at(d@, p + k) == expected@[k],
        decreases 8 - i,
    {
        let b = if p < d.len() && i < d.len() - p {
            d[p + i]
        } else {
            0
        };
        if b != expected[i] {
            assert(chunk8(d@, p as int)[i as int] != expected@[i as int]);
            return false;
        }
        i = i + 1;
    }
    assert(chunk8(d@, p as int) =~= expected@);
    true
}

/// `p` rounded up to a multiple of 16.
pub fn align_to_16(p: usize) -> (r: usize)
    requires
        p <= 0xFFFF_FF00,
    ensures
        r == align16(p as int),
{
    if p % 16 == 0 {
        p
    } else {
        p + 16 - p % 16
    }
}

/// Reads the header of a sub-block at `h` and checks its tag: the entry count
/// and the position after the sub-block.
fn read_block(d: &[u8], h: usize, tag: u32, size: usize) -> (r: Result<(usize, usize), DecodeError>)
    requires
        small(d@),
        h <= d@.len(),
        size <= 12,
    ensures
        match block(d@, h as int, tag as int, size as int) {
            Err(e) => r == Err::<(usize, usize), DecodeError>(e),
            Ok((n, e)) => r == Ok::<(usize, usize), DecodeError>((n as usize, e as usize)),
        },
{
    if d.len() - h < 4 {
        return Err(DecodeError::UnexpectedEof);
    }
    let v = read_u32(d, h);
    if v % 65536 != tag % 65536 || v / 16777216 != tag / 16777216 {
        return Err(DecodeError::BadHeader);
    }
    let n = ((v / 65536) % 256) as usize;
    assert(n < 256);
    assert(size * n <= 12 * 256) by (nonlinear_arith)
        requires
            size <= 12,
            n < 256,
    ;
    if d.len() - h - 4 < size * n {
        return Err(DecodeError::UnexpectedEof);
    }
    Ok((n, h + 4 + size * n))
}

/// Scans for the strip signature from `p`, updating `*material` on the way: the
/// position after the signature.
fn scan_for_strip(data: &[u8], start: usize, material: &mut u32) -> (r: Result<usize, DecodeError>)
    requires
        small(data@),
        start <= data@.len() + 48,
    ensures
        r matches Err(e) ==> strip_scan(data@, start as int, *old(material)) == Err::<
            (int, u32),
            DecodeError,
        >(e),
        r matches Ok(h) ==> strip_scan(data@, start as int, *old(material)) == Ok::<
            (int, u32),
            DecodeError,
        >((h as int, *final(material))) && h <= data@.len(),
{
    reveal(strip_scan);
    let ts_sig: [u8; 8] = [0, 0, 0, 0x20, 0x40, 0x40, 0x40, 0x40];
    let mat_sig: [u8; 8] = [0, 0, 0, 0, 0xFE, 0xFF, 0xFF, 0xFF];
    assert(ts_sig@ =~= strip_signature());
    assert(mat_sig@ =~= material_signature());
    let mut p = start;
    let ghost target = strip_scan(data@, start as int, *old(material));
    loop
        invariant_except_break
            small(data@),
            p <= data@.len() + 48,
            ts_sig@ == strip_signature(),
            mat_sig@ == material_signature(),
            target == strip_scan(data@, p as int, *material),
            target == strip_scan(data@, start as int, *old(material)),
        ensures
            p <= data@.len(),
            target == Ok::<(int, u32), DecodeError>((p as int, *material)),
            target == strip_scan(data@, start as int, *old(material)),
        decreases data@.len() + 48 - p,
    {
        proof {
            reveal(strip_scan);
        }
        if p >= data.len() {
            assert(strip_scan(data@, p as int, *material) == Err::<(int, u32), DecodeError>(
                DecodeError::UnexpectedEof,
            ));
            return Err(DecodeError::UnexpectedEof);
        }
        let q = if data.len() - p >= 8 {
            p + 8
        } else {
            data.len()
        };
        if chunk8_equals(data, p, &ts_sig) {
            p = q;
            break;
        }
        let is_mat = chunk8_equals(data, p, &mat_sig);
        if data.len() - q <= 8 {
            assert(strip_scan(data@, p as int, *material) == Err::<(int, u32), DecodeError>(
                DecodeError::UnexpectedEof,
            ));
            return Err(DecodeError::UnexpectedEof);
        }
        if is_mat {
            *material = read_u32(data, q) / 2;
        }
        p = q + 8;
    }
    Ok(p)
}

/// Reads the four sub-blocks of a strip whose first header is at `h`.
fn read_body(data: &[u8], h: usize) -> (r: Result<
    (Vec<Vec3<u32>>, Vec<Vec3<i8>>, Vec<Vec2<u32>>, usize),
    DecodeError,
>)
    requires
        small(data@),
        h <= data@.len(),
    ensures
        match strip_body(data@, h as int) {
            Err(e) => r == Err::<(Vec<Vec3<u32>>, Vec<Vec3<i8>>, Vec<Vec2<u32>>, usize), DecodeError>(e),
            Ok((p, n, u, e)) => r matches Ok((rp, rn, ru, re)) && rp@ == p && rn@ == n && ru@ == u
                && re == e && e <= data@.len(),
        },
{
    reveal(strip_body);
        let (n, h1) = match read_block(data, h, POS_TAG, 12) {
            Ok(b) => b,
            Err(e) => {
                return Err(e);
            },
        };
        let (m, h2) = match read_block(data, h1, NORM_TAG, 4) {
            Ok(b) => b,
            Err(e) => {
                return Err(e);
            },
        };
        let (_k, h3) = match read_block(data, h2, UNKNOWN_TAG, 4) {
            Ok(b) => b,
            Err(e) => {
                return Err(e);
            },
        };
        let (u, h4) = match read_block(data, h3, UV_TAG, 8) {
            Ok(b) => b,
            Err(e) => {
                return Err(e);
            },
        };
        if n != m || n != u {
            return Err(DecodeError::CountMismatch);
        }
        if n < 3 {
            return Err(DecodeError::Degenerate);
        }
        let mut positions: Vec<Vec3<u32>> = Vec::new();
        let mut normals: Vec<Vec3<i8>> = Vec::new();
        let mut uvs: Vec<Vec2<u32>> = Vec::new();
        let mut i: usize = 0;
        while i < n
            invariant
                small(data@),
                h1 == h + 4 + 12 * n,
                h2 == h1 + 4 + 4 * n,
                h4 == h3 + 4 + 8 * n,
                h1 <= data@.len(),
                h2 <= data@.len(),
                h4 <= data@.len(),
                i <= n,
                positions@.len() == i,
                normals@.len() == i,
                uvs@.len() == i,
                forall|k: int| 0 <= k < i ==> #[trigger] positions@[k] == pos_entries(data@, h as int, n as int)[k],
                forall|k: int| 0 <= k < i ==> #[trigger] normals@[k] == norm_entries(data@, h1 as int, n as int)[k],
                forall|k: int| 0 <= k < i ==> #[trigger] uvs@[k] == uv_entries(data@, h3 as int, n as int)[k],
            decreases n - i,
        {
            let b = h + 4 + 12 * i;
            positions.push(
                Vec3 { x: read_u32(data, b), y: read_u32(data, b + 4), z: read_u32(data, b + 8) },
            );
            let c = h1 + 4 + 4 * i;
            normals.push(Vec3 { x: data[c] as i8, y: data[c + 1] as i8, z: data[c + 2] as i8 });
            let t = h3 + 4 + 8 * i;
            uvs.push(Vec2 { x: read_u32(data, t), y: read_u32(data, t + 4) });
            i = i + 1;
        }
        assert(positions@ =~= pos_entries(data@, h as int, n as int));
        assert(normals@ =~= norm_entries(data@, h1 as int, n as int));
        assert(uvs@ =~= uv_entries(data@, h3 as int, n as int));
        Ok((positions, normals, uvs, h4))
}

/// The stored bytes of positions.
pub open spec fn pos_bytes(ps: Seq<Vec3<u32>>) -> Seq<u8>
    decreases ps.len(),
{
    if ps.len() == 0 {
        Seq::empty()
    } else {
        pos_bytes(ps.drop_last()) + le32_bytes(ps.last().x as int) + le32_bytes(ps.last().y as int)
            + le32_bytes(ps.last().z as int)
    }
}

/// The stored bytes of normals: three signed bytes and a zero padding byte each.
pub open spec fn norm_bytes(ns: Seq<Vec3<i8>>) -> Seq<u8>
    decreases ns.len(),
{
    if ns.len() == 0 {
        Seq::empty()
    } else {
        norm_bytes(ns.drop_last()) + seq![
            ns.last().x as u8,
            ns.last().y as u8,
            ns.last().z as u8,
            0u8,
        ]
    }
}

/// The stored bytes of texture coordinates.
pub open spec fn uv_bytes(us: Seq<Vec2<u32>>) -> Seq<u8>
    decreases us.len(),
{
    if us.len() == 0 {
        Seq::empty()
    } else {
        uv_bytes(us.drop_last()) + le32_bytes(us.last().x as int) + le32_bytes(us.last().y as int)
    }
}

/// `n` copies of the word `w`.
pub open spec fn repeated_word(w: int, n: int) -> Seq<u8>
    decreases n,
{
    if n <= 0 {
        Seq::empty()
    } else {
        repeated_word(w, n - 1) + le32_bytes(w)
    }
}

/// The bytes written for a strip: a header of the position tag with the
/// position count in bits 16-23, the positions; a header of the normal tag, the
/// normals; then, under headers of the position tag, one `0x80808080` word per
/// position and the texture coordinates.
pub open spec fn strip_bytes(s: StripView) -> Seq<u8> {
    let n = s.0.len() as int;
    let m = s.1.len() as int;
    let u = s.2.len() as int;
    le32_bytes(POS_TAG + n * 65536) + pos_bytes(s.0) + le32_bytes(NORM_TAG + m * 65536)
        + norm_bytes(s.1) + le32_bytes(POS_TAG + n * 65536) + repeated_word(0x80808080, n)
        + le32_bytes(POS_TAG + u * 65536) + uv_bytes(s.2)
}

impl TriangleStrip {
    /// Appends the strip's sub-blocks to `out` (see `strip_bytes`); each count
    /// must fit in the 8 bits of its header.
    pub fn write(&self, out: &mut Vec<u8>)
        requires
            self.pos@.len() < 256,
            self.norm@.len() < 256,
            self.uv@.len() < 256,
        ensures
            final(out)@ == old(out)@ + strip_bytes(self@),
    {
        let ghost start = out@;
        let n = self.pos.len() as u32;
        push_u32(out, POS_TAG + n * 65536);
        let mut i: usize = 0;
        while i < self.pos.len()
            invariant
                n == self.pos@.len(),
                n < 256,
                i <= self.pos@.len(),
                out@ == start + le32_bytes(POS_TAG + n * 65536) + pos_bytes(self.pos@.subrange(0, i as int)),
            decreases self.pos@.len() - i,
        {
            let v = self.pos[i];
            push_u32(out, v.x);
            push_u32(out, v.y);
            push_u32(out, v.z);
            proof {
                let s = self.pos@.subrange(0, i + 1);
                assert(s.drop_last() =~= self.pos@.subrange(0, i as int));
                assert(out@ =~= start + le32_bytes(POS_TAG + n * 65536) + pos_bytes(s));
            }
            i = i + 1;
        }
        assert(self.pos@.subrange(0, self.pos@.len() as int) =~= self.pos@);
        let ghost after_pos = out@;
        let m = self.norm.len() as u32;
        push_u32(out, NORM_TAG + m * 65536);
        let mut i: usize = 0;
        while i < self.norm.len()
            invariant
                m == self.norm@.len(),
                m < 256,
                i <= self.norm@.len(),
                out@ == after_pos + le32_bytes(NORM_TAG + m * 65536) + norm_bytes(self.norm@.subrange(0, i as int)),
            decreases self.norm@.len() - i,
        {
            let v = self.norm[i];
            out.push(v.x as u8);
            out.push(v.y as u8);
            out.push(v.z as u8);
            out.push(0);
            proof {
                let s = self.norm@.subrange(0, i + 1);
                assert(s.drop_last() =~= self.norm@.subrange(0, i as int));
                assert(out@ =~= after_pos + le32_bytes(NORM_TAG + m * 65536) + norm_bytes(s));
            }
            i = i + 1;
        }
        assert(self.norm@.subrange(0, self.norm@.len() as int) =~= self.norm@);
        let ghost after_norm = out@;
        push_u32(out, POS_TAG + n * 65536);
        let mut i: u32 = 0;
        while i < n
            invariant
                n < 256,
                i <= n,
                out@ == after_norm + le32_bytes(POS_TAG + n * 65536) + repeated_word(0x80808080, i as int),
            decreases n - i,
        {
            push_u32(out, 0x80808080);
            proof {
                assert(out@ =~= after_norm + le32_bytes(POS_TAG + n * 65536) + repeated_word(0x80808080, i + 1));
            }
            i = i + 1;
        }
        let ghost after_unknown = out@;
        let u = self.uv.len() as u32;
        push_u32(out, POS_TAG + u * 65536);
        let mut i: usize = 0;
        while i < self.uv.len()
            invariant
                u == self.uv@.len(),
                u < 256,
                i <= self.uv@.len(),
                out@ == after_unknown + le32_bytes(POS_TAG + u * 65536) + uv_bytes(self.uv@.subrange(0, i as int)),
            decreases self.uv@.len() - i,
        {
            let v = self.uv[i];
            push_u32(out, v.x);
            push_u32(out, v.y);
            proof {
                let s = self.uv@.subrange(0, i + 1);
                assert(s.drop_last() =~= self.uv@.subrange(0, i as int));
                assert(out@ =~= after_unknown + le32_bytes(POS_TAG + u * 65536) + uv_bytes(s));
            }
            i = i + 1;
        }
        assert(self.uv@.subrange(0, self.uv@.len() as int) =~= self.uv@);
        assert(out@ =~= start + strip_bytes(self@));
    }

    /// Reads one strip from position `*pos` of `data`: aligns to 16 bytes, skips
    /// 8, scans for the strip signature (taking new material ids on the way,
    /// stored doubled), reads the position, normal, unknown and
    /// texture-coordinate sub-blocks, and aligns to 16 bytes again. On success
    /// `*pos` is the position after the strip and `*material` the material in
    /// force; the strip's counts agree and are at least three.
    pub fn read(data: &[u8], pos: &mut usize, material: &mut u32) -> (r: Result<Self, DecodeError>)
        requires
            small(data@),
            *old(pos) <= data@.len() + 16,
        ensures
            match strip_at(data@, *old(pos) as int, *old(material)) {
                Err(e) => r == Err::<Self, DecodeError>(e),
                Ok((s, q)) => r matches Ok(t) && t@ == s && *final(pos) == q && *final(material)
                    == s.3 && q <= data@.len() + 16,
            },
    {
        let ghost p0 = *pos as int;
        let ghost m0 = *material;
        let start = align_to_16(*pos) + 8;
        let scanned = scan_for_strip(data, start, material);
        let h = match scanned {
            Ok(h) => h,
            Err(e) => {
                return Err(e);
            },
        };
        assert(strip_scan(data@, align16(p0) + 8, m0) == Ok::<(int, u32), DecodeError>(
            (h as int, *material),
        ));
        let body = read_body(data, h);
        let (positions, normals, uvs, h4) = match body {
            Ok(b) => b,
            Err(e) => {
                assert(strip_at(data@, p0, m0) == Err::<(StripView, int), DecodeError>(e));
                return Err(e);
            },
        };
        *pos = align_to_16(h4);
        Ok(TriangleStrip { pos: positions, norm: normals, uv: uvs, material: *material })
    }
}

} // verus!
