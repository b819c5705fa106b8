//! Models: the triangle strips between one model header and the next, and the
//! winding of the triangles they describe.
pub mod triangle_strip;

use crate::cursor::{le32_bytes, push_u32, read_u32, u32_at};
use crate::vec::{products_bounded, within, Vec3};
use triangle_strip::{
    align16, align_to_16, small, strip_at, strip_bytes, DecodeError, StripView, TriangleStrip,
};
use vstd::prelude::*;

verus! {

/// The word that starts a model header.
pub const MODEL_SIGNATURE: u32 = 0x00001000;

/// The word that precedes a model's material id.
pub const MATERIAL_SIGNATURE: u32 = 0xFFFFFFFE;

/// Scans 4-byte words from `p` for `sentinel`, skipping the rest of each 16-byte
/// block that does not start with it: the position after the sentinel.
pub open spec fn word_scan(d: Seq<u8>, p: int, sentinel: int) -> Result<int, DecodeError>
    decreases d.len() - p,
{
    if p < 0 || p + 4 > d.len() {
        Err(DecodeError::UnexpectedEof)
    } else if u32_at(d, p) == sentinel {
        Ok(p + 4)
    } else if p + 16 > d.len() {
        Err(DecodeError::UnexpectedEof)
    } else {
        word_scan(d, p + 16, sentinel)
    }
}

/// The model header found from `p`: the declared vertex count (after a 4-byte
/// gap behind the signature) and the position after it.
pub open spec fn model_header(d: Seq<u8>, p: int) -> Result<(int, int), DecodeError> {
    match word_scan(d, p, MODEL_SIGNATURE as int) {
        Err(e) => Err(e),
        Ok(q) => if q + 8 > d.len() {
            Err(DecodeError::UnexpectedEof)
        } else {
            Ok((u32_at(d, q + 4), q + 8))
        },
    }
}

/// Strips read from `p` with material `mat` in force until they hold
/// `remaining` more vertices: the strips, the position after them and the
/// material in force after them.
pub open spec fn strips_from(d: Seq<u8>, p: int, mat: u32, remaining: int) -> Result<
    (Seq<StripView>, int, u32),
    DecodeError,
>
    decreases remaining,
{
    if remaining <= 0 {
        Ok((Seq::empty(), p, mat))
    } else {
        match strip_at(d, p, mat) {
            Err(e) => Err(e),
            Ok((s, q)) => if s.0.len() > remaining {
                Err(DecodeError::VertexCountMismatch)
            } else if s.0.len() == 0 {
                Err(DecodeError::Degenerate)
            } else {
                match strips_from(d, q, s.3, remaining - s.0.len()) {
                    Err(e) => Err(e),
                    Ok((rest, e, m)) => Ok((seq![s] + rest, e, m)),
                }
            },
        }
    }
}

/// The contents of a model: its strips and its material id.
pub type ModelView = (Seq<StripView>, u32);

/// The model read from `p` and the position after it. A declared count of zero
/// gives an empty placeholder model, the position aligned to 16 bytes.
pub open spec fn model_at(d: Seq<u8>, p: int) -> Result<(ModelView, int), DecodeError> {
    match model_header(d, p) {
        Err(e) => Err(e),
        Ok((count, q)) => if count == 0 {
            Ok(((Seq::empty(), 0), align16(q)))
        } else {
            match word_scan(d, q, MATERIAL_SIGNATURE as int) {
                Err(e) => Err(e),
                Ok(r) => if r + 4 > d.len() {
                    Err(DecodeError::UnexpectedEof)
                } else {
                    match strips_from(d, r + 4, (u32_at(d, r) / 2) as u32, count) {
                        Err(e) => Err(e),
                        Ok((strips, e, m)) => Ok(((strips, m), e)),
                    }
                },
            }
        },
    }
}

/// Total number of vertices of `strips`.
pub open spec fn vertex_total(strips: Seq<StripView>) -> int
    decreases strips.len(),
{
    if strips.len() == 0 {
        0
    } else {
        strips[0].0.len() + vertex_total(strips.drop_first())
    }
}

/// A model: its triangle strips and the material id in force after them.
#[derive(Clone, Debug)]
pub struct Model {
    pub triangle_strips: Vec<TriangleStrip>,
    pub material: u32,
}

impl View for Model {
    type V = ModelView;

    open spec fn view(&self) -> ModelView {
        (self.triangle_strips@.map_values(|t: TriangleStrip| t@), self.material)
    }
}

fn scan_word(data: &[u8], start: usize, sentinel: u32) -> (r: Result<usize, DecodeError>)
    requires
        small(data@),
        start <= data@.len() + 16,
    ensures
        r matches Err(e) ==> word_scan(data@, start as int, sentinel as int) == Err::<
            int,
            DecodeError,
        >(e),
        r matches Ok(q) ==> word_scan(data@, start as int, sentinel as int) == Ok::<
            int,
            DecodeError,
        >(q as int) && q <= data@.len(),
{
    let mut p = start;
    loop
        invariant
            small(data@),
            p <= data@.len() + 16,
            word_scan(data@, start as int, sentinel as int) == word_scan(
                data@,
                p as int,
                sentinel as int,
            ),
        decreases data@.len() + 16 - p,
    {
        if p > data.len() || data.len() - p < 4 {
            return Err(DecodeError::UnexpectedEof);
        }
        if read_u32(data, p) == sentinel {
            return Ok(p + 4);
        }
        if data.len() - p < 16 {
            return Err(DecodeError::UnexpectedEof);
        }
        p = p + 16;
    }
}

proof fn lemma_strips_total(d: Seq<u8>, p: int, mat: u32, remaining: int)
    requires
        remaining >= 0,
    ensures
        strips_from(d, p, mat, remaining) matches Ok((ss, _, _)) ==> vertex_total(ss) == remaining,
    decreases remaining,
{
    if remaining > 0 {
        match strip_at(d, p, mat) {
            Err(_) => {},
            Ok((s, q)) => {
                if s.0.len() <= remaining && s.0.len() > 0 {
                    lemma_strips_total(d, q, s.3, remaining - s.0.len());
                    match strips_from(d, q, s.3, remaining - s.0.len()) {
                        Err(_) => {},
                        Ok((rest, e, m)) => {
                            assert((seq![s] + rest).drop_first() =~= rest);
                        },
                    }
                }
            },
        }
    }
}

/// Every model decoded from a container holds exactly the number of vertices
/// that its header declares.
pub proof fn lemma_model_vertex_count(d: Seq<u8>, p: int)
    ensures
        model_at(d, p) matches Ok((m, _)) ==> (model_header(d, p) matches Ok((count, _))
            && vertex_total(m.0) == count),
{
    match model_header(d, p) {
        Err(_) => {},
        Ok((count, q)) => {
            if count != 0 {
                match word_scan(d, q, MATERIAL_SIGNATURE as int) {
                    Err(_) => {},
                    Ok(r) => {
                        if r + 4 <= d.len() {
                            lemma_strips_total(d, r + 4, (u32_at(d, r) / 2) as u32, count);
                        }
                    },
                }
            }
        },
    }
}

impl Model {
    /// Reads the next model from position `*pos` of `data`: scans for the model
    /// signature, reads the declared vertex count, and (unless it is zero) scans
    /// for the material signature, reads the material id (stored doubled) and
    /// reads strips until they hold exactly the declared count. On success
    /// `*pos` is the position after the model.
    pub fn read_from_bin(data: &[u8], pos: &mut usize) -> (r: Result<Self, DecodeError>)
        requires
            small(data@),
            *old(pos) <= data@.len() + 16,
        ensures
            match model_at(data@, *old(pos) as int) {
                Err(e) => r == Err::<Self, DecodeError>(e),
                Ok((m, q)) => r matches Ok(model) && model@ == m && *final(pos) == q && q
                    <= data@.len() + 16,
            },
    {
        let ghost p0 = *pos as int;
        let q = match scan_word(data, *pos, MODEL_SIGNATURE) {
            Ok(q) => q,
            Err(e) => {
                return Err(e);
            },
        };
        if data.len() - q < 8 {
            return Err(DecodeError::UnexpectedEof);
        }
        let expected = read_u32(data, q + 4);
        let mut p = q + 8;
        if expected == 0 {
            *pos = align_to_16(p);
            let m = Model { triangle_strips: Vec::new(), material: 0 };
            assert(m@.0 =~= Seq::<StripView>::empty());
            return Ok(m);
        }
        let r = match scan_word(data, p, MATERIAL_SIGNATURE) {
            Ok(r) => r,
            Err(e) => {
                return Err(e);
            },
        };
        if data.len() - r < 4 {
            return Err(DecodeError::UnexpectedEof);
        }
        let mut material = read_u32(data, r) / 2;
        p = r + 4;
        let ghost target = strips_from(data@, p as int, material, expected as int);
        assert(model_at(data@, p0) == (match target {
            Err(e) => Err(e),
            Ok((strips, e, m)) => Ok(((strips, m), e)),
        }));
        let mut strips: Vec<TriangleStrip> = Vec::new();
        let mut vertex_count: usize = 0;
        while vertex_count < expected as usize
            invariant
                small(data@),
                p0 == *old(pos) as int,
                model_at(data@, p0) == (match target {
                    Err(e) => Err(e),
                    Ok((strips, e, m)) => Ok(((strips, m), e)),
                }),
                p <= data@.len() + 16,
                vertex_count <= expected,
                target == (match strips_from(
                    data@,
                    p as int,
                    material,
                    expected - vertex_count,
                ) {
                    Err(e) => Err(e),
                    Ok((rest, e, m)) => Ok((strips@.map_values(|t: TriangleStrip| t@) + rest, e, m)),
                }),
            decreases expected - vertex_count,
        {
            let ghost before = strips@.map_values(|t: TriangleStrip| t@);
            let ghost rem = expected - vertex_count;
            let strip = match TriangleStrip::read(data, &mut p, &mut material) {
                Ok(s) => s,
                Err(e) => {
                    return Err(e);
                },
            };
            let n = strip.pos.len();
            if n > expected as usize - vertex_count {
                return Err(DecodeError::VertexCountMismatch);
            }
            if n == 0 {
                return Err(DecodeError::Degenerate);
            }
            let ghost sv = strip@;
            strips.push(strip);
            vertex_count = vertex_count + n;
            proof {
                assert(strips@.map_values(|t: TriangleStrip| t@) =~= before.push(sv));
                match strips_from(data@, p as int, material, expected - vertex_count) {
                    Err(_) => {},
                    Ok((rest, e, m)) => {
                        assert(before + (seq![sv] + rest) =~= before.push(sv) + rest);
                    },
                }
            }
        }
        proof {
            assert(strips@.map_values(|t: TriangleStrip| t@) + Seq::<StripView>::empty()
                =~= strips@.map_values(|t: TriangleStrip| t@));
        }
        *pos = p;
        Ok(Model { triangle_strips: strips, material })
    }
}

/// The models read one after the other from `p` until the data runs out; empty
/// placeholder models are left out.
pub open spec fn models_from(d: Seq<u8>, p: int) -> Result<Seq<ModelView>, DecodeError>
    decreases d.len() + 16 - p,
{
    if p < 0 || p > d.len() + 16 {
        Ok(Seq::empty())
    } else {
        match model_at(d, p) {
            Err(DecodeError::UnexpectedEof) => Ok(Seq::empty()),
            Err(e) => Err(e),
            Ok((m, q)) => if q <= p || q > d.len() + 16 {
                Ok(Seq::empty())
            } else {
                match models_from(d, q) {
                    Err(e) => Err(e),
                    Ok(rest) => Ok(
                        if m.0.len() == 0 {
                            rest
                        } else {
                            seq![m] + rest
                        },
                    ),
                }
            },
        }
    }
}

/// The models of a container.
pub struct Models(pub Vec<Model>);

impl Models {
    /// Reads every model of `data`, from its start until the data runs out.
    /// Empty placeholder models are left out; a malformed strip is an error.
    pub fn read_from_bin(data: &[u8]) -> (r: Result<Self, DecodeError>)
        requires
            small(data@),
        ensures
            match models_from(data@, 0) {
                Err(e) => r == Err::<Self, DecodeError>(e),
                Ok(ms) => r matches Ok(models) && models.0@.map_values(|m: Model| m@) == ms,
            },
    {
        let ghost target = models_from(data@, 0);
        let mut models: Vec<Model> = Vec::new();
        let mut p: usize = 0;
        loop
            invariant_except_break
                small(data@),
                target == models_from(data@, 0),
                p <= data@.len() + 16,
                target == (match models_from(data@, p as int) {
                    Err(e) => Err(e),
                    Ok(rest) => Ok(models@.map_values(|m: Model| m@) + rest),
                }),
            ensures
                target == models_from(data@, 0),
                target == Ok::<Seq<ModelView>, DecodeError>(models@.map_values(|m: Model| m@)),
            decreases data@.len() + 16 - p,
        {
            let ghost before = models@.map_values(|m: Model| m@);
            let p_before = p;
            match Model::read_from_bin(data, &mut p) {
                Ok(model) => {
                    if p <= p_before {
                        assert(before + Seq::<ModelView>::empty() =~= before);
                        break;
                    }
                    let ghost mv = model@;
                    if model.triangle_strips.len() != 0 {
                        models.push(model);
                        proof {
                            assert(models@.map_values(|m: Model| m@) =~= before.push(mv));
                            match models_from(data@, p as int) {
                                Err(_) => {},
                                Ok(rest) => {
                                    assert(before + (seq![mv] + rest) =~= before.push(mv) + rest);
                                },
                            }
                        }
                    }
                },
                Err(DecodeError::UnexpectedEof) => {
                    assert(before + Seq::<ModelView>::empty() =~= before);
                    break;
                },
                Err(e) => {
                    return Err(e);
                },
            }
        }
        Ok(Models(models))
    }
}

/// Vertex indices of the triangle that starts at vertex `first` of a strip:
/// in reverse order when the triangle faces along its vertices' mean normal.
pub open spec fn triangle_of(first: int, facing: bool) -> (int, int, int) {
    if facing {
        (first + 2, first + 1, first)
    } else {
        (first, first + 1, first + 2)
    }
}

/// The vertex indices of the triangle that starts at vertex `first`, reversed
/// when `facing`.
pub fn triangle_indices(first: usize, facing: bool) -> (r: (usize, usize, usize))
    requires
        first + 2 <= usize::MAX,
    ensures
        (r.0 as int, r.1 as int, r.2 as int) == triangle_of(first as int, facing),
{
    if facing {
        (first + 2, first + 1, first)
    } else {
        (first, first + 1, first + 2)
    }
}

/// Whether the triangle `(a, b, c)` faces along its vertices' mean normal: the
/// dot product of `(b - a) × (c - a)` with `na + nb + nc` is positive.
pub open spec fn faces(a: Vec3<i64>, b: Vec3<i64>, c: Vec3<i64>, na: Vec3<i8>, nb: Vec3<i8>, nc: Vec3<i8>) -> bool {
    let (ux, uy, uz) = (b.x - a.x, b.y - a.y, b.z - a.z);
    let (vx, vy, vz) = (c.x - a.x, c.y - a.y, c.z - a.z);
    let (cx, cy, cz) = (uy * vz - uz * vy, uz * vx - ux * vz, ux * vy - uy * vx);
    let (mx, my, mz) = (
        na.x + nb.x + nc.x,
        na.y + nb.y + nc.y,
        na.z + nb.z + nc.z,
    );
    cx * mx + cy * my + cz * mz > 0
}

proof fn lemma_product_bound(x: int, y: int, bx: int, by: int)
    requires
        -bx < x < bx,
        -by < y < by,
        bx > 0,
        by > 0,
    ensures
        -(bx * by) <= x * y <= bx * by,
{
    assert(-(bx * by) <= x * y <= bx * by) by (nonlinear_arith)
        requires
            -bx < x < bx,
            -by < y < by,
            bx > 0,
            by > 0,
    ;
}

proof fn lemma_small_products(a: Vec3<i64>, b: Vec3<i64>, bound: int)
    requires
        within(a, bound),
        within(b, bound),
        0 < bound <= 0x20_0000,
    ensures
        products_bounded(a, b),
{
    let xs = seq![a.x as int, a.y as int, a.z as int];
    let ys = seq![b.x as int, b.y as int, b.z as int];
    assert forall|i: int, j: int| 0 <= i < 3 && 0 <= j < 3 implies -(bound * bound) <= #[trigger] (xs[i] * ys[j])
        <= bound * bound by {
        lemma_product_bound(xs[i], ys[j], bound, bound);
    }
    assert(bound * bound <= 0x20_0000 * 0x20_0000) by (nonlinear_arith)
        requires
            0 < bound <= 0x20_0000,
    ;
    assert(xs[0] * ys[0] == a.x * b.x);
    assert(xs[0] * ys[1] == a.x * b.y);
    assert(xs[0] * ys[2] == a.x * b.z);
    assert(xs[1] * ys[0] == a.y * b.x);
    assert(xs[1] * ys[1] == a.y * b.y);
    assert(xs[1] * ys[2] == a.y * b.z);
    assert(xs[2] * ys[0] == a.z * b.x);
    assert(xs[2] * ys[1] == a.z * b.y);
    assert(xs[2] * ys[2] == a.z * b.z);
}

proof fn lemma_cross_bound(a: Vec3<i64>, b: Vec3<i64>)
    requires
        within(a, 0x20_0000),
        within(b, 0x20_0000),
    ensures
        within(
            Vec3 {
                x: (a.y * b.z - a.z * b.y) as i64,
                y: (a.z * b.x - a.x * b.z) as i64,
                z: (a.x * b.y - a.y * b.x) as i64,
            },
            0x10_0000_0000_0000,
        ),
        -0x10_0000_0000_0000 < a.y * b.z - a.z * b.y < 0x10_0000_0000_0000,
        -0x10_0000_0000_0000 < a.z * b.x - a.x * b.z < 0x10_0000_0000_0000,
        -0x10_0000_0000_0000 < a.x * b.y - a.y * b.x < 0x10_0000_0000_0000,
{
    lemma_product_bound(a.y as int, b.z as int, 0x20_0000, 0x20_0000);
    lemma_product_bound(a.z as int, b.y as int, 0x20_0000, 0x20_0000);
    lemma_product_bound(a.z as int, b.x as int, 0x20_0000, 0x20_0000);
    lemma_product_bound(a.x as int, b.z as int, 0x20_0000, 0x20_0000);
    lemma_product_bound(a.x as int, b.y as int, 0x20_0000, 0x20_0000);
    lemma_product_bound(a.y as int, b.x as int, 0x20_0000, 0x20_0000);
}

proof fn lemma_mixed_products(c: Vec3<i64>, m: Vec3<i64>)
    requires
        within(c, 0x10_0000_0000_0000),
        within(m, 400),
    ensures
        products_bounded(c, m),
{
    lemma_product_bound(c.x as int, m.x as int, 0x10_0000_0000_0000, 400);
    lemma_product_bound(c.x as int, m.y as int, 0x10_0000_0000_0000, 400);
    lemma_product_bound(c.x as int, m.z as int, 0x10_0000_0000_0000, 400);
    lemma_product_bound(c.y as int, m.x as int, 0x10_0000_0000_0000, 400);
    lemma_product_bound(c.y as int, m.y as int, 0x10_0000_0000_0000, 400);
    lemma_product_bound(c.y as int, m.z as int, 0x10_0000_0000_0000, 400);
    lemma_product_bound(c.z as int, m.x as int, 0x10_0000_0000_0000, 400);
    lemma_product_bound(c.z as int, m.y as int, 0x10_0000_0000_0000, 400);
    lemma_product_bound(c.z as int, m.z as int, 0x10_0000_0000_0000, 400);
}

/// Whether the triangle with integer vertex positions `a`, `b`, `c` (each
/// component below 2^20 in magnitude) and normals `na`, `nb`, `nc` faces along
/// its mean normal.
pub fn faces_mean_normal(
    a: &Vec3<i64>,
    b: &Vec3<i64>,
    c: &Vec3<i64>,
    na: &Vec3<i8>,
    nb: &Vec3<i8>,
    nc: &Vec3<i8>,
) -> (r: bool)
    requires
        within(*a, 0x10_0000),
        within(*b, 0x10_0000),
        within(*c, 0x10_0000),
    ensures
        r == faces(*a, *b, *c, *na, *nb, *nc),
{
    let mean = na.to().add(&nb.to()).add(&nc.to());
    let ab = b.sub(a);
    let ac = c.sub(a);
    proof {
        lemma_small_products(ab, ac, 0x20_0000);
    }
    let cross = ab.cross(&ac);
    proof {
        lemma_cross_bound(ab, ac);
        lemma_mixed_products(cross, mean);
    }
    cross.dot(&mean) > 0
}

/// The triangles of a strip whose first vertex has index `first`, one for each
/// window of three consecutive vertices, with `facing[i]` saying whether
/// triangle `i` faces along its mean normal.
pub fn strip_triangles(first: usize, facing: &Vec<bool>) -> (r: Vec<(usize, usize, usize)>)
    requires
        first + facing@.len() + 2 <= usize::MAX,
    ensures
        r@.len() == facing@.len(),
        forall|i: int|
            0 <= i < facing@.len() ==> ((#[trigger] r@[i]).0 as int, r@[i].1 as int, r@[i].2 as int)
                == triangle_of(first + i, facing@[i]),
{
    let mut out: Vec<(usize, usize, usize)> = Vec::new();
    let mut i: usize = 0;
    while i < facing.len()
        invariant
            first + facing@.len() + 2 <= usize::MAX,
            i <= facing@.len(),
            out@.len() == i,
            forall|k: int|
                0 <= k < i ==> ((#[trigger] out@[k]).0 as int, out@[k].1 as int, out@[k].2 as int)
                    == triangle_of(first + k, facing@[k]),
        decreases facing@.len() - i,
    {
        out.push(triangle_indices(first + i, facing[i]));
        i = i + 1;
    }
    out
}

/// The 32 bytes written before each strip: a strip header followed by the strip
/// signature.
pub open spec fn strip_record_start() -> Seq<u8> {
    seq![
        0x00u8, 0x80, 0x04, 0x60, 0x03, 0x00, 0x00, 0x00, 0x41, 0x00, 0x00, 0x00, 0x00, 0x40, 0x1E,
        0x30, 0x00, 0xC0, 0x1E, 0x30, 0x05, 0x01, 0x00, 0x01, 0x00, 0x00, 0x00, 0x20, 0x40, 0x40,
        0x40, 0x40,
    ]
}

/// The 16 bytes written after each strip's padding.
pub open spec fn strip_record_end() -> Seq<u8> {
    seq![0u8, 0, 0, 0, 0, 0, 0, 0, 0, 0, 0, 0, 0x04, 0, 0, 0x14]
}

/// Zero bytes from position `p` up to the next multiple of 16.
pub open spec fn padding(p: int) -> Seq<u8> {
    Seq::new(((16 - p % 16) % 16) as nat, |i: int| 0u8)
}

/// The record written for a strip starting at stream position `at`.
pub open spec fn strip_record(s: StripView, at: int) -> Seq<u8> {
    let body = strip_record_start() + strip_bytes(s) + le32_bytes(0x01000404);
    body + padding(at + body.len()) + strip_record_end()
}

/// The records of `ss` written one after the other from stream position `at`.
pub open spec fn strip_records(ss: Seq<StripView>, at: int) -> Seq<u8>
    decreases ss.len(),
{
    if ss.len() == 0 {
        Seq::empty()
    } else {
        let before = strip_records(ss.drop_last(), at);
        before + strip_record(ss.last(), at + before.len())
    }
}

/// The bytes written for a model starting at stream position `at`: the model
/// signature, a zero word, the vertex total, a zero word, then the strip
/// records.
pub open spec fn model_bytes(m: ModelView, at: int) -> Seq<u8> {
    le32_bytes(MODEL_SIGNATURE as int) + le32_bytes(0) + le32_bytes(vertex_total(m.0)) + le32_bytes(
        0,
    ) + strip_records(m.0, at + 16)
}

proof fn lemma_vertex_total_push(ss: Seq<StripView>, s: StripView)
    ensures
        vertex_total(ss.push(s)) == vertex_total(ss) + s.0.len(),
    decreases ss.len(),
{
    if ss.len() > 0 {
        assert(ss.push(s).drop_first() =~= ss.drop_first().push(s));
        lemma_vertex_total_push(ss.drop_first(), s);
    } else {
        reveal_with_fuel(vertex_total, 2);
        assert(ss.push(s).drop_first() =~= Seq::<StripView>::empty());
    }
}

/// Vertex indices of the triangles of strips whose lengths are `lens` and whose
/// facing decisions are `facing`, numbering vertices from `first` on across the
/// strips.
pub open spec fn model_triangles(lens: Seq<int>, facing: Seq<Seq<bool>>, first: int) -> Seq<
    (int, int, int),
>
    decreases lens.len(),
{
    if lens.len() == 0 || facing.len() == 0 {
        Seq::empty()
    } else {
        Seq::new(facing[0].len(), |i: int| triangle_of(first + i, facing[0][i])) + model_triangles(
            lens.drop_first(),
            facing.drop_first(),
            first + lens[0],
        )
    }
}

fn write_strip_record(strip: &TriangleStrip, out: &mut Vec<u8>, signature: &[u8; 32], end: &[u8; 16])
    requires
        signature@ == strip_record_start(),
        end@ == strip_record_end(),
        strip.pos@.len() < 256,
        strip.norm@.len() < 256,
        strip.uv@.len() < 256,
    ensures
        final(out)@ == old(out)@ + strip_record(strip@, old(out)@.len() as int),
{
    let ghost start = out@;
    let ghost before = out@;
    let mut i: usize = 0;
    while i < 32
        invariant
            i <= 32,
            signature@ == strip_record_start(),
            out@ == before + signature@.subrange(0, i as int),
        decreases 32 - i,
    {
        out.push(signature[i]);
        i = i + 1;
        assert(out@ =~= before + signature@.subrange(0, i as int));
    }
    assert(signature@.subrange(0, 32) =~= signature@);
    strip.write(out);
    push_u32(out, 0x01000404);
    let pad = (16 - out.len() % 16) % 16;
    let ghost unpadded = out@;
    let mut z: usize = 0;
    while z < pad
        invariant
            z <= pad,
            out@ == unpadded + Seq::new(z as nat, |i: int| 0u8),
        decreases pad - z,
    {
        out.push(0);
        z = z + 1;
        assert(out@ =~= unpadded + Seq::new(z as nat, |i: int| 0u8));
    }
    let ghost padded = out@;
    let mut i: usize = 0;
    while i < 16
        invariant
            i <= 16,
            end@ == strip_record_end(),
            out@ == padded + end@.subrange(0, i as int),
        decreases 16 - i,
    {
        out.push(end[i]);
        i = i + 1;
        assert(out@ =~= padded + end@.subrange(0, i as int));
    }
    assert(end@.subrange(0, 16) =~= end@);
    assert(out@ =~= start + strip_record(strip@, start.len() as int));
}

impl Model {
    /// Appends the model to a stream `out` whose length is its current position
    /// (see `model_bytes`): each strip record is padded with zero words to a
    /// multiple of 16 bytes.
    pub fn write_to_bin(&self, out: &mut Vec<u8>)
        requires
            vertex_total(self@.0) <= u32::MAX,
            forall|k: int|
                0 <= k < self.triangle_strips@.len() ==> (#[trigger] self.triangle_strips@[k]).pos@.len()
                    < 256 && self.triangle_strips@[k].norm@.len() < 256
                    && self.triangle_strips@[k].uv@.len() < 256,
        ensures
            final(out)@ == old(out)@ + model_bytes(self@, old(out)@.len() as int),
    {
        let ghost start = out@;
        let ghost views = self@.0;
        let mut total: u32 = 0;
        let mut k: usize = 0;
        while k < self.triangle_strips.len()
            invariant
                views == self@.0,
                vertex_total(views) <= u32::MAX,
                k <= views.len(),
                total == vertex_total(views.subrange(0, k as int)),
            decreases views.len() - k,
        {
            proof {
                let pre = views.subrange(0, k + 1);
                assert(pre =~= views.subrange(0, k as int).push(views[k as int]));
                lemma_vertex_total_push(views.subrange(0, k as int), views[k as int]);
                lemma_vertex_total_prefix(views, k + 1);
            }
            total = total + self.triangle_strips[k].pos.len() as u32;
            k = k + 1;
        }
        assert(views.subrange(0, views.len() as int) =~= views);
        push_u32(out, MODEL_SIGNATURE);
        push_u32(out, 0);
        push_u32(out, total);
        push_u32(out, 0);
        let ghost header_end = out@;
        let signature: [u8; 32] = [
            0x00, 0x80, 0x04, 0x60, 0x03, 0x00, 0x00, 0x00, 0x41, 0x00, 0x00, 0x00, 0x00, 0x40,
            0x1E, 0x30, 0x00, 0xC0, 0x1E, 0x30, 0x05, 0x01, 0x00, 0x01, 0x00, 0x00, 0x00, 0x20,
            0x40, 0x40, 0x40, 0x40,
        ];
        let end: [u8; 16] = [0, 0, 0, 0, 0, 0, 0, 0, 0, 0, 0, 0, 0x04, 0, 0, 0x14];
        assert(signature@ =~= strip_record_start());
        assert(end@ =~= strip_record_end());
        let mut k: usize = 0;
        assert(views.subrange(0, 0) =~= Seq::<StripView>::empty());
        while k < self.triangle_strips.len()
            invariant
                views == self@.0,
                signature@ == strip_record_start(),
                end@ == strip_record_end(),
                header_end.len() == start.len() + 16,
                forall|j: int|
                    0 <= j < self.triangle_strips@.len() ==> (#[trigger] self.triangle_strips@[j]).pos@.len()
                        < 256 && self.triangle_strips@[j].norm@.len() < 256
                        && self.triangle_strips@[j].uv@.len() < 256,
                k <= views.len(),
                out@ == header_end + strip_records(views.subrange(0, k as int), start.len() as int + 16),
            decreases views.len() - k,
        {
            let ghost before = out@;
            write_strip_record(&self.triangle_strips[k], out, &signature, &end);
            proof {
                let pre = views.subrange(0, k + 1);
                assert(pre.drop_last() =~= views.subrange(0, k as int));
                assert(pre.last() == views[k as int]);
                assert(views[k as int] == self.triangle_strips@[k as int]@);
                let prev = strip_records(views.subrange(0, k as int), start.len() as int + 16);
                let rec = strip_record(views[k as int], start.len() as int + 16 + prev.len());
                assert(before.len() == start.len() as int + 16 + prev.len());
                assert(out@ =~= header_end + (prev + rec));
            }
            k = k + 1;
        }
        assert(views.subrange(0, views.len() as int) =~= views);
        assert(out@ =~= start + model_bytes(self@, start.len() as int));
    }

    /// The model's triangles as vertex indices, numbering its vertices from
    /// `*e_next` on across its strips; `facing[k][i]` says whether triangle `i` of
    /// strip `k` faces along its vertices' mean normal, and so is listed in
    /// reverse order. Afterwards `*e_next` is past the model's vertices.
    pub fn triangles(&self, e_next: &mut usize, facing: &Vec<Vec<bool>>) -> (r: Vec<(usize, usize, usize)>)
        requires
            facing@.len() == self.triangle_strips@.len(),
            forall|k: int|
                0 <= k < facing@.len() ==> (#[trigger] facing@[k])@.len() + 2
                    == self.triangle_strips@[k].pos@.len(),
            *old(e_next) + vertex_total(self@.0) + 2 <= usize::MAX,
        ensures
            *final(e_next) == *old(e_next) + vertex_total(self@.0),
            r@.map_values(|t: (usize, usize, usize)| (t.0 as int, t.1 as int, t.2 as int))
                == model_triangles(
                self@.0.map_values(|s: StripView| s.0.len() as int),
                facing@.map_values(|f: Vec<bool>| f@),
                *old(e_next) as int,
            ),
    {
        let ghost views = self@.0;
        let ghost lens = views.map_values(|s: StripView| s.0.len() as int);
        let ghost fs = facing@.map_values(|f: Vec<bool>| f@);
        let ghost e0 = *e_next as int;
        let mut out: Vec<(usize, usize, usize)> = Vec::new();
        let mut k: usize = 0;
        proof {
            assert(lens.subrange(0, lens.len() as int) =~= lens);
            assert(fs.subrange(0, fs.len() as int) =~= fs);
            assert(out@.map_values(|t: (usize, usize, usize)| (t.0 as int, t.1 as int, t.2 as int))
                =~= Seq::<(int, int, int)>::empty());
            assert(views.subrange(0, 0) =~= Seq::<StripView>::empty());
            assert(Seq::<(int, int, int)>::empty() + model_triangles(lens, fs, e0) =~= model_triangles(
                lens,
                fs,
                e0,
            ));
        }
        while k < self.triangle_strips.len()
            invariant
                views == self@.0,
                lens == views.map_values(|s: StripView| s.0.len() as int),
                fs == facing@.map_values(|f: Vec<bool>| f@),
                facing@.len() == views.len(),
                forall|j: int|
                    0 <= j < facing@.len() ==> (#[trigger] facing@[j])@.len() + 2
                        == self.triangle_strips@[j].pos@.len(),
                e0 + vertex_total(views) + 2 <= usize::MAX,
                k <= views.len(),
                *e_next == e0 + vertex_total(views.subrange(0, k as int)),
                model_triangles(lens, fs, e0) == out@.map_values(
                    |t: (usize, usize, usize)| (t.0 as int, t.1 as int, t.2 as int),
                ) + model_triangles(
                    lens.subrange(k as int, lens.len() as int),
                    fs.subrange(k as int, fs.len() as int),
                    *e_next as int,
                ),
            decreases views.len() - k,
        {
            proof {
                lemma_vertex_total_prefix(views, k + 1);
                let pre = views.subrange(0, k + 1);
                assert(pre =~= views.subrange(0, k as int).push(views[k as int]));
                lemma_vertex_total_push(views.subrange(0, k as int), views[k as int]);
            }
            let ghost before = out@.map_values(
                |t: (usize, usize, usize)| (t.0 as int, t.1 as int, t.2 as int),
            );
            let ghost e = *e_next as int;
            let mut part = strip_triangles(*e_next, &facing[k]);
            let ghost pv = part@;
            out.append(&mut part);
            *e_next = *e_next + self.triangle_strips[k].pos.len();
            proof {
                let ls = lens.subrange(k as int, lens.len() as int);
                let f2 = fs.subrange(k as int, fs.len() as int);
                assert(ls.drop_first() =~= lens.subrange(k + 1, lens.len() as int));
                assert(f2.drop_first() =~= fs.subrange(k + 1, fs.len() as int));
                let head = Seq::new(f2[0].len(), |i: int| triangle_of(e + i, f2[0][i]));
                assert(pv.map_values(|t: (usize, usize, usize)| (t.0 as int, t.1 as int, t.2 as int))
                    =~= head);
                assert(out@.map_values(|t: (usize, usize, usize)| (t.0 as int, t.1 as int, t.2 as int))
                    =~= before + head);
            }
            k = k + 1;
        }
        proof {
            assert(lens.subrange(lens.len() as int, lens.len() as int) =~= Seq::<int>::empty());
            assert(out@.map_values(|t: (usize, usize, usize)| (t.0 as int, t.1 as int, t.2 as int))
                + Seq::<(int, int, int)>::empty() =~= out@.map_values(
                |t: (usize, usize, usize)| (t.0 as int, t.1 as int, t.2 as int),
            ));
            assert(views.subrange(0, views.len() as int) =~= views);
        }
        out
    }
}

proof fn lemma_vertex_total_prefix(ss: Seq<StripView>, k: int)
    requires
        0 <= k <= ss.len(),
    ensures
        0 <= vertex_total(ss.subrange(0, k)) <= vertex_total(ss),
    decreases ss.len() - k,
{
    if k < ss.len() {
        lemma_vertex_total_prefix(ss, k + 1);
        assert(ss.subrange(0, k + 1) =~= ss.subrange(0, k).push(ss[k]));
        lemma_vertex_total_push(ss.subrange(0, k), ss[k]);
    } else {
        assert(ss.subrange(0, k) =~= ss);
    }
    lemma_vertex_total_nonneg(ss.subrange(0, k));
}

proof fn lemma_vertex_total_nonneg(ss: Seq<StripView>)
    ensures
        vertex_total(ss) >= 0,
    decreases ss.len(),
{
    if ss.len() > 0 {
        lemma_vertex_total_nonneg(ss.drop_first());
    }
}

} // verus!
