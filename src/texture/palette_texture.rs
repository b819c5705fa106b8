//! Index planes: the per-pixel palette indices of a texture, read from and
//! written to their stored, tiled form.
use crate::cursor::{byte_at, read_u8_or_zero, write_at, written};
use crate::grid::{rect, Grid};
use crate::texture::convert_4bit::{
    apply, convert32x32, convert64x64_4bit, converted32, converted64, lemma_source_in_range,
    source, step_len, Step,
};
use crate::texture::convert_8bit::{
    decode, deswizzled, encode, is_swizzle_shape, swizzle_dims, swizzled,
};
use crate::texture::texture_format::TextureFormat;
use crate::texture::TextureError;
use vstd::arithmetic::div_mod::{lemma_fundamental_div_mod, lemma_fundamental_div_mod_converse};
use vstd::prelude::*;

verus! {

/// The palette index of every pixel, as a linear row-major plane.
pub struct PaletteTexture(pub Grid<u16>);

/// `cells` cut into `h` rows of `w`.
pub open spec fn rows_of<T>(cells: Seq<T>, w: int, h: int) -> Seq<Seq<T>> {
    Seq::new(h as nat, |y: int| Seq::new(w as nat, |x: int| cells[y * w + x]))
}

/// The stored bytes of an 8-bit index plane, one per pixel.
pub open spec fn stored_bytes(d: Seq<u8>, tf: TextureFormat) -> Seq<u8> {
    Seq::new((tf.size.x * tf.size.y) as nat, |i: int| byte_at(d, tf.location + i))
}

/// The stored nibbles of a 4-bit index plane, low nibble of each byte first.
pub open spec fn stored_nibbles(d: Seq<u8>, tf: TextureFormat) -> Seq<u16> {
    Seq::new(
        (tf.size.x * tf.size.y) as nat,
        |i: int|
            if i % 2 == 0 {
                (byte_at(d, tf.location + i / 2) % 16) as u16
            } else {
                (byte_at(d, tf.location + i / 2) / 16) as u16
            },
    )
}

/// Every run of 1024 cells put through the 32x32 transform.
pub open spec fn banded32(a: Seq<u16>) -> Seq<u16> {
    Seq::new(
        a.len(),
        |p: int| converted32(a.subrange(p / 1024 * 1024, p / 1024 * 1024 + 1024))[p % 1024],
    )
}

/// The linear cells of a 4-bit plane of `w` x `h` pixels from its stored cells:
/// 64x64 planes and planes 32 wide are transformed, others kept as stored.
pub open spec fn nibbles_converted(a: Seq<u16>, w: int, h: int) -> Seq<u16> {
    if w == 64 && h == 64 {
        converted64(a)
    } else if w == 32 && h >= 32 {
        banded32(a)
    } else {
        a
    }
}

/// A plane of bytes widened to 16-bit cells.
pub open spec fn widened(s: Seq<Seq<u8>>) -> Seq<Seq<u16>> {
    s.map_values(|row: Seq<u8>| row.map_values(|b: u8| b as u16))
}

/// The linear index plane of `tf` as read from `d`.
pub open spec fn plane_read(d: Seq<u8>, tf: TextureFormat) -> Seq<Seq<u16>> {
    let w = tf.size.x as int;
    let h = tf.size.y as int;
    if tf.pixel_encoding == 8 {
        widened(deswizzled(rows_of(stored_bytes(d, tf), w, h), w))
    } else {
        rows_of(nibbles_converted(stored_nibbles(d, tf), w, h), w, h)
    }
}

/// The shapes of index plane that can be read: for 8-bit textures those of the
/// 8-bit transform, for 4-bit textures 32 wide a whole number of 32-row bands.
pub open spec fn plane_readable(tf: TextureFormat) -> bool {
    &&& tf.wf()
    &&& tf.pixel_encoding == 8 ==> swizzle_dims(tf.size.y as int, tf.size.x as int)
    &&& (tf.pixel_encoding == 4 && tf.size.x == 32 && tf.size.y >= 32) ==> tf.size.y % 32 == 0
}

/// Cells of a plane as stored bytes, row-major, each cut to its low byte.
pub open spec fn plane_bytes(s: Seq<Seq<u16>>, w: int) -> Seq<u8> {
    Seq::new((s.len() * w) as nat, |i: int| s[i / w][i % w] as u8)
}

/// Every cell is below `n`.
pub open spec fn cells_below(s: Seq<Seq<u16>>, n: int) -> bool {
    forall|y: int, x: int| 0 <= y < s.len() && 0 <= x < s[y].len() ==> #[trigger] s[y][x] < n
}

/// Whether the index plane of `tf` has a shape that can be read.
pub fn readable(tf: &TextureFormat) -> (r: bool)
    ensures
        r == plane_readable(*tf),
{
    let depths = (tf.color_depth == 16 || tf.color_depth == 32) && (tf.pixel_encoding == 4
        || tf.pixel_encoding == 8);
    if !depths {
        return false;
    }
    assert(tf.size.x * tf.size.y <= u32::MAX * u32::MAX) by (nonlinear_arith)
        requires
            tf.size.x <= u32::MAX,
            tf.size.y <= u32::MAX,
    ;
    let area = tf.size.x as u64 * tf.size.y as u64;
    if area > u32::MAX as u64 {
        return false;
    }
    let footprint = if tf.pixel_encoding == 4 {
        area / 2
    } else {
        area
    };
    let table: u64 = if tf.color_depth == 16 {
        2
    } else {
        4
    } * if tf.pixel_encoding == 4 {
        16
    } else {
        256
    };
    if tf.location as u64 + footprint + table > u32::MAX as u64 {
        return false;
    }
    if tf.pixel_encoding == 8 {
        is_swizzle_shape(tf.size.y as usize, tf.size.x as usize)
    } else {
        !(tf.size.x == 32 && tf.size.y >= 32) || tf.size.y % 32 == 0
    }
}

proof fn lemma_apply_below(a: Seq<u16>, s: Step, n: int)
    requires
        s != Step::SwapPairs ==> a.len() == step_len(s),
        s == Step::SwapPairs ==> a.len() % 2 == 0,
        forall|i: int| 0 <= i < a.len() ==> #[trigger] a[i] < n,
    ensures
        forall|i: int| 0 <= i < a.len() ==> #[trigger] apply(a, s)[i] < n,
        apply(a, s).len() == a.len(),
{
    assert forall|i: int| 0 <= i < a.len() implies #[trigger] apply(a, s)[i] < n by {
        lemma_source_in_range(s, a.len() as int, i);
    }
}

proof fn lemma_converted32_below(a: Seq<u16>, n: int)
    requires
        a.len() == 1024,
        forall|i: int| 0 <= i < a.len() ==> #[trigger] a[i] < n,
    ensures
        forall|i: int| 0 <= i < 1024 ==> #[trigger] converted32(a)[i] < n,
        converted32(a).len() == 1024,
{
    let a1 = apply(a, Step::SwapPairs);
    lemma_apply_below(a, Step::SwapPairs, n);
    let a2 = apply(a1, Step::OrderRuns);
    lemma_apply_below(a1, Step::OrderRuns, n);
    let a3 = apply(a2, Step::SwapRowPairCells);
    lemma_apply_below(a2, Step::SwapRowPairCells, n);
    let a4 = apply(a3, Step::GatherEighths);
    lemma_apply_below(a3, Step::GatherEighths, n);
    let a5 = apply(a4, Step::Unweave);
    lemma_apply_below(a4, Step::Unweave, n);
    let a6 = apply(a5, Step::SwapOddGroupHalves);
    lemma_apply_below(a5, Step::SwapOddGroupHalves, n);
    lemma_apply_below(a6, Step::SwapMiddleRows, n);
}

proof fn lemma_converted64_below(a: Seq<u16>, n: int)
    requires
        a.len() == 4096,
        forall|i: int| 0 <= i < a.len() ==> #[trigger] a[i] < n,
    ensures
        forall|i: int| 0 <= i < 4096 ==> #[trigger] converted64(a)[i] < n,
        converted64(a).len() == 4096,
{
    let a1 = apply(a, Step::SwapPairs);
    lemma_apply_below(a, Step::SwapPairs, n);
    let a2 = apply(a1, Step::RotateHalves64);
    lemma_apply_below(a1, Step::RotateHalves64, n);
    let a3 = apply(a2, Step::QuarterChunks64);
    lemma_apply_below(a2, Step::QuarterChunks64, n);
    lemma_apply_below(a3, Step::Remap64, n);
}

fn cells_to_grid(cells: &Vec<u16>, w: usize, h: usize) -> (r: Grid<u16>)
    requires
        cells@.len() == w * h,
    ensures
        r.wf(),
        r.width == w,
        r@ == rows_of(cells@, w as int, h as int),
{
    let g = Grid::from_row_major(cells, w, h);
    assert forall|y: int| 0 <= y < h implies #[trigger] g@[y] =~= rows_of(
        cells@,
        w as int,
        h as int,
    )[y] by {}
    assert(g@ =~= rows_of(cells@, w as int, h as int));
    g
}

impl PaletteTexture {
    /// Reads the index plane of `tf` from the container bytes `data`, starting at
    /// its location (one byte per pixel at 8 bits, one nibble per pixel, low
    /// nibble first, at 4 bits; bytes past the end read as zero), and turns it
    /// from its stored tiling into a linear plane.
    pub fn read_from_bin(data: &[u8], tf: TextureFormat) -> (r: Self)
        requires
            plane_readable(tf),
        ensures
            r.0.wf(),
            r.0.width == tf.size.x,
            r.0@.len() == tf.size.y,
            r.0@ == plane_read(data@, tf),
            cells_below(r.0@, tf.palette_len()),
    {
        let w = tf.size.x as usize;
        let h = tf.size.y as usize;
        let n = w * h;
        assert(w * h == tf.size.x * tf.size.y);
        let loc = tf.location as usize;
        if tf.pixel_encoding == 8 {
            let mut bytes: Vec<u8> = Vec::new();
            let mut i: usize = 0;
            while i < n
                invariant
                    n == w * h,
                    loc == tf.location,
                    n == tf.size.x * tf.size.y,
                    loc + n <= u32::MAX,
                    i <= n,
                    bytes@.len() == i,
                    forall|k: int| 0 <= k < i ==> #[trigger] bytes@[k] == byte_at(data@, loc + k),
                decreases n - i,
            {
                bytes.push(read_u8_or_zero(data, loc + i));
                i = i + 1;
            }
            assert(bytes@ =~= stored_bytes(data@, tf));
            let g = Grid::from_row_major(&bytes, w, h);
            assert(g@ =~= rows_of(stored_bytes(data@, tf), w as int, h as int)) by {
                assert forall|y: int| 0 <= y < h implies #[trigger] g@[y] =~= rows_of(
                    stored_bytes(data@, tf),
                    w as int,
                    h as int,
                )[y] by {}
            }
            let d = decode(&g);
            let r = PaletteTexture(widen(&d));
            assert(r.0@ =~~= plane_read(data@, tf));
            r
        } else {
            let mut cells: Vec<u16> = Vec::new();
            let mut i: usize = 0;
            while i < n
                invariant
                    n == w * h,
                    loc == tf.location,
                    n == tf.size.x * tf.size.y,
                    loc + n / 2 <= u32::MAX,
                    i <= n,
                    cells@.len() == i,
                    forall|k: int|
                        0 <= k < i ==> #[trigger] cells@[k] == stored_nibbles(data@, tf)[k],
                    forall|k: int| 0 <= k < i ==> #[trigger] cells@[k] < 16,
                decreases n - i,
            {
                let b = read_u8_or_zero(data, loc + i / 2);
                if i % 2 == 0 {
                    cells.push((b % 16) as u16);
                } else {
                    cells.push((b / 16) as u16);
                }
                i = i + 1;
            }
            let ghost raw = cells@;
            assert(raw =~= stored_nibbles(data@, tf));
            if w == 64 && h == 64 {
                assert(n == 4096) by (nonlinear_arith)
                    requires
                        n == w * h,
                        w == 64,
                        h == 64,
                ;
                convert64x64_4bit(&mut cells);
                proof {
                    lemma_converted64_below(raw, 16);
                }
            } else if w == 32 && h >= 32 {
                let mut out: Vec<u16> = Vec::new();
                let mut b: usize = 0;
                while b < h / 32
                    invariant
                        cells@ == raw,
                        raw.len() == n,
                        n == w * h,
                        w == 32,
                        h % 32 == 0,
                        forall|k: int| 0 <= k < n ==> #[trigger] raw[k] < 16,
                        b <= h / 32,
                        out@.len() == b * 1024,
                        forall|p: int| 0 <= p < out@.len() ==> #[trigger] out@[p] == banded32(raw)[p],
                        forall|p: int| 0 <= p < out@.len() ==> #[trigger] out@[p] < 16,
                    decreases h / 32 - b,
                {
                    let mut band: Vec<u16> = Vec::new();
                    let mut k: usize = 0;
                    while k < 1024
                        invariant
                            cells@ == raw,
                            raw.len() == n,
                            n == w * h,
                            w == 32,
                            h % 32 == 0,
                            b < h / 32,
                            k <= 1024,
                            band@.len() == k,
                            forall|j: int| 0 <= j < k ==> #[trigger] band@[j] == raw[b * 1024 + j],
                        decreases 1024 - k,
                    {
                        band.push(cells[b * 1024 + k]);
                        k = k + 1;
                    }
                    let ghost sub = raw.subrange(b * 1024, b * 1024 + 1024);
                    assert(band@ =~= sub);
                    proof {
                        lemma_converted32_below(sub, 16);
                    }
                    convert32x32(&mut band);
                    let ghost before = out@;
                    out.append(&mut band);
                    assert forall|p: int| 0 <= p < out@.len() implies #[trigger] out@[p]
                        == banded32(raw)[p] && out@[p] < 16 by {
                        if p >= before.len() {
                            lemma_fundamental_div_mod_converse(p, 1024, b as int, p - b * 1024);
                        }
                    }
                    b = b + 1;
                }
                assert(out@ =~= banded32(raw));
                cells = out;
            }
            let ghost conv = cells@;
            assert(conv == nibbles_converted(raw, w as int, h as int));
            assert(forall|k: int| 0 <= k < n ==> #[trigger] conv[k] < 16);
            let g = cells_to_grid(&cells, w, h);
            proof {
                assert forall|y: int, x: int|
                    0 <= y < g@.len() && 0 <= x < g@[y].len() implies #[trigger] g@[y][x] < 16 by {
                    assert(y * w + x < n) by (nonlinear_arith)
                        requires
                            0 <= y < h,
                            0 <= x < w,
                            n == w * h,
                    ;
                }
            }
            PaletteTexture(g)
        }
    }

    /// Writes the index plane into the container bytes `data` at the location of
    /// `tf`, tiled into its stored form, one byte per pixel. 4-bit planes cannot
    /// be written: that fails with `Unsupported4Bit` and leaves `data` alone.
    pub fn write_to_bin(&self, data: &mut Vec<u8>, tf: TextureFormat) -> (r: Result<(), TextureError>)
        requires
            self.0.wf(),
            tf.pixel_encoding == 4 || tf.pixel_encoding == 8,
            tf.pixel_encoding == 8 ==> swizzle_dims(self.0@.len() as int, self.0.width as int),
            tf.location + self.0@.len() * self.0.width <= usize::MAX,
        ensures
            tf.pixel_encoding == 4 ==> r == Err::<(), TextureError>(TextureError::Unsupported4Bit)
                && final(data)@ == old(data)@,
            tf.pixel_encoding == 8 ==> r is Ok && final(data)@ == written(
                old(data)@,
                tf.location as int,
                plane_bytes(swizzled(self.0@, self.0.width as int), self.0.width as int),
            ),
    {
        if tf.pixel_encoding == 4 {
            return Err(TextureError::Unsupported4Bit);
        }
        let encoded = encode(&self.0);
        let cells = encoded.to_row_major();
        let ghost w = encoded.width as int;
        let ghost s = encoded@;
        let mut bytes: Vec<u8> = Vec::new();
        let mut i: usize = 0;
        while i < cells.len()
            invariant
                i <= cells@.len(),
                bytes@.len() == i,
                forall|k: int| 0 <= k < i ==> #[trigger] bytes@[k] == cells@[k] as u8,
            decreases cells@.len() - i,
        {
            bytes.push(cells[i] as u8);
            i = i + 1;
        }
        proof {
            assert(w >= 8);
            assert forall|k: int| 0 <= k < bytes@.len() implies #[trigger] bytes@[k] == plane_bytes(
                s,
                w,
            )[k] by {
                lemma_fundamental_div_mod(k, w);
                let y = k / w;
                let x = k % w;
                assert(k == y * w + x) by (nonlinear_arith)
                    requires
                        k == w * (k / w) + k % w,
                        y == k / w,
                        x == k % w,
                ;
                assert(0 <= y < s.len()) by (nonlinear_arith)
                    requires
                        k == y * w + x,
                        0 <= x < w,
                        0 <= k < s.len() * w,
                        w > 0,
                ;
            }
            assert(bytes@ =~= plane_bytes(s, w));
        }
        write_at(data, tf.location as usize, &bytes);
        Ok(())
    }
}

fn widen(g: &Grid<u8>) -> (r: Grid<u16>)
    requires
        g.wf(),
    ensures
        r.wf(),
        r.width == g.width,
        r@ == widened(g@),
{
    let mut rows: Vec<Vec<u16>> = Vec::new();
    let mut y: usize = 0;
    while y < g.rows.len()
        invariant
            g.wf(),
            y <= g@.len(),
            rows@.len() == y,
            forall|i: int| 0 <= i < y ==> #[trigger] rows@[i]@ == widened(g@)[i],
        decreases g@.len() - y,
    {
        let mut row: Vec<u16> = Vec::new();
        let mut x: usize = 0;
        assert(g@[y as int].len() == g.width);
        while x < g.rows[y].len()
            invariant
                g.wf(),
                y < g@.len(),
                x <= g@[y as int].len(),
                row@.len() == x,
                forall|k: int| 0 <= k < x ==> #[trigger] row@[k] == g@[y as int][k] as u16,
            decreases g@[y as int].len() - x,
        {
            row.push(g.rows[y][x] as u16);
            x = x + 1;
        }
        assert(row@ =~= widened(g@)[y as int]);
        rows.push(row);
        y = y + 1;
    }
    let r = Grid { width: g.width, rows };
    assert(r@ =~= widened(g@));
    r
}

} // verus!
