//! Palette-indexed textures: their format table, palettes, index planes and the
//! tiling transforms between stored and linear index planes.
pub mod convert_4bit;
pub mod convert_8bit;
pub mod palette;
pub mod palette_texture;
pub mod test;
pub mod texture_format;

use crate::grid::{rect, Grid};
use crate::cursor::written;
use convert_8bit::{swizzle_dims, swizzled};
use palette::{palette_bytes, palette_read, Palette};
use palette_texture::{plane_bytes, plane_read, plane_readable, PaletteTexture};
use texture_format::{formats_of, FormatError, TextureFormat, TextureFormats};
use vstd::prelude::*;

verus! {

/// A colour with 8-bit red, green, blue and alpha channels.
#[derive(Clone, Copy, Debug, PartialEq, Eq, Structural, Hash)]
pub struct Color {
    pub r: u8,
    pub g: u8,
    pub b: u8,
    pub a: u8,
}

impl Default for Color {
    /// Transparent black, used for unused palette slots.
    fn default() -> (r: Color)
        ensures
            r == (Color { r: 0, g: 0, b: 0, a: 0 }),
    {
        Color { r: 0, g: 0, b: 0, a: 0 }
    }
}

/// Transparent black.
pub open spec fn blank() -> Color {
    Color { r: 0, g: 0, b: 0, a: 0 }
}

/// Why a texture could not be turned into stored data.
#[derive(Clone, Copy, Debug, PartialEq, Eq, Structural)]
pub enum TextureError {
    /// The image has more distinct colours than the palette has entries.
    TooManyColors,
    /// Index planes of 4-bit textures cannot be stored.
    Unsupported4Bit,
}

/// The rows of `img` one after the other.
pub open spec fn flat(img: Seq<Seq<Color>>) -> Seq<Color>
    decreases img.len(),
{
    if img.len() == 0 {
        Seq::empty()
    } else {
        flat(img.drop_last()) + img.last()
    }
}

/// The distinct colours of `s` in order of first occurrence.
pub open spec fn distinct(s: Seq<Color>) -> Seq<Color>
    decreases s.len(),
{
    if s.len() == 0 {
        Seq::empty()
    } else {
        let d = distinct(s.drop_last());
        if d.contains(s.last()) {
            d
        } else {
            d.push(s.last())
        }
    }
}

/// `d` followed by blank entries up to `n` entries.
pub open spec fn padded(d: Seq<Color>, n: int) -> Seq<Color> {
    Seq::new(n as nat, |i: int| if i < d.len() { d[i] } else { blank() })
}

/// The palette built from an image: its distinct colours in row-major order of
/// first occurrence, then blank entries up to `n`.
pub open spec fn palette_of(img: Seq<Seq<Color>>, n: int) -> Seq<Color> {
    padded(distinct(flat(img)), n)
}

/// The index plane built from an image: each pixel's position in the list of
/// distinct colours.
pub open spec fn indices_of(img: Seq<Seq<Color>>, w: int) -> Seq<Seq<u16>> {
    Seq::new(
        img.len(),
        |y: int| Seq::new(w as nat, |x: int| distinct(flat(img)).index_of(img[y][x]) as u16),
    )
}

/// Each index replaced by its palette colour.
pub open spec fn assembled(palette: Seq<Color>, plane: Seq<Seq<u16>>) -> Seq<Seq<Color>> {
    plane.map_values(|row: Seq<u16>| row.map_values(|i: u16| palette[i as int]))
}

proof fn lemma_distinct_step(s: Seq<Color>, c: Color)
    ensures
        distinct(s.push(c)) == (if distinct(s).contains(c) {
            distinct(s)
        } else {
            distinct(s).push(c)
        }),
{
    assert(s.push(c).drop_last() =~= s);
}

proof fn lemma_distinct_props(s: Seq<Color>)
    ensures
        distinct(s).no_duplicates(),
        forall|c: Color| s.contains(c) <==> #[trigger] distinct(s).contains(c),
    decreases s.len(),
{
    if s.len() > 0 {
        let t = s.drop_last();
        let l = s.last();
        lemma_distinct_props(t);
        assert(s =~= t.push(l));
        lemma_distinct_step(t, l);
        let dt = distinct(t);
        let ds = distinct(s);
        if !dt.contains(l) {
            assert forall|i: int, j: int|
                0 <= i < ds.len() && 0 <= j < ds.len() && i != j implies ds[i] != ds[j] by {
                if i == dt.len() {
                    assert(ds[j] == dt[j]);
                } else if j == dt.len() {
                    assert(ds[i] == dt[i]);
                }
            }
        }
        assert forall|c: Color| s.contains(c) <==> #[trigger] distinct(s).contains(c) by {
            if s.contains(c) {
                let i = choose|i: int| 0 <= i < s.len() && s[i] == c;
                if i < t.len() {
                    assert(t[i] == c);
                    assert(t.contains(c));
                    assert(dt.contains(c));
                    let j = choose|j: int| 0 <= j < dt.len() && dt[j] == c;
                    assert(ds[j] == c);
                } else {
                    assert(c == l);
                    if !dt.contains(l) {
                        assert(ds[dt.len() as int] == c);
                    }
                }
            }
            if ds.contains(c) {
                let j = choose|j: int| 0 <= j < ds.len() && ds[j] == c;
                if j < dt.len() {
                    assert(dt[j] == c);
                    assert(dt.contains(c));
                    assert(t.contains(c));
                    let i = choose|i: int| 0 <= i < t.len() && t[i] == c;
                    assert(s[i] == c);
                } else {
                    assert(s[s.len() - 1] == c);
                }
            }
        }
    }
}

proof fn lemma_distinct_grows(s: Seq<Color>, t: Seq<Color>)
    ensures
        distinct(s).len() <= distinct(s + t).len(),
    decreases t.len(),
{
    if t.len() > 0 {
        let u = t.drop_last();
        lemma_distinct_grows(s, u);
        assert((s + t) =~= (s + u).push(t.last()));
        lemma_distinct_step(s + u, t.last());
    }
}

proof fn lemma_flat_append(a: Seq<Seq<Color>>, b: Seq<Seq<Color>>)
    ensures
        flat(a + b) == flat(a) + flat(b),
    decreases b.len(),
{
    if b.len() == 0 {
        assert(a + b =~= a);
        assert(flat(a) + flat(b) =~= flat(a));
    } else {
        let u = b.drop_last();
        lemma_flat_append(a, u);
        assert((a + b).drop_last() =~= a + u);
        assert(flat(a) + flat(u) + b.last() =~= flat(a) + (flat(u) + b.last()));
    }
}

/// The colours of `img` that come before pixel `(y, x)` in row-major order.
pub open spec fn seen(img: Seq<Seq<Color>>, y: int, x: int) -> Seq<Color> {
    flat(img.subrange(0, y)) + img[y].subrange(0, x)
}

proof fn lemma_seen_prefix(img: Seq<Seq<Color>>, y: int, x: int)
    requires
        0 <= y < img.len(),
        0 <= x <= img[y].len(),
    ensures
        distinct(seen(img, y, x)).len() <= distinct(flat(img)).len(),
{
    let row = img[y];
    let rest = img.subrange(y + 1, img.len() as int);
    assert(img =~= img.subrange(0, y) + seq![row] + rest);
    lemma_flat_append(img.subrange(0, y) + seq![row], rest);
    lemma_flat_append(img.subrange(0, y), seq![row]);
    assert(flat(seq![row]) =~= row) by {
        reveal_with_fuel(flat, 2);
        assert(seq![row].drop_last() =~= Seq::<Seq<Color>>::empty());
    }
    assert(row =~= row.subrange(0, x) + row.subrange(x, row.len() as int));
    let tail = row.subrange(x, row.len() as int) + flat(rest);
    assert(flat(img) =~= seen(img, y, x) + tail);
    lemma_distinct_grows(seen(img, y, x), tail);
}

fn find_color(palette: &Vec<Color>, c: Color) -> (r: Option<usize>)
    ensures
        r.is_none() <==> !palette@.contains(c),
        r matches Some(k) ==> k < palette@.len() && palette@[k as int] == c,
{
    let mut k: usize = 0;
    while k < palette.len()
        invariant
            k <= palette@.len(),
            forall|j: int| 0 <= j < k ==> palette@[j] != c,
        decreases palette@.len() - k,
    {
        if palette[k] == c {
            return Some(k);
        }
        k = k + 1;
    }
    None
}

/// A texture as a grid of colours.
pub struct Texture(pub Grid<Color>);

impl Texture {
    /// Looks up every index of `palette_tex` in `palette`.
    pub fn from_palette_and_palette_texture(palette: &Palette, palette_tex: &PaletteTexture) -> (r:
        Self)
        requires
            palette_tex.0.wf(),
            forall|y: int, x: int|
                0 <= y < palette_tex.0@.len() && 0 <= x < palette_tex.0.width ==> (#[trigger] palette_tex.0@[y][x])
                    < palette.0@.len(),
        ensures
            r.0.wf(),
            r.0.width == palette_tex.0.width,
            r.0@ == assembled(palette.0@, palette_tex.0@),
    {
        let g = &palette_tex.0;
        let mut rows: Vec<Vec<Color>> = Vec::new();
        let mut y: usize = 0;
        while y < g.rows.len()
            invariant
                g == &palette_tex.0,
                g.wf(),
                forall|y: int, x: int|
                    0 <= y < g@.len() && 0 <= x < g.width ==> (#[trigger] g@[y][x]) < palette.0@.len(),
                y <= g@.len(),
                rows@.len() == y,
                forall|i: int| 0 <= i < y ==> #[trigger] rows@[i]@ == assembled(palette.0@, g@)[i],
            decreases g@.len() - y,
        {
            let mut row: Vec<Color> = Vec::new();
            let mut x: usize = 0;
            assert(g@[y as int].len() == g.width);
            while x < g.width
                invariant
                    g.wf(),
                    forall|y: int, x: int|
                        0 <= y < g@.len() && 0 <= x < g.width ==> (#[trigger] g@[y][x])
                            < palette.0@.len(),
                    y < g@.len(),
                    x <= g.width,
                    row@.len() == x,
                    forall|k: int| 0 <= k < x ==> #[trigger] row@[k] == palette.0@[g@[y as int][k] as int],
                decreases g.width - x,
            {
                assert(g@[y as int].len() == g.width);
                let i = g.rows[y][x];
                assert(i == g@[y as int][x as int]);
                row.push(palette.0[i as usize]);
                x = x + 1;
            }
            assert(row@ =~= assembled(palette.0@, g@)[y as int]);
            rows.push(row);
            y = y + 1;
        }
        let r = Texture(Grid { width: g.width, rows });
        assert(r.0@ =~= assembled(palette.0@, g@));
        r
    }

    /// Reads the texture of `tf` from the container bytes `data`: its palette and
    /// its index plane, looked up pixel by pixel.
    pub fn read_from_bin(data: &[u8], tf: TextureFormat) -> (r: Self)
        requires
            plane_readable(tf),
        ensures
            r.0.wf(),
            r.0.width == tf.size.x,
            r.0@ == assembled(palette_read(data@, tf), plane_read(data@, tf)),
    {
        let palette = Palette::read_from_bin(data, tf);
        let palette_tex = PaletteTexture::read_from_bin(data, tf);
        Self::from_palette_and_palette_texture(&palette, &palette_tex)
    }

    /// Writes the texture into the container bytes `data` as the texture of `tf`:
    /// a palette built from its colours and its index plane, tiled. Fails, leaving
    /// `data` alone, with `Unsupported4Bit` for 4-bit textures and with
    /// `TooManyColors` when the texture has more than 256 distinct colours.
    pub fn write_to_bin(&self, data: &mut Vec<u8>, tf: TextureFormat) -> (r: Result<
        (),
        TextureError,
    >)
        requires
            self.0.wf(),
            tf.wf(),
            tf.pixel_encoding == 8 ==> swizzle_dims(self.0@.len() as int, self.0.width as int),
            tf.location + self.0@.len() * self.0.width <= usize::MAX,
        ensures
            tf.pixel_encoding == 4 ==> r == Err::<(), TextureError>(TextureError::Unsupported4Bit)
                && final(data)@ == old(data)@,
            tf.pixel_encoding == 8 && distinct(flat(self.0@)).len() > 256 ==> r == Err::<
                (),
                TextureError,
            >(TextureError::TooManyColors) && final(data)@ == old(data)@,
            tf.pixel_encoding == 8 && distinct(flat(self.0@)).len() <= 256 ==> r is Ok && final(data)@ == written(
                written(
                    old(data)@,
                    tf.palette_offset(),
                    palette_bytes(palette_of(self.0@, 256), tf),
                ),
                tf.location as int,
                plane_bytes(
                    swizzled(indices_of(self.0@, self.0.width as int), self.0.width as int),
                    self.0.width as int,
                ),
            ),
    {
        if tf.pixel_encoding == 4 {
            return Err(TextureError::Unsupported4Bit);
        }
        let (pal, pal_tex) = match self.to_palette_and_palette_texture(tf) {
            Ok(pair) => pair,
            Err(e) => {
                return Err(e);
            },
        };
        pal.write_to_bin(data, tf);
        pal_tex.write_to_bin(data, tf)
    }

    /// Builds a palette of `2^pixel_encoding` entries and an index plane for the
    /// texture: colours get indices in row-major order of first occurrence, and
    /// unused entries are blank. Fails with `TooManyColors` exactly when the
    /// texture has more distinct colours than the palette has entries.
    pub fn to_palette_and_palette_texture(&self, tf: TextureFormat) -> (r: Result<
        (Palette, PaletteTexture),
        TextureError,
    >)
        requires
            self.0.wf(),
            tf.pixel_encoding == 4 || tf.pixel_encoding == 8,
        ensures
            r is Err <==> distinct(flat(self.0@)).len() > tf.palette_len(),
            r is Err ==> r == Err::<(Palette, PaletteTexture), TextureError>(
                TextureError::TooManyColors,
            ),
            r matches Ok((p, t)) ==> {
                &&& p.0@ == palette_of(self.0@, tf.palette_len())
                &&& t.0.wf()
                &&& t.0.width == self.0.width
                &&& t.0@ == indices_of(self.0@, self.0.width as int)
            },
    {
        let ghost img = self.0@;
        let ghost w = self.0.width as int;
        let max_len: usize = if tf.pixel_encoding == 4 {
            16
        } else {
            256
        };
        let mut palette: Vec<Color> = Vec::new();
        let mut rows: Vec<Vec<u16>> = Vec::new();
        let mut y: usize = 0;
        while y < self.0.rows.len()
            invariant
                self.0.wf(),
                img == self.0@,
                w == self.0.width,
                max_len == tf.palette_len(),
                y <= img.len(),
                palette@ == distinct(flat(img.subrange(0, y as int))),
                palette@.len() <= max_len,
                rows@.len() == y,
                forall|i: int, x: int|
                    0 <= i < y && 0 <= x < w ==> #[trigger] rows@[i]@[x] < palette@.len()
                        && palette@[rows@[i]@[x] as int] == img[i][x],
                forall|i: int| 0 <= i < y ==> (#[trigger] rows@[i]@).len() == w,
            decreases img.len() - y,
        {
            let ghost before = palette@;
            let mut row: Vec<u16> = Vec::new();
            let mut x: usize = 0;
            assert(img[y as int].len() == w);
            assert(seen(img, y as int, 0) =~= flat(img.subrange(0, y as int)));
            while x < self.0.width
                invariant
                    self.0.wf(),
                    img == self.0@,
                    w == self.0.width,
                    max_len == tf.palette_len(),
                    y < img.len(),
                    x <= w,
                    palette@ == distinct(seen(img, y as int, x as int)),
                    palette@.len() <= max_len,
                    before.len() <= palette@.len(),
                    forall|k: int| 0 <= k < before.len() ==> #[trigger] palette@[k] == before[k],
                    forall|i: int, x: int|
                        0 <= i < y && 0 <= x < w ==> #[trigger] rows@[i]@[x] < before.len()
                            && before[rows@[i]@[x] as int] == img[i][x],
                    row@.len() == x,
                    forall|k: int|
                        0 <= k < x ==> #[trigger] row@[k] < palette@.len() && palette@[row@[k] as int]
                            == img[y as int][k],
                decreases w - x,
            {
                assert(img[y as int].len() == w);
                let c = self.0.rows[y][x];
                let ghost s = seen(img, y as int, x as int);
                assert(seen(img, y as int, x + 1) =~= s.push(c));
                proof {
                    lemma_distinct_step(s, c);
                }
                match find_color(&palette, c) {
                    Some(k) => {
                        row.push(k as u16);
                    },
                    None => {
                        if palette.len() == max_len {
                            proof {
                                lemma_seen_prefix(img, y as int, x + 1);
                            }
                            return Err(TextureError::TooManyColors);
                        }
                        row.push(palette.len() as u16);
                        palette.push(c);
                    },
                }
                x = x + 1;
            }
            proof {
                let t = img.subrange(0, y + 1);
                assert(t.drop_last() =~= img.subrange(0, y as int));
                assert(img[y as int].subrange(0, w) =~= img[y as int]);
                assert(seen(img, y as int, w) =~= flat(t));
            }
            rows.push(row);
            y = y + 1;
        }
        assert(img.subrange(0, img.len() as int) =~= img);
        let ghost d = palette@;
        proof {
            lemma_distinct_props(flat(img));
        }
        let n_used = palette.len();
        while palette.len() < max_len
            invariant
                n_used == d.len(),
                d.len() <= palette@.len() <= max_len,
                forall|k: int| 0 <= k < d.len() ==> #[trigger] palette@[k] == d[k],
                forall|k: int| d.len() <= k < palette@.len() ==> #[trigger] palette@[k] == blank(),
            decreases max_len - palette@.len(),
        {
            palette.push(Color::default());
        }
        assert(palette@ =~= palette_of(img, tf.palette_len()));
        let plane = Grid { width: self.0.width, rows };
        assert forall|i: int, x: int| 0 <= i < img.len() && 0 <= x < w implies #[trigger] plane@[i][x]
            == indices_of(img, w)[i][x] by {
            let k = rows@[i]@[x] as int;
            assert(d[k] == img[i][x]);
            assert(d.contains(img[i][x]));
            let j = d.index_of(img[i][x]);
            assert(d[j] == img[i][x]);
        }
        assert forall|i: int| 0 <= i < img.len() implies #[trigger] plane@[i] =~= indices_of(img, w)[i]
            by {}
        assert(plane@ =~= indices_of(img, w));
        Ok((Palette(palette), PaletteTexture(plane)))
    }
}

/// `d` after `t` was written as the texture of `tf`.
pub open spec fn texture_written(d: Seq<u8>, t: Texture, tf: TextureFormat) -> Seq<u8> {
    let w = t.0.width as int;
    written(
        written(d, tf.palette_offset(), palette_bytes(palette_of(t.0@, 256), tf)),
        tf.location as int,
        plane_bytes(swizzled(indices_of(t.0@, w), w), w),
    )
}

/// `d` after each texture of `ts` was written, in order, at the format of its
/// index in `tfs`.
pub open spec fn all_written(d: Seq<u8>, ts: Seq<(usize, Texture)>, tfs: Seq<TextureFormat>) -> Seq<
    u8,
>
    decreases ts.len(),
{
    if ts.len() == 0 {
        d
    } else {
        texture_written(all_written(d, ts.drop_last(), tfs), ts.last().1, tfs[ts.last().0 as int])
    }
}

/// Every format has an index plane that can be read.
pub open spec fn all_readable(tfs: Seq<TextureFormat>) -> bool {
    forall|i: int| 0 <= i < tfs.len() ==> plane_readable(#[trigger] tfs[i])
}

/// Texture `t` can be written as texture `i` of the table `tfs`: the index
/// exists, the texture is 8-bit, its plane can be tiled and placed, and it has
/// at most 256 distinct colours.
pub open spec fn writable(t: Texture, tfs: Seq<TextureFormat>, i: int) -> bool {
    &&& 0 <= i < tfs.len()
    &&& tfs[i].pixel_encoding == 8
    &&& t.0.wf()
    &&& swizzle_dims(t.0@.len() as int, t.0.width as int)
    &&& tfs[i].location + t.0@.len() * t.0.width <= usize::MAX
    &&& distinct(flat(t.0@)).len() <= 256
}

/// The textures of a container, each with its index in the format table.
pub struct Textures(pub Vec<(usize, Texture)>);

/// Why textures could not be written into a container.
#[derive(Clone, Copy, Debug, PartialEq, Eq, Structural)]
pub enum WriteError {
    /// The container's format table could not be read.
    Format(FormatError),
    /// No texture of the format table has this index.
    NoSuchTexture(usize),
    /// A texture's shape cannot be tiled, or does not fit in the container.
    UnsupportedShape(usize),
    /// A texture could not be stored.
    Texture(TextureError),
}

impl Textures {
    /// Reads every texture that the format table of `data` describes. A
    /// container without a (complete) format table has no textures; textures
    /// whose locations overflow, or whose index plane has a shape that cannot be
    /// read, are errors.
    pub fn read_from_bin(data: &[u8]) -> (r: Result<Self, FormatError>)
        requires
            data@.len() <= 0xFFFF_0000,
        ensures
            formats_of(data@) == Err::<Seq<TextureFormat>, FormatError>(FormatError::UnexpectedEof)
                ==> (r matches Ok(t) && t.0@.len() == 0),
            formats_of(data@) == Err::<Seq<TextureFormat>, FormatError>(FormatError::TooLarge)
                ==> r == Err::<Self, FormatError>(FormatError::TooLarge),
            formats_of(data@) matches Ok(tfs) ==> {
                if all_readable(tfs) {
                    (r matches Ok(t) && t.0@.len() == tfs.len() && forall|i: int|
                        0 <= i < tfs.len() ==> (#[trigger] t.0@[i]).0 == i && t.0@[i].1.0@
                            == assembled(palette_read(data@, tfs[i]), plane_read(data@, tfs[i])))
                } else {
                    r == Err::<Self, FormatError>(FormatError::UnsupportedShape)
                }
            },
    {
        let tfs = match TextureFormats::read(data) {
            Ok(tfs) => tfs,
            Err(FormatError::UnexpectedEof) => {
                return Ok(Textures(Vec::new()));
            },
            Err(e) => {
                return Err(e);
            },
        };
        let mut i: usize = 0;
        while i < tfs.0.len()
            invariant
                formats_of(data@) == Ok::<Seq<TextureFormat>, FormatError>(tfs.0@),
                i <= tfs.0@.len(),
                forall|k: int| 0 <= k < i ==> plane_readable(#[trigger] tfs.0@[k]),
                forall|k: int| 0 <= k < tfs.0@.len() ==> (#[trigger] tfs.0@[k]).wf(),
            decreases tfs.0@.len() - i,
        {
            if !palette_texture::readable(&tfs.0[i]) {
                assert(!plane_readable(tfs.0@[i as int]));
                assert(!all_readable(tfs.0@));
                return Err(FormatError::UnsupportedShape);
            }
            i = i + 1;
        }
        let mut textures: Vec<(usize, Texture)> = Vec::new();
        let mut i: usize = 0;
        while i < tfs.0.len()
            invariant
                formats_of(data@) == Ok::<Seq<TextureFormat>, FormatError>(tfs.0@),
                i <= tfs.0@.len(),
                forall|k: int| 0 <= k < tfs.0@.len() ==> plane_readable(#[trigger] tfs.0@[k]),
                textures@.len() == i,
                forall|k: int|
                    0 <= k < i ==> (#[trigger] textures@[k]).0 == k && textures@[k].1.0@ == assembled(
                        palette_read(data@, tfs.0@[k]),
                        plane_read(data@, tfs.0@[k]),
                    ),
            decreases tfs.0@.len() - i,
        {
            let t = Texture::read_from_bin(data, tfs.0[i]);
            textures.push((i, t));
            i = i + 1;
        }
        Ok(Textures(textures))
    }

    /// Writes each texture into the container bytes `data` at the place that the
    /// container's format table gives for its index, in order. Succeeds when the
    /// table can be read and every texture can be stored there.
    pub fn write_to_bin(&self, data: &mut Vec<u8>) -> (r: Result<(), WriteError>)
        requires
            old(data)@.len() <= 0xFFFF_0000,
        ensures
            match formats_of(old(data)@) {
                Err(e) => r == Err::<(), WriteError>(WriteError::Format(e)),
                Ok(tfs) => {
                    &&& r is Ok ==> (forall|k: int|
                        0 <= k < self.0@.len() ==> (#[trigger] self.0@[k]).0 < tfs.len()) && final(data)@ == all_written(old(data)@, self.0@, tfs)
                    &&& (forall|k: int|
                        0 <= k < self.0@.len() ==> writable(
                            (#[trigger] self.0@[k]).1,
                            tfs,
                            self.0@[k].0 as int,
                        )) ==> r is Ok
                },
            },
    {
        let tfs = match TextureFormats::read(data.as_slice()) {
            Ok(tfs) => tfs,
            Err(e) => {
                return Err(WriteError::Format(e));
            },
        };
        let ghost tf_all = tfs.0@;
        let ghost initial = data@;
        let mut k: usize = 0;
        assert(self.0@.subrange(0, 0) =~= Seq::<(usize, Texture)>::empty());
        while k < self.0.len()
            invariant
                k <= self.0@.len(),
                tf_all == tfs.0@,
                initial == old(data)@,
                formats_of(initial) == Ok::<Seq<TextureFormat>, FormatError>(tf_all),
                data@ == all_written(initial, self.0@.subrange(0, k as int), tf_all),
                forall|i: int| 0 <= i < tfs.0@.len() ==> (#[trigger] tfs.0@[i]).wf(),
                forall|j: int| 0 <= j < k ==> (#[trigger] self.0@[j]).0 < tfs.0@.len(),
            decreases self.0@.len() - k,
        {
            let index = self.0[k].0;
            let texture = &self.0[k].1;
            if index >= tfs.0.len() {
                assert(!writable(self.0@[k as int].1, tf_all, self.0@[k as int].0 as int));
                return Err(WriteError::NoSuchTexture(index));
            }
            let tf = tfs.0[index];
            if !texture.0.is_well_formed() || (tf.pixel_encoding == 8
                && !convert_8bit::has_swizzle_dims(&texture.0)) {
                assert(!writable(self.0@[k as int].1, tf_all, self.0@[k as int].0 as int));
                return Err(WriteError::UnsupportedShape(index));
            }
            let h = texture.0.height();
            if h > 0 && texture.0.width > (usize::MAX - tf.location as usize) / h {
                proof {
                    let m = (usize::MAX - tf.location as usize) as int / h as int;
                    assert(h * texture.0.width > usize::MAX - tf.location) by (nonlinear_arith)
                        requires
                            texture.0.width > m,
                            m == (usize::MAX - tf.location) / (h as int),
                            h > 0,
                    ;
                }
                assert(!writable(self.0@[k as int].1, tf_all, self.0@[k as int].0 as int));
                return Err(WriteError::UnsupportedShape(index));
            }
            proof {
                if h > 0 {
                    let m = (usize::MAX - tf.location as usize) as int / h as int;
                    assert(h * texture.0.width <= h * m) by (nonlinear_arith)
                        requires
                            texture.0.width <= m,
                            h > 0,
                    ;
                    assert(h * m <= usize::MAX - tf.location) by (nonlinear_arith)
                        requires
                            m == (usize::MAX - tf.location) / (h as int),
                            h > 0,
                    ;
                }
            }
            match texture.write_to_bin(data, tf) {
                Ok(()) => {},
                Err(e) => {
                    assert(!writable(self.0@[k as int].1, tf_all, self.0@[k as int].0 as int));
                    return Err(WriteError::Texture(e));
                },
            }
            proof {
                let pre = self.0@.subrange(0, k + 1);
                assert(pre.drop_last() =~= self.0@.subrange(0, k as int));
                assert(pre.last() == self.0@[k as int]);
            }
            k = k + 1;
        }
        assert(self.0@.subrange(0, self.0@.len() as int) =~= self.0@);
        Ok(())
    }
}

/// Turning a texture with no more distinct colours than the palette holds into
/// a palette and an index plane, and looking the indices up again, gives the
/// texture back exactly.
pub proof fn lemma_assemble_quantize(img: Seq<Seq<Color>>, w: int, n: int)
    requires
        rect(img, w),
        w >= 0,
        distinct(flat(img)).len() <= n <= 256,
    ensures
        assembled(palette_of(img, n), indices_of(img, w)) == img,
{
    let d = distinct(flat(img));
    lemma_distinct_props(flat(img));
    let a = assembled(palette_of(img, n), indices_of(img, w));
    assert forall|y: int| 0 <= y < img.len() implies #[trigger] a[y] =~= img[y] by {
        assert forall|x: int| 0 <= x < w implies a[y][x] == img[y][x] by {
            let c = img[y][x];
            assert(flat(img).contains(c)) by {
                lemma_seen_prefix_contains(img, y, x);
            }
            assert(d.contains(c));
            let j = d.index_of(c);
            assert(0 <= j < d.len() && d[j] == c);
            assert(j < 65536);
        }
    }
    assert(a =~= img);
}

proof fn lemma_seen_prefix_contains(img: Seq<Seq<Color>>, y: int, x: int)
    requires
        0 <= y < img.len(),
        0 <= x < img[y].len(),
    ensures
        flat(img).contains(img[y][x]),
{
    let row = img[y];
    let rest = img.subrange(y + 1, img.len() as int);
    assert(img =~= img.subrange(0, y) + seq![row] + rest);
    lemma_flat_append(img.subrange(0, y) + seq![row], rest);
    lemma_flat_append(img.subrange(0, y), seq![row]);
    assert(flat(seq![row]) =~= row) by {
        reveal_with_fuel(flat, 2);
        assert(seq![row].drop_last() =~= Seq::<Seq<Color>>::empty());
    }
    let p = flat(img.subrange(0, y));
    assert(flat(img)[p.len() + x] == row[x]);
}

} // verus!
