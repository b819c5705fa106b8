//! Palettes: their two stored entry encodings and the block scramble of 8-bit
//! palettes.
use crate::cursor::{byte_at, read_u16_or_zero, read_u8_or_zero, u16_at, u16_bytes, write_at, written};
use crate::texture::texture_format::TextureFormat;
use crate::texture::Color;
use vstd::arithmetic::div_mod::{lemma_div_denominator, lemma_fundamental_div_mod_converse};
use vstd::prelude::*;

verus! {

/// A 5-bit channel scaled to 8 bits: `round(v * 255 / 31)`.
pub open spec fn expand5(v: int) -> int {
    (v * 255 + 15) / 31
}

/// A stored alpha of range 0..=127 scaled to 8 bits: `round(a * 255 / 127)`,
/// saturating at 255.
pub open spec fn expand_alpha(a: int) -> int {
    let e = (a * 255 + 63) / 127;
    if e > 255 {
        255
    } else {
        e
    }
}

/// An 8-bit channel reduced to 5 bits: `round(c * 31 / 255)`.
pub open spec fn quantize5(c: int) -> int {
    (c * 31 + 127) / 255
}

/// An 8-bit alpha reduced to the stored range 0..=127: `round(a * 127 / 255)`.
pub open spec fn quantize_alpha(a: int) -> int {
    (a * 127 + 127) / 255
}

/// The colour of a 16-bit entry: red in bits 0-4, green in 5-9, blue in 10-14,
/// and the top bit as full or no alpha.
pub open spec fn color_of_16(v: int) -> Color {
    Color {
        r: expand5(v % 32) as u8,
        g: expand5((v / 32) % 32) as u8,
        b: expand5((v / 1024) % 32) as u8,
        a: if v / 32768 == 1 {
            255
        } else {
            0
        },
    }
}

/// The colour of a 32-bit entry: red, green, blue bytes and a 0..=127 alpha byte.
pub open spec fn color_of_32(r: u8, g: u8, b: u8, a: u8) -> Color {
    Color { r, g, b, a: expand_alpha(a as int) as u8 }
}

/// Position at which entry `i` of an 8-bit palette is stored: in every block of
/// 32 entries, entries 8..16 and 16..24 trade places.
pub open spec fn scrambled_index(i: int) -> int {
    if 8 <= i % 32 < 16 {
        i + 8
    } else if 16 <= i % 32 < 24 {
        i - 8
    } else {
        i
    }
}

/// Position at which entry `i` of the palette of `tf` is stored.
pub open spec fn stored_index(tf: TextureFormat, i: int) -> int {
    if tf.pixel_encoding == 8 {
        scrambled_index(i)
    } else {
        i
    }
}

/// The colour stored in slot `j` of the palette of `tf` in `d`; bytes past the
/// end of `d` read as zero.
pub open spec fn stored_entry(d: Seq<u8>, tf: TextureFormat, j: int) -> Color {
    let p = tf.palette_offset() + tf.entry_size() * j;
    if tf.color_depth == 16 {
        color_of_16(u16_at(d, p))
    } else {
        color_of_32(byte_at(d, p), byte_at(d, p + 1), byte_at(d, p + 2), byte_at(d, p + 3))
    }
}

/// The palette of `tf` as read from `d`, with the 8-bit scramble undone.
pub open spec fn palette_read(d: Seq<u8>, tf: TextureFormat) -> Seq<Color> {
    Seq::new(tf.palette_len() as nat, |i: int| stored_entry(d, tf, stored_index(tf, i)))
}

/// The stored 16-bit value of a colour.
pub open spec fn value_16(c: Color) -> int {
    quantize5(c.r as int) + 32 * quantize5(c.g as int) + 1024 * quantize5(c.b as int) + 32768 * (
    if c.a == 255 {
        1int
    } else {
        0int
    })
}

/// The bytes of one stored entry.
pub open spec fn entry_bytes(c: Color, tf: TextureFormat) -> Seq<u8> {
    if tf.color_depth == 16 {
        seq![(value_16(c) % 256) as u8, (value_16(c) / 256) as u8]
    } else {
        seq![c.r, c.g, c.b, quantize_alpha(c.a as int) as u8]
    }
}

/// The bytes of a whole palette as stored, scramble applied.
pub open spec fn palette_bytes(p: Seq<Color>, tf: TextureFormat) -> Seq<u8> {
    let es = tf.entry_size();
    Seq::new(
        (p.len() * es) as nat,
        |k: int| entry_bytes(p[stored_index(tf, k / es)], tf)[k % es],
    )
}

/// A colour after being stored and read back under `tf`: channels pass through
/// the stored precision.
pub open spec fn requantized(c: Color, tf: TextureFormat) -> Color {
    if tf.color_depth == 16 {
        Color {
            r: expand5(quantize5(c.r as int)) as u8,
            g: expand5(quantize5(c.g as int)) as u8,
            b: expand5(quantize5(c.b as int)) as u8,
            a: if c.a == 255 {
                255
            } else {
                0
            },
        }
    } else {
        Color { r: c.r, g: c.g, b: c.b, a: expand_alpha(quantize_alpha(c.a as int)) as u8 }
    }
}

/// A fixed-size table of colours, indexed by the values of an index plane.
pub struct Palette(pub Vec<Color>);

fn expand5_exec(v: u16) -> (r: u8)
    requires
        v < 32,
    ensures
        r == expand5(v as int),
{
    ((v as u32 * 255 + 15) / 31) as u8
}

fn color_16(v: u16) -> (r: Color)
    ensures
        r == color_of_16(v as int),
{
    Color {
        r: expand5_exec(v % 32),
        g: expand5_exec((v / 32) % 32),
        b: expand5_exec((v / 1024) % 32),
        a: if v / 32768 == 1 {
            255
        } else {
            0
        },
    }
}

fn color_32(r: u8, g: u8, b: u8, a: u8) -> (c: Color)
    ensures
        c == color_of_32(r, g, b, a),
{
    let e = (a as u32 * 255 + 63) / 127;
    Color { r, g, b, a: if e > 255 {
        255
    } else {
        e as u8
    } }
}

fn quantize5_exec(c: u8) -> (r: u16)
    ensures
        r == quantize5(c as int),
        r < 32,
{
    ((c as u32 * 31 + 127) / 255) as u16
}

fn entry_bytes_exec(c: Color, tf: &TextureFormat) -> (r: Vec<u8>)
    requires
        tf.wf(),
    ensures
        r@ == entry_bytes(c, *tf),
        r@.len() == tf.entry_size(),
{
    if tf.color_depth == 16 {
        let a: u16 = if c.a == 255 {
            1
        } else {
            0
        };
        let v: u16 = quantize5_exec(c.r) + 32 * quantize5_exec(c.g) + 1024 * quantize5_exec(c.b)
            + 32768 * a;
        let (b0, b1) = u16_bytes(v);
        assert(v == value_16(c));
        let r = vec![b0, b1];
        assert(r@ =~= entry_bytes(c, *tf));
        r
    } else {
        let r = vec![c.r, c.g, c.b, ((c.a as u32 * 127 + 127) / 255) as u8];
        assert(r@ =~= entry_bytes(c, *tf));
        r
    }
}

fn stored_index_exec(tf: &TextureFormat, i: usize) -> (r: usize)
    requires
        i < 256,
    ensures
        r == stored_index(*tf, i as int),
{
    if tf.pixel_encoding == 8 {
        if 8 <= i % 32 && i % 32 < 16 {
            i + 8
        } else if 16 <= i % 32 && i % 32 < 24 {
            i - 8
        } else {
            i
        }
    } else {
        i
    }
}

proof fn lemma_stored_index_range(tf: TextureFormat, i: int)
    requires
        tf.wf(),
        0 <= i < tf.palette_len(),
    ensures
        0 <= stored_index(tf, i) < tf.palette_len(),
        stored_index(tf, stored_index(tf, i)) == i,
{
}

impl Palette {
    /// Reads the palette of `tf` from the container bytes `data`: `2^bits`
    /// entries at `location + footprint`, decoded from their stored encoding,
    /// and for 8-bit textures with the block scramble undone. Bytes past the end
    /// of `data` read as zero.
    pub fn read_from_bin(data: &[u8], tf: TextureFormat) -> (r: Palette)
        requires
            tf.wf(),
        ensures
            r.0@ == palette_read(data@, tf),
    {
        let start = tf.palette_start();
        let n: usize = if tf.pixel_encoding == 4 {
            16
        } else {
            256
        };
        let mut colors: Vec<Color> = Vec::new();
        let mut i: usize = 0;
        while i < n
            invariant
                tf.wf(),
                start == tf.palette_offset(),
                n == tf.palette_len(),
                i <= n,
                colors@.len() == i,
                forall|k: int| 0 <= k < i ==> #[trigger] colors@[k] == palette_read(data@, tf)[k],
            decreases n - i,
        {
            let j = stored_index_exec(&tf, i);
            proof {
                lemma_stored_index_range(tf, i as int);
            }
            let c = if tf.color_depth == 16 {
                color_16(read_u16_or_zero(data, start + 2 * j))
            } else {
                let p = start + 4 * j;
                color_32(
                    read_u8_or_zero(data, p),
                    read_u8_or_zero(data, p + 1),
                    read_u8_or_zero(data, p + 2),
                    read_u8_or_zero(data, p + 3),
                )
            };
            colors.push(c);
            i = i + 1;
        }
        assert(colors@ =~= palette_read(data@, tf));
        Palette(colors)
    }

    /// The palette's stored bytes under `tf`, scramble applied.
    pub fn to_bytes(&self, tf: TextureFormat) -> (r: Vec<u8>)
        requires
            tf.wf(),
            self.0@.len() == tf.palette_len(),
        ensures
            r@ == palette_bytes(self.0@, tf),
    {
        let n = self.0.len();
        let mut out: Vec<u8> = Vec::new();
        let mut i: usize = 0;
        let ghost es = tf.entry_size();
        while i < n
            invariant
                tf.wf(),
                n == self.0@.len(),
                n == tf.palette_len(),
                es == tf.entry_size(),
                i <= n,
                out@.len() == i * es,
                forall|k: int|
                    0 <= k < i * es ==> #[trigger] out@[k] == palette_bytes(self.0@, tf)[k],
            decreases n - i,
        {
            proof {
                lemma_stored_index_range(tf, i as int);
            }
            let c = self.0[stored_index_exec(&tf, i)];
            let mut eb = entry_bytes_exec(c, &tf);
            let ghost before = out@;
            out.append(&mut eb);
            proof {
                assert forall|k: int| 0 <= k < (i + 1) * es implies #[trigger] out@[k]
                    == palette_bytes(self.0@, tf)[k] by {
                    if k >= i * es {
                        lemma_fundamental_div_mod_converse(k, es, i as int, k - i * es);
                    }
                }
                assert((i + 1) * es == i * es + es) by (nonlinear_arith);
            }
            i = i + 1;
        }
        assert(out@ =~= palette_bytes(self.0@, tf));
        out
    }

    /// Writes the palette into the container bytes `data` at the palette offset
    /// of `tf`: the block scramble applied for 8-bit textures, each channel
    /// reduced to its stored precision.
    pub fn write_to_bin(&self, data: &mut Vec<u8>, tf: TextureFormat)
        requires
            tf.wf(),
            self.0@.len() == tf.palette_len(),
        ensures
            final(data)@ == written(old(data)@, tf.palette_offset(), palette_bytes(self.0@, tf)),
    {
        let bytes = self.to_bytes(tf);
        write_at(data, tf.palette_start(), &bytes);
    }
}

/// `x` and `y` differ by at most `bound`.
pub open spec fn near(x: int, y: int, bound: int) -> bool {
    -bound <= x - y <= bound
}

/// How far a colour may move when stored and read back under `tf`: at most 4 per
/// channel at 16 bits (alpha becoming full or none), and at 32 bits red, green
/// and blue unchanged and alpha within 1.
pub open spec fn within_rounding(read: Color, c: Color, tf: TextureFormat) -> bool {
    if tf.color_depth == 16 {
        &&& near(read.r as int, c.r as int, 4)
        &&& near(read.g as int, c.g as int, 4)
        &&& near(read.b as int, c.b as int, 4)
        &&& read.a == (if c.a == 255 {
            255u8
        } else {
            0u8
        })
    } else {
        &&& read.r == c.r
        &&& read.g == c.g
        &&& read.b == c.b
        &&& near(read.a as int, c.a as int, 1)
    }
}

proof fn lemma_channel_5_round_trip(c: int)
    requires
        0 <= c <= 255,
    ensures
        0 <= quantize5(c) < 32,
        0 <= expand5(quantize5(c)) <= 255,
        near(expand5(quantize5(c)), c, 4),
{
}

proof fn lemma_alpha_round_trip(a: int)
    requires
        0 <= a <= 255,
    ensures
        0 <= quantize_alpha(a) <= 127,
        0 <= expand_alpha(quantize_alpha(a)) <= 255,
        near(expand_alpha(quantize_alpha(a)), a, 1),
{
}

proof fn lemma_color_of_value_16(c: Color)
    ensures
        0 <= value_16(c) < 65536,
        color_of_16(value_16(c)) == requantized(c, TextureFormat {
            size: crate::vec::Vec2 { x: 0, y: 0 },
            color_depth: 16,
            pixel_encoding: 4,
            location: 0,
        }),
{
    let r = quantize5(c.r as int);
    let g = quantize5(c.g as int);
    let b = quantize5(c.b as int);
    let a: int = if c.a == 255 {
        1
    } else {
        0
    };
    lemma_channel_5_round_trip(c.r as int);
    lemma_channel_5_round_trip(c.g as int);
    lemma_channel_5_round_trip(c.b as int);
    let v = value_16(c);
    assert(v == r + 32 * (g + 32 * (b + 32 * a)));
    lemma_fundamental_div_mod_converse(v, 32, g + 32 * (b + 32 * a), r);
    lemma_fundamental_div_mod_converse(v / 32, 32, b + 32 * a, g);
    lemma_fundamental_div_mod_converse(v / 32 / 32, 32, a, b);
    assert(v / 1024 == v / 32 / 32) by {
        lemma_div_denominator(v, 32, 32);
    }
    assert(v / 32768 == v / 1024 / 32) by {
        lemma_div_denominator(v, 1024, 32);
    }
    lemma_fundamental_div_mod_converse(v / 1024, 32, a, b);
}

/// Storing a palette and reading it back gives every colour back at the stored
/// precision, within the rounding of `within_rounding`.
pub proof fn lemma_palette_round_trip(p: Seq<Color>, d: Seq<u8>, tf: TextureFormat)
    requires
        tf.wf(),
        p.len() == tf.palette_len(),
    ensures
        palette_read(written(d, tf.palette_offset(), palette_bytes(p, tf)), tf) == p.map_values(
            |c: Color| requantized(c, tf),
        ),
        forall|i: int|
            0 <= i < p.len() ==> within_rounding(
                #[trigger] palette_read(written(d, tf.palette_offset(), palette_bytes(p, tf)), tf)[i],
                p[i],
                tf,
            ),
{
    let off = tf.palette_offset();
    let bytes = palette_bytes(p, tf);
    let w = written(d, off, bytes);
    let es = tf.entry_size();
    let read = palette_read(w, tf);
    assert forall|i: int| 0 <= i < p.len() implies #[trigger] read[i] == requantized(p[i], tf)
        && within_rounding(read[i], p[i], tf) by {
        let j = stored_index(tf, i);
        lemma_stored_index_range(tf, i);
        let base = off + es * j;
        assert forall|t: int| 0 <= t < es implies #[trigger] w[base + t] == entry_bytes(
            p[i],
            tf,
        )[t] by {
            assert(es * j + t < p.len() * es) by (nonlinear_arith)
                requires
                    0 <= j < p.len(),
                    0 <= t < es,
            ;
            lemma_fundamental_div_mod_converse(es * j + t, es, j, t);
        }
        let c = p[i];
        lemma_channel_5_round_trip(c.r as int);
        lemma_channel_5_round_trip(c.g as int);
        lemma_channel_5_round_trip(c.b as int);
        lemma_alpha_round_trip(c.a as int);
        if tf.color_depth == 16 {
            assert(w[base] == entry_bytes(c, tf)[0]);
            assert(w[base + 1] == entry_bytes(c, tf)[1]);
            lemma_color_of_value_16(c);
            assert(u16_at(w, base) == value_16(c));
        } else {
            assert(w[base] == entry_bytes(c, tf)[0]);
            assert(w[base + 1] == entry_bytes(c, tf)[1]);
            assert(w[base + 2] == entry_bytes(c, tf)[2]);
            assert(w[base + 3] == entry_bytes(c, tf)[3]);
        }
    }
    assert(read =~= p.map_values(|c: Color| requantized(c, tf)));
}

} // verus!
