//! The format descriptors of the textures that a container holds.
use crate::cursor::{byte_at, read_u32, read_u8_or_zero, u32_at};
use crate::vec::Vec2;
use vstd::prelude::*;

verus! {

/// Where and how one texture is stored.
#[derive(Clone, Copy, Debug, PartialEq, Eq)]
pub struct TextureFormat {
    /// Width and height in pixels.
    pub size: Vec2<u32>,
    /// Bits per palette entry: 16 or 32.
    pub color_depth: u8,
    /// Bits per pixel index: 4 or 8.
    pub pixel_encoding: u8,
    /// Byte offset of the index plane; the palette follows it.
    pub location: u32,
}

impl TextureFormat {
    /// Bytes taken by the index plane.
    pub open spec fn footprint(self) -> int {
        if self.pixel_encoding == 4 {
            (self.size.x * self.size.y) / 2
        } else {
            self.size.x * self.size.y
        }
    }

    /// Number of palette entries: `2^pixel_encoding`.
    pub open spec fn palette_len(self) -> int {
        if self.pixel_encoding == 4 {
            16
        } else {
            256
        }
    }

    /// Bytes per palette entry.
    pub open spec fn entry_size(self) -> int {
        if self.color_depth == 16 {
            2
        } else {
            4
        }
    }

    /// Byte offset of the palette.
    pub open spec fn palette_offset(self) -> int {
        self.location + self.footprint()
    }

    /// The depths are ones the codecs know, and every offset of the texture's
    /// data fits in 32 bits.
    pub open spec fn wf(self) -> bool {
        &&& self.color_depth == 16 || self.color_depth == 32
        &&& self.pixel_encoding == 4 || self.pixel_encoding == 8
        &&& self.size.x * self.size.y <= u32::MAX
        &&& self.palette_offset() + self.entry_size() * self.palette_len() <= u32::MAX
    }

    /// Byte offset of the palette.
    pub fn palette_start(&self) -> (r: usize)
        requires
            self.wf(),
        ensures
            r == self.palette_offset(),
    {
        let mut footprint = self.size.x * self.size.y;
        if self.pixel_encoding == 4 {
            footprint = footprint / 2;
        }
        (self.location + footprint) as usize
    }
}

/// The 16 bytes that precede the format table.
pub open spec fn table_signature() -> Seq<u8> {
    seq![0x06u8, 0, 0, 0x10, 0, 0, 0, 0, 0, 0, 0, 0, 0, 0, 0, 0]
}

/// The 16 bytes that follow the last record of the format table.
pub open spec fn table_end() -> Seq<u8> {
    seq![0u8, 0, 0, 0x60, 0, 0, 0, 0, 0, 0, 0, 0, 0, 0, 0, 0]
}

/// Up to 16 bytes read at `p`: those that remain, then zeros.
pub open spec fn chunk16(d: Seq<u8>, p: int) -> Seq<u8> {
    Seq::new(16, |i: int| byte_at(d, p + i))
}

/// Position after a read of up to 16 bytes at `p`.
pub open spec fn after_chunk(d: Seq<u8>, p: int) -> int {
    if p >= d.len() {
        p
    } else if p + 16 <= d.len() {
        p + 16
    } else {
        d.len() as int
    }
}

/// Position just after the table signature, scanning 16-byte chunks from `p`;
/// `None` where the data ends first.
pub open spec fn table_start(d: Seq<u8>, p: int) -> Option<int>
    decreases d.len() - p,
{
    if p < 0 || p >= d.len() {
        None
    } else if chunk16(d, p) == table_signature() {
        Some(after_chunk(d, p))
    } else {
        table_start(d, after_chunk(d, p))
    }
}

/// The format described by the record at `p` whose stored size is `x` by `y`,
/// before its location is known: the size is doubled when the flag byte at
/// `p + 0x17` is 0 (the height once more for 4-bit textures), the colour depth
/// is 32 when the byte at `p + 0x97` is 0 and 16 otherwise, and the pixel
/// encoding 4 when the byte at `p + 0xE0` is 2 and 8 otherwise.
pub open spec fn record_format(d: Seq<u8>, p: int, x: int, y: int) -> TextureFormat {
    let double = d[p + 0x17] == 0;
    let pe: u8 = if d[p + 0xE0] == 2 {
        4
    } else {
        8
    };
    let w = if double {
        2 * x
    } else {
        x
    };
    let h = if double && pe == 4 {
        4 * y
    } else if double {
        2 * y
    } else {
        y
    };
    TextureFormat {
        size: Vec2 { x: w as u32, y: h as u32 },
        color_depth: if d[p + 0x97] == 0 {
            32
        } else {
            16
        },
        pixel_encoding: pe,
        location: 0,
    }
}

/// The records of the table from `p` on and the position after them; `None`
/// where the data ends inside a record. A record whose stored size exceeds 512
/// ends the table without being part of it.
pub open spec fn table_records(d: Seq<u8>, p: int) -> Option<(Seq<TextureFormat>, int)>
    decreases d.len() - p,
{
    if p < 0 || p + 0x38 > d.len() {
        None
    } else {
        let x = u32_at(d, p + 0x30);
        let y = u32_at(d, p + 0x34);
        if x > 512 || y > 512 {
            Some((Seq::empty(), p + 0x38))
        } else if p + 0xE0 >= d.len() {
            None
        } else {
            let tf = record_format(d, p, x, y);
            let f = p + 0xF0;
            let next = after_chunk(d, f);
            if chunk16(d, f) == table_end() {
                Some((seq![tf], next))
            } else if f >= d.len() {
                None
            } else {
                match table_records(d, next) {
                    None => None,
                    Some((rest, e)) => Some((seq![tf] + rest, e)),
                }
            }
        }
    }
}

/// Bytes between the start of one texture's data and the next: the index
/// plane, the palette, and slack.
pub open spec fn stride(tf: TextureFormat) -> int {
    if tf.color_depth == 16 {
        if tf.pixel_encoding == 4 {
            tf.size.x * tf.size.y / 2 + 0x20
        } else {
            tf.size.x * tf.size.y + 0x200
        }
    } else {
        tf.size.x * tf.size.y + 0x400
    }
}

/// The first 0x100-aligned offset after `end` (a whole 0x100 further when
/// `end` is already aligned).
pub open spec fn first_location(end: int) -> int {
    0x100 - end % 0x100 + end
}

/// `recs` with locations assigned from `start` on, each texture placed `stride`
/// bytes after the previous one.
pub open spec fn located(recs: Seq<TextureFormat>, start: int) -> Seq<TextureFormat>
    decreases recs.len(),
{
    if recs.len() == 0 {
        Seq::empty()
    } else {
        seq![TextureFormat { location: start as u32, ..recs[0] }] + located(
            recs.drop_first(),
            start + stride(recs[0]),
        )
    }
}

/// Every location assigned from `start` on stays within 32 bits, with room for
/// the texture's data.
pub open spec fn locations_fit(recs: Seq<TextureFormat>, start: int) -> bool
    decreases recs.len(),
{
    recs.len() == 0 || (start + stride(recs[0]) <= u32::MAX && locations_fit(
        recs.drop_first(),
        start + stride(recs[0]),
    ))
}

/// The format table of `d`: its records placed from the first 0x100-aligned
/// offset after the table.
pub open spec fn formats_of(d: Seq<u8>) -> Result<Seq<TextureFormat>, FormatError> {
    match table_start(d, 0) {
        None => Err(FormatError::UnexpectedEof),
        Some(s) => match table_records(d, s) {
            None => Err(FormatError::UnexpectedEof),
            Some((recs, e)) => if locations_fit(recs, first_location(e)) {
                Ok(located(recs, first_location(e)))
            } else {
                Err(FormatError::TooLarge)
            },
        },
    }
}

proof fn lemma_located_wf(recs: Seq<TextureFormat>, start: int)
    requires
        start >= 0,
        locations_fit(recs, start),
        forall|k: int|
            0 <= k < recs.len() ==> (#[trigger] recs[k]).size.x <= 1024 && recs[k].size.y <= 2048
                && (recs[k].color_depth == 16 || recs[k].color_depth == 32) && (
            recs[k].pixel_encoding == 4 || recs[k].pixel_encoding == 8),
    ensures
        forall|i: int| 0 <= i < recs.len() ==> (#[trigger] located(recs, start)[i]).wf(),
        located(recs, start).len() == recs.len(),
    decreases recs.len(),
{
    if recs.len() > 0 {
        let t = recs[0];
        assert(t.size.x * t.size.y <= 1024 * 2048) by (nonlinear_arith)
            requires
                t.size.x <= 1024,
                t.size.y <= 2048,
        ;
        let rest = recs.drop_first();
        assert forall|k: int| 0 <= k < rest.len() implies #[trigger] rest[k] == recs[k + 1] by {}
        lemma_located_wf(rest, start + stride(t));
        let l = located(recs, start);
        assert forall|i: int| 0 <= i < recs.len() implies (#[trigger] l[i]).wf() by {
            if i > 0 {
                assert(l[i] == located(rest, start + stride(t))[i - 1]);
            }
        }
    }
}

/// Why the format table could not be read.
#[derive(Clone, Copy, Debug, PartialEq, Eq, Structural)]
pub enum FormatError {
    /// The data ended before the table did.
    UnexpectedEof,
    /// A texture's location does not fit in 32 bits.
    TooLarge,
    /// A texture's index plane has a shape that cannot be read.
    UnsupportedShape,
}

/// The format table of a container.
pub struct TextureFormats(pub Vec<TextureFormat>);

proof fn lemma_record_ok(d: Seq<u8>, p: int)
    requires
        p >= 0,
        p + 0xE0 < d.len(),
        u32_at(d, p + 0x30) <= 512,
        u32_at(d, p + 0x34) <= 512,
    ensures
        ({
            let tf = record_format(d, p, u32_at(d, p + 0x30), u32_at(d, p + 0x34));
            &&& tf.size.x <= 1024
            &&& tf.size.y <= 2048
            &&& tf.color_depth == 16 || tf.color_depth == 32
            &&& tf.pixel_encoding == 4 || tf.pixel_encoding == 8
        }),
{
}

fn chunk_equals(d: &[u8], p: usize, expected: &[u8; 16]) -> (r: bool)
    ensures
        r == (chunk16(d@, p as int) == expected@),
{
    let mut i: usize = 0;
    while i < 16
        invariant
            i <= 16,
            expected@.len() == 16,
            forall|k: int| 0 <= k < i ==> byte_at(d@, p + k) == expected@[k],
        decreases 16 - i,
    {
        let b = if p < d.len() && i < d.len() - p {
            d[p + i]
        } else {
            0
        };
        if b != expected[i] {
            assert(chunk16(d@, p as int)[i as int] != expected@[i as int]);
            return false;
        }
        i = i + 1;
    }
    assert(chunk16(d@, p as int) =~= expected@);
    true
}

fn after_chunk_exec(d: &[u8], p: usize) -> (r: usize)
    ensures
        r == after_chunk(d@, p as int),
{
    if p >= d.len() {
        p
    } else if d.len() - p >= 16 {
        p + 16
    } else {
        d.len()
    }
}

impl TextureFormats {
    /// Reads the format table of a container: scans 16-byte chunks for the table
    /// signature, reads records until the end marker (or a record of oversized
    /// stored size), and places the textures one after the other from the first
    /// 0x100-aligned offset after the table.
    pub fn read(data: &[u8]) -> (r: Result<Self, FormatError>)
        requires
            data@.len() <= 0xFFFF_0000,
        ensures
            match formats_of(data@) {
                Ok(s) => r matches Ok(t) && t.0@ == s,
                Err(e) => r == Err::<Self, FormatError>(e),
            },
            r matches Ok(t) ==> forall|i: int| 0 <= i < t.0@.len() ==> (#[trigger] t.0@[i]).wf(),
    {
        let signature: [u8; 16] = [0x06, 0, 0, 0x10, 0, 0, 0, 0, 0, 0, 0, 0, 0, 0, 0, 0];
        let end_marker: [u8; 16] = [0, 0, 0, 0x60, 0, 0, 0, 0, 0, 0, 0, 0, 0, 0, 0, 0];
        assert(signature@ =~= table_signature());
        assert(end_marker@ =~= table_end());
        // find the table signature
        let mut p: usize = 0;
        loop
            invariant_except_break
                p <= data@.len(),
                signature@ == table_signature(),
                table_start(data@, 0) == table_start(data@, p as int),
            ensures
                p <= data@.len(),
                table_start(data@, 0) == Some(p as int),
            decreases data@.len() - p,
        {
            if p >= data.len() {
                return Err(FormatError::UnexpectedEof);
            }
            let found = chunk_equals(data, p, &signature);
            p = after_chunk_exec(data, p);
            if found {
                break;
            }
        }
        let ghost start = p as int;
        // read records
        let mut recs: Vec<TextureFormat> = Vec::new();
        assert(recs@ =~= Seq::<TextureFormat>::empty());
        assert(table_records(data@, start) == (match table_records(data@, p as int) {
            None => None,
            Some((rest, e)) => Some((recs@ + rest, e)),
        })) by {
            match table_records(data@, p as int) {
                None => {},
                Some((rest, e)) => {
                    assert(recs@ + rest =~= rest);
                },
            }
        }
        loop
            invariant_except_break
                p <= data@.len(),
                data@.len() <= 0xFFFF_0000,
                end_marker@ == table_end(),
                table_start(data@, 0) == Some(start),
                table_records(data@, start) == (match table_records(data@, p as int) {
                    None => None,
                    Some((rest, e)) => Some((recs@ + rest, e)),
                }),
                forall|i: int|
                    0 <= i < recs@.len() ==> (#[trigger] recs@[i]).size.x <= 1024
                        && recs@[i].size.y <= 2048 && (recs@[i].color_depth == 16
                        || recs@[i].color_depth == 32) && (recs@[i].pixel_encoding == 4
                        || recs@[i].pixel_encoding == 8),
            ensures
                p <= data@.len(),
                table_records(data@, start) == Some((recs@, p as int)),
                forall|i: int|
                    0 <= i < recs@.len() ==> (#[trigger] recs@[i]).size.x <= 1024
                        && recs@[i].size.y <= 2048 && (recs@[i].color_depth == 16
                        || recs@[i].color_depth == 32) && (recs@[i].pixel_encoding == 4
                        || recs@[i].pixel_encoding == 8),
            decreases data@.len() - p,
        {
            if data.len() < 0x38 || p > data.len() - 0x38 {
                return Err(FormatError::UnexpectedEof);
            }
            let x = read_u32(data, p + 0x30);
            let y = read_u32(data, p + 0x34);
            if x > 512 || y > 512 {
                assert(recs@ + Seq::<TextureFormat>::empty() =~= recs@);
                p = p + 0x38;
                break;
            }
            if p + 0xE0 >= data.len() {
                return Err(FormatError::UnexpectedEof);
            }
            let double = data[p + 0x17] == 0;
            let pe: u8 = if data[p + 0xE0] == 2 {
                4
            } else {
                8
            };
            let cd: u8 = if data[p + 0x97] == 0 {
                32
            } else {
                16
            };
            let mut size = Vec2 { x, y };
            if double {
                size = size.mul(2);
            }
            if pe == 4 && double {
                size.y = size.y * 2;
            }
            let tf = TextureFormat { size, color_depth: cd, pixel_encoding: pe, location: 0 };
            proof {
                lemma_record_ok(data@, p as int);
                assert(tf == record_format(data@, p as int, x as int, y as int));
            }
            let ghost before = recs@;
            recs.push(tf);
            let f = p + 0xF0;
            let last = chunk_equals(data, f, &end_marker);
            p = after_chunk_exec(data, f);
            if last {
                assert(before + seq![tf] =~= recs@);
                break;
            }
            if f >= data.len() {
                return Err(FormatError::UnexpectedEof);
            }
            proof {
                match table_records(data@, p as int) {
                    None => {},
                    Some((rest, e)) => {
                        assert(before + (seq![tf] + rest) =~= recs@ + rest);
                    },
                }
            }
        }
        // place the textures after the table, 0x100-aligned
        let e = p as u32;
        let first = (0x100 - (e % 0x100)) + e;
        assert(first == first_location(p as int));
        assert(table_records(data@, start) == Some((recs@, p as int)));
        let ghost all = recs@;
        let mut out: Vec<TextureFormat> = Vec::new();
        assert(all.subrange(0, all.len() as int) =~= all);
        assert(out@ + located(all, first as int) =~= located(all, first as int));
        let mut loc: u32 = first;
        let mut i: usize = 0;
        while i < recs.len()
            invariant
                all == recs@,
                table_start(data@, 0) == Some(start),
                table_records(data@, start) == Some((all, p as int)),
                first == first_location(p as int),
                i <= all.len(),
                forall|k: int|
                    0 <= k < all.len() ==> (#[trigger] all[k]).size.x <= 1024 && all[k].size.y
                        <= 2048 && (all[k].color_depth == 16 || all[k].color_depth == 32) && (
                        all[k].pixel_encoding == 4 || all[k].pixel_encoding == 8),
                located(all, first as int) == out@ + located(
                    all.subrange(i as int, all.len() as int),
                    loc as int,
                ),
                locations_fit(all, first as int) == locations_fit(
                    all.subrange(i as int, all.len() as int),
                    loc as int,
                ),
            decreases all.len() - i,
        {
            let tf = recs[i];
            let ghost rest = all.subrange(i as int, all.len() as int);
            assert(rest[0] == tf);
            assert(rest.drop_first() =~= all.subrange(i + 1, all.len() as int));
            assert(tf.size.x * tf.size.y <= 1024 * 2048) by (nonlinear_arith)
                requires
                    tf.size.x <= 1024,
                    tf.size.y <= 2048,
            ;
            let area = tf.size.x * tf.size.y;
            let step = if tf.color_depth == 16 {
                if tf.pixel_encoding == 4 {
                    area / 2 + 0x20
                } else {
                    area + 0x200
                }
            } else {
                area + 0x400
            };
            assert(step == stride(tf));
            if step > u32::MAX - loc {
                assert(!locations_fit(rest, loc as int));
                return Err(FormatError::TooLarge);
            }
            let placed = TextureFormat { location: loc, ..tf };
            assert(located(rest, loc as int) == seq![placed] + located(
                rest.drop_first(),
                loc + stride(tf),
            ));
            out.push(placed);
            assert(out@ + located(rest.drop_first(), loc + stride(tf)) =~= located(
                all,
                first as int,
            ));
            loc = loc + step;
            i = i + 1;
        }
        proof {
            assert(all.subrange(all.len() as int, all.len() as int) =~= Seq::<TextureFormat>::empty());
            assert(out@ + Seq::<TextureFormat>::empty() =~= out@);
            lemma_located_wf(all, first as int);
        }
        Ok(TextureFormats(out))
    }
}

} // verus!
