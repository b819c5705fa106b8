//! Gradient palettes and index planes with one index per pixel, for looking at
//! the tiling transforms.
use crate::grid::Grid;
use crate::texture::palette::Palette;
use crate::texture::palette_texture::PaletteTexture;
use crate::texture::Color;
use vstd::prelude::*;

verus! {

/// The gradient patterns, by number of colours and plane size.
#[derive(Clone, Copy, Debug, PartialEq, Eq, Structural)]
pub enum Test {
    _4096Colors64x64,
    _16384Colors128x128,
    _65536Colors256x256,
    _1024Colors32x32,
    _256Colors16x16,
    _2048Colors32x64,
}

/// Rows and columns of the pattern, and the channel steps per row and per
/// column.
pub open spec fn shape(t: Test) -> (int, int, int, int) {
    match t {
        Test::_4096Colors64x64 => (64, 64, 4, 4),
        Test::_16384Colors128x128 => (128, 128, 2, 2),
        Test::_65536Colors256x256 => (256, 256, 1, 1),
        Test::_1024Colors32x32 => (32, 32, 8, 8),
        Test::_256Colors16x16 => (16, 16, 16, 16),
        Test::_2048Colors32x64 => (64, 32, 4, 8),
    }
}

fn shape_exec(t: Test) -> (r: (usize, usize, usize, usize))
    ensures
        (r.0 as int, r.1 as int, r.2 as int, r.3 as int) == shape(t),
{
    match t {
        Test::_4096Colors64x64 => (64, 64, 4, 4),
        Test::_16384Colors128x128 => (128, 128, 2, 2),
        Test::_65536Colors256x256 => (256, 256, 1, 1),
        Test::_1024Colors32x32 => (32, 32, 8, 8),
        Test::_256Colors16x16 => (16, 16, 16, 16),
        Test::_2048Colors32x64 => (64, 32, 4, 8),
    }
}

/// A palette with one colour per pixel of the pattern: entry `row * cols + col`
/// has red and blue `row * row_step`, green `col * col_step`, and full alpha.
pub fn palette(test_type: Test) -> (r: Palette)
    ensures
        ({
            let (rows, cols, rs, cs) = shape(test_type);
            &&& r.0@.len() == rows * cols
            &&& forall|row: int, col: int|
                0 <= row < rows && 0 <= col < cols ==> #[trigger] r.0@[row * cols + col] == (Color {
                    r: (row * rs) as u8,
                    g: (col * cs) as u8,
                    b: (row * rs) as u8,
                    a: 0xFF,
                })
        }),
{
    let (rows, cols, rs, cs) = shape_exec(test_type);
    let mut colors: Vec<Color> = Vec::new();
    let mut row: usize = 0;
    while row < rows
        invariant
            (rows as int, cols as int, rs as int, cs as int) == shape(test_type),
            row <= rows,
            colors@.len() == row * cols,
            forall|i: int, c: int|
                0 <= i < row && 0 <= c < cols ==> #[trigger] colors@[i * cols + c] == (Color {
                    r: (i * rs) as u8,
                    g: (c * cs) as u8,
                    b: (i * rs) as u8,
                    a: 0xFF,
                }),
        decreases rows - row,
    {
        let ghost before = colors@;
        let mut col: usize = 0;
        while col < cols
            invariant
                (rows as int, cols as int, rs as int, cs as int) == shape(test_type),
                row < rows,
                col <= cols,
                before.len() == row * cols,
                colors@.len() == row * cols + col,
                forall|k: int| 0 <= k < before.len() ==> colors@[k] == before[k],
                forall|c: int|
                    0 <= c < col ==> #[trigger] colors@[row * cols + c] == (Color {
                        r: (row * rs) as u8,
                        g: (c * cs) as u8,
                        b: (row * rs) as u8,
                        a: 0xFF,
                    }),
            decreases cols - col,
        {
            assert(row * rs < 256) by (nonlinear_arith)
                requires
                    row < rows,
                    (rows as int, cols as int, rs as int, cs as int) == shape(test_type),
            ;
            assert(col * cs < 256) by (nonlinear_arith)
                requires
                    col < cols,
                    (rows as int, cols as int, rs as int, cs as int) == shape(test_type),
            ;
            colors.push(
                Color {
                    r: (row * rs) as u8,
                    g: (col * cs) as u8,
                    b: (row * rs) as u8,
                    a: 0xFF,
                },
            );
            col = col + 1;
        }
        proof {
            assert forall|i: int, c: int|
                0 <= i < row + 1 && 0 <= c < cols implies #[trigger] colors@[i * cols + c] == (Color {
                r: (i * rs) as u8,
                g: (c * cs) as u8,
                b: (i * rs) as u8,
                a: 0xFF,
            }) by {
                if i < row {
                    assert(i * cols + c < row * cols) by (nonlinear_arith)
                        requires
                            i < row,
                            c < cols,
                    ;
                    assert(colors@[i * cols + c] == before[i * cols + c]);
                }
            }
            assert((row + 1) * cols == row * cols + cols) by (nonlinear_arith);
        }
        row = row + 1;
    }
    Palette(colors)
}

/// An index plane of the pattern's shape whose pixel `(row, col)` holds
/// `row * cols + col`.
pub fn texture(test_type: Test) -> (r: PaletteTexture)
    ensures
        ({
            let (rows, cols, rs, cs) = shape(test_type);
            &&& r.0.wf()
            &&& r.0.width == cols
            &&& r.0@.len() == rows
            &&& forall|row: int, col: int|
                0 <= row < rows && 0 <= col < cols ==> #[trigger] r.0@[row][col] == (row * cols
                    + col) as u16
        }),
{
    let (rows, cols, _rs, _cs) = shape_exec(test_type);
    let mut plane: Vec<Vec<u16>> = Vec::new();
    let mut row: usize = 0;
    while row < rows
        invariant
            (rows as int, cols as int, _rs as int, _cs as int) == shape(test_type),
            row <= rows,
            plane@.len() == row,
            forall|i: int| 0 <= i < row ==> (#[trigger] plane@[i])@.len() == cols,
            forall|i: int, c: int|
                0 <= i < row && 0 <= c < cols ==> #[trigger] plane@[i]@[c] == (i * cols + c) as u16,
        decreases rows - row,
    {
        let mut line: Vec<u16> = Vec::new();
        let mut col: usize = 0;
        while col < cols
            invariant
                (rows as int, cols as int, _rs as int, _cs as int) == shape(test_type),
                row < rows,
                col <= cols,
                line@.len() == col,
                forall|c: int| 0 <= c < col ==> #[trigger] line@[c] == (row * cols + c) as u16,
            decreases cols - col,
        {
            assert(row * cols + col < 65536) by (nonlinear_arith)
                requires
                    row < rows,
                    col < cols,
                    (rows as int, cols as int, _rs as int, _cs as int) == shape(test_type),
            ;
            line.push((row * cols + col) as u16);
            col = col + 1;
        }
        plane.push(line);
        row = row + 1;
    }
    let g = Grid { width: cols, rows: plane };
    assert(g.wf());
    PaletteTexture(g)
}

} // verus!
