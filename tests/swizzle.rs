use nights_into_bins::grid::Grid;
use nights_into_bins::texture::convert_8bit::{
    decode, encode, join_by_column_parity, join_by_row_parity, join_horizontally,
    join_vertically, split_by_column_parity, split_by_row_parity, split_horizontally,
    split_vertically, swap_4x4_chunks, swap_middle_quarters,
};

fn plane(rows: usize, cols: usize) -> Grid<u16> {
    let cells: Vec<u16> = (0..rows * cols).map(|i| i as u16).collect();
    Grid::from_row_major(&cells, cols, rows)
}

fn rows_of(g: &Grid<u16>) -> Vec<Vec<u16>> {
    g.rows.clone()
}

// The tile steps written directly on nested vectors, for comparison.
fn ref_split_cols(t: &[Vec<u16>]) -> (Vec<Vec<u16>>, Vec<Vec<u16>>) {
    let even = t.iter().map(|r| r.iter().step_by(2).copied().collect()).collect();
    let odd = t.iter().map(|r| r.iter().skip(1).step_by(2).copied().collect()).collect();
    (even, odd)
}

fn ref_hjoin(a: &[Vec<u16>], b: &[Vec<u16>]) -> Vec<Vec<u16>> {
    a.iter().zip(b).map(|(x, y)| x.iter().chain(y).copied().collect()).collect()
}

fn ref_decode(p: &[Vec<u16>]) -> Vec<Vec<u16>> {
    let rows = p.len();
    let cols = p[0].len();
    let mut out = p.to_vec();
    if cols == 8 {
        return out;
    }
    let tw = cols.min(32);
    for y in (0..rows).step_by(4) {
        for x in (0..cols).step_by(32) {
            let tile: Vec<Vec<u16>> = (0..4).map(|r| out[y + r][x..x + tw].to_vec()).collect();
            let (e, o) = ref_split_cols(&tile);
            let a: Vec<Vec<u16>> = e.into_iter().chain(o).collect();
            let (e, o) = ref_split_cols(&a);
            let b = ref_hjoin(&e, &o);
            let even: Vec<Vec<u16>> = b.iter().step_by(2).cloned().collect();
            let odd: Vec<Vec<u16>> = b.iter().skip(1).step_by(2).cloned().collect();
            let c = ref_hjoin(&even, &odd);
            for r in 0..4 {
                out[y + r][x..x + tw].copy_from_slice(&c[r]);
            }
        }
    }
    let swap = |a: &Vec<Vec<u16>>, columns: usize| {
        let q = columns / 4;
        let mut o = a.clone();
        for y in 0..rows {
            for x in (q..cols).step_by(columns) {
                for x in x..x + q {
                    o[y][x] = a[y][x + q];
                    o[y][x + q] = a[y][x];
                }
            }
        }
        o
    };
    if cols == 16 {
        out = swap(&out, 16);
    } else if cols >= 64 {
        let mut c = 64;
        while c <= cols {
            out = swap(&out, c);
            c *= 2;
        }
    }
    let a = out.clone();
    for y in (2..rows).step_by(8) {
        for y in y..y + 4 {
            for x in (0..cols).step_by(8) {
                for x in x..x + 4 {
                    out[y][x] = a[y][x + 4];
                    out[y][x + 4] = a[y][x];
                }
            }
        }
    }
    out
}

#[test]
fn decode_matches_reference_16() {
    let p = plane(16, 16);
    assert_eq!(rows_of(&decode(&p)), ref_decode(&p.rows));
}

#[test]
fn decode_matches_reference_32() {
    let p = plane(32, 32);
    assert_eq!(rows_of(&decode(&p)), ref_decode(&p.rows));
}

#[test]
fn decode_matches_reference_64() {
    let p = plane(64, 64);
    assert_eq!(rows_of(&decode(&p)), ref_decode(&p.rows));
}

#[test]
fn decode_matches_reference_256x128() {
    let p = plane(128, 256);
    assert_eq!(rows_of(&decode(&p)), ref_decode(&p.rows));
}

#[test]
fn decode_width_8_is_identity() {
    let p = plane(12, 8);
    assert_eq!(rows_of(&decode(&p)), p.rows);
    assert_eq!(rows_of(&encode(&p)), p.rows);
}

#[test]
fn encode_then_decode_gives_plane_back() {
    for &(r, c) in &[(8usize, 16usize), (16, 24), (32, 32), (64, 64), (16, 128)] {
        let p = plane(r, c);
        assert_eq!(rows_of(&decode(&encode(&p))), p.rows);
        assert_eq!(rows_of(&encode(&decode(&p))), p.rows);
    }
}

#[test]
fn decode_moves_cells() {
    let p = plane(32, 32);
    assert_ne!(rows_of(&decode(&p)), p.rows);
}

#[test]
fn decode_16_first_rows() {
    // tile step on the first row of a 16-wide plane
    let p = plane(8, 16);
    let d = decode(&p);
    assert_eq!(d.rows[0], vec![0, 4, 8, 12, 16, 20, 24, 28, 2, 6, 10, 14, 18, 22, 26, 30]);
}

#[test]
fn column_parity_split_and_join() {
    let p = plane(2, 5);
    let (e, o) = split_by_column_parity(&p);
    assert_eq!(e.rows, vec![vec![0, 2, 4], vec![5, 7, 9]]);
    assert_eq!(o.rows, vec![vec![1, 3], vec![6, 8]]);
    assert_eq!(join_by_column_parity(&e, &o).rows, p.rows);
}

#[test]
fn row_parity_split_and_join() {
    let p = plane(5, 2);
    let (e, o) = split_by_row_parity(&p);
    assert_eq!(e.rows, vec![vec![0, 1], vec![4, 5], vec![8, 9]]);
    assert_eq!(o.rows, vec![vec![2, 3], vec![6, 7]]);
    assert_eq!(join_by_row_parity(&e, &o).rows, p.rows);
}

#[test]
fn halves_split_and_join() {
    let p = plane(4, 4);
    let (l, r) = split_vertically(&p);
    assert_eq!(l.rows[1], vec![4, 5]);
    assert_eq!(r.rows[1], vec![6, 7]);
    assert_eq!(join_horizontally(&l, &r).rows, p.rows);
    let (t, b) = split_horizontally(&p);
    assert_eq!(t.rows, vec![vec![0, 1, 2, 3], vec![4, 5, 6, 7]]);
    assert_eq!(b.rows[0], vec![8, 9, 10, 11]);
    assert_eq!(join_vertically(&t, &b).rows, p.rows);
}

#[test]
fn middle_quarters_swap() {
    let p = plane(1, 16);
    let s = swap_middle_quarters(&p, 16);
    assert_eq!(s.rows[0], vec![0, 1, 2, 3, 8, 9, 10, 11, 4, 5, 6, 7, 12, 13, 14, 15]);
}

#[test]
fn blocks_swap() {
    let p = plane(8, 8);
    let s = swap_4x4_chunks(&p);
    assert_eq!(s.rows[0], p.rows[0]);
    assert_eq!(s.rows[2], vec![20, 21, 22, 23, 16, 17, 18, 19]);
    assert_eq!(s.rows[5], vec![44, 45, 46, 47, 40, 41, 42, 43]);
    assert_eq!(s.rows[6], p.rows[6]);
}
