//! The tiling transform of 8-bit index planes, built from a handful of
//! reversible reshaping steps.
use crate::grid::{rect, Grid};
use vstd::arithmetic::div_mod::{
    lemma_fundamental_div_mod, lemma_fundamental_div_mod_converse, lemma_mod_multiples_basic,
    lemma_mod_self_0,
};
use vstd::prelude::*;

verus! {

// ---------------------------------------------------------------------------
// Reshaping steps, as functions on rows of cells.
/// Columns `par`, `par + 2`, `par + 4`, ... of a grid of width `w`.
pub open spec fn cols_of_parity<T>(s: Seq<Seq<T>>, w: int, par: int) -> Seq<Seq<T>> {
    Seq::new(s.len(), |r: int| Seq::new(((w + 1 - par) / 2) as nat, |c: int| s[r][2 * c + par]))
}

/// Interleaves the columns of `e` (even positions) and `o` (odd positions) into
/// rows of width `w`.
pub open spec fn interleave_cols<T>(e: Seq<Seq<T>>, o: Seq<Seq<T>>, w: int) -> Seq<Seq<T>> {
    Seq::new(
        e.len(),
        |r: int| Seq::new(w as nat, |c: int| if c % 2 == 0 { e[r][c / 2] } else { o[r][c / 2] }),
    )
}

/// Rows `par`, `par + 2`, `par + 4`, ... of `s`.
pub open spec fn rows_of_parity<T>(s: Seq<Seq<T>>, par: int) -> Seq<Seq<T>> {
    Seq::new(((s.len() + 1 - par) / 2) as nat, |r: int| s[2 * r + par])
}

/// Interleaves the rows of `e` (even positions) and `o` (odd positions).
pub open spec fn interleave_rows<T>(e: Seq<Seq<T>>, o: Seq<Seq<T>>) -> Seq<Seq<T>> {
    Seq::new(e.len() + o.len(), |r: int| if r % 2 == 0 { e[r / 2] } else { o[r / 2] })
}

/// `l` and `r` placed side by side: each row of `l` followed by the same row of `r`.
pub open spec fn side_by_side<T>(l: Seq<Seq<T>>, r: Seq<Seq<T>>) -> Seq<Seq<T>> {
    Seq::new(l.len(), |i: int| l[i] + r[i])
}

/// The first `w / 2` columns of a grid of width `w`.
pub open spec fn left_half<T>(s: Seq<Seq<T>>, w: int) -> Seq<Seq<T>> {
    Seq::new(s.len(), |i: int| s[i].subrange(0, w / 2))
}

/// The columns from `w / 2` on of a grid of width `w`.
pub open spec fn right_half<T>(s: Seq<Seq<T>>, w: int) -> Seq<Seq<T>> {
    Seq::new(s.len(), |i: int| s[i].subrange(w / 2, w))
}

/// The first half of the rows (rounded down).
pub open spec fn top_half<T>(s: Seq<Seq<T>>) -> Seq<Seq<T>> {
    s.subrange(0, s.len() as int / 2)
}

/// The rows after the first half.
pub open spec fn bottom_half<T>(s: Seq<Seq<T>>) -> Seq<Seq<T>> {
    s.subrange(s.len() as int / 2, s.len() as int)
}

fn copy_row<T: Copy>(row: &Vec<T>) -> (r: Vec<T>)
    ensures
        r@ == row@,
{
    let mut out: Vec<T> = Vec::new();
    let mut i: usize = 0;
    while i < row.len()
        invariant
            i <= row@.len(),
            out@ == row@.subrange(0, i as int),
        decreases row@.len() - i,
    {
        out.push(row[i]);
        i = i + 1;
        assert(out@ =~= row@.subrange(0, i as int));
    }
    assert(out@ =~= row@);
    out
}

fn pick_columns<T: Copy>(g: &Grid<T>, par: usize) -> (r: Grid<T>)
    requires
        g.wf(),
        par <= 1,
    ensures
        r.wf(),
        r.width == (g.width + 1 - par) / 2,
        r@ == cols_of_parity(g@, g.width as int, par as int),
{
    let ow = if par == 0 { g.width / 2 + g.width % 2 } else { g.width / 2 };
    let mut rows: Vec<Vec<T>> = Vec::new();
    let mut y: usize = 0;
    while y < g.rows.len()
        invariant
            g.wf(),
            par <= 1,
            ow == (g.width + 1 - par) / 2,
            y <= g@.len(),
            rows@.len() == y,
            forall|i: int|
                0 <= i < y ==> #[trigger] rows@[i]@ == cols_of_parity(
                    g@,
                    g.width as int,
                    par as int,
                )[i],
        decreases g@.len() - y,
    {
        let mut row: Vec<T> = Vec::new();
        let mut c: usize = 0;
        assert(g@[y as int].len() == g.width);
        while c < ow
            invariant
                g.wf(),
                y < g@.len(),
                par <= 1,
                ow == (g.width + 1 - par) / 2,
                c <= ow,
                row@.len() == c,
                forall|k: int| 0 <= k < c ==> #[trigger] row@[k] == g@[y as int][2 * k + par],
            decreases ow - c,
        {
            assert(g@[y as int].len() == g.width);
            row.push(g.rows[y][2 * c + par]);
            c = c + 1;
        }
        assert(row@ =~= cols_of_parity(g@, g.width as int, par as int)[y as int]);
        rows.push(row);
        y = y + 1;
    }
    let r = Grid { width: ow, rows };
    assert(r@ =~= cols_of_parity(g@, g.width as int, par as int));
    r
}

/// Splits the columns by parity: `(even columns, odd columns)`.
pub fn split_by_column_parity<T: Copy>(array: &Grid<T>) -> (r: (Grid<T>, Grid<T>))
    requires
        array.wf(),
    ensures
        r.0.wf(),
        r.1.wf(),
        r.0.width == (array.width + 1) / 2,
        r.1.width == array.width / 2,
        r.0@ == cols_of_parity(array@, array.width as int, 0),
        r.1@ == cols_of_parity(array@, array.width as int, 1),
{
    (pick_columns(array, 0), pick_columns(array, 1))
}

/// Interleaves columns: those of `even` land on even positions, those of `odd`
/// on odd positions.
pub fn join_by_column_parity<T: Copy>(even: &Grid<T>, odd: &Grid<T>) -> (r: Grid<T>)
    requires
        even.wf(),
        odd.wf(),
        even@.len() == odd@.len(),
        even.width == odd.width || even.width == odd.width + 1,
        even.width + odd.width <= usize::MAX,
    ensures
        r.wf(),
        r.width == even.width + odd.width,
        r@ == interleave_cols(even@, odd@, r.width as int),
{
    let w = even.width + odd.width;
    let mut rows: Vec<Vec<T>> = Vec::new();
    let mut y: usize = 0;
    while y < even.rows.len()
        invariant
            even.wf(),
            odd.wf(),
            even@.len() == odd@.len(),
            even.width == odd.width || even.width == odd.width + 1,
            w == even.width + odd.width,
            y <= even@.len(),
            rows@.len() == y,
            forall|i: int|
                0 <= i < y ==> #[trigger] rows@[i]@ == interleave_cols(even@, odd@, w as int)[i],
        decreases even@.len() - y,
    {
        let mut row: Vec<T> = Vec::new();
        let mut c: usize = 0;
        while c < w
            invariant
                even.wf(),
                odd.wf(),
                even@.len() == odd@.len(),
                even.width == odd.width || even.width == odd.width + 1,
                w == even.width + odd.width,
                y < even@.len(),
                c <= w,
                row@.len() == c,
                forall|k: int|
                    0 <= k < c ==> #[trigger] row@[k] == (if k % 2 == 0 {
                        even@[y as int][k / 2]
                    } else {
                        odd@[y as int][k / 2]
                    }),
            decreases w - c,
        {
            assert(even@[y as int].len() == even.width);
            assert(odd@[y as int].len() == odd.width);
            if c % 2 == 0 {
                row.push(even.rows[y][c / 2]);
            } else {
                row.push(odd.rows[y][c / 2]);
            }
            c = c + 1;
        }
        assert(row@ =~= interleave_cols(even@, odd@, w as int)[y as int]);
        rows.push(row);
        y = y + 1;
    }
    let r = Grid { width: w, rows };
    assert(r@ =~= interleave_cols(even@, odd@, w as int));
    r
}

fn pick_rows<T: Copy>(g: &Grid<T>, par: usize) -> (r: Grid<T>)
    requires
        g.wf(),
        par <= 1,
    ensures
        r.wf(),
        r.width == g.width,
        r@ == rows_of_parity(g@, par as int),
{
    let n = if par == 0 { g.rows.len() / 2 + g.rows.len() % 2 } else { g.rows.len() / 2 };
    let mut rows: Vec<Vec<T>> = Vec::new();
    let mut y: usize = 0;
    while y < n
        invariant
            g.wf(),
            par <= 1,
            n == (g@.len() + 1 - par as int) / 2,
            2 * n + par <= g.rows@.len() + 1,
            g.rows@.len() <= usize::MAX,
            y <= n,
            rows@.len() == y,
            forall|i: int| 0 <= i < y ==> #[trigger] rows@[i]@ == g@[2 * i + par],
        decreases n - y,
    {
        rows.push(copy_row(&g.rows[2 * y + par]));
        y = y + 1;
    }
    let r = Grid { width: g.width, rows };
    assert(r@ =~= rows_of_parity(g@, par as int));
    r
}

/// Splits the rows by parity: `(even rows, odd rows)`.
pub fn split_by_row_parity<T: Copy>(array: &Grid<T>) -> (r: (Grid<T>, Grid<T>))
    requires
        array.wf(),
    ensures
        r.0.wf(),
        r.1.wf(),
        r.0.width == array.width,
        r.1.width == array.width,
        r.0@ == rows_of_parity(array@, 0),
        r.1@ == rows_of_parity(array@, 1),
{
    (pick_rows(array, 0), pick_rows(array, 1))
}

/// Interleaves rows: those of `even` land on even positions, those of `odd` on
/// odd positions.
pub fn join_by_row_parity<T: Copy>(even: &Grid<T>, odd: &Grid<T>) -> (r: Grid<T>)
    requires
        even.wf(),
        odd.wf(),
        even.width == odd.width,
        even@.len() == odd@.len() || even@.len() == odd@.len() + 1,
        even@.len() + odd@.len() <= usize::MAX,
    ensures
        r.wf(),
        r.width == even.width,
        r@ == interleave_rows(even@, odd@),
{
    let n = even.rows.len() + odd.rows.len();
    let mut rows: Vec<Vec<T>> = Vec::new();
    let mut y: usize = 0;
    while y < n
        invariant
            even.wf(),
            odd.wf(),
            even.width == odd.width,
            even@.len() == odd@.len() || even@.len() == odd@.len() + 1,
            n == even@.len() + odd@.len(),
            y <= n,
            rows@.len() == y,
            forall|i: int| 0 <= i < y ==> #[trigger] rows@[i]@ == interleave_rows(even@, odd@)[i],
        decreases n - y,
    {
        if y % 2 == 0 {
            rows.push(copy_row(&even.rows[y / 2]));
        } else {
            rows.push(copy_row(&odd.rows[y / 2]));
        }
        y = y + 1;
    }
    let r = Grid { width: even.width, rows };
    assert(r@ =~= interleave_rows(even@, odd@));
    r
}

fn slice_row<T: Copy>(row: &Vec<T>, lo: usize, hi: usize) -> (r: Vec<T>)
    requires
        lo <= hi <= row@.len(),
    ensures
        r@ == row@.subrange(lo as int, hi as int),
{
    let mut out: Vec<T> = Vec::new();
    let mut i: usize = lo;
    while i < hi
        invariant
            lo <= i <= hi <= row@.len(),
            out@ == row@.subrange(lo as int, i as int),
        decreases hi - i,
    {
        out.push(row[i]);
        i = i + 1;
        assert(out@ =~= row@.subrange(lo as int, i as int));
    }
    out
}

/// Places `rhs` to the right of `lhs`.
pub fn join_horizontally<T: Copy>(lhs: &Grid<T>, rhs: &Grid<T>) -> (r: Grid<T>)
    requires
        lhs.wf(),
        rhs.wf(),
        lhs@.len() == rhs@.len(),
        lhs.width + rhs.width <= usize::MAX,
    ensures
        r.wf(),
        r.width == lhs.width + rhs.width,
        r@ == side_by_side(lhs@, rhs@),
{
    let mut rows: Vec<Vec<T>> = Vec::new();
    let mut y: usize = 0;
    while y < lhs.rows.len()
        invariant
            lhs.wf(),
            rhs.wf(),
            lhs@.len() == rhs@.len(),
            y <= lhs@.len(),
            rows@.len() == y,
            forall|i: int| 0 <= i < y ==> #[trigger] rows@[i]@ == lhs@[i] + rhs@[i],
        decreases lhs@.len() - y,
    {
        let mut row = copy_row(&lhs.rows[y]);
        let mut tail = copy_row(&rhs.rows[y]);
        row.append(&mut tail);
        rows.push(row);
        y = y + 1;
    }
    let r = Grid { width: lhs.width + rhs.width, rows };
    assert(r@ =~= side_by_side(lhs@, rhs@));
    r
}

/// Splits at column `width / 2`: `(left, right)`.
pub fn split_vertically<T: Copy>(array: &Grid<T>) -> (r: (Grid<T>, Grid<T>))
    requires
        array.wf(),
    ensures
        r.0.wf(),
        r.1.wf(),
        r.0.width == array.width / 2,
        r.1.width == array.width - array.width / 2,
        r.0@ == left_half(array@, array.width as int),
        r.1@ == right_half(array@, array.width as int),
{
    let half = array.width / 2;
    let mut left: Vec<Vec<T>> = Vec::new();
    let mut right: Vec<Vec<T>> = Vec::new();
    let mut y: usize = 0;
    while y < array.rows.len()
        invariant
            array.wf(),
            half == array.width / 2,
            y <= array@.len(),
            left@.len() == y,
            right@.len() == y,
            forall|i: int| 0 <= i < y ==> #[trigger] left@[i]@ == array@[i].subrange(0, half as int),
            forall|i: int|
                0 <= i < y ==> #[trigger] right@[i]@ == array@[i].subrange(
                    half as int,
                    array.width as int,
                ),
        decreases array@.len() - y,
    {
        assert(array@[y as int].len() == array.width);
        left.push(slice_row(&array.rows[y], 0, half));
        right.push(slice_row(&array.rows[y], half, array.width));
        y = y + 1;
    }
    let l = Grid { width: half, rows: left };
    let r = Grid { width: array.width - half, rows: right };
    assert(l@ =~= left_half(array@, array.width as int));
    assert(r@ =~= right_half(array@, array.width as int));
    (l, r)
}

/// Places `bottom` below `top`.
pub fn join_vertically<T: Copy>(top: &Grid<T>, bottom: &Grid<T>) -> (r: Grid<T>)
    requires
        top.wf(),
        bottom.wf(),
        top.width == bottom.width,
        top@.len() + bottom@.len() <= usize::MAX,
    ensures
        r.wf(),
        r.width == top.width,
        r@ == top@ + bottom@,
{
    let mut rows: Vec<Vec<T>> = Vec::new();
    let mut y: usize = 0;
    while y < top.rows.len()
        invariant
            y <= top@.len(),
            rows@.len() == y,
            forall|i: int| 0 <= i < y ==> #[trigger] rows@[i]@ == top@[i],
        decreases top@.len() - y,
    {
        rows.push(copy_row(&top.rows[y]));
        y = y + 1;
    }
    let mut z: usize = 0;
    while z < bottom.rows.len()
        invariant
            z <= bottom@.len(),
            rows@.len() == top@.len() + z,
            forall|i: int| 0 <= i < top@.len() ==> #[trigger] rows@[i]@ == top@[i],
            forall|i: int| 0 <= i < z ==> #[trigger] rows@[top@.len() + i]@ == bottom@[i],
        decreases bottom@.len() - z,
    {
        rows.push(copy_row(&bottom.rows[z]));
        z = z + 1;
    }
    let r = Grid { width: top.width, rows };
    assert forall|i: int| 0 <= i < r@.len() implies #[trigger] r@[i] == (top@ + bottom@)[i] by {
        if i >= top@.len() {
            assert(rows@[top@.len() + (i - top@.len())]@ == bottom@[i - top@.len()]);
        }
    }
    assert(r@ =~= top@ + bottom@);
    r
}

/// Splits at row `height / 2`: `(top, bottom)`.
pub fn split_horizontally<T: Copy>(array: &Grid<T>) -> (r: (Grid<T>, Grid<T>))
    requires
        array.wf(),
    ensures
        r.0.wf(),
        r.1.wf(),
        r.0.width == array.width,
        r.1.width == array.width,
        r.0@ == top_half(array@),
        r.1@ == bottom_half(array@),
{
    let half = array.rows.len() / 2;
    let mut top: Vec<Vec<T>> = Vec::new();
    let mut bottom: Vec<Vec<T>> = Vec::new();
    let mut y: usize = 0;
    while y < array.rows.len()
        invariant
            array.wf(),
            half == array@.len() / 2,
            y <= array@.len(),
            y <= half ==> top@.len() == y && bottom@.len() == 0,
            y > half ==> top@.len() == half && bottom@.len() == y - half,
            forall|i: int| 0 <= i < top@.len() ==> #[trigger] top@[i]@ == array@[i],
            forall|i: int| 0 <= i < bottom@.len() ==> #[trigger] bottom@[i]@ == array@[half + i],
        decreases array@.len() - y,
    {
        if y < half {
            top.push(copy_row(&array.rows[y]));
        } else {
            bottom.push(copy_row(&array.rows[y]));
        }
        y = y + 1;
    }
    let t = Grid { width: array.width, rows: top };
    let b = Grid { width: array.width, rows: bottom };
    assert(t@ =~= top_half(array@));
    assert(b@ =~= bottom_half(array@));
    (t, b)
}

// ---------------------------------------------------------------------------
// One tile of four rows.
/// Decoding of a 4-row tile of width `w`: columns split by parity and stacked,
/// split by parity again and placed side by side, then rows split by parity and
/// placed side by side.
#[verifier::opaque]
pub open spec fn tile_decode<T>(t: Seq<Seq<T>>, w: int) -> Seq<Seq<T>> {
    let a = cols_of_parity(t, w, 0) + cols_of_parity(t, w, 1);
    let b = side_by_side(cols_of_parity(a, w / 2, 0), cols_of_parity(a, w / 2, 1));
    side_by_side(rows_of_parity(b, 0), rows_of_parity(b, 1))
}

/// Encoding of a 4-row tile of width `w`: the steps of `tile_decode` undone in
/// reverse order.
#[verifier::opaque]
pub open spec fn tile_encode<T>(c: Seq<Seq<T>>, w: int) -> Seq<Seq<T>> {
    let b = interleave_rows(left_half(c, w), right_half(c, w));
    let a = interleave_cols(left_half(b, w / 2), right_half(b, w / 2), w / 2);
    interleave_cols(top_half(a), bottom_half(a), w)
}

proof fn lemma_halves_of_side_by_side<T>(l: Seq<Seq<T>>, r: Seq<Seq<T>>, w: int)
    requires
        rect(l, w),
        rect(r, w),
        l.len() == r.len(),
        w >= 0,
    ensures
        left_half(side_by_side(l, r), 2 * w) == l,
        right_half(side_by_side(l, r), 2 * w) == r,
{
    assert(left_half(side_by_side(l, r), 2 * w) =~~= l);
    assert(right_half(side_by_side(l, r), 2 * w) =~~= r);
}

proof fn lemma_side_by_side_of_halves<T>(s: Seq<Seq<T>>, w: int)
    requires
        rect(s, w),
        w >= 0,
        w % 2 == 0,
    ensures
        side_by_side(left_half(s, w), right_half(s, w)) == s,
{
    assert(side_by_side(left_half(s, w), right_half(s, w)) =~~= s);
}

proof fn lemma_interleave_row_parities<T>(s: Seq<Seq<T>>)
    requires
        s.len() % 2 == 0,
    ensures
        interleave_rows(rows_of_parity(s, 0), rows_of_parity(s, 1)) == s,
{
    assert(interleave_rows(rows_of_parity(s, 0), rows_of_parity(s, 1)) =~~= s);
}

proof fn lemma_row_parities_of_interleave<T>(e: Seq<Seq<T>>, o: Seq<Seq<T>>)
    requires
        e.len() == o.len(),
    ensures
        rows_of_parity(interleave_rows(e, o), 0) == e,
        rows_of_parity(interleave_rows(e, o), 1) == o,
{
    assert(rows_of_parity(interleave_rows(e, o), 0) =~~= e);
    assert(rows_of_parity(interleave_rows(e, o), 1) =~~= o);
}

proof fn lemma_interleave_col_parities<T>(s: Seq<Seq<T>>, w: int)
    requires
        rect(s, w),
        w >= 0,
        w % 2 == 0,
    ensures
        interleave_cols(cols_of_parity(s, w, 0), cols_of_parity(s, w, 1), w) == s,
{
    let j = interleave_cols(cols_of_parity(s, w, 0), cols_of_parity(s, w, 1), w);
    assert forall|r: int| 0 <= r < s.len() implies #[trigger] j[r] =~= s[r] by {
        assert forall|c: int| 0 <= c < w implies j[r][c] == s[r][c] by {
            if c % 2 == 0 {
                assert(2 * (c / 2) + 0 == c);
            } else {
                assert(2 * (c / 2) + 1 == c);
            }
        }
    }
    assert(j =~~= s);
}

proof fn lemma_col_parities_of_interleave<T>(e: Seq<Seq<T>>, o: Seq<Seq<T>>, w: int)
    requires
        rect(e, w / 2),
        rect(o, w / 2),
        e.len() == o.len(),
        w >= 0,
        w % 2 == 0,
    ensures
        cols_of_parity(interleave_cols(e, o, w), w, 0) == e,
        cols_of_parity(interleave_cols(e, o, w), w, 1) == o,
{
    let j = interleave_cols(e, o, w);
    assert forall|r: int| 0 <= r < e.len() implies #[trigger] cols_of_parity(j, w, 0)[r] =~= e[r]
        by {
        assert forall|c: int| 0 <= c < w / 2 implies cols_of_parity(j, w, 0)[r][c] == e[r][c] by {
            assert((2 * c) % 2 == 0 && (2 * c) / 2 == c);
        }
    }
    assert forall|r: int| 0 <= r < e.len() implies #[trigger] cols_of_parity(j, w, 1)[r] =~= o[r]
        by {
        assert forall|c: int| 0 <= c < w / 2 implies cols_of_parity(j, w, 1)[r][c] == o[r][c] by {
            assert((2 * c + 1) % 2 == 1 && (2 * c + 1) / 2 == c);
        }
    }
    assert(cols_of_parity(j, w, 0) =~~= e);
    assert(cols_of_parity(j, w, 1) =~~= o);
}

proof fn lemma_halves_of_stack<T>(a: Seq<Seq<T>>, b: Seq<Seq<T>>)
    requires
        a.len() == b.len(),
    ensures
        top_half(a + b) == a,
        bottom_half(a + b) == b,
{
    assert(top_half(a + b) =~= a);
    assert(bottom_half(a + b) =~= b);
}

proof fn lemma_stack_of_halves<T>(s: Seq<Seq<T>>)
    requires
        s.len() % 2 == 0,
    ensures
        top_half(s) + bottom_half(s) == s,
{
    assert(top_half(s) + bottom_half(s) =~= s);
}

proof fn lemma_rect_cols_of_parity<T>(s: Seq<Seq<T>>, w: int, par: int)
    requires
        rect(s, w),
        w >= 0,
        0 <= par <= 1,
    ensures
        rect(cols_of_parity(s, w, par), (w + 1 - par) / 2),
        cols_of_parity(s, w, par).len() == s.len(),
{
}

proof fn lemma_rect_side_by_side<T>(l: Seq<Seq<T>>, r: Seq<Seq<T>>, wl: int, wr: int)
    requires
        rect(l, wl),
        rect(r, wr),
        l.len() == r.len(),
    ensures
        rect(side_by_side(l, r), wl + wr),
        side_by_side(l, r).len() == l.len(),
{
}

proof fn lemma_rect_rows_of_parity<T>(s: Seq<Seq<T>>, w: int, par: int)
    requires
        rect(s, w),
        0 <= par <= 1,
    ensures
        rect(rows_of_parity(s, par), w),
{
}

/// Encoding a decoded tile gives the tile back.
#[verifier::rlimit(100)]
pub proof fn lemma_tile_encode_decode<T>(t: Seq<Seq<T>>, w: int)
    requires
        t.len() == 4,
        rect(t, w),
        w >= 0,
        w % 4 == 0,
    ensures
        tile_encode(tile_decode(t, w), w) == t,
        rect(tile_decode(t, w), w),
        tile_decode(t, w).len() == 4,
{
    reveal(tile_decode);
    reveal(tile_encode);
    let h = w / 2;
    let e = cols_of_parity(t, w, 0);
    let o = cols_of_parity(t, w, 1);
    lemma_rect_cols_of_parity(t, w, 0);
    lemma_rect_cols_of_parity(t, w, 1);
    let a = e + o;
    assert(rect(a, h));
    let ae = cols_of_parity(a, h, 0);
    let ao = cols_of_parity(a, h, 1);
    lemma_rect_cols_of_parity(a, h, 0);
    lemma_rect_cols_of_parity(a, h, 1);
    let b = side_by_side(ae, ao);
    lemma_rect_side_by_side(ae, ao, h / 2, h / 2);
    let be = rows_of_parity(b, 0);
    let bo = rows_of_parity(b, 1);
    lemma_rect_rows_of_parity(b, h, 0);
    lemma_rect_rows_of_parity(b, h, 1);
    let c = side_by_side(be, bo);
    lemma_rect_side_by_side(be, bo, h, h);
    assert(c == tile_decode(t, w));
    assert(left_half(c, w) == be && right_half(c, w) == bo) by {
        lemma_halves_of_side_by_side(be, bo, h);
    }
    assert(interleave_rows(be, bo) == b) by {
        lemma_interleave_row_parities(b);
    }
    assert(left_half(b, h) == ae && right_half(b, h) == ao) by {
        lemma_halves_of_side_by_side(ae, ao, h / 2);
    }
    assert(interleave_cols(ae, ao, h) == a) by {
        lemma_interleave_col_parities(a, h);
    }
    assert(top_half(a) == e && bottom_half(a) == o) by {
        lemma_halves_of_stack(e, o);
    }
    assert(interleave_cols(e, o, w) == t) by {
        lemma_interleave_col_parities(t, w);
    }
}

/// Decoding an encoded tile gives the tile back.
pub proof fn lemma_tile_decode_encode<T>(c: Seq<Seq<T>>, w: int)
    requires
        c.len() == 4,
        rect(c, w),
        w >= 0,
        w % 4 == 0,
    ensures
        tile_decode(tile_encode(c, w), w) == c,
        rect(tile_encode(c, w), w),
        tile_encode(c, w).len() == 4,
{
    reveal(tile_decode);
    reveal(tile_encode);
    let h = w / 2;
    let l = left_half(c, w);
    let r = right_half(c, w);
    assert(rect(l, h));
    assert(rect(r, h));
    let b = interleave_rows(l, r);
    assert(rect(b, h));
    let bl = left_half(b, h);
    let br = right_half(b, h);
    assert(rect(bl, h / 2));
    assert(rect(br, h / 2));
    let a = interleave_cols(bl, br, h);
    assert(rect(a, h));
    let at = top_half(a);
    let ab = bottom_half(a);
    assert(rect(at, h));
    assert(rect(ab, h));
    let t = interleave_cols(at, ab, w);
    assert(t == tile_encode(c, w));
    assert(rect(t, w));
    lemma_col_parities_of_interleave(at, ab, w);
    lemma_stack_of_halves(a);
    lemma_col_parities_of_interleave(bl, br, h);
    lemma_side_by_side_of_halves(b, h);
    lemma_row_parities_of_interleave(l, r);
    lemma_side_by_side_of_halves(c, w);
}

fn decode_tile<T: Copy>(t: &Grid<T>) -> (r: Grid<T>)
    requires
        t.wf(),
        t@.len() == 4,
        t.width % 4 == 0,
    ensures
        r.wf(),
        r.width == t.width,
        r@ == tile_decode(t@, t.width as int),
        r@.len() == 4,
{
    reveal(tile_decode);
    let (even, odd) = split_by_column_parity(t);
    let a = join_vertically(&even, &odd);
    let (even, odd) = split_by_column_parity(&a);
    let b = join_horizontally(&even, &odd);
    let (even, odd) = split_by_row_parity(&b);
    join_horizontally(&even, &odd)
}

fn encode_tile<T: Copy>(c: &Grid<T>) -> (r: Grid<T>)
    requires
        c.wf(),
        c@.len() == 4,
        c.width % 4 == 0,
    ensures
        r.wf(),
        r.width == c.width,
        r@ == tile_encode(c@, c.width as int),
        r@.len() == 4,
{
    reveal(tile_encode);
    let (left, right) = split_vertically(c);
    let b = join_by_row_parity(&left, &right);
    let (left, right) = split_vertically(&b);
    let a = join_by_column_parity(&left, &right);
    let (top, bottom) = split_horizontally(&a);
    join_by_column_parity(&top, &bottom)
}

// ---------------------------------------------------------------------------
// The whole plane, tile by tile.
/// Width of the tiles that a plane of width `w` is cut into.
pub open spec fn tile_width(w: int) -> int {
    if w < 32 {
        w
    } else {
        32
    }
}

/// The tile of four rows and `tw` columns in band `b` (rows `4b..4b+4`) and
/// column block `k` (columns `k*tw..k*tw+tw`).
pub open spec fn tile_at<T>(s: Seq<Seq<T>>, b: int, k: int, tw: int) -> Seq<Seq<T>> {
    Seq::new(4, |r: int| s[4 * b + r].subrange(k * tw, k * tw + tw))
}

/// Every tile of the plane decoded in place.
#[verifier::opaque]
pub open spec fn tiles_decoded<T>(s: Seq<Seq<T>>, w: int) -> Seq<Seq<T>> {
    let tw = tile_width(w);
    Seq::new(
        s.len(),
        |y: int|
            Seq::new(w as nat, |x: int| tile_decode(tile_at(s, y / 4, x / tw, tw), tw)[y % 4][x % tw]),
    )
}

/// Every tile of the plane encoded in place.
#[verifier::opaque]
pub open spec fn tiles_encoded<T>(s: Seq<Seq<T>>, w: int) -> Seq<Seq<T>> {
    let tw = tile_width(w);
    Seq::new(
        s.len(),
        |y: int|
            Seq::new(w as nat, |x: int| tile_encode(tile_at(s, y / 4, x / tw, tw), tw)[y % 4][x % tw]),
    )
}

/// Conditions under which a plane can be cut into whole tiles.
pub open spec fn tileable(h: int, w: int) -> bool {
    &&& h % 4 == 0
    &&& w > 0
    &&& tile_width(w) % 4 == 0
    &&& w % tile_width(w) == 0
}

proof fn lemma_tile_position(x: int, tw: int, n: int)
    requires
        tw > 0,
        0 <= x < n * tw,
    ensures
        0 <= x / tw < n,
        0 <= x % tw < tw,
        (x / tw) * tw + x % tw == x,
        (x / tw) * tw + tw <= n * tw,
{
    lemma_fundamental_div_mod(x, tw);
    assert(tw * (x / tw) == (x / tw) * tw) by (nonlinear_arith);
    assert(0 <= x % tw < tw);
    assert(x / tw >= 0) by (nonlinear_arith)
        requires
            x >= 0,
            tw > 0,
    ;
    assert(x / tw < n) by (nonlinear_arith)
        requires
            x == tw * (x / tw) + x % tw,
            x % tw >= 0,
            x < n * tw,
            tw > 0,
    ;
    assert((x / tw) * tw + tw <= n * tw) by (nonlinear_arith)
        requires
            x / tw < n,
            tw > 0,
    ;
}

proof fn lemma_tile_of_mapped<T>(
    s: Seq<Seq<T>>,
    m: Seq<Seq<T>>,
    w: int,
    b: int,
    k: int,
    encode: bool,
)
    requires
        rect(s, w),
        tileable(s.len() as int, w),
        m == (if encode {
            tiles_encoded(s, w)
        } else {
            tiles_decoded(s, w)
        }),
        0 <= b < s.len() / 4,
        0 <= k < w / tile_width(w),
    ensures
        tile_at(m, b, k, tile_width(w)) == (if encode {
            tile_encode(tile_at(s, b, k, tile_width(w)), tile_width(w))
        } else {
            tile_decode(tile_at(s, b, k, tile_width(w)), tile_width(w))
        }),
{
    let tw = tile_width(w);
    let n = w / tw;
    assert(w == n * tw) by {
        lemma_fundamental_div_mod(w, tw);
    }
    assert((k + 1) * tw <= n * tw) by (nonlinear_arith)
        requires
            k < n,
            tw > 0,
    ;
    assert(k * tw >= 0) by (nonlinear_arith)
        requires
            k >= 0,
            tw > 0,
    ;
    let src = tile_at(s, b, k, tw);
    assert((k + 1) * tw == k * tw + tw) by (nonlinear_arith);
    assert forall|r: int| 0 <= r < 4 implies #[trigger] src[r].len() == tw by {
        assert(4 * b + r < s.len());
        assert(s[4 * b + r].len() == w);
    }
    reveal(tiles_decoded);
    reveal(tiles_encoded);
    let f = if encode {
        tile_encode(src, tw)
    } else {
        tile_decode(src, tw)
    };
    if encode {
        lemma_tile_decode_encode(src, tw);
    } else {
        lemma_tile_encode_decode(src, tw);
    }
    assert forall|r: int| 0 <= r < 4 implies #[trigger] tile_at(m, b, k, tw)[r] =~= f[r] by {
        assert forall|j: int| 0 <= j < tw implies tile_at(m, b, k, tw)[r][j] == f[r][j] by {
            let x = k * tw + j;
            lemma_fundamental_div_mod_converse(x, tw, k, j);
            assert(4 * b + r < s.len());
            assert(x < w);
            assert((4 * b + r) / 4 == b && (4 * b + r) % 4 == r);
        }
    }
    assert(tile_at(m, b, k, tw) =~= f);
}

/// Encoding the tiles of a plane whose tiles were decoded gives the plane back,
/// and the other way round.
pub proof fn lemma_tiles_round_trip<T>(s: Seq<Seq<T>>, w: int)
    requires
        rect(s, w),
        tileable(s.len() as int, w),
    ensures
        tiles_encoded(tiles_decoded(s, w), w) == s,
        tiles_decoded(tiles_encoded(s, w), w) == s,
        rect(tiles_decoded(s, w), w),
        rect(tiles_encoded(s, w), w),
{
    let tw = tile_width(w);
    let n = w / tw;
    assert(w == n * tw) by {
        lemma_fundamental_div_mod(w, tw);
    }
    let d = tiles_decoded(s, w);
    let e = tiles_encoded(s, w);
    reveal(tiles_decoded);
    reveal(tiles_encoded);
    assert(rect(d, w));
    assert(rect(e, w));
    assert forall|y: int, x: int| 0 <= y < s.len() && 0 <= x < w implies tiles_encoded(d, w)[y][x]
        == s[y][x] && tiles_decoded(e, w)[y][x] == s[y][x] by {
        lemma_tile_position(x, tw, n);
        let b = y / 4;
        let k = x / tw;
        assert(0 <= b < s.len() / 4);
        lemma_tile_of_mapped(s, d, w, b, k, false);
        lemma_tile_of_mapped(s, e, w, b, k, true);
        lemma_tile_encode_decode(tile_at(s, b, k, tw), tw);
        lemma_tile_decode_encode(tile_at(s, b, k, tw), tw);
        assert(4 * b + y % 4 == y);
    }
    assert forall|y: int| 0 <= y < s.len() implies #[trigger] tiles_encoded(d, w)[y] =~= s[y] by {
        assert forall|x: int| 0 <= x < w implies tiles_encoded(d, w)[y][x] == s[y][x] by {}
    }
    assert forall|y: int| 0 <= y < s.len() implies #[trigger] tiles_decoded(e, w)[y] =~= s[y] by {
        assert forall|x: int| 0 <= x < w implies tiles_decoded(e, w)[y][x] == s[y][x] by {}
    }
    assert(tiles_encoded(d, w) =~= s);
    assert(tiles_decoded(e, w) =~= s);
}

fn extract_tile<T: Copy>(g: &Grid<T>, y0: usize, x0: usize, tw: usize) -> (r: Grid<T>)
    requires
        g.wf(),
        y0 + 4 <= g@.len(),
        x0 + tw <= g.width,
    ensures
        r.wf(),
        r.width == tw,
        r@ == Seq::new(4, |i: int| g@[y0 + i].subrange(x0 as int, x0 + tw)),
{
    let _n = g.rows.len();
    let mut rows: Vec<Vec<T>> = Vec::new();
    let mut i: usize = 0;
    while i < 4
        invariant
            g.wf(),
            g.rows@.len() <= usize::MAX,
            y0 + 4 <= g@.len(),
            x0 + tw <= g.width,
            i <= 4,
            rows@.len() == i,
            forall|j: int|
                0 <= j < i ==> #[trigger] rows@[j]@ == g@[y0 + j].subrange(x0 as int, x0 + tw),
        decreases 4 - i,
    {
        assert(g@[y0 + i].len() == g.width);
        rows.push(slice_row(&g.rows[y0 + i], x0, x0 + tw));
        i = i + 1;
    }
    let r = Grid { width: tw, rows };
    assert(r@ =~= Seq::new(4, |i: int| g@[y0 + i].subrange(x0 as int, x0 + tw)));
    r
}

/// Decodes (or, with `encode`, encodes) every tile of the plane in place.
fn transform_tiles<T: Copy>(g: &Grid<T>, encode: bool) -> (r: Grid<T>)
    requires
        g.wf(),
        tileable(g@.len() as int, g.width as int),
    ensures
        r.wf(),
        r.width == g.width,
        r@.len() == g@.len(),
        r@ == (if encode {
            tiles_encoded(g@, g.width as int)
        } else {
            tiles_decoded(g@, g.width as int)
        }),
{
    let ghost w = g.width as int;
    let tw: usize = if g.width < 32 { g.width } else { 32 };
    let nt = g.width / tw;
    let ghost spec_tw = tile_width(w);
    assert(g.width == nt * tw) by {
        lemma_fundamental_div_mod(w, tw as int);
    }
    let ghost target = if encode {
        tiles_encoded(g@, w)
    } else {
        tiles_decoded(g@, w)
    };
    assert(target.len() == g@.len() && rect(target, w)) by {
        reveal(tiles_decoded);
        reveal(tiles_encoded);
    }
    let mut rows: Vec<Vec<T>> = Vec::new();
    let mut y0: usize = 0;
    while y0 < g.rows.len()
        invariant
            g.wf(),
            w == g.width,
            tileable(g@.len() as int, w),
            tw == spec_tw,
            spec_tw == tile_width(w),
            g.width == nt * tw,
            target == (if encode {
                tiles_encoded(g@, w)
            } else {
                tiles_decoded(g@, w)
            }),
            target.len() == g@.len(),
            rect(target, w),
            y0 % 4 == 0,
            y0 <= g@.len(),
            rows@.len() == y0,
            forall|i: int| 0 <= i < y0 ==> #[trigger] rows@[i]@ == target[i],
        decreases g@.len() - y0,
    {
        let ghost b: int = y0 as int / 4;
        let mut tiles: Vec<Grid<T>> = Vec::new();
        let mut k: usize = 0;
        let mut x0: usize = 0;
        while k < nt
            invariant
                g.wf(),
                w == g.width,
                tileable(g@.len() as int, w),
                tw == spec_tw,
                spec_tw == tile_width(w),
                g.width == nt * tw,
                y0 % 4 == 0,
                y0 < g@.len(),
                b == y0 / 4,
                k <= nt,
                x0 == k * tw,
                tiles@.len() == k,
                forall|j: int|
                    0 <= j < k ==> (#[trigger] tiles@[j]).wf() && tiles@[j].width == tw
                        && tiles@[j]@.len() == 4 && tiles@[j]@ == (if encode {
                        tile_encode(tile_at(g@, b, j, spec_tw), spec_tw)
                    } else {
                        tile_decode(tile_at(g@, b, j, spec_tw), spec_tw)
                    }),
            decreases nt - k,
        {
            assert(x0 + tw <= g.width) by (nonlinear_arith)
                requires
                    x0 == k * tw,
                    k < nt,
                    g.width == nt * tw,
            ;
            let t = extract_tile(g, y0, x0, tw);
            assert(t@ =~= tile_at(g@, b, k as int, spec_tw));
            let d = if encode {
                encode_tile(&t)
            } else {
                decode_tile(&t)
            };
            tiles.push(d);
            assert((k + 1) * tw == k * tw + tw) by (nonlinear_arith);
            x0 = x0 + tw;
            k = k + 1;
        }
        let mut r: usize = 0;
        while r < 4
            invariant
                g.wf(),
                w == g.width,
                tileable(g@.len() as int, w),
                tw == spec_tw,
                spec_tw == tile_width(w),
                g.width == nt * tw,
                target == (if encode {
                    tiles_encoded(g@, w)
                } else {
                    tiles_decoded(g@, w)
                }),
                target.len() == g@.len(),
                rect(target, w),
                y0 % 4 == 0,
                y0 < g@.len(),
                b == y0 / 4,
                r <= 4,
                tiles@.len() == nt,
                forall|j: int|
                    0 <= j < nt ==> (#[trigger] tiles@[j]).wf() && tiles@[j].width == tw
                        && tiles@[j]@.len() == 4 && tiles@[j]@ == (if encode {
                        tile_encode(tile_at(g@, b, j, spec_tw), spec_tw)
                    } else {
                        tile_decode(tile_at(g@, b, j, spec_tw), spec_tw)
                    }),
                rows@.len() == y0 + r,
                forall|i: int| 0 <= i < y0 + r ==> #[trigger] rows@[i]@ == target[i],
            decreases 4 - r,
        {
            let mut row: Vec<T> = Vec::new();
            let mut k: usize = 0;
            let ghost y = y0 + r;
            assert(y < g@.len());
            while k < nt
                invariant
                    g.wf(),
                    w == g.width,
                    tw == spec_tw,
                    spec_tw == tile_width(w),
                    tileable(g@.len() as int, w),
                    g.width == nt * tw,
                    r < 4,
                    k <= nt,
                    tiles@.len() == nt,
                    forall|j: int|
                        0 <= j < nt ==> (#[trigger] tiles@[j]).wf() && tiles@[j].width == tw
                            && tiles@[j]@.len() == 4,
                    row@.len() == k * tw,
                    forall|x: int|
                        0 <= x < row@.len() ==> #[trigger] row@[x] == tiles@[x / spec_tw]@[r as int][x
                            % spec_tw],
                decreases nt - k,
            {
                let ghost before = row@;
                assert(tiles@[k as int]@[r as int].len() == tw);
                let mut part = copy_row(&tiles[k].rows[r]);
                row.append(&mut part);
                assert forall|x: int| 0 <= x < row@.len() implies #[trigger] row@[x]
                    == tiles@[x / spec_tw]@[r as int][x % spec_tw] by {
                    if x >= before.len() {
                        lemma_fundamental_div_mod_converse(x, tw as int, k as int, x - k * tw);
                    }
                }
                assert((k + 1) * tw == k * tw + tw) by (nonlinear_arith);
                k = k + 1;
            }
            proof {
                reveal(tiles_decoded);
                reveal(tiles_encoded);
                assert forall|x: int| 0 <= x < w implies #[trigger] row@[x] == target[y][x] by {
                    lemma_tile_position(x, tw as int, nt as int);
                    assert(y / 4 == b && y % 4 == r);
                }
                assert(row@ =~= target[y]);
            }
            rows.push(row);
            r = r + 1;
        }
        y0 = y0 + 4;
    }
    let out = Grid { width: g.width, rows };
    assert(out@ =~= target);
    out
}

// ---------------------------------------------------------------------------
// Column-band swaps.
/// Where output column `x` takes its cell from when, inside every group of `c`
/// columns, the second and third quarters trade places.
pub open spec fn quarter_source(x: int, c: int) -> int {
    let q = c / 4;
    let m = x % c;
    if q <= m < 2 * q {
        x + q
    } else if 2 * q <= m < 3 * q {
        x - q
    } else {
        x
    }
}

/// The plane with the middle quarters of every group of `c` columns swapped.
pub open spec fn quarters_swapped<T>(s: Seq<Seq<T>>, w: int, c: int) -> Seq<Seq<T>> {
    Seq::new(s.len(), |y: int| Seq::new(w as nat, |x: int| s[y][quarter_source(x, c)]))
}

/// Where output column `x` of row `y` takes its cell from when, in rows 2 to 5
/// of every band of eight rows, each 4x4 block trades places with its
/// neighbour inside its group of eight columns.
pub open spec fn block_source(y: int, x: int) -> int {
    if 2 <= y % 8 < 6 {
        if x % 8 < 4 {
            x + 4
        } else {
            x - 4
        }
    } else {
        x
    }
}

/// The plane with its 4x4 blocks swapped.
pub open spec fn blocks_swapped<T>(s: Seq<Seq<T>>, w: int) -> Seq<Seq<T>> {
    Seq::new(s.len(), |y: int| Seq::new(w as nat, |x: int| s[y][block_source(y, x)]))
}

proof fn lemma_quarter_source(x: int, c: int, w: int)
    requires
        c >= 4,
        c % 4 == 0,
        w % c == 0,
        0 <= x < w,
    ensures
        0 <= quarter_source(x, c) < w,
        quarter_source(quarter_source(x, c), c) == x,
{
    let q = c / 4;
    let d = x / c;
    let m = x % c;
    lemma_fundamental_div_mod(x, c);
    lemma_fundamental_div_mod(w, c);
    assert(0 <= m < c);
    assert(x == d * c + m) by (nonlinear_arith)
        requires
            x == c * d + m,
    ;
    assert(d >= 0 && d * c + c <= w) by (nonlinear_arith)
        requires
            x == d * c + m,
            0 <= m < c,
            x >= 0,
            x < w,
            w == c * (w / c),
            c > 0,
    ;
    if q <= m < 2 * q {
        lemma_fundamental_div_mod_converse(x + q, c, d, m + q);
    } else if 2 * q <= m < 3 * q {
        lemma_fundamental_div_mod_converse(x - q, c, d, m - q);
    }
}

proof fn lemma_quarters_involution<T>(s: Seq<Seq<T>>, w: int, c: int)
    requires
        rect(s, w),
        c >= 4,
        c % 4 == 0,
        w % c == 0,
    ensures
        quarters_swapped(quarters_swapped(s, w, c), w, c) == s,
        rect(quarters_swapped(s, w, c), w),
{
    let t = quarters_swapped(quarters_swapped(s, w, c), w, c);
    assert forall|y: int| 0 <= y < s.len() implies #[trigger] t[y] =~= s[y] by {
        assert forall|x: int| 0 <= x < w implies t[y][x] == s[y][x] by {
            lemma_quarter_source(x, c, w);
        }
    }
    assert(t =~~= s);
    let q = quarters_swapped(s, w, c);
    assert forall|y: int| 0 <= y < q.len() implies #[trigger] q[y].len() == w by {
        assert(s[y].len() == w);
    }
}

proof fn lemma_blocks_involution<T>(s: Seq<Seq<T>>, w: int)
    requires
        rect(s, w),
        w % 8 == 0,
    ensures
        blocks_swapped(blocks_swapped(s, w), w) == s,
        rect(blocks_swapped(s, w), w),
{
    let t = blocks_swapped(blocks_swapped(s, w), w);
    assert forall|y: int| 0 <= y < s.len() implies #[trigger] t[y] =~= s[y] by {
        assert forall|x: int| 0 <= x < w implies t[y][x] == s[y][x] by {
            assert(0 <= block_source(y, x) < w);
        }
    }
    assert(t =~~= s);
    let b = blocks_swapped(s, w);
    assert forall|y: int| 0 <= y < b.len() implies #[trigger] b[y].len() == w by {
        assert(s[y].len() == w);
    }
}

/// Swaps the middle two quarters of every group of `columns` columns.
pub fn swap_middle_quarters<T: Copy>(array: &Grid<T>, columns: usize) -> (r: Grid<T>)
    requires
        array.wf(),
        columns >= 4,
        columns % 4 == 0,
        array.width % columns == 0,
    ensures
        r.wf(),
        r.width == array.width,
        r@ == quarters_swapped(array@, array.width as int, columns as int),
{
    let quarter = columns / 4;
    let mut rows: Vec<Vec<T>> = Vec::new();
    let mut y: usize = 0;
    while y < array.rows.len()
        invariant
            array.wf(),
            columns >= 4,
            columns % 4 == 0,
            quarter == columns / 4,
            array.width % columns == 0,
            y <= array@.len(),
            rows@.len() == y,
            forall|i: int|
                0 <= i < y ==> #[trigger] rows@[i]@ == quarters_swapped(
                    array@,
                    array.width as int,
                    columns as int,
                )[i],
        decreases array@.len() - y,
    {
        let mut row: Vec<T> = Vec::new();
        let mut x: usize = 0;
        while x < array.width
            invariant
                array.wf(),
                columns >= 4,
                columns % 4 == 0,
                quarter == columns / 4,
                array.width % columns == 0,
                y < array@.len(),
                x <= array.width,
                row@.len() == x,
                forall|k: int|
                    0 <= k < x ==> #[trigger] row@[k] == array@[y as int][quarter_source(
                        k,
                        columns as int,
                    )],
            decreases array.width - x,
        {
            proof {
                lemma_quarter_source(x as int, columns as int, array.width as int);
            }
            let m = x % columns;
            let src = if quarter <= m && m < 2 * quarter {
                x + quarter
            } else if 2 * quarter <= m && m < 3 * quarter {
                x - quarter
            } else {
                x
            };
            assert(array@[y as int].len() == array.width);
            row.push(array.rows[y][src]);
            x = x + 1;
        }
        assert(row@ =~= quarters_swapped(array@, array.width as int, columns as int)[y as int]);
        rows.push(row);
        y = y + 1;
    }
    let r = Grid { width: array.width, rows };
    assert(r@ =~= quarters_swapped(array@, array.width as int, columns as int));
    r
}

/// Swaps, in rows 2 to 5 of every band of eight rows, each 4x4 block with its
/// right-hand neighbour inside its group of eight columns.
pub fn swap_4x4_chunks<T: Copy>(array: &Grid<T>) -> (r: Grid<T>)
    requires
        array.wf(),
        array.width % 8 == 0,
    ensures
        r.wf(),
        r.width == array.width,
        r@ == blocks_swapped(array@, array.width as int),
{
    let mut rows: Vec<Vec<T>> = Vec::new();
    let mut y: usize = 0;
    while y < array.rows.len()
        invariant
            array.wf(),
            array.width % 8 == 0,
            y <= array@.len(),
            rows@.len() == y,
            forall|i: int|
                0 <= i < y ==> #[trigger] rows@[i]@ == blocks_swapped(array@, array.width as int)[i],
        decreases array@.len() - y,
    {
        let mut row: Vec<T> = Vec::new();
        let mut x: usize = 0;
        while x < array.width
            invariant
                array.wf(),
                array.width % 8 == 0,
                y < array@.len(),
                x <= array.width,
                row@.len() == x,
                forall|k: int|
                    0 <= k < x ==> #[trigger] row@[k] == array@[y as int][block_source(
                        y as int,
                        k,
                    )],
            decreases array.width - x,
        {
            let src = if 2 <= y % 8 && y % 8 < 6 {
                if x % 8 < 4 {
                    x + 4
                } else {
                    x - 4
                }
            } else {
                x
            };
            assert(array@[y as int].len() == array.width);
            row.push(array.rows[y][src]);
            x = x + 1;
        }
        assert(row@ =~= blocks_swapped(array@, array.width as int)[y as int]);
        rows.push(row);
        y = y + 1;
    }
    let r = Grid { width: array.width, rows };
    assert(r@ =~= blocks_swapped(array@, array.width as int));
    r
}

// ---------------------------------------------------------------------------
// The whole transform.
/// `n` is a power of two.
pub open spec fn is_pow2(n: int) -> bool
    decreases n,
{
    if n <= 0 {
        false
    } else if n == 1 {
        true
    } else {
        n % 2 == 0 && is_pow2(n / 2)
    }
}

/// The middle-quarter swaps for group sizes `c`, `2c`, `4c`, ... up to `w`,
/// smallest first.
pub open spec fn quarters_up<T>(s: Seq<Seq<T>>, w: int, c: int) -> Seq<Seq<T>>
    decreases 2 * w - c,
{
    if c <= 0 || c > w {
        s
    } else {
        quarters_up(quarters_swapped(s, w, c), w, 2 * c)
    }
}

/// The middle-quarter swaps for group sizes `c`, `c/2`, `c/4`, ... down to 64,
/// largest first.
pub open spec fn quarters_down<T>(s: Seq<Seq<T>>, w: int, c: int) -> Seq<Seq<T>>
    decreases c,
{
    if c < 64 {
        s
    } else {
        quarters_down(quarters_swapped(s, w, c), w, c / 2)
    }
}

/// Plane shapes that the 8-bit transform handles: width 8 (left as it is), or
/// whole 4-row bands with a width of 16, 24 or 32, or a larger power of two.
pub open spec fn swizzle_dims(h: int, w: int) -> bool {
    ||| w == 8
    ||| {
        &&& h % 4 == 0
        &&& w % 8 == 0
        &&& 8 <= w <= 0x4000_0000
        &&& (w <= 32 || is_pow2(w))
    }
}

/// The linear plane recovered from a stored 8-bit plane of width `w`.
pub open spec fn deswizzled<T>(s: Seq<Seq<T>>, w: int) -> Seq<Seq<T>> {
    if w == 8 {
        s
    } else {
        let t = tiles_decoded(s, w);
        let q = if w == 16 {
            quarters_swapped(t, w, 16)
        } else {
            quarters_up(t, w, 64)
        };
        blocks_swapped(q, w)
    }
}

/// The stored 8-bit plane for a linear plane of width `w`.
pub open spec fn swizzled<T>(s: Seq<Seq<T>>, w: int) -> Seq<Seq<T>> {
    if w == 8 {
        s
    } else {
        let b = blocks_swapped(s, w);
        let q = if w == 16 {
            quarters_swapped(b, w, 16)
        } else {
            quarters_down(b, w, w)
        };
        tiles_encoded(q, w)
    }
}

proof fn lemma_pow2_divides(a: int, b: int)
    requires
        is_pow2(a),
        is_pow2(b),
        a <= b,
    ensures
        b % a == 0,
    decreases a,
{
    if a == 1 {
        assert(b % 1 == 0);
    } else {
        assert(b != 1);
        lemma_pow2_divides(a / 2, b / 2);
        let m = (b / 2) / (a / 2);
        lemma_fundamental_div_mod(b / 2, a / 2);
        assert(b == m * a) by (nonlinear_arith)
            requires
                b / 2 == (a / 2) * m,
                b == 2 * (b / 2),
                a == 2 * (a / 2),
        ;
        lemma_mod_multiples_basic(m, a);
    }
}

proof fn lemma_pow2_small_divides(c: int)
    requires
        is_pow2(c),
        c >= 32,
    ensures
        c % 4 == 0,
        c % 32 == 0,
{
    reveal_with_fuel(is_pow2, 7);
    assert(is_pow2(4));
    assert(is_pow2(32));
    lemma_pow2_divides(4, c);
    lemma_pow2_divides(32, c);
}

proof fn lemma_quarters_up_down<T>(s: Seq<Seq<T>>, w: int, c: int)
    requires
        rect(s, w),
        is_pow2(w),
        w >= 64,
        is_pow2(c),
        64 <= c <= 2 * w,
    ensures
        quarters_down(quarters_up(s, w, c), w, w) == quarters_down(s, w, c / 2),
        rect(quarters_up(s, w, c), w),
        quarters_up(s, w, c).len() == s.len(),
    decreases 2 * w - c,
{
    if c > w {
        lemma_pow2_divides(w, c);
        assert(c == 2 * w) by (nonlinear_arith)
            requires
                c % w == 0,
                c > w,
                c <= 2 * w,
                w > 0,
        {
            lemma_fundamental_div_mod(c, w);
        }
    } else {
        lemma_pow2_divides(c, w);
        lemma_pow2_small_divides(c);
        let q = quarters_swapped(s, w, c);
        lemma_quarters_involution(s, w, c);
        assert(is_pow2(2 * c));
        lemma_quarters_up_down(q, w, 2 * c);
        assert(quarters_down(q, w, c) == quarters_down(quarters_swapped(q, w, c), w, c / 2));
    }
}

proof fn lemma_quarters_down_up<T>(s: Seq<Seq<T>>, w: int, d: int)
    requires
        rect(s, w),
        is_pow2(w),
        w >= 64,
        is_pow2(d),
        32 <= d <= w,
    ensures
        quarters_up(quarters_down(s, w, d), w, 64) == quarters_up(s, w, 2 * d),
        rect(quarters_down(s, w, d), w),
        quarters_down(s, w, d).len() == s.len(),
    decreases d,
{
    if d < 64 {
        reveal_with_fuel(is_pow2, 7);
        assert(is_pow2(32));
        lemma_pow2_divides(32, d);
        assert(d == 32);
    } else {
        lemma_pow2_divides(d, w);
        lemma_pow2_small_divides(d);
        let q = quarters_swapped(s, w, d);
        lemma_quarters_involution(s, w, d);
        lemma_quarters_down_up(q, w, d / 2);
        assert(2 * (d / 2) == d);
        assert(quarters_up(q, w, d) == quarters_up(quarters_swapped(q, w, d), w, 2 * d));
    }
}

proof fn lemma_tileable(h: int, w: int)
    requires
        swizzle_dims(h, w),
        w != 8,
    ensures
        tileable(h, w),
        w % 8 == 0,
        w >= 64 ==> w % 64 == 0,
{
    if w < 32 {
        lemma_mod_self_0(w);
    } else {
        if w > 32 {
            lemma_pow2_small_divides(w);
            reveal_with_fuel(is_pow2, 7);
            assert(is_pow2(64));
            lemma_pow2_divides(64, w);
        }
    }
}

/// The stored 8-bit tiling and its inverse undo each other: storing a decoded
/// plane gives the stored plane back, and decoding a stored plane gives the
/// linear plane back.
pub proof fn lemma_swizzle_round_trip<T>(s: Seq<Seq<T>>, w: int)
    requires
        rect(s, w),
        swizzle_dims(s.len() as int, w),
    ensures
        swizzled(deswizzled(s, w), w) == s,
        deswizzled(swizzled(s, w), w) == s,
{
    if w != 8 {
        lemma_tileable(s.len() as int, w);
        lemma_tiles_round_trip(s, w);
        let t = tiles_decoded(s, w);
        assert(t.len() == s.len()) by {
            reveal(tiles_decoded);
        }
        let q = if w == 16 {
            quarters_swapped(t, w, 16)
        } else {
            quarters_up(t, w, 64)
        };
        if w == 16 {
            lemma_quarters_involution(t, w, 16);
        } else if w >= 64 {
            reveal_with_fuel(is_pow2, 7);
            assert(is_pow2(64));
            lemma_quarters_up_down(t, w, 64);
        }
        lemma_blocks_involution(q, w);
        assert(q.len() == s.len());
        lemma_tiles_round_trip(q, w);
        let b = blocks_swapped(s, w);
        lemma_blocks_involution(s, w);
        let q2 = if w == 16 {
            quarters_swapped(b, w, 16)
        } else {
            quarters_down(b, w, w)
        };
        if w == 16 {
            lemma_quarters_involution(b, w, 16);
        } else if w >= 64 {
            lemma_quarters_down_up(b, w, w);
        }
        assert(q2.len() == s.len());
        lemma_tiles_round_trip(q2, w);
    }
}

fn is_pow2_exec(n: usize) -> (r: bool)
    ensures
        r == is_pow2(n as int),
{
    let mut m = n;
    while m > 1 && m % 2 == 0
        invariant
            is_pow2(n as int) == is_pow2(m as int),
        decreases m,
    {
        m = m / 2;
    }
    m == 1
}

/// Whether a plane of `h` rows and `w` columns has a shape that the 8-bit
/// transform handles.
pub fn is_swizzle_shape(h: usize, w: usize) -> (r: bool)
    ensures
        r == swizzle_dims(h as int, w as int),
{
    w == 8 || (h % 4 == 0 && w % 8 == 0 && 8 <= w && w <= 0x4000_0000 && (w <= 32
        || is_pow2_exec(w)))
}

/// Whether the plane has a shape that the 8-bit transform handles.
pub fn has_swizzle_dims<T>(g: &Grid<T>) -> (r: bool)
    ensures
        r == swizzle_dims(g@.len() as int, g.width as int),
{
    is_swizzle_shape(g.rows.len(), g.width)
}

fn copy_grid<T: Copy>(g: &Grid<T>) -> (r: Grid<T>)
    requires
        g.wf(),
    ensures
        r.wf(),
        r.width == g.width,
        r@ == g@,
{
    let mut rows: Vec<Vec<T>> = Vec::new();
    let mut y: usize = 0;
    while y < g.rows.len()
        invariant
            y <= g@.len(),
            rows@.len() == y,
            forall|i: int| 0 <= i < y ==> #[trigger] rows@[i]@ == g@[i],
        decreases g@.len() - y,
    {
        rows.push(copy_row(&g.rows[y]));
        y = y + 1;
    }
    let r = Grid { width: g.width, rows };
    assert(r@ =~= g@);
    r
}

/// Turns a stored 8-bit index plane into a linear row-major plane.
pub fn decode<T: Copy>(array: &Grid<T>) -> (r: Grid<T>)
    requires
        array.wf(),
        swizzle_dims(array@.len() as int, array.width as int),
    ensures
        r.wf(),
        r.width == array.width,
        r@.len() == array@.len(),
        r@ == deswizzled(array@, array.width as int),
{
    // a plane eight columns wide is stored linearly
    if array.width == 8 {
        return copy_grid(array);
    }
    let ghost w = array.width as int;
    proof {
        lemma_tileable(array@.len() as int, w);
    }
    let mut out = transform_tiles(array, false);
    let ghost t = out@;
    if out.width == 16 {
        out = swap_middle_quarters(&out, 16);
    } else if out.width >= 64 {
        let mut col_size: usize = 64;
        proof {
            reveal_with_fuel(is_pow2, 7);
        }
        while col_size <= out.width
            invariant
                out.wf(),
                out.width == w,
                out@.len() == array@.len(),
                is_pow2(w),
                w >= 64,
                w <= 0x4000_0000,
                is_pow2(col_size as int),
                64 <= col_size <= 2 * w,
                quarters_up(t, w, 64) == quarters_up(out@, w, col_size as int),
            decreases 2 * w - col_size,
        {
            proof {
                lemma_pow2_divides(col_size as int, w);
                lemma_pow2_small_divides(col_size as int);
                assert(is_pow2(2 * col_size));
            }
            out = swap_middle_quarters(&out, col_size);
            col_size = col_size * 2;
        }
    }
    swap_4x4_chunks(&out)
}

/// Turns a linear row-major 8-bit index plane into its stored form.
pub fn encode<T: Copy>(array: &Grid<T>) -> (r: Grid<T>)
    requires
        array.wf(),
        swizzle_dims(array@.len() as int, array.width as int),
    ensures
        r.wf(),
        r.width == array.width,
        r@.len() == array@.len(),
        r@ == swizzled(array@, array.width as int),
{
    // a plane eight columns wide is stored linearly
    if array.width == 8 {
        return copy_grid(array);
    }
    let ghost w = array.width as int;
    proof {
        lemma_tileable(array@.len() as int, w);
    }
    let mut out = swap_4x4_chunks(array);
    let ghost b = out@;
    assert(out@.len() == array@.len());
    if out.width == 16 {
        out = swap_middle_quarters(&out, 16);
    } else if out.width >= 64 {
        let mut col_size: usize = out.width;
        while col_size >= 64
            invariant
                out.wf(),
                out.width == w,
                out@.len() == array@.len(),
                is_pow2(w),
                w >= 64,
                is_pow2(col_size as int),
                col_size <= w,
                quarters_down(b, w, w) == quarters_down(out@, w, col_size as int),
            decreases col_size,
        {
            proof {
                lemma_pow2_divides(col_size as int, w);
                lemma_pow2_small_divides(col_size as int);
            }
            out = swap_middle_quarters(&out, col_size);
            col_size = col_size / 2;
        }
    }
    assert(out@.len() == array@.len());
    transform_tiles(&out, true)
}

} // verus!
