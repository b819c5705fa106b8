//! A rectangular grid of cells stored row by row.
use vstd::prelude::*;

verus! {

/// Every row of `s` holds exactly `w` cells.
pub open spec fn rect<T>(s: Seq<Seq<T>>, w: int) -> bool {
    forall|i: int| 0 <= i < s.len() ==> #[trigger] s[i].len() == w
}

/// A two-dimensional grid: `rows[y][x]` is the cell in row `y`, column `x`.
#[derive(Clone, Debug)]
pub struct Grid<T> {
    pub width: usize,
    pub rows: Vec<Vec<T>>,
}

impl<T> View for Grid<T> {
    type V = Seq<Seq<T>>;

    open spec fn view(&self) -> Seq<Seq<T>> {
        self.rows@.map_values(|r: Vec<T>| r@)
    }
}

impl<T> Grid<T> {
    /// Every row has `width` cells.
    pub open spec fn wf(&self) -> bool {
        rect(self@, self.width as int)
    }

    /// Whether every row has `width` cells.
    pub fn is_well_formed(&self) -> (r: bool)
        ensures
            r == self.wf(),
    {
        let mut y: usize = 0;
        while y < self.rows.len()
            invariant
                y <= self@.len(),
                forall|i: int| 0 <= i < y ==> #[trigger] self@[i].len() == self.width,
            decreases self@.len() - y,
        {
            if self.rows[y].len() != self.width {
                assert(self@[y as int].len() != self.width);
                return false;
            }
            y = y + 1;
        }
        true
    }

    /// Number of rows.
    pub fn height(&self) -> (r: usize)
        ensures
            r == self@.len(),
    {
        self.rows.len()
    }
}

impl<T: Copy> Grid<T> {
    /// Builds a grid of `height` rows and `width` columns from the cells of
    /// `cells`, taken in row-major order.
    pub fn from_row_major(cells: &Vec<T>, width: usize, height: usize) -> (r: Grid<T>)
        requires
            cells@.len() == width * height,
        ensures
            r.wf(),
            r.width == width,
            r@.len() == height,
            forall|y: int, x: int|
                0 <= y < height && 0 <= x < width ==> #[trigger] r@[y][x] == cells@[y * width + x],
    {
        let n = cells.len();
        let mut rows: Vec<Vec<T>> = Vec::new();
        let mut y: usize = 0;
        let mut base: usize = 0;
        while y < height
            invariant
                n == cells@.len(),
                cells@.len() == width * height,
                y <= height,
                base == y * width,
                rows@.len() == y,
                forall|i: int| 0 <= i < y ==> #[trigger] rows@[i]@.len() == width,
                forall|i: int, x: int|
                    0 <= i < y && 0 <= x < width ==> #[trigger] rows@[i]@[x] == cells@[i * width + x],
            decreases height - y,
        {
            assert((y + 1) * width <= height * width) by (nonlinear_arith)
                requires
                    y < height,
            ;
            assert((y + 1) * width == y * width + width) by (nonlinear_arith);
            let mut row: Vec<T> = Vec::new();
            let mut x: usize = 0;
            while x < width
                invariant
                    n == cells@.len(),
                    cells@.len() == width * height,
                    x <= width,
                    base == y * width,
                    base + width <= cells@.len(),
                    row@.len() == x,
                    forall|k: int| 0 <= k < x ==> #[trigger] row@[k] == cells@[base + k],
                decreases width - x,
            {
                row.push(cells[base + x]);
                x = x + 1;
            }
            rows.push(row);
            base = base + width;
            y = y + 1;
        }
        let r = Grid { width, rows };
        assert(r.wf());
        r
    }

    /// The cells in row-major order.
    pub fn to_row_major(&self) -> (r: Vec<T>)
        requires
            self.wf(),
        ensures
            r@.len() == self@.len() * self.width,
            forall|y: int, x: int|
                0 <= y < self@.len() && 0 <= x < self.width ==> r@[y * self.width + x]
                    == #[trigger] self@[y][x],
    {
        let mut out: Vec<T> = Vec::new();
        let mut y: usize = 0;
        while y < self.rows.len()
            invariant
                self.wf(),
                y <= self@.len(),
                out@.len() == y * self.width,
                forall|i: int, x: int|
                    0 <= i < y && 0 <= x < self.width ==> out@[i * self.width + x]
                        == #[trigger] self@[i][x],
            decreases self@.len() - y,
        {
            let ghost before = out@;
            let mut x: usize = 0;
            while x < self.width
                invariant
                    self.wf(),
                    y < self@.len(),
                    x <= self.width,
                    out@.len() == y * self.width + x,
                    before.len() == y * self.width,
                    forall|k: int| 0 <= k < before.len() ==> out@[k] == before[k],
                    forall|k: int| 0 <= k < x ==> #[trigger] out@[y * self.width + k] == self@[y as int][k],
                decreases self.width - x,
            {
                assert(self@[y as int].len() == self.width);
                out.push(self.rows[y][x]);
                x = x + 1;
            }
            assert forall|i: int, x: int|
                0 <= i < y + 1 && 0 <= x < self.width implies out@[i * self.width + x]
                    == #[trigger] self@[i][x] by {
                if i < y {
                    assert(i * self.width + x < y * self.width) by (nonlinear_arith)
                        requires
                            i < y,
                            x < self.width,
                    ;
                }
            }
            assert((y + 1) * self.width == y * self.width + self.width) by (nonlinear_arith);
            y = y + 1;
        }
        out
    }
}

} // verus!
