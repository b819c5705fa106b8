//! The tiling transforms of 4-bit index planes (one cell per nibble), for the
//! two tile shapes that occur: 32x32 and 64x64.
use vstd::prelude::*;

verus! {

/// One reordering step of the 4-bit transforms, as a permutation of positions.
#[derive(Clone, Copy, Debug, PartialEq, Eq, Structural)]
pub enum Step {
    /// Neighbouring cells `2k` and `2k + 1` trade places.
    SwapPairs,
    /// The 16 runs of 64 cells, stored in the order 0 8 1 9 ... 7 15, put in order.
    OrderRuns,
    /// In every pair of 32-cell rows, selected cells trade places with the cell
    /// below them.
    SwapRowPairCells,
    /// In every 32-cell row, every 8th cell gathered next to each other.
    GatherEighths,
    /// In every pair of rows, the left half of each group of eight in the upper
    /// row trades places with the right half of that group in the lower row.
    Unweave,
    /// In every row, the two halves of each odd group of eight trade places.
    SwapOddGroupHalves,
    /// In every group of four rows, the middle two rows trade places.
    SwapMiddleRows,
    /// In every group of eight rows, the even rows taken from the first four and
    /// the odd rows from the last four.
    InterleaveRows,
    /// In each 64-cell row, cells move between the two halves in 3-cycles whose
    /// direction depends on the row's band of eight.
    RotateHalves64,
    /// Each 32x32 quarter of a 64x64 plane goes through `GatherEighths` and then
    /// `InterleaveRows`.
    QuarterChunks64,
    /// The final row interleave of the 64x64 transform.
    Remap64,
}

/// Number of cells that a step works on (0 for `SwapPairs`, which works on any
/// even number).
pub open spec fn step_len(s: Step) -> int {
    match s {
        Step::SwapPairs => 0,
        Step::RotateHalves64 | Step::QuarterChunks64 | Step::Remap64 => 4096,
        _ => 1024,
    }
}

/// Source row, in a 32-wide plane, of row `i` under `InterleaveRows`.
pub open spec fn interleave_row_source(i: int) -> int {
    i / 8 * 8 + i % 8 / 2 + if i % 2 == 1 {
        4int
    } else {
        0int
    }
}

/// Whether cell `(2i + t, j)` of a 32-wide plane trades with its row-pair
/// partner under `SwapRowPairCells`.
pub open spec fn row_pair_swaps(i: int, j: int) -> bool {
    (i / 2 % 2 == 0 && (j % 4 == 1 || j % 4 == 2)) || (i / 2 % 2 == 1 && (j % 4 == 0 || j % 4
        == 3))
}

/// First cell of the block that `Remap64` reads for output row pair `i`.
pub open spec fn remap_base(i: int) -> int {
    i % 16 / 4 * 16 * 32 + i / 16 * 4 * 32 + (1 - i / 2 % 2) * 32
}

/// Position, in a 64x64 plane, of cell `l` of the 32x32 quarter `(h, w)`.
pub open spec fn quarter_pos(h: int, w: int, l: int) -> int {
    (h * 32 + l / 32) * 64 + w * 32 + l % 32
}

/// Source of cell `p` under `GatherEighths`.
#[verifier::opaque]
pub open spec fn gather_source(p: int) -> int {
    p / 32 * 32 + (p % 32 % 4) * 8 + p % 32 / 4
}

/// Source of cell `p` under `InterleaveRows`.
#[verifier::opaque]
pub open spec fn interleave_source(p: int) -> int {
    interleave_row_source(p / 32) * 32 + p % 32
}

/// Source of cell `p` under `OrderRuns`.
#[verifier::opaque]
pub open spec fn order_runs_source(p: int) -> int {
    if p < 512 {
        128 * (p / 64) + p % 64
    } else {
        (2 * ((p - 512) / 64) + 1) * 64 + (p - 512) % 64
    }
}

/// Source of cell `p` under `SwapRowPairCells`.
#[verifier::opaque]
pub open spec fn row_pair_source(p: int) -> int {
    let r = p / 32;
    if row_pair_swaps(r / 2, p % 32) {
        if r % 2 == 0 {
            p + 32
        } else {
            p - 32
        }
    } else {
        p
    }
}

/// Source of cell `p` under `Unweave`.
#[verifier::opaque]
pub open spec fn unweave_source(p: int) -> int {
    let r = p / 32;
    let c = p % 32;
    if r % 2 == 0 && c % 8 < 4 {
        p + 36
    } else if r % 2 == 1 && c % 8 >= 4 {
        p - 36
    } else {
        p
    }
}

/// Source of cell `p` under `SwapOddGroupHalves`.
#[verifier::opaque]
pub open spec fn odd_group_source(p: int) -> int {
    let c = p % 32;
    if (c / 8) % 2 == 1 {
        if c % 8 < 4 {
            p + 4
        } else {
            p - 4
        }
    } else {
        p
    }
}

/// Source of cell `p` under `SwapMiddleRows`.
#[verifier::opaque]
pub open spec fn middle_rows_source(p: int) -> int {
    let r = p / 32;
    if r % 4 == 1 {
        p + 32
    } else if r % 4 == 2 {
        p - 32
    } else {
        p
    }
}

/// Source column, inside its 64-cell row `r`, of column `c` under
/// `RotateHalves64`.
#[verifier::opaque]
pub open spec fn rotate_column_source(r: int, c: int) -> int {
    if (r / 8) % 2 == 1 {
        if c < 32 && c % 2 == 1 {
            c + 31
        } else if c >= 32 && c % 2 == 0 {
            c + 1
        } else if c >= 32 && c % 2 == 1 {
            c - 32
        } else {
            c
        }
    } else {
        if c >= 32 && c % 2 == 0 {
            c - 31
        } else if c < 32 && c % 2 == 1 {
            c - 1
        } else if c < 32 && c % 2 == 0 {
            c + 32
        } else {
            c
        }
    }
}

/// Source of cell `p` under `QuarterChunks64`.
#[verifier::opaque]
pub open spec fn quarter_chunks_source(p: int) -> int {
    let r = p / 64;
    let c = p % 64;
    quarter_pos(r / 32, c / 32, gather_source(interleave_source((r % 32) * 32 + c % 32)))
}

/// Source of cell `p` under `Remap64`.
#[verifier::opaque]
pub open spec fn remap_source(p: int) -> int {
    let r = p / 64;
    let c = p % 64;
    if c < 32 {
        remap_base(r - r % 2) + c + (r % 2) * 64
    } else {
        remap_base(r - r % 2 + 1) + 2048 + (c - 32) + (r % 2) * 64
    }
}

/// Where output cell `p` takes its value from under step `s`.
pub open spec fn source(s: Step, p: int) -> int {
    match s {
        Step::SwapPairs => if p % 2 == 0 {
            p + 1
        } else {
            p - 1
        },
        Step::OrderRuns => order_runs_source(p),
        Step::SwapRowPairCells => row_pair_source(p),
        Step::GatherEighths => gather_source(p),
        Step::Unweave => unweave_source(p),
        Step::SwapOddGroupHalves => odd_group_source(p),
        Step::SwapMiddleRows => middle_rows_source(p),
        Step::InterleaveRows => interleave_source(p),
        Step::RotateHalves64 => p / 64 * 64 + rotate_column_source(p / 64, p % 64),
        Step::QuarterChunks64 => quarter_chunks_source(p),
        Step::Remap64 => remap_source(p),
    }
}

/// `a` with step `s` applied: cell `p` taken from position `source(s, p)`.
pub open spec fn apply(a: Seq<u16>, s: Step) -> Seq<u16> {
    Seq::new(a.len(), |p: int| a[source(s, p)])
}

/// The whole 32x32 transform.
pub open spec fn converted32(a: Seq<u16>) -> Seq<u16> {
    apply(
        apply(
            apply(
                apply(
                    apply(apply(apply(a, Step::SwapPairs), Step::OrderRuns), Step::SwapRowPairCells),
                    Step::GatherEighths,
                ),
                Step::Unweave,
            ),
            Step::SwapOddGroupHalves,
        ),
        Step::SwapMiddleRows,
    )
}

/// The 32x32 quarter transform used inside the 64x64 one.
pub open spec fn converted_quarter(a: Seq<u16>) -> Seq<u16> {
    apply(apply(a, Step::GatherEighths), Step::InterleaveRows)
}

/// The whole 64x64 transform.
pub open spec fn converted64(a: Seq<u16>) -> Seq<u16> {
    apply(
        apply(apply(apply(a, Step::SwapPairs), Step::RotateHalves64), Step::QuarterChunks64),
        Step::Remap64,
    )
}

proof fn lemma_order_runs_source_range(p: int)
    requires
        0 <= p < 1024,
    ensures
        0 <= order_runs_source(p) < 1024,
{
    reveal(order_runs_source);
}

proof fn lemma_row_pair_source_range(p: int)
    requires
        0 <= p < 1024,
    ensures
        0 <= row_pair_source(p) < 1024,
{
    reveal(row_pair_source);
}

proof fn lemma_unweave_source_range(p: int)
    requires
        0 <= p < 1024,
    ensures
        0 <= unweave_source(p) < 1024,
{
    reveal(unweave_source);
}

proof fn lemma_odd_group_source_range(p: int)
    requires
        0 <= p < 1024,
    ensures
        0 <= odd_group_source(p) < 1024,
{
    reveal(odd_group_source);
}

proof fn lemma_middle_rows_source_range(p: int)
    requires
        0 <= p < 1024,
    ensures
        0 <= middle_rows_source(p) < 1024,
{
    reveal(middle_rows_source);
}

proof fn lemma_quarter_chunks_source_range(p: int)
    requires
        0 <= p < 4096,
    ensures
        0 <= quarter_chunks_source(p) < 4096,
{
    reveal(quarter_chunks_source);
    let r = p / 64;
    let c = p % 64;
    let l = (r % 32) * 32 + c % 32;
    lemma_interleave_source_range(l);
    lemma_gather_source_range(interleave_source(l));
}

proof fn lemma_remap_source_range(p: int)
    requires
        0 <= p < 4096,
    ensures
        0 <= remap_source(p) < 4096,
{
    reveal(remap_source);
}

proof fn lemma_gather_source_range(p: int)
    requires
        0 <= p < 1024,
    ensures
        0 <= gather_source(p) < 1024,
{
    reveal(gather_source);
}

proof fn lemma_interleave_source_range(p: int)
    requires
        0 <= p < 1024,
    ensures
        0 <= interleave_source(p) < 1024,
{
    reveal(interleave_source);
}

proof fn lemma_rotate_column_source_range(r: int, c: int)
    requires
        0 <= c < 64,
    ensures
        0 <= rotate_column_source(r, c) < 64,
{
    reveal(rotate_column_source);
}

pub(crate) proof fn lemma_source_in_range(s: Step, n: int, p: int)
    requires
        s != Step::SwapPairs ==> n == step_len(s),
        s == Step::SwapPairs ==> n % 2 == 0,
        0 <= p < n,
    ensures
        0 <= source(s, p) < n,
{
    match s {
        Step::SwapPairs => {},
        Step::OrderRuns => lemma_order_runs_source_range(p),
        Step::SwapRowPairCells => lemma_row_pair_source_range(p),
        Step::GatherEighths => lemma_gather_source_range(p),
        Step::Unweave => lemma_unweave_source_range(p),
        Step::SwapOddGroupHalves => lemma_odd_group_source_range(p),
        Step::SwapMiddleRows => lemma_middle_rows_source_range(p),
        Step::InterleaveRows => lemma_interleave_source_range(p),
        Step::RotateHalves64 => lemma_rotate_column_source_range(p / 64, p % 64),
        Step::QuarterChunks64 => lemma_quarter_chunks_source_range(p),
        Step::Remap64 => lemma_remap_source_range(p),
    }
}

fn interleave_row_source_exec(i: usize) -> (r: usize)
    requires
        i < 32,
    ensures
        r == interleave_row_source(i as int),
{
    i / 8 * 8 + i % 8 / 2 + if i % 2 == 1 {
        4
    } else {
        0
    }
}

fn remap_base_exec(i: usize) -> (r: usize)
    requires
        i < 64,
    ensures
        r == remap_base(i as int),
{
    i % 16 / 4 * 16 * 32 + i / 16 * 4 * 32 + (1 - i / 2 % 2) * 32
}

fn gather_source_exec(p: usize) -> (r: usize)
    requires
        p < 1024,
    ensures
        r == gather_source(p as int),
{
    reveal(gather_source);
    p / 32 * 32 + (p % 32 % 4) * 8 + p % 32 / 4
}

fn interleave_source_exec(p: usize) -> (r: usize)
    requires
        p < 1024,
    ensures
        r == interleave_source(p as int),
{
    reveal(interleave_source);
    interleave_row_source_exec(p / 32) * 32 + p % 32
}

fn row_pair_source_exec(p: usize) -> (r: usize)
    requires
        p < 1024,
    ensures
        r == row_pair_source(p as int),
{
    reveal(row_pair_source);
    let r = p / 32;
    let j = p % 32;
    let i = r / 2;
    let swaps = (i / 2 % 2 == 0 && (j % 4 == 1 || j % 4 == 2)) || (i / 2 % 2 == 1 && (j % 4 == 0
        || j % 4 == 3));
    if swaps {
        if r % 2 == 0 {
            p + 32
        } else {
            p - 32
        }
    } else {
        p
    }
}

fn rotate_column_source_exec(r: usize, c: usize) -> (s: usize)
    requires
        c < 64,
    ensures
        s == rotate_column_source(r as int, c as int),
{
    reveal(rotate_column_source);
    if (r / 8) % 2 == 1 {
        if c < 32 && c % 2 == 1 {
            c + 31
        } else if c >= 32 && c % 2 == 0 {
            c + 1
        } else if c >= 32 && c % 2 == 1 {
            c - 32
        } else {
            c
        }
    } else {
        if c >= 32 && c % 2 == 0 {
            c - 31
        } else if c < 32 && c % 2 == 1 {
            c - 1
        } else if c < 32 && c % 2 == 0 {
            c + 32
        } else {
            c
        }
    }
}

fn quarter_chunks_source_exec(p: usize) -> (r: usize)
    requires
        p < 4096,
    ensures
        r == quarter_chunks_source(p as int),
{
    reveal(quarter_chunks_source);
    let r = p / 64;
    let c = p % 64;
    let l = (r % 32) * 32 + c % 32;
    let i = interleave_source_exec(l);
    proof {
        lemma_interleave_source_range(l as int);
    }
    let l2 = gather_source_exec(i);
    proof {
        lemma_gather_source_range(i as int);
    }
    (r / 32 * 32 + l2 / 32) * 64 + c / 32 * 32 + l2 % 32
}

fn remap_source_exec(p: usize) -> (r: usize)
    requires
        p < 4096,
    ensures
        r == remap_source(p as int),
{
    reveal(remap_source);
    let r = p / 64;
    let c = p % 64;
    if c < 32 {
        remap_base_exec(r - r % 2) + c + (r % 2) * 64
    } else {
        remap_base_exec(r - r % 2 + 1) + 2048 + (c - 32) + (r % 2) * 64
    }
}

fn source_exec(s: Step, n: usize, p: usize) -> (r: usize)
    requires
        s != Step::SwapPairs ==> n == step_len(s),
        s == Step::SwapPairs ==> n % 2 == 0,
        p < n,
    ensures
        r == source(s, p as int),
{
    reveal(order_runs_source);
    reveal(unweave_source);
    reveal(odd_group_source);
    reveal(middle_rows_source);
    match s {
        Step::SwapPairs => if p % 2 == 0 {
            p + 1
        } else {
            p - 1
        },
        Step::OrderRuns => if p < 512 {
            128 * (p / 64) + p % 64
        } else {
            (2 * ((p - 512) / 64) + 1) * 64 + (p - 512) % 64
        },
        Step::SwapRowPairCells => row_pair_source_exec(p),
        Step::GatherEighths => gather_source_exec(p),
        Step::Unweave => {
            let r = p / 32;
            let c = p % 32;
            if r % 2 == 0 && c % 8 < 4 {
                p + 36
            } else if r % 2 == 1 && c % 8 >= 4 {
                p - 36
            } else {
                p
            }
        },
        Step::SwapOddGroupHalves => {
            let c = p % 32;
            if (c / 8) % 2 == 1 {
                if c % 8 < 4 {
                    p + 4
                } else {
                    p - 4
                }
            } else {
                p
            }
        },
        Step::SwapMiddleRows => {
            let r = p / 32;
            if r % 4 == 1 {
                p + 32
            } else if r % 4 == 2 {
                p - 32
            } else {
                p
            }
        },
        Step::InterleaveRows => interleave_source_exec(p),
        Step::RotateHalves64 => {
            proof {
                lemma_rotate_column_source_range(p as int / 64, p as int % 64);
            }
            p / 64 * 64 + rotate_column_source_exec(p / 64, p % 64)
        },
        Step::QuarterChunks64 => quarter_chunks_source_exec(p),
        Step::Remap64 => remap_source_exec(p),
    }
}

/// Applies step `s` to the cells of `a`.
fn apply_step(a: &mut Vec<u16>, s: Step)
    requires
        s != Step::SwapPairs ==> old(a)@.len() == step_len(s),
        s == Step::SwapPairs ==> old(a)@.len() % 2 == 0,
    ensures
        final(a)@ == apply(old(a)@, s),
{
    let n = a.len();
    let mut out: Vec<u16> = Vec::new();
    let mut p: usize = 0;
    while p < n
        invariant
            n == a@.len(),
            s != Step::SwapPairs ==> n == step_len(s),
            s == Step::SwapPairs ==> n % 2 == 0,
            p <= n,
            out@.len() == p,
            forall|k: int| 0 <= k < p ==> #[trigger] out@[k] == a@[source(s, k)],
        decreases n - p,
    {
        proof {
            lemma_source_in_range(s, n as int, p as int);
        }
        let src = source_exec(s, n, p);
        out.push(a[src]);
        p = p + 1;
    }
    assert(out@ =~= apply(a@, s));
    *a = out;
}

/// Turns a stored 32x32 4-bit plane (one cell per nibble, row-major) into a
/// linear plane.
pub fn convert32x32(array: &mut Vec<u16>)
    requires
        old(array)@.len() == 1024,
    ensures
        final(array)@ == converted32(old(array)@),
{
    apply_step(array, Step::SwapPairs);
    apply_step(array, Step::OrderRuns);
    apply_step(array, Step::SwapRowPairCells);
    apply_step(array, Step::GatherEighths);
    apply_step(array, Step::Unweave);
    apply_step(array, Step::SwapOddGroupHalves);
    apply_step(array, Step::SwapMiddleRows);
}

// unscramble one 32x32 quarter of a 64x64 4-bit plane
fn convert_4bit(array: &mut Vec<u16>)
    requires
        old(array)@.len() == 1024,
    ensures
        final(array)@ == converted_quarter(old(array)@),
{
    apply_step(array, Step::GatherEighths);
    apply_step(array, Step::InterleaveRows);
}

/// Turns a stored 64x64 4-bit plane (one cell per nibble, row-major) into a
/// linear plane.
pub fn convert64x64_4bit(array: &mut Vec<u16>)
    requires
        old(array)@.len() == 4096,
    ensures
        final(array)@ == converted64(old(array)@),
{
    apply_step(array, Step::SwapPairs);
    apply_step(array, Step::RotateHalves64);
    let ghost rotated = array@;
    let mut quarters: Vec<Vec<u16>> = Vec::new();
    let mut k: usize = 0;
    while k < 4
        invariant
            array@ == rotated,
            rotated.len() == 4096,
            k <= 4,
            quarters@.len() == k,
            forall|j: int|
                0 <= j < k ==> #[trigger] quarters@[j]@ == converted_quarter(
                    Seq::new(1024, |l: int| rotated[quarter_pos(j / 2, j % 2, l)]),
                ),
        decreases 4 - k,
    {
        let h = k / 2;
        let w = k % 2;
        let mut chunk: Vec<u16> = Vec::new();
        let mut l: usize = 0;
        while l < 1024
            invariant
                array@ == rotated,
                rotated.len() == 4096,
                k < 4,
                h == k / 2,
                w == k % 2,
                l <= 1024,
                chunk@.len() == l,
                forall|i: int|
                    0 <= i < l ==> #[trigger] chunk@[i] == rotated[quarter_pos(h as int, w as int, i)],
            decreases 1024 - l,
        {
            chunk.push(array[(h * 32 + l / 32) * 64 + w * 32 + l % 32]);
            l = l + 1;
        }
        assert(chunk@ =~= Seq::new(1024, |l: int| rotated[quarter_pos(h as int, w as int, l)]));
        convert_4bit(&mut chunk);
        quarters.push(chunk);
        k = k + 1;
    }
    let mut out: Vec<u16> = Vec::new();
    let mut p: usize = 0;
    while p < 4096
        invariant
            array@ == rotated,
            rotated.len() == 4096,
            quarters@.len() == 4,
            forall|j: int|
                0 <= j < 4 ==> #[trigger] quarters@[j]@ == converted_quarter(
                    Seq::new(1024, |l: int| rotated[quarter_pos(j / 2, j % 2, l)]),
                ),
            p <= 4096,
            out@.len() == p,
            forall|i: int| 0 <= i < p ==> #[trigger] out@[i] == apply(rotated, Step::QuarterChunks64)[i],
        decreases 4096 - p,
    {
        let r = p / 64;
        let c = p % 64;
        let j = r / 32 * 2 + c / 32;
        let l = (r % 32) * 32 + c % 32;
        proof {
            let q = Seq::new(1024, |l: int| rotated[quarter_pos(j as int / 2, j as int % 2, l)]);
            lemma_source_in_range(Step::InterleaveRows, 1024, l as int);
            lemma_source_in_range(Step::GatherEighths, 1024, interleave_source(l as int));
            assert(quarters@[j as int]@[l as int] == q[gather_source(interleave_source(l as int))]);
            reveal(quarter_chunks_source);
            assert(j as int / 2 == r as int / 32 && j as int % 2 == c as int / 32);
            assert(out@.push(quarters@[j as int]@[l as int])[p as int] == apply(
                rotated,
                Step::QuarterChunks64,
            )[p as int]);
        }
        out.push(quarters[j][l]);
        p = p + 1;
    }
    assert(out@ =~= apply(rotated, Step::QuarterChunks64));
    *array = out;
    apply_step(array, Step::Remap64);
}

} // verus!
