//! From a square grid of booleans (the thresholded blocks of an image) to
//! puzzle text and grid text.  The two functions here build exactly the
//! bytes that the image conversion tool writes to its output files.

use crate::board::Cell;
use crate::runs::{as_ints, lemma_runs_props, lemma_runs_push, runs_of};
use crate::render::dec_digits;
use vstd::prelude::*;

verus! {

/// A boolean line seen as cells: `true` is filled.
pub open spec fn cells_of_bools(l: Seq<bool>) -> Seq<Cell> {
    Seq::new(l.len(), |i: int| if l[i] {
        Cell::Filled
    } else {
        Cell::Empty
    })
}

/// Column `j` of a block grid.
pub open spec fn bool_col(bs: Seq<Vec<bool>>, j: int) -> Seq<bool> {
    Seq::new(bs.len(), |i: int| bs[i]@[j])
}

/// The run lengths of row `i` of the block grid.
pub open spec fn row_runs(bs: Seq<Vec<bool>>, i: int) -> Seq<int> {
    runs_of(cells_of_bools(bs[i]@))
}

/// The run lengths of column `j` of the block grid.
pub open spec fn col_runs(bs: Seq<Vec<bool>>, j: int) -> Seq<int> {
    runs_of(cells_of_bools(bool_col(bs, j)))
}

/// The first `k` runs rendered as digits, each followed by one space.
pub open spec fn runs_text(rs: Seq<int>, k: int) -> Seq<u8>
    decreases k,
{
    if k <= 0 {
        Seq::empty()
    } else {
        runs_text(rs, k - 1) + dec_digits(rs[k - 1]) + seq![32u8]
    }
}

/// The group separator: a pipe and a space.
pub open spec fn group_sep() -> Seq<u8> {
    seq![124u8, 32u8]
}

/// The first `k` row groups of the clue line, separated by `| `.
pub open spec fn row_clue_line(bs: Seq<Vec<bool>>, k: int) -> Seq<u8>
    decreases k,
{
    if k <= 0 {
        Seq::empty()
    } else {
        row_clue_line(bs, k - 1) + runs_text(row_runs(bs, k - 1), row_runs(bs, k - 1).len() as int)
            + (if k - 1 < bs.len() - 1 {
            group_sep()
        } else {
            Seq::empty()
        })
    }
}

/// The first `k` column groups of the clue line, separated by `| `.
pub open spec fn col_clue_line(bs: Seq<Vec<bool>>, k: int) -> Seq<u8>
    decreases k,
{
    if k <= 0 {
        Seq::empty()
    } else {
        col_clue_line(bs, k - 1) + runs_text(col_runs(bs, k - 1), col_runs(bs, k - 1).len() as int)
            + (if k - 1 < bs.len() - 1 {
            group_sep()
        } else {
            Seq::empty()
        })
    }
}

/// The whole puzzle file derived from the blocks: the row clue line, then
/// the column clue line.
pub open spec fn blocks_clue_text(bs: Seq<Vec<bool>>) -> Seq<u8> {
    row_clue_line(bs, bs.len() as int) + seq![10u8] + col_clue_line(bs, bs.len() as int) + seq![
        10u8,
    ]
}

/// Grid line `i` over the first `k` columns of the transposed blocks.
pub open spec fn grid_line(bs: Seq<Vec<bool>>, i: int, k: int) -> Seq<u8>
    decreases k,
{
    if k <= 0 {
        Seq::empty()
    } else {
        grid_line(bs, i, k - 1) + seq![
            (if bs[k - 1]@[i] {
                35u8
            } else {
                46u8
            }),
        ]
    }
}

/// The first `k` lines of the solution grid file.  Line `i` holds, for
/// every block column `j`, a `#` where block `(j, i)` is set.
pub open spec fn blocks_grid_text(bs: Seq<Vec<bool>>, k: int) -> Seq<u8>
    decreases k,
{
    if k <= 0 {
        Seq::empty()
    } else {
        blocks_grid_text(bs, k - 1) + grid_line(bs, k - 1, bs.len() as int) + seq![10u8]
    }
}

/// The run lengths of a boolean line.
fn bool_runs(v: &Vec<bool>) -> (r: Vec<u32>)
    requires
        v@.len() <= u32::MAX,
    ensures
        as_ints(r@) == runs_of(cells_of_bools(v@)),
{
    let ghost line = cells_of_bools(v@);
    let n = v.len();
    let mut runs: Vec<u32> = Vec::new();
    let mut i: usize = 0;
    while i < n
        invariant
            i <= n,
            n == v@.len(),
            n <= u32::MAX,
            line == cells_of_bools(v@),
            line.len() == n,
            as_ints(runs@) == runs_of(line.take(i as int)),
        decreases n - i,
    {
        proof {
            assert(line.take(i + 1) =~= line.take(i as int).push(line[i as int]));
            lemma_runs_push(line.take(i as int), line[i as int]);
            lemma_runs_props(line.take(i as int));
            if i > 0 {
                assert(line.take(i as int).last() == line[i - 1]);
            }
        }
        if v[i] {
            if i > 0 && v[i - 1] {
                let last = runs.len() - 1;
                let val = runs[last];
                runs[last] = val + 1;
                proof {
                    assert(as_ints(runs@) =~= runs_of(line.take(i + 1)));
                }
            } else {
                runs.push(1);
                proof {
                    assert(as_ints(runs@) =~= runs_of(line.take(i + 1)));
                }
            }
        }
        i += 1;
    }
    proof {
        assert(line.take(n as int) =~= line);
    }
    runs
}

/// Append the runs of one group: each value's digits, then a space.
fn push_runs(out: &mut Vec<u8>, runs: &Vec<u32>, rs: Ghost<Seq<int>>)
    requires
        as_ints(runs@) == rs@,
    ensures
        final(out)@ == old(out)@ + runs_text(rs@, rs@.len() as int),
{
    let mut k: usize = 0;
    while k < runs.len()
        invariant
            k <= runs@.len(),
            as_ints(runs@) == rs@,
            rs@.len() == runs@.len(),
            out@ == old(out)@ + runs_text(rs@, k as int),
        decreases runs@.len() - k,
    {
        crate::render::push_decimal(out, runs[k]);
        out.push(32);
        proof {
            assert(rs@[k as int] == runs@[k as int] as int);
            assert(out@ =~= old(out)@ + runs_text(rs@, k + 1));
        }
        k += 1;
    }
}

/// Build the puzzle file text for a square block grid: one line of row
/// clues, one line of column clues, groups separated by `| `.
pub fn blocks_to_puzzle_text(blocks: &Vec<Vec<bool>>) -> (out: Vec<u8>)
    requires
        blocks@.len() <= u32::MAX,
        forall|i: int| 0 <= i < blocks@.len() ==> (#[trigger] blocks@[i])@.len() == blocks@.len(),
    ensures
        out@ == blocks_clue_text(blocks@),
{
    let dim = blocks.len();
    let mut out: Vec<u8> = Vec::new();
    let mut i: usize = 0;
    while i < dim
        invariant
            i <= dim,
            dim == blocks@.len(),
            dim <= u32::MAX,
            forall|j: int| 0 <= j < blocks@.len() ==> (#[trigger] blocks@[j])@.len()
                == blocks@.len(),
            out@ == row_clue_line(blocks@, i as int),
        decreases dim - i,
    {
        let runs = bool_runs(&blocks[i]);
        push_runs(&mut out, &runs, Ghost(row_runs(blocks@, i as int)));
        if i != dim - 1 {
            out.push(124);
            out.push(32);
        }
        proof {
            assert(out@ =~= row_clue_line(blocks@, i as int + 1));
        }
        i += 1;
    }
    out.push(10);
    let ghost first = row_clue_line(blocks@, dim as int) + seq![10u8];
    proof {
        assert(out@ =~= first);
    }
    let mut j: usize = 0;
    while j < dim
        invariant
            j <= dim,
            dim == blocks@.len(),
            dim <= u32::MAX,
            forall|k: int| 0 <= k < blocks@.len() ==> (#[trigger] blocks@[k])@.len()
                == blocks@.len(),
            first == row_clue_line(blocks@, dim as int) + seq![10u8],
            out@ == first + col_clue_line(blocks@, j as int),
        decreases dim - j,
    {
        let mut colv: Vec<bool> = Vec::new();
        let mut r: usize = 0;
        while r < dim
            invariant
                r <= dim,
                j < dim,
                dim == blocks@.len(),
                forall|k: int| 0 <= k < blocks@.len() ==> (#[trigger] blocks@[k])@.len()
                    == blocks@.len(),
                colv@.len() == r,
                forall|k: int| 0 <= k < r ==> #[trigger] colv@[k] == blocks@[k]@[j as int],
            decreases dim - r,
        {
            colv.push(blocks[r][j]);
            r += 1;
        }
        proof {
            assert(colv@ =~= bool_col(blocks@, j as int));
        }
        let runs = bool_runs(&colv);
        push_runs(&mut out, &runs, Ghost(col_runs(blocks@, j as int)));
        if j != dim - 1 {
            out.push(124);
            out.push(32);
        }
        proof {
            assert(out@ =~= first + col_clue_line(blocks@, j as int + 1));
        }
        j += 1;
    }
    out.push(10);
    proof {
        assert(out@ =~= blocks_clue_text(blocks@));
    }
    out
}

/// Build the solution grid text for a square block grid: line `i` holds
/// `#` or `.` for blocks `(0, i)` through `(dim - 1, i)`.
pub fn blocks_to_grid_text(blocks: &Vec<Vec<bool>>) -> (out: Vec<u8>)
    requires
        forall|i: int| 0 <= i < blocks@.len() ==> (#[trigger] blocks@[i])@.len() == blocks@.len(),
    ensures
        out@ == blocks_grid_text(blocks@, blocks@.len() as int),
{
    let dim = blocks.len();
    let mut out: Vec<u8> = Vec::new();
    let mut i: usize = 0;
    while i < dim
        invariant
            i <= dim,
            dim == blocks@.len(),
            forall|k: int| 0 <= k < blocks@.len() ==> (#[trigger] blocks@[k])@.len()
                == blocks@.len(),
            out@ == blocks_grid_text(blocks@, i as int),
        decreases dim - i,
    {
        let mut j: usize = 0;
        while j < dim
            invariant
                j <= dim,
                i < dim,
                dim == blocks@.len(),
                forall|k: int| 0 <= k < blocks@.len() ==> (#[trigger] blocks@[k])@.len()
                    == blocks@.len(),
                out@ == blocks_grid_text(blocks@, i as int) + grid_line(blocks@, i as int, j as int),
            decreases dim - j,
        {
            let bv: u8 = if blocks[j][i] {
                35
            } else {
                46
            };
            out.push(bv);
            proof {
                assert(out@ =~= blocks_grid_text(blocks@, i as int) + grid_line(
                    blocks@,
                    i as int,
                    j as int + 1,
                ));
            }
            j += 1;
        }
        out.push(10);
        proof {
            assert(out@ =~= blocks_grid_text(blocks@, i as int + 1));
        }
        i += 1;
    }
    out
}

} // verus!
