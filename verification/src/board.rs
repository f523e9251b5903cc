//! The grid model: cells, boards, puzzles, and the derivation of a
//! puzzle's clue lists from a completed board.

use crate::runs::{as_ints, lemma_runs_props, lemma_runs_push, runs_of};
use vstd::prelude::*;

verus! {

/// One cell of a board: filled or empty.  The search never stores an
/// "unknown" state; unassigned cells simply stay `Empty` until visited.
#[derive(Clone, Copy, Debug, PartialEq, Eq, Structural)]
pub enum Cell {
    Empty,
    Filled,
}

/// Puzzle input: `rows[i]` and `cols[j]` list the run lengths of row `i`
/// and column `j`, left to right and top to bottom.  Only square puzzles
/// are supported: `rows` and `cols` must have the same length.
#[derive(Clone, Debug, PartialEq, Eq)]
pub struct Puzzle {
    pub rows: Vec<Vec<u32>>,
    pub cols: Vec<Vec<u32>>,
}

/// A square matrix of cells, the shape a solution takes.
#[derive(Clone, Debug, PartialEq, Eq)]
pub struct Board {
    pub table: Vec<Vec<Cell>>,
}

/// A solved board together with the puzzle it answers, ready for rendering.
pub struct FullSolution {
    pub board: Board,
    pub puzzle: Puzzle,
}

impl View for Board {
    type V = Seq<Seq<Cell>>;

    open spec fn view(&self) -> Seq<Seq<Cell>> {
        Seq::new(self.table@.len(), |i: int| self.table@[i]@)
    }
}

/// The grid is square: as many cells in every row as there are rows.
pub open spec fn grid_wf(g: Seq<Seq<Cell>>) -> bool {
    forall|i: int| 0 <= i < g.len() ==> (#[trigger] g[i]).len() == g.len()
}

/// Column `j` of the grid, top to bottom.
pub open spec fn col_of(g: Seq<Seq<Cell>>, j: int) -> Seq<Cell> {
    Seq::new(g.len(), |i: int| g[i][j])
}

/// The clue lists of `p` match the run lengths derived from the grid `g`,
/// row by row and column by column.  This is what it means for a board to
/// solve a puzzle.
pub open spec fn is_solution(p: Puzzle, g: Seq<Seq<Cell>>) -> bool {
    &&& p.rows@.len() == g.len()
    &&& p.cols@.len() == g.len()
    &&& forall|i: int| 0 <= i < g.len() ==> as_ints(#[trigger] p.rows@[i]@) == runs_of(g[i])
    &&& forall|j: int| 0 <= j < g.len() ==> as_ints(#[trigger] p.cols@[j]@) == runs_of(
        col_of(g, j),
    )
}

/// Structural equality of two puzzles: the same clue lists on both axes.
pub open spec fn puzzle_eq(a: Puzzle, b: Puzzle) -> bool {
    &&& a.rows@.len() == b.rows@.len()
    &&& a.cols@.len() == b.cols@.len()
    &&& forall|i: int| 0 <= i < a.rows@.len() ==> #[trigger] a.rows@[i]@ == b.rows@[i]@
    &&& forall|j: int| 0 <= j < a.cols@.len() ==> #[trigger] a.cols@[j]@ == b.cols@[j]@
}

impl Cell {
    /// The display glyph: `#` for a filled cell, `.` for an empty one.
    pub fn repr(&self) -> (c: char)
        ensures
            c == (if self is Filled {
                '#'
            } else {
                '.'
            }),
    {
        match self {
            Cell::Empty => '.',
            Cell::Filled => '#',
        }
    }
}

impl Puzzle {
    /// Side length of the puzzle, which must be square.
    pub fn size(&self) -> (n: usize)
        requires
            self.rows@.len() == self.cols@.len(),
        ensures
            n == self.cols@.len(),
    {
        self.cols.len()
    }
}

impl Board {
    /// Side length of the board, which must be square.
    pub fn size(&self) -> (n: usize)
        requires
            grid_wf(self@),
        ensures
            n == self@.len(),
    {
        if self.table.is_empty() {
            return 0;
        }
        self.table.len()
    }

    /// The run lengths derived from column `col`, top to bottom.
    pub fn from_col(&self, col: usize) -> (r: Vec<u32>)
        requires
            grid_wf(self@),
            col < self@.len(),
            self@.len() <= u32::MAX,
        ensures
            as_ints(r@) == runs_of(col_of(self@, col as int)),
    {
        let ghost line = col_of(self@, col as int);
        let n = self.size();
        let mut cols: Vec<u32> = Vec::new();
        let mut i: usize = 0;
        while i < n
            invariant
                grid_wf(self@),
                col < self@.len(),
                self@.len() <= u32::MAX,
                n == self@.len(),
                line == col_of(self@, col as int),
                i <= n,
                as_ints(cols@) == runs_of(line.take(i as int)),
            decreases n - i,
        {
            proof {
                assert(line.take(i + 1) =~= line.take(i as int).push(line[i as int]));
                lemma_runs_push(line.take(i as int), line[i as int]);
                lemma_runs_props(line.take(i as int));
                assert(line[i as int] == self@[i as int][col as int]);
                if i > 0 {
                    assert(line.take(i as int).last() == line[i - 1]);
                    assert(line[i - 1] == self@[i - 1][col as int]);
                }
            }
            if self.table[i][col] == Cell::Filled {
                if i > 0 && self.table[i - 1][col] == Cell::Filled {
                    let last = cols.len() - 1;
                    let v = cols[last];
                    cols[last] = v + 1;
                    proof {
                        assert(as_ints(cols@) =~= runs_of(line.take(i + 1)));
                    }
                } else {
                    cols.push(1);
                    proof {
                        assert(as_ints(cols@) =~= runs_of(line.take(i + 1)));
                    }
                }
            }
            i += 1;
        }
        proof {
            assert(line.take(n as int) =~= line);
        }
        cols
    }

    /// The run lengths derived from row `row`, left to right.
    pub fn from_row(&self, row: usize) -> (r: Vec<u32>)
        requires
            grid_wf(self@),
            row < self@.len(),
            self@.len() <= u32::MAX,
        ensures
            as_ints(r@) == runs_of(self@[row as int]),
    {
        let ghost line = self@[row as int];
        let n = self.size();
        let mut rows: Vec<u32> = Vec::new();
        let mut i: usize = 0;
        while i < n
            invariant
                grid_wf(self@),
                row < self@.len(),
                self@.len() <= u32::MAX,
                n == self@.len(),
                line == self@[row as int],
                i <= n,
                as_ints(rows@) == runs_of(line.take(i as int)),
            decreases n - i,
        {
            proof {
                assert(line.take(i + 1) =~= line.take(i as int).push(line[i as int]));
                lemma_runs_push(line.take(i as int), line[i as int]);
                lemma_runs_props(line.take(i as int));
                if i > 0 {
                    assert(line.take(i as int).last() == line[i - 1]);
                }
            }
            if self.table[row][i] == Cell::Filled {
                if i > 0 && self.table[row][i - 1] == Cell::Filled {
                    let last = rows.len() - 1;
                    let v = rows[last];
                    rows[last] = v + 1;
                    proof {
                        assert(as_ints(rows@) =~= runs_of(line.take(i + 1)));
                    }
                } else {
                    rows.push(1);
                    proof {
                        assert(as_ints(rows@) =~= runs_of(line.take(i + 1)));
                    }
                }
            }
            i += 1;
        }
        proof {
            assert(line.take(n as int) =~= line);
        }
        rows
    }

    /// Overwrite the single cell at row `x`, column `y`.
    pub fn set_cell(&mut self, x: usize, y: usize, c: Cell)
        requires
            x < old(self)@.len(),
            y < old(self)@[x as int].len(),
        ensures
            final(self)@ == old(self)@.update(
                x as int,
                old(self)@[x as int].update(y as int, c),
            ),
    {
        self.table[x][y] = c;
        proof {
            assert(self@ =~= old(self)@.update(
                x as int,
                old(self)@[x as int].update(y as int, c),
            ));
        }
    }

    /// An independent copy of the board, used once per search branch so a
    /// failed branch leaves no residue in its parent's board.
    pub fn duplicate(&self) -> (r: Board)
        ensures
            r@ == self@,
    {
        let mut table: Vec<Vec<Cell>> = Vec::new();
        let mut i: usize = 0;
        while i < self.table.len()
            invariant
                i <= self@.len(),
                table@.len() == i,
                forall|k: int| 0 <= k < i ==> #[trigger] table@[k]@ == self@[k],
            decreases self@.len() - i,
        {
            let mut row: Vec<Cell> = Vec::new();
            let mut j: usize = 0;
            while j < self.table[i].len()
                invariant
                    i < self@.len(),
                    j <= self@[i as int].len(),
                    row@.len() == j,
                    forall|k: int| 0 <= k < j ==> #[trigger] row@[k] == self@[i as int][k],
                decreases self@[i as int].len() - j,
            {
                row.push(self.table[i][j]);
                j += 1;
            }
            proof {
                assert(row@ =~= self@[i as int]);
            }
            table.push(row);
            i += 1;
        }
        let r = Board { table };
        proof {
            assert(r@ =~= self@);
        }
        r
    }
}

/// Compare two clue lists for exact equality.
pub fn clues_eq(a: &Vec<u32>, b: &Vec<u32>) -> (r: bool)
    ensures
        r == (a@ == b@),
{
    if a.len() != b.len() {
        proof {
            assert(a@ != b@);
        }
        return false;
    }
    let mut k: usize = 0;
    while k < a.len()
        invariant
            k <= a@.len(),
            a@.len() == b@.len(),
            forall|j: int| 0 <= j < k ==> #[trigger] a@[j] == b@[j],
        decreases a@.len() - k,
    {
        if a[k] != b[k] {
            proof {
                assert(a@[k as int] != b@[k as int]);
            }
            return false;
        }
        k += 1;
    }
    proof {
        assert(a@ =~= b@);
    }
    true
}

/// Derive the clue lists of a completed board: the run lengths of every
/// row and every column.  The result is the unique puzzle that the board
/// solves.
pub fn derive_puzzle(board: &Board) -> (p: Puzzle)
    requires
        grid_wf(board@),
        board@.len() <= u32::MAX,
    ensures
        is_solution(p, board@),
{
    let n = board.size();
    let mut rows: Vec<Vec<u32>> = Vec::new();
    let mut i: usize = 0;
    while i < n
        invariant
            grid_wf(board@),
            board@.len() <= u32::MAX,
            n == board@.len(),
            i <= n,
            rows@.len() == i,
            forall|k: int| 0 <= k < i ==> as_ints(#[trigger] rows@[k]@) == runs_of(board@[k]),
        decreases n - i,
    {
        rows.push(board.from_row(i));
        i += 1;
    }
    let mut cols: Vec<Vec<u32>> = Vec::new();
    let mut j: usize = 0;
    while j < n
        invariant
            grid_wf(board@),
            board@.len() <= u32::MAX,
            n == board@.len(),
            j <= n,
            cols@.len() == j,
            forall|k: int| 0 <= k < j ==> as_ints(#[trigger] cols@[k]@) == runs_of(
                col_of(board@, k),
            ),
        decreases n - j,
    {
        cols.push(board.from_col(j));
        j += 1;
    }
    Puzzle { rows, cols }
}

} // verus!
