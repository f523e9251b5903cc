//! Rendering of boards and solved puzzles as text: the grid as lines of
//! `#`/`.`, and a full solution with the column clues stacked above the
//! grid and the row clues to the left of each row.

use crate::board::{Board, Cell, FullSolution};
use vstd::prelude::*;

verus! {

/// The byte that renders one cell.
pub open spec fn cell_byte(c: Cell) -> u8 {
    if c == Cell::Filled {
        35
    } else {
        46
    }
}

/// One rendered board row.
pub open spec fn row_bytes(row: Seq<Cell>) -> Seq<u8> {
    Seq::new(row.len(), |i: int| cell_byte(row[i]))
}

/// The first `k` rows of the grid rendered as lines.
pub open spec fn board_text(g: Seq<Seq<Cell>>, k: int) -> Seq<u8>
    decreases k,
{
    if k <= 0 {
        Seq::empty()
    } else {
        board_text(g, k - 1) + row_bytes(g[k - 1]) + seq![10u8]
    }
}

/// The decimal digits of `n`, most significant first.
pub open spec fn dec_digits(n: int) -> Seq<u8>
    decreases n,
{
    if n <= 9 {
        seq![(48 + n) as u8]
    } else {
        dec_digits(n / 10) + seq![(48 + n % 10) as u8]
    }
}

/// `k` spaces.
pub open spec fn spaces(k: int) -> Seq<u8>
    decreases k,
{
    if k <= 0 {
        Seq::empty()
    } else {
        spaces(k - 1) + seq![32u8]
    }
}

/// The length of the longest clue list among the first `k`.
pub open spec fn max_len_upto(s: Seq<Vec<u32>>, k: int) -> int
    decreases k,
{
    if k <= 0 {
        0
    } else {
        let m = max_len_upto(s, k - 1);
        if s[k - 1]@.len() > m {
            s[k - 1]@.len() as int
        } else {
            m
        }
    }
}

/// The clue cells of header line `line` out of `upper`, over the first
/// `k` columns.  Each column's clue list is aligned to the bottom of the
/// stack: a list of length `l` starts on line `upper - l`, and lines above
/// that show a space for this column.
pub open spec fn header_cells(cols: Seq<Vec<u32>>, line: int, upper: int, k: int) -> Seq<u8>
    decreases k,
{
    if k <= 0 {
        Seq::empty()
    } else {
        header_cells(cols, line, upper, k - 1) + (if line >= upper - cols[k - 1]@.len() {
            dec_digits(cols[k - 1]@[line - (upper - cols[k - 1]@.len())] as int)
        } else {
            seq![32u8]
        })
    }
}

/// The first `k` of `upper` header lines: left padding, then one clue
/// cell per column, then a newline.
pub open spec fn header_lines(cols: Seq<Vec<u32>>, left: int, upper: int, k: int) -> Seq<u8>
    decreases k,
{
    if k <= 0 {
        Seq::empty()
    } else {
        header_lines(cols, left, upper, k - 1) + spaces(left) + header_cells(
            cols,
            k - 1,
            upper,
            cols.len() as int,
        ) + seq![10u8]
    }
}

/// The row clues of one board row, over the first `k` of `left` slots.
/// The clues are aligned to the right, against the grid: a list of length
/// `l` occupies the last `l` slots, and the slots before it are spaces.
pub open spec fn row_clue_cells(row: Vec<u32>, left: int, k: int) -> Seq<u8>
    decreases k,
{
    if k <= 0 {
        Seq::empty()
    } else {
        row_clue_cells(row, left, k - 1) + (if k - 1 >= left - row@.len() {
            dec_digits(row@[k - 1 - (left - row@.len())] as int)
        } else {
            seq![32u8]
        })
    }
}

/// The first `k` body lines: the row's clues, the row's cells, a newline.
pub open spec fn body_lines(rows: Seq<Vec<u32>>, g: Seq<Seq<Cell>>, left: int, k: int) -> Seq<u8>
    decreases k,
{
    if k <= 0 {
        Seq::empty()
    } else {
        body_lines(rows, g, left, k - 1) + row_clue_cells(rows[k - 1], left, left) + row_bytes(
            g[k - 1],
        ) + seq![10u8]
    }
}

/// The full rendering of a solved puzzle: the column clues stacked above
/// the grid and aligned to its top edge, the row clues right-aligned to
/// the widest row clue list, then the grid itself.
pub open spec fn solution_text(
    cols: Seq<Vec<u32>>,
    rows: Seq<Vec<u32>>,
    g: Seq<Seq<Cell>>,
) -> Seq<u8> {
    let upper = max_len_upto(cols, cols.len() as int);
    let left = max_len_upto(rows, rows.len() as int);
    header_lines(cols, left, upper, upper) + body_lines(rows, g, left, g.len() as int)
}

/// No clue list among the first `k` is longer than their maximum.
proof fn lemma_max_len_bound(s: Seq<Vec<u32>>, k: int, j: int)
    requires
        0 <= j < k <= s.len(),
    ensures
        s[j]@.len() <= max_len_upto(s, k),
    decreases k,
{
    if j < k - 1 {
        lemma_max_len_bound(s, k - 1, j);
    }
}

/// Append the decimal digits of `v`.
pub fn push_decimal(out: &mut Vec<u8>, v: u32)
    ensures
        final(out)@ == old(out)@ + dec_digits(v as int),
    decreases v,
{
    if v >= 10 {
        push_decimal(out, v / 10);
    }
    out.push(48 + ((v % 10) as u8));
    proof {
        assert(out@ =~= old(out)@ + dec_digits(v as int));
    }
}

/// The length of the longest clue list.
fn max_clue_len(s: &Vec<Vec<u32>>) -> (m: usize)
    ensures
        m as int == max_len_upto(s@, s@.len() as int),
{
    let mut m: usize = 0;
    let mut k: usize = 0;
    while k < s.len()
        invariant
            k <= s@.len(),
            m as int == max_len_upto(s@, k as int),
        decreases s@.len() - k,
    {
        if s[k].len() > m {
            m = s[k].len();
        }
        k += 1;
    }
    m
}

impl Board {
    /// Render the board: one line per row, `#` for filled, `.` for empty.
    pub fn render(&self) -> (out: Vec<u8>)
        ensures
            out@ == board_text(self@, self@.len() as int),
    {
        let n = self.table.len();
        let mut out: Vec<u8> = Vec::new();
        let mut r: usize = 0;
        while r < n
            invariant
                r <= n,
                n == self@.len(),
                out@ == board_text(self@, r as int),
            decreases n - r,
        {
            let len_r = self.table[r].len();
            let mut c: usize = 0;
            while c < len_r
                invariant
                    c <= len_r,
                    r < n,
                    n == self@.len(),
                    len_r == self@[r as int].len(),
                    out@ == board_text(self@, r as int) + row_bytes(self@[r as int]).take(
                        c as int,
                    ),
                decreases len_r - c,
            {
                let bv: u8 = match self.table[r][c] {
                    Cell::Filled => 35,
                    Cell::Empty => 46,
                };
                out.push(bv);
                proof {
                    assert(row_bytes(self@[r as int]).take(c + 1) =~= row_bytes(
                        self@[r as int],
                    ).take(c as int).push(cell_byte(self@[r as int][c as int])));
                    assert(out@ =~= board_text(self@, r as int) + row_bytes(
                        self@[r as int],
                    ).take(c + 1));
                }
                c += 1;
            }
            out.push(10);
            proof {
                assert(row_bytes(self@[r as int]).take(len_r as int) =~= row_bytes(
                    self@[r as int],
                ));
                assert(out@ =~= board_text(self@, r as int + 1));
            }
            r += 1;
        }
        out
    }
}

impl FullSolution {
    /// Render the solution: the column clues stacked above the grid,
    /// each list aligned to end just above its column, and the row clues
    /// right-aligned to the left of each row, followed by the grid itself.
    pub fn render(&self) -> (out: Vec<u8>)
        requires
            self.board@.len() <= self.puzzle.rows@.len(),
        ensures
            out@ == solution_text(self.puzzle.cols@, self.puzzle.rows@, self.board@),
    {
        let ghost cols = self.puzzle.cols@;
        let ghost rows = self.puzzle.rows@;
        let upper = max_clue_len(&self.puzzle.cols);
        let left = max_clue_len(&self.puzzle.rows);
        let mut out: Vec<u8> = Vec::new();
        let mut line: usize = 0;
        while line < upper
            invariant
                line <= upper,
                cols == self.puzzle.cols@,
                rows == self.puzzle.rows@,
                upper as int == max_len_upto(cols, cols.len() as int),
                left as int == max_len_upto(rows, rows.len() as int),
                out@ == header_lines(cols, left as int, upper as int, line as int),
            decreases upper - line,
        {
            let mut s: usize = 0;
            while s < left
                invariant
                    s <= left,
                    cols == self.puzzle.cols@,
                    out@ == header_lines(cols, left as int, upper as int, line as int) + spaces(
                        s as int,
                    ),
                decreases left - s,
            {
                out.push(32);
                proof {
                    assert(out@ =~= header_lines(cols, left as int, upper as int, line as int)
                        + spaces(s + 1));
                }
                s += 1;
            }
            let mut j: usize = 0;
            while j < self.puzzle.cols.len()
                invariant
                    j <= cols.len(),
                    line < upper,
                    cols == self.puzzle.cols@,
                    upper as int == max_len_upto(cols, cols.len() as int),
                    out@ == header_lines(cols, left as int, upper as int, line as int) + spaces(
                        left as int,
                    ) + header_cells(cols, line as int, upper as int, j as int),
                decreases cols.len() - j,
            {
                let lj = self.puzzle.cols[j].len();
                proof {
                    lemma_max_len_bound(cols, cols.len() as int, j as int);
                }
                if lj >= upper - line {
                    push_decimal(&mut out, self.puzzle.cols[j][line - (upper - lj)]);
                } else {
                    out.push(32);
                }
                proof {
                    assert(out@ =~= header_lines(cols, left as int, upper as int, line as int)
                        + spaces(left as int) + header_cells(
                        cols,
                        line as int,
                        upper as int,
                        j + 1,
                    ));
                }
                j += 1;
            }
            out.push(10);
            proof {
                assert(out@ =~= header_lines(cols, left as int, upper as int, line as int + 1));
            }
            line += 1;
        }
        proof {
            assert(upper as int == max_len_upto(cols, cols.len() as int));
        }
        let ghost hdr = header_lines(cols, left as int, upper as int, upper as int);
        let n = self.board.table.len();
        let mut i: usize = 0;
        while i < n
            invariant
                i <= n,
                n == self.board@.len(),
                n <= rows.len(),
                cols == self.puzzle.cols@,
                rows == self.puzzle.rows@,
                hdr == header_lines(cols, left as int, upper as int, upper as int),
                left as int == max_len_upto(rows, rows.len() as int),
                out@ == hdr + body_lines(rows, self.board@, left as int, i as int),
            decreases n - i,
        {
            let mut j: usize = 0;
            while j < left
                invariant
                    j <= left,
                    i < n,
                    n == self.board@.len(),
                    n <= rows.len(),
                    rows == self.puzzle.rows@,
                    left as int == max_len_upto(rows, rows.len() as int),
                    hdr == header_lines(cols, left as int, upper as int, upper as int),
                    out@ == hdr + body_lines(rows, self.board@, left as int, i as int)
                        + row_clue_cells(rows[i as int], left as int, j as int),
                decreases left - j,
            {
                let li = self.puzzle.rows[i].len();
                proof {
                    lemma_max_len_bound(rows, rows.len() as int, i as int);
                }
                if li >= left - j {
                    push_decimal(&mut out, self.puzzle.rows[i][j - (left - li)]);
                } else {
                    out.push(32);
                }
                proof {
                    assert(out@ =~= hdr + body_lines(rows, self.board@, left as int, i as int)
                        + row_clue_cells(rows[i as int], left as int, j + 1));
                }
                j += 1;
            }
            let len_i = self.board_row_len(i);
            let mut c: usize = 0;
            while c < len_i
                invariant
                    c <= len_i,
                    i < n,
                    n == self.board@.len(),
                    len_i == self.board@[i as int].len(),
                    hdr == header_lines(cols, left as int, upper as int, upper as int),
                    rows == self.puzzle.rows@,
                    out@ == hdr + body_lines(rows, self.board@, left as int, i as int)
                        + row_clue_cells(rows[i as int], left as int, left as int) + row_bytes(
                        self.board@[i as int],
                    ).take(c as int),
                decreases len_i - c,
            {
                let bv: u8 = match self.board.table[i][c] {
                    Cell::Filled => 35,
                    Cell::Empty => 46,
                };
                out.push(bv);
                proof {
                    assert(row_bytes(self.board@[i as int]).take(c + 1) =~= row_bytes(
                        self.board@[i as int],
                    ).take(c as int).push(cell_byte(self.board@[i as int][c as int])));
                    assert(out@ =~= hdr + body_lines(rows, self.board@, left as int, i as int)
                        + row_clue_cells(rows[i as int], left as int, left as int) + row_bytes(
                        self.board@[i as int],
                    ).take(c + 1));
                }
                c += 1;
            }
            out.push(10);
            proof {
                assert(row_bytes(self.board@[i as int]).take(len_i as int) =~= row_bytes(
                    self.board@[i as int],
                ));
                assert(out@ =~= hdr + body_lines(rows, self.board@, left as int, i as int + 1));
            }
            i += 1;
        }
        out
    }

    /// The length of one board row.
    fn board_row_len(&self, i: usize) -> (l: usize)
        requires
            i < self.board@.len(),
        ensures
            l == self.board@[i as int].len(),
    {
        self.board.table[i].len()
    }
}

} // verus!
