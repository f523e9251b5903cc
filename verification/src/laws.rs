//! Properties that tie the library's pieces together, stated and proved
//! once and for all inputs.

use crate::board::{col_of, grid_wf, is_solution, puzzle_eq, Cell, Puzzle};
use crate::runs::{
    as_ints, lemma_as_ints_eq, lemma_consistent_prefix, lemma_runs_empty, line_consistent,
    runs_of,
};
use crate::solve::{cell_at, filled_first_from, prefix_eq};
use vstd::arithmetic::div_mod::{lemma_fundamental_div_mod, lemma_mod_bound};
use vstd::prelude::*;

verus! {

/// Two grids that agree below index `m` hold the same cell at any index
/// below `m`.
proof fn lemma_prefix_eq_cell(g: Seq<Seq<Cell>>, h: Seq<Seq<Cell>>, n: int, m: int, k: int)
    requires
        prefix_eq(g, h, n, m),
        0 <= k < m,
        k < n * n,
        0 < n,
    ensures
        cell_at(g, n, k) == cell_at(h, n, k),
{
    lemma_fundamental_div_mod(k, n);
    lemma_mod_bound(k, n);
    let r = k / n;
    let c = k % n;
    assert(r < n) by (nonlinear_arith)
        requires
            n * r + c == k,
            0 <= c,
            k < n * n,
            0 < n,
    ;
    assert(r * n + c == k);
    assert(g[r][c] == h[r][c]);
}

/// The Filled-first preference picks one board: two boards each preferred
/// over the other are the same.  With the solvers' contracts this makes
/// the returned solution unique — in particular, the two solver modules
/// return the same board on solvable puzzles, and both return nothing on
/// unsolvable ones.
pub proof fn lemma_preferred_solution_unique(b1: Seq<Seq<Cell>>, b2: Seq<Seq<Cell>>, n: int)
    requires
        n >= 0,
        b1 != b2 ==> filled_first_from(b1, b2, n, 0),
        b1 != b2 ==> filled_first_from(b2, b1, n, 0),
    ensures
        b1 == b2,
{
    if b1 != b2 {
        let k1 = choose|k: int|
            #![trigger prefix_eq(b2, b1, n, k)]
            0 <= k < n * n && prefix_eq(b2, b1, n, k) && cell_at(b1, n, k) == Cell::Filled
                && cell_at(b2, n, k) == Cell::Empty;
        let k2 = choose|k: int|
            #![trigger prefix_eq(b1, b2, n, k)]
            0 <= k < n * n && prefix_eq(b1, b2, n, k) && cell_at(b2, n, k) == Cell::Filled
                && cell_at(b1, n, k) == Cell::Empty;
        if k1 < k2 {
            lemma_prefix_eq_cell(b1, b2, n, k2, k1);
        } else if k2 < k1 {
            lemma_prefix_eq_cell(b2, b1, n, k1, k2);
        }
        assert(false);
    }
}

/// Round trip between boards and puzzles: a puzzle `q` derived from the
/// grid `g` (that is, one `g` solves) equals a puzzle `p` exactly when `g`
/// solves `p`.  Comparing derived clues against a puzzle is therefore the
/// acceptance test for solutions.
pub proof fn lemma_round_trip(q: Puzzle, p: Puzzle, g: Seq<Seq<Cell>>)
    requires
        is_solution(q, g),
    ensures
        puzzle_eq(q, p) <==> is_solution(p, g),
{
    if puzzle_eq(q, p) {
        assert forall|i: int| 0 <= i < g.len() implies as_ints(#[trigger] p.rows@[i]@)
            == runs_of(g[i]) by {
            assert(p.rows@[i]@ == q.rows@[i]@);
        }
        assert forall|j: int| 0 <= j < g.len() implies as_ints(#[trigger] p.cols@[j]@)
            == runs_of(col_of(g, j)) by {
            assert(p.cols@[j]@ == q.cols@[j]@);
        }
        assert(is_solution(p, g));
    }
    if is_solution(p, g) {
        assert forall|i: int| 0 <= i < q.rows@.len() implies #[trigger] q.rows@[i]@
            == p.rows@[i]@ by {
            assert(as_ints(q.rows@[i]@) == runs_of(g[i]));
            assert(as_ints(p.rows@[i]@) == runs_of(g[i]));
            lemma_as_ints_eq(q.rows@[i]@, p.rows@[i]@);
        }
        assert forall|j: int| 0 <= j < q.cols@.len() implies #[trigger] q.cols@[j]@
            == p.cols@[j]@ by {
            assert(as_ints(q.cols@[j]@) == runs_of(col_of(g, j)));
            assert(as_ints(p.cols@[j]@) == runs_of(col_of(g, j)));
            lemma_as_ints_eq(q.cols@[j]@, p.cols@[j]@);
        }
        assert(puzzle_eq(q, p));
    }
}

/// Clue derivation is a pure function of the grid: two puzzles derived
/// from the same grid are identical.
pub proof fn lemma_derive_deterministic(q1: Puzzle, q2: Puzzle, g: Seq<Seq<Cell>>)
    requires
        is_solution(q1, g),
        is_solution(q2, g),
    ensures
        puzzle_eq(q1, q2),
{
    lemma_round_trip(q1, q2, g);
}

/// The partial line check fails monotonically: once the assigned prefix of
/// a line is inconsistent with its clue list, no way of assigning the
/// remaining cells can make the line consistent again.  Pruning on a
/// failed check is therefore sound.
pub proof fn lemma_validator_monotone(target: Seq<u32>, line: Seq<Cell>, k: int)
    requires
        0 <= k <= line.len(),
        !line_consistent(target, line.take(k)),
    ensures
        !line_consistent(target, line),
{
    if line_consistent(target, line) {
        lemma_consistent_prefix(target, line, k);
    }
}

/// A puzzle whose clue lists are all empty is solved by the all-`Empty`
/// grid of its size, and by nothing else.
pub proof fn lemma_empty_puzzle(p: Puzzle, g: Seq<Seq<Cell>>)
    requires
        grid_wf(g),
        p.rows@.len() == g.len(),
        p.cols@.len() == g.len(),
        forall|i: int| 0 <= i < p.rows@.len() ==> (#[trigger] p.rows@[i]@).len() == 0,
        forall|j: int| 0 <= j < p.cols@.len() ==> (#[trigger] p.cols@[j]@).len() == 0,
    ensures
        is_solution(p, g) <==> (forall|r: int, c: int|
            #![trigger g[r][c]]
            0 <= r < g.len() && 0 <= c < g.len() ==> g[r][c] == Cell::Empty),
{
    if is_solution(p, g) {
        assert forall|r: int, c: int|
            #![trigger g[r][c]]
            0 <= r < g.len() && 0 <= c < g.len() implies g[r][c] == Cell::Empty by {
            assert(as_ints(p.rows@[r]@) == runs_of(g[r]));
            assert(as_ints(p.rows@[r]@).len() == 0);
            lemma_runs_empty(g[r]);
        }
    }
    if forall|r: int, c: int|
        #![trigger g[r][c]]
        0 <= r < g.len() && 0 <= c < g.len() ==> g[r][c] == Cell::Empty {
        assert forall|i: int| 0 <= i < g.len() implies as_ints(#[trigger] p.rows@[i]@)
            == runs_of(g[i]) by {
            assert(g[i].len() == g.len());
            assert forall|c: int| 0 <= c < g[i].len() implies #[trigger] g[i][c]
                == Cell::Empty by {}
            lemma_runs_empty(g[i]);
            assert(as_ints(p.rows@[i]@).len() == 0);
            assert(as_ints(p.rows@[i]@) =~= runs_of(g[i]));
        }
        assert forall|j: int| 0 <= j < g.len() implies as_ints(#[trigger] p.cols@[j]@)
            == runs_of(col_of(g, j)) by {
            let cl = col_of(g, j);
            assert(cl.len() == g.len());
            assert forall|r: int| 0 <= r < cl.len() implies #[trigger] cl[r]
                == Cell::Empty by {
                assert(cl[r] == g[r][j]);
            }
            lemma_runs_empty(cl);
            assert(as_ints(p.cols@[j]@).len() == 0);
            assert(as_ints(p.cols@[j]@) =~= runs_of(cl));
        }
        assert(is_solution(p, g));
    }
}

} // verus!
