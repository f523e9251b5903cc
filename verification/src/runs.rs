//! The run-length derivation that bridges boards and clue lists, and the
//! facts about it that the partial validator and the search rely on.

use crate::board::Cell;
use vstd::prelude::*;

verus! {

/// The lengths of the maximal runs of `Filled` cells in `line`, in order.
/// Runs are separated by at least one `Empty` cell; leading and trailing
/// `Empty` cells contribute nothing.
pub open spec fn runs_of(line: Seq<Cell>) -> Seq<int>
    decreases line.len(),
{
    if line.len() == 0 {
        Seq::empty()
    } else {
        let rest = runs_of(line.drop_last());
        if line.last() == Cell::Filled {
            if line.len() >= 2 && line[line.len() - 2] == Cell::Filled {
                rest.update(rest.len() - 1, rest.last() + 1)
            } else {
                rest.push(1)
            }
        } else {
            rest
        }
    }
}

/// A clue list seen as a sequence of mathematical integers.
pub open spec fn as_ints(v: Seq<u32>) -> Seq<int> {
    v.map_values(|x: u32| x as int)
}

/// The derived runs `d` are still consistent with the clue list `target`:
/// no more runs than clues, and every run so far stays within its bound.
/// Only the final run may still be growing, but earlier runs are also
/// allowed to undercount; this is deliberately permissive, so the check
/// under-prunes and never rejects a line that could still complete.
pub open spec fn consistent_runs(target: Seq<u32>, d: Seq<int>) -> bool {
    &&& d.len() <= target.len()
    &&& forall|k: int| 0 <= k < d.len() ==> #[trigger] d[k] <= target[k] as int
}

/// The current state of a line is still consistent with the clue list
/// `target`; unassigned trailing cells are expected to be `Empty`.
pub open spec fn line_consistent(target: Seq<u32>, line: Seq<Cell>) -> bool {
    consistent_runs(target, runs_of(line))
}

/// `r1` is what the derivation yields on a prefix of a line whose full
/// derivation yields `r2`: earlier runs agree exactly, and the last run of
/// `r1` may still be short of its counterpart in `r2`.
pub open spec fn run_prefix_le(r1: Seq<int>, r2: Seq<int>) -> bool {
    &&& r1.len() <= r2.len()
    &&& forall|k: int| 0 <= k < r1.len() - 1 ==> #[trigger] r1[k] == r2[k]
    &&& r1.len() > 0 ==> r1.last() <= r2[r1.len() - 1]
}

/// How appending one cell changes the derived runs: an `Empty` cell changes
/// nothing, a `Filled` cell extends the current run or starts a new one.
pub proof fn lemma_runs_push(s: Seq<Cell>, c: Cell)
    ensures
        runs_of(s.push(c)) == (if c == Cell::Filled {
            if s.len() > 0 && s.last() == Cell::Filled {
                runs_of(s).update(runs_of(s).len() - 1, runs_of(s).last() + 1)
            } else {
                runs_of(s).push(1)
            }
        } else {
            runs_of(s)
        }),
{
    let t = s.push(c);
    assert(t.drop_last() =~= s);
    assert(t.last() == c);
    if s.len() > 0 {
        assert(t[t.len() - 2] == s.last());
    }
}

/// Basic shape of the derivation: there are at most as many runs as cells,
/// every run length is between one and the line length, and a line ending
/// in a `Filled` cell has at least one run.
pub proof fn lemma_runs_props(line: Seq<Cell>)
    ensures
        runs_of(line).len() <= line.len(),
        forall|k: int| 0 <= k < runs_of(line).len() ==> 1 <= #[trigger] runs_of(line)[k]
            <= line.len(),
        line.len() > 0 && line.last() == Cell::Filled ==> runs_of(line).len() > 0,
    decreases line.len(),
{
    if line.len() > 0 {
        lemma_runs_props(line.drop_last());
        if line.last() == Cell::Filled && line.len() >= 2 && line[line.len() - 2]
            == Cell::Filled {
            assert(line.drop_last().last() == line[line.len() - 2]);
            assert(runs_of(line.drop_last()).len() > 0);
        }
    }
}

/// Trailing `Empty` cells do not change the derived runs: the derivation of
/// a line equals the derivation of its assigned prefix.
pub proof fn lemma_runs_ignore_trailing_empty(line: Seq<Cell>, k: int)
    requires
        0 <= k <= line.len(),
        forall|j: int| k <= j < line.len() ==> #[trigger] line[j] == Cell::Empty,
    ensures
        runs_of(line) == runs_of(line.take(k)),
    decreases line.len(),
{
    if k == line.len() {
        assert(line.take(k) =~= line);
    } else {
        assert(line.last() == Cell::Empty);
        lemma_runs_ignore_trailing_empty(line.drop_last(), k);
        assert(line.drop_last().take(k) =~= line.take(k));
    }
}

/// `run_prefix_le` is transitive.
pub proof fn lemma_run_prefix_le_trans(r1: Seq<int>, r2: Seq<int>, r3: Seq<int>)
    requires
        run_prefix_le(r1, r2),
        run_prefix_le(r2, r3),
    ensures
        run_prefix_le(r1, r3),
{
    if r1.len() > 0 {
        let last = r1.len() - 1;
        if last < r2.len() - 1 {
            assert(r2[last] == r3[last]);
        } else {
            assert(last == r2.len() - 1);
            assert(r2.last() <= r3[r2.len() - 1]);
        }
        assert(r1.last() <= r3[last]);
        assert forall|k: int| 0 <= k < r1.len() - 1 implies #[trigger] r1[k] == r3[k] by {
            assert(r1[k] == r2[k]);
            assert(r2[k] == r3[k]);
        }
    }
}

/// The runs derived from a prefix of a line stand in `run_prefix_le` to the
/// runs derived from the whole line.
pub proof fn lemma_runs_take_prefix(line: Seq<Cell>, k: int)
    requires
        0 <= k <= line.len(),
    ensures
        run_prefix_le(runs_of(line.take(k)), runs_of(line)),
    decreases line.len() - k,
{
    if k == line.len() {
        assert(line.take(k) =~= line);
    } else {
        let pre = line.take(k);
        let next = line.take(k + 1);
        assert(next =~= pre.push(line[k]));
        lemma_runs_push(pre, line[k]);
        lemma_runs_props(pre);
        let r1 = runs_of(pre);
        let r2 = runs_of(next);
        if line[k] == Cell::Filled && pre.len() > 0 && pre.last() == Cell::Filled {
            assert(r2 == r1.update(r1.len() - 1, r1.last() + 1));
            assert(run_prefix_le(r1, r2));
        } else {
            assert(run_prefix_le(r1, r2));
        }
        lemma_runs_take_prefix(line, k + 1);
        lemma_run_prefix_le_trans(r1, r2, runs_of(line));
    }
}

/// Consistency carries backwards along `run_prefix_le`: whatever a line's
/// full derivation satisfies, the derivation of a prefix satisfies as well.
pub proof fn lemma_consistent_run_prefix(target: Seq<u32>, r1: Seq<int>, r2: Seq<int>)
    requires
        run_prefix_le(r1, r2),
        consistent_runs(target, r2),
    ensures
        consistent_runs(target, r1),
{
    assert forall|k: int| 0 <= k < r1.len() implies #[trigger] r1[k] <= target[k] as int by {
        if k < r1.len() - 1 {
            assert(r1[k] == r2[k]);
        } else {
            assert(r1.last() <= r2[r1.len() - 1]);
        }
    }
}

/// Cutting a consistent line back to any prefix keeps it consistent.
pub proof fn lemma_consistent_prefix(target: Seq<u32>, line: Seq<Cell>, k: int)
    requires
        0 <= k <= line.len(),
        line_consistent(target, line),
    ensures
        line_consistent(target, line.take(k)),
{
    lemma_runs_take_prefix(line, k);
    lemma_consistent_run_prefix(target, runs_of(line.take(k)), runs_of(line));
}

/// A line derives no runs at all exactly when every cell is `Empty`.
pub proof fn lemma_runs_empty(line: Seq<Cell>)
    ensures
        runs_of(line).len() == 0 <==> forall|j: int|
            0 <= j < line.len() ==> #[trigger] line[j] == Cell::Empty,
    decreases line.len(),
{
    if line.len() > 0 {
        lemma_runs_empty(line.drop_last());
        lemma_runs_props(line.drop_last());
        if line.last() == Cell::Filled {
            assert(line[line.len() - 1] == Cell::Filled);
            if line.len() >= 2 && line[line.len() - 2] == Cell::Filled {
                assert(line.drop_last().last() == line[line.len() - 2]);
            }
        } else {
            assert forall|j: int| 0 <= j < line.drop_last().len() implies line.drop_last()[j]
                == line[j] by {}
        }
    }
}

/// Two clue lists are equal exactly when they are equal as integers.
pub proof fn lemma_as_ints_eq(a: Seq<u32>, b: Seq<u32>)
    ensures
        (as_ints(a) == as_ints(b)) <==> (a == b),
{
    if as_ints(a) == as_ints(b) {
        assert(as_ints(a).len() == a.len());
        assert(as_ints(b).len() == b.len());
        assert forall|i: int| 0 <= i < a.len() implies a[i] == b[i] by {
            assert(as_ints(a)[i] == a[i] as int);
            assert(as_ints(b)[i] == b[i] as int);
        }
        assert(a =~= b);
    }
}

} // verus!
