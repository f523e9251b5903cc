//! Parsing of the two text formats: puzzle files (two lines of
//! pipe-delimited clue groups) and board files (one line of `#`/`.` per
//! row).  Input is taken as bytes; all ASCII.

use crate::board::{Board, Cell, Puzzle};
use vstd::prelude::*;

verus! {

/// Group delimiter in a puzzle line.
pub const DELIM: u8 = 124;

/// Errors for malformed puzzle or board text.
#[derive(Clone, Copy, Debug, PartialEq, Eq, Structural)]
pub enum FormatError {
    /// The puzzle text does not hold exactly two lines.
    WrongLineCount,
    /// A clue token is not a nonnegative integer that fits in 32 bits.
    BadToken,
    /// The puzzle's row and column counts differ.
    NotSquare,
    /// A board character is neither `#` nor `.`.
    BadCell,
    /// The board's lines do not form a square grid.
    SizeMismatch,
}

/// ASCII whitespace.
pub open spec fn is_ws(b: u8) -> bool {
    b == 32 || (9 <= b && b <= 13)
}

/// ASCII digit.
pub open spec fn is_digit(b: u8) -> bool {
    48 <= b && b <= 57
}

/// `s` with leading whitespace removed.
pub open spec fn trim_start(s: Seq<u8>) -> Seq<u8>
    decreases s.len(),
{
    if s.len() > 0 && is_ws(s[0]) {
        trim_start(s.skip(1))
    } else {
        s
    }
}

/// `s` with trailing whitespace removed.
pub open spec fn trim_end(s: Seq<u8>) -> Seq<u8>
    decreases s.len(),
{
    if s.len() > 0 && is_ws(s.last()) {
        trim_end(s.drop_last())
    } else {
        s
    }
}

/// `s` with whitespace removed from both ends.
pub open spec fn trim(s: Seq<u8>) -> Seq<u8> {
    trim_end(trim_start(s))
}

/// Split `s` at every occurrence of `d`.  Empty pieces are kept, so the
/// result holds one piece more than `s` holds delimiters.
pub open spec fn split_fold(s: Seq<u8>, d: u8) -> Seq<Seq<u8>>
    decreases s.len(),
{
    if s.len() == 0 {
        seq![Seq::empty()]
    } else {
        let prev = split_fold(s.drop_last(), d);
        if s.last() == d {
            prev.push(Seq::empty())
        } else {
            prev.update(prev.len() - 1, prev.last().push(s.last()))
        }
    }
}

/// There is always at least one piece.
pub proof fn lemma_split_nonempty(s: Seq<u8>, d: u8)
    ensures
        split_fold(s, d).len() >= 1,
    decreases s.len(),
{
    if s.len() > 0 {
        lemma_split_nonempty(s.drop_last(), d);
    }
}

/// How one more byte changes the split.
pub proof fn lemma_split_push(s: Seq<u8>, d: u8, b: u8)
    ensures
        split_fold(s.push(b), d) == (if b == d {
            split_fold(s, d).push(Seq::empty())
        } else {
            split_fold(s, d).update(
                split_fold(s, d).len() - 1,
                split_fold(s, d).last().push(b),
            )
        }),
{
    let t = s.push(b);
    assert(t.drop_last() =~= s);
    assert(t.last() == b);
}

/// The maximal whitespace-free pieces of `s`, in order; whitespace itself
/// is dropped, so every token is nonempty.
pub open spec fn ws_tokens(s: Seq<u8>) -> Seq<Seq<u8>>
    decreases s.len(),
{
    if s.len() == 0 {
        Seq::empty()
    } else {
        let prev = ws_tokens(s.drop_last());
        let b = s.last();
        if is_ws(b) {
            prev
        } else if s.len() >= 2 && !is_ws(s[s.len() - 2]) {
            prev.update(prev.len() - 1, prev.last().push(b))
        } else {
            prev.push(seq![b])
        }
    }
}

/// How one more byte changes the tokens.
pub proof fn lemma_ws_tokens_push(s: Seq<u8>, b: u8)
    ensures
        ws_tokens(s.push(b)) == (if is_ws(b) {
            ws_tokens(s)
        } else if s.len() > 0 && !is_ws(s.last()) {
            ws_tokens(s).update(ws_tokens(s).len() - 1, ws_tokens(s).last().push(b))
        } else {
            ws_tokens(s).push(seq![b])
        }),
{
    let t = s.push(b);
    assert(t.drop_last() =~= s);
    assert(t.last() == b);
    if s.len() > 0 {
        assert(t[t.len() - 2] == s.last());
    }
}

/// The numeric value of a string of ASCII digits, most significant first.
pub open spec fn num_val(t: Seq<u8>) -> int
    decreases t.len(),
{
    if t.len() == 0 {
        0
    } else {
        10 * num_val(t.drop_last()) + (t.last() - 48)
    }
}

/// A well-formed clue token: nonempty, all digits, and small enough.
pub open spec fn token_ok(t: Seq<u8>) -> bool {
    &&& t.len() > 0
    &&& forall|j: int| 0 <= j < t.len() ==> is_digit(#[trigger] t[j])
    &&& num_val(t) <= u32::MAX
}

/// The value of a digit string is nonnegative and grows (weakly) as
/// digits are appended.
pub proof fn lemma_num_val_mono(t: Seq<u8>, k: int)
    requires
        0 <= k <= t.len(),
        forall|j: int| 0 <= j < t.len() ==> is_digit(#[trigger] t[j]),
    ensures
        0 <= num_val(t.take(k)) <= num_val(t),
    decreases t.len() - k,
{
    if k == t.len() {
        assert(t.take(k) =~= t);
        lemma_num_val_nonneg(t);
    } else {
        lemma_num_val_mono(t, k + 1);
        lemma_num_val_nonneg(t.take(k));
        assert(t.take(k + 1).drop_last() =~= t.take(k));
        assert(t.take(k + 1).last() == t[k]);
    }
}

/// The value of a digit string is nonnegative.
pub proof fn lemma_num_val_nonneg(t: Seq<u8>)
    requires
        forall|j: int| 0 <= j < t.len() ==> is_digit(#[trigger] t[j]),
    ensures
        num_val(t) >= 0,
    decreases t.len(),
{
    if t.len() > 0 {
        lemma_num_val_nonneg(t.drop_last());
    }
}

/// The token values of one clue group, as 32-bit numbers.
pub open spec fn group_vals(g: Seq<u8>) -> Seq<u32> {
    Seq::new(ws_tokens(g).len(), |k: int| num_val(ws_tokens(g)[k]) as u32)
}

/// Every token of the group is a well-formed clue.
pub open spec fn group_ok(g: Seq<u8>) -> bool {
    forall|k: int| 0 <= k < ws_tokens(g).len() ==> token_ok(#[trigger] ws_tokens(g)[k])
}

/// Whether a byte is ASCII whitespace.
fn ws_byte(b: u8) -> (r: bool)
    ensures
        r == is_ws(b),
{
    b == 32 || (9 <= b && b <= 13)
}

/// Copy `text` with whitespace removed from both ends.
pub fn trimmed(text: &Vec<u8>) -> (t: Vec<u8>)
    ensures
        t@ == trim(text@),
{
    let n = text.len();
    let mut start: usize = 0;
    proof {
        assert(text@.skip(0) =~= text@);
    }
    while start < n && ws_byte(text[start])
        invariant
            start <= n,
            n == text@.len(),
            trim_start(text@) == trim_start(text@.skip(start as int)),
        decreases n - start,
    {
        proof {
            assert(text@.skip(start as int)[0] == text@[start as int]);
            assert(text@.skip(start as int).skip(1) =~= text@.skip(start + 1));
        }
        start += 1;
    }
    proof {
        if start < n {
            assert(text@.skip(start as int)[0] == text@[start as int]);
        }
        assert(trim_start(text@) == text@.skip(start as int));
    }
    let mut end: usize = n;
    while end > start && ws_byte(text[end - 1])
        invariant
            start <= end <= n,
            n == text@.len(),
            trim_start(text@) == text@.skip(start as int),
            trim_end(text@.subrange(start as int, end as int)) == trim(text@),
        decreases end,
    {
        proof {
            let sub = text@.subrange(start as int, end as int);
            assert(sub.last() == text@[end - 1]);
            assert(sub.drop_last() =~= text@.subrange(start as int, end - 1));
        }
        end -= 1;
    }
    proof {
        let sub = text@.subrange(start as int, end as int);
        if end > start {
            assert(sub.last() == text@[end - 1]);
        }
        assert(trim_end(sub) == sub);
    }
    let mut t: Vec<u8> = Vec::new();
    let mut i: usize = start;
    while i < end
        invariant
            start <= i <= end <= n,
            n == text@.len(),
            t@ =~= text@.subrange(start as int, i as int),
        decreases end - i,
    {
        t.push(text[i]);
        proof {
            assert(t@ =~= text@.subrange(start as int, i + 1));
        }
        i += 1;
    }
    proof {
        assert(t@ =~= text@.subrange(start as int, end as int));
    }
    t
}

/// Split `v` at every occurrence of `d`, keeping empty pieces.
pub fn split_on(v: &Vec<u8>, d: u8) -> (out: Vec<Vec<u8>>)
    ensures
        out@.len() == split_fold(v@, d).len(),
        forall|k: int| 0 <= k < out@.len() ==> (#[trigger] out@[k])@ == split_fold(v@, d)[k],
{
    let n = v.len();
    let mut out: Vec<Vec<u8>> = Vec::new();
    let mut cur: Vec<u8> = Vec::new();
    let mut i: usize = 0;
    while i < n
        invariant
            i <= n,
            n == v@.len(),
            out@.len() + 1 == split_fold(v@.take(i as int), d).len(),
            forall|k: int| 0 <= k < out@.len() ==> (#[trigger] out@[k])@ == split_fold(
                v@.take(i as int),
                d,
            )[k],
            cur@ == split_fold(v@.take(i as int), d).last(),
        decreases n - i,
    {
        proof {
            assert(v@.take(i + 1) =~= v@.take(i as int).push(v@[i as int]));
            lemma_split_push(v@.take(i as int), d, v@[i as int]);
            lemma_split_nonempty(v@.take(i as int), d);
        }
        let b = v[i];
        if b == d {
            out.push(cur);
            cur = Vec::new();
        } else {
            cur.push(b);
        }
        i += 1;
    }
    proof {
        assert(v@.take(n as int) =~= v@);
        lemma_split_nonempty(v@, d);
    }
    out.push(cur);
    out
}

/// Split `g` into its whitespace-separated tokens.
pub fn whitespace_tokens(g: &Vec<u8>) -> (out: Vec<Vec<u8>>)
    ensures
        out@.len() == ws_tokens(g@).len(),
        forall|k: int| 0 <= k < out@.len() ==> (#[trigger] out@[k])@ == ws_tokens(g@)[k],
{
    let n = g.len();
    let mut out: Vec<Vec<u8>> = Vec::new();
    let mut cur: Vec<u8> = Vec::new();
    let mut i: usize = 0;
    while i < n
        invariant
            i <= n,
            n == g@.len(),
            (cur@.len() > 0) == (i > 0 && !is_ws(g@[i - 1])),
            cur@.len() == 0 ==> out@.len() == ws_tokens(g@.take(i as int)).len()
                && forall|k: int| 0 <= k < out@.len() ==> (#[trigger] out@[k])@ == ws_tokens(
                g@.take(i as int),
            )[k],
            cur@.len() > 0 ==> out@.len() + 1 == ws_tokens(g@.take(i as int)).len()
                && (forall|k: int| 0 <= k < out@.len() ==> (#[trigger] out@[k])@ == ws_tokens(
                g@.take(i as int),
            )[k])
                && cur@ == ws_tokens(g@.take(i as int)).last(),
        decreases n - i,
    {
        proof {
            assert(g@.take(i + 1) =~= g@.take(i as int).push(g@[i as int]));
            lemma_ws_tokens_push(g@.take(i as int), g@[i as int]);
            if i > 0 {
                assert(g@.take(i as int).last() == g@[i - 1]);
            }
        }
        let b = g[i];
        if ws_byte(b) {
            if cur.len() > 0 {
                out.push(cur);
                cur = Vec::new();
            }
        } else {
            cur.push(b);
        }
        i += 1;
    }
    proof {
        assert(g@.take(n as int) =~= g@);
    }
    if cur.len() > 0 {
        out.push(cur);
    }
    out
}

/// Parse one clue token: a nonnegative integer that fits in 32 bits.
pub fn parse_u32_token(t: &Vec<u8>) -> (r: Result<u32, FormatError>)
    ensures
        token_ok(t@) ==> r == Ok::<u32, FormatError>(num_val(t@) as u32),
        !token_ok(t@) ==> r == Err::<u32, FormatError>(FormatError::BadToken),
{
    if t.len() == 0 {
        return Err(FormatError::BadToken);
    }
    let mut acc: u64 = 0;
    let mut i: usize = 0;
    while i < t.len()
        invariant
            i <= t@.len(),
            forall|j: int| 0 <= j < i ==> is_digit(#[trigger] t@[j]),
            acc as int == num_val(t@.take(i as int)),
            acc <= u32::MAX,
        decreases t@.len() - i,
    {
        let b = t[i];
        if b < 48 || b > 57 {
            proof {
                assert(!is_digit(t@[i as int]));
            }
            return Err(FormatError::BadToken);
        }
        proof {
            assert(t@.take(i + 1).drop_last() =~= t@.take(i as int));
            assert(t@.take(i + 1).last() == t@[i as int]);
        }
        acc = acc * 10 + ((b - 48) as u64);
        if acc > 0xffff_ffff {
            proof {
                if token_ok(t@) {
                    lemma_num_val_mono(t@, i + 1);
                }
            }
            return Err(FormatError::BadToken);
        }
        i += 1;
    }
    proof {
        assert(t@.take(t@.len() as int) =~= t@);
    }
    Ok(acc as u32)
}

/// Parse one clue group: whitespace-separated clue tokens.
pub fn parse_group(g: &Vec<u8>) -> (r: Result<Vec<u32>, FormatError>)
    ensures
        group_ok(g@) ==> (r matches Ok(v) && v@ == group_vals(g@)),
        !group_ok(g@) ==> r == Err::<Vec<u32>, FormatError>(FormatError::BadToken),
{
    let tokens = whitespace_tokens(g);
    let mut vals: Vec<u32> = Vec::new();
    let mut k: usize = 0;
    while k < tokens.len()
        invariant
            k <= tokens@.len(),
            tokens@.len() == ws_tokens(g@).len(),
            forall|j: int| 0 <= j < tokens@.len() ==> (#[trigger] tokens@[j])@ == ws_tokens(
                g@,
            )[j],
            vals@.len() == k,
            forall|j: int| 0 <= j < k ==> token_ok(#[trigger] ws_tokens(g@)[j]) && vals@[j]
                == num_val(ws_tokens(g@)[j]) as u32,
        decreases tokens@.len() - k,
    {
        match parse_u32_token(&tokens[k]) {
            Ok(v) => {
                vals.push(v);
            },
            Err(_) => {
                proof {
                    assert(!token_ok(ws_tokens(g@)[k as int]));
                }
                return Err(FormatError::BadToken);
            },
        }
        k += 1;
    }
    proof {
        assert(vals@ =~= group_vals(g@));
    }
    Ok(vals)
}

/// The clue groups of one puzzle line, split at the group delimiter.
pub open spec fn line_groups(line: Seq<u8>) -> Seq<Seq<u8>> {
    split_fold(line, DELIM)
}

/// Every group of the line parses.
pub open spec fn line_ok(line: Seq<u8>) -> bool {
    forall|k: int| 0 <= k < line_groups(line).len() ==> group_ok(#[trigger] line_groups(line)[k])
}

/// A line with a trailing carriage return taken off.
pub open spec fn strip_cr(l: Seq<u8>) -> Seq<u8> {
    if l.len() > 0 && l.last() == 13 {
        l.drop_last()
    } else {
        l
    }
}

/// The lines of a text: trim it, split at newlines, and drop a trailing
/// carriage return from each line.  An all-whitespace text has no lines.
pub open spec fn logical_lines(text: Seq<u8>) -> Seq<Seq<u8>> {
    let t = trim(text);
    if t.len() == 0 {
        Seq::empty()
    } else {
        split_fold(t, 10).map_values(|l: Seq<u8>| strip_cr(l))
    }
}

/// Split a text into its lines, as `logical_lines` describes.
fn lines_of(text: &Vec<u8>) -> (ls: Vec<Vec<u8>>)
    ensures
        ls@.len() == logical_lines(text@).len(),
        forall|k: int| 0 <= k < ls@.len() ==> (#[trigger] ls@[k])@ == logical_lines(text@)[k],
{
    let t = trimmed(text);
    if t.len() == 0 {
        let ls: Vec<Vec<u8>> = Vec::new();
        return ls;
    }
    let mut ls = split_on(&t, 10);
    let ghost raw = split_fold(t@, 10);
    let mut k: usize = 0;
    while k < ls.len()
        invariant
            k <= ls@.len(),
            ls@.len() == raw.len(),
            forall|j: int| 0 <= j < k ==> (#[trigger] ls@[j])@ == strip_cr(raw[j]),
            forall|j: int| k <= j < ls@.len() ==> (#[trigger] ls@[j])@ == raw[j],
        decreases ls@.len() - k,
    {
        let len_k = ls[k].len();
        if len_k > 0 && ls[k][len_k - 1] == 13 {
            ls[k].pop();
        }
        k += 1;
    }
    proof {
        assert(logical_lines(text@).len() == raw.len());
        assert forall|j: int| 0 <= j < ls@.len() implies (#[trigger] ls@[j])@ == logical_lines(
            text@,
        )[j] by {
            assert(logical_lines(text@)[j] == strip_cr(raw[j]));
        }
    }
    ls
}

/// Parse one puzzle line: pipe-delimited clue groups, each a list of
/// whitespace-separated nonnegative integers.  An empty group is legal
/// and stands for an all-empty row or column.
pub fn parse_picross_grid_line(line: &Vec<u8>) -> (r: Result<Vec<Vec<u32>>, FormatError>)
    ensures
        line_ok(line@) ==> (r matches Ok(v) && v@.len() == line_groups(line@).len() && forall|
            k: int,
        |
            0 <= k < v@.len() ==> (#[trigger] v@[k])@ == group_vals(line_groups(line@)[k])),
        !line_ok(line@) ==> r == Err::<Vec<Vec<u32>>, FormatError>(FormatError::BadToken),
{
    let groups = split_on(line, DELIM);
    let mut out: Vec<Vec<u32>> = Vec::new();
    let mut k: usize = 0;
    while k < groups.len()
        invariant
            k <= groups@.len(),
            groups@.len() == line_groups(line@).len(),
            forall|j: int| 0 <= j < groups@.len() ==> (#[trigger] groups@[j])@ == line_groups(
                line@,
            )[j],
            out@.len() == k,
            forall|j: int| 0 <= j < k ==> group_ok(#[trigger] line_groups(line@)[j]) && out@[j]@
                == group_vals(line_groups(line@)[j]),
        decreases groups@.len() - k,
    {
        match parse_group(&groups[k]) {
            Ok(v) => {
                out.push(v);
            },
            Err(_) => {
                proof {
                    assert(!group_ok(line_groups(line@)[k as int]));
                }
                return Err(FormatError::BadToken);
            },
        }
        k += 1;
    }
    Ok(out)
}

/// The puzzle text is well formed: exactly two lines, every clue token a
/// nonnegative 32-bit integer, and as many row groups as column groups.
pub open spec fn puzzle_text_ok(text: Seq<u8>) -> bool {
    let ls = logical_lines(text);
    &&& ls.len() == 2
    &&& line_ok(ls[0])
    &&& line_ok(ls[1])
    &&& line_groups(ls[1]).len() == line_groups(ls[0]).len()
}

/// `p` is the puzzle the text denotes: columns from the first line, rows
/// from the second.
pub open spec fn puzzle_of_text(text: Seq<u8>, p: Puzzle) -> bool {
    let ls = logical_lines(text);
    &&& p.cols@.len() == line_groups(ls[0]).len()
    &&& p.rows@.len() == line_groups(ls[1]).len()
    &&& forall|k: int| 0 <= k < p.cols@.len() ==> (#[trigger] p.cols@[k])@ == group_vals(
        line_groups(ls[0])[k],
    )
    &&& forall|k: int| 0 <= k < p.rows@.len() ==> (#[trigger] p.rows@[k])@ == group_vals(
        line_groups(ls[1])[k],
    )
}

/// Parse a puzzle file: the first line gives the column clues, the second
/// the row clues.  Rejects texts that are not two lines, clue tokens that
/// are not nonnegative integers, and unequal row and column counts.
pub fn parse_puzzle(text: &Vec<u8>) -> (r: Result<Puzzle, FormatError>)
    ensures
        puzzle_text_ok(text@) ==> (r matches Ok(p) && puzzle_of_text(text@, p) && p.rows@.len()
            == p.cols@.len()),
        logical_lines(text@).len() != 2 ==> r == Err::<Puzzle, FormatError>(
            FormatError::WrongLineCount,
        ),
        logical_lines(text@).len() == 2 && !(line_ok(logical_lines(text@)[0]) && line_ok(
            logical_lines(text@)[1],
        )) ==> r == Err::<Puzzle, FormatError>(FormatError::BadToken),
        logical_lines(text@).len() == 2 && line_ok(logical_lines(text@)[0]) && line_ok(
            logical_lines(text@)[1],
        ) && line_groups(logical_lines(text@)[1]).len() != line_groups(
            logical_lines(text@)[0],
        ).len() ==> r == Err::<Puzzle, FormatError>(FormatError::NotSquare),
{
    let lines = lines_of(text);
    if lines.len() != 2 {
        return Err(FormatError::WrongLineCount);
    }
    let cols = match parse_picross_grid_line(&lines[0]) {
        Ok(v) => v,
        Err(_) => {
            return Err(FormatError::BadToken);
        },
    };
    let rows = match parse_picross_grid_line(&lines[1]) {
        Ok(v) => v,
        Err(_) => {
            return Err(FormatError::BadToken);
        },
    };
    if rows.len() != cols.len() {
        return Err(FormatError::NotSquare);
    }
    Ok(Puzzle { rows, cols })
}

/// The cell a board byte denotes.
pub open spec fn cell_of_byte(b: u8) -> Cell {
    if b == 35 {
        Cell::Filled
    } else {
        Cell::Empty
    }
}

/// A legal board byte: `#` or `.`.
pub open spec fn cell_byte_ok(b: u8) -> bool {
    b == 35 || b == 46
}

/// The board lines form a square: each as long as there are lines.
pub open spec fn board_square_ok(ls: Seq<Seq<u8>>) -> bool {
    forall|r: int| 0 <= r < ls.len() ==> (#[trigger] ls[r]).len() == ls.len()
}

/// Every character of the board text is a legal cell.
pub open spec fn board_cells_ok(ls: Seq<Seq<u8>>) -> bool {
    forall|r: int, c: int|
        #![trigger ls[r][c]]
        0 <= r < ls.len() && 0 <= c < ls[r].len() ==> cell_byte_ok(ls[r][c])
}

/// Parse a board file: one line per row, one character per cell, `#` for
/// filled and `.` for empty.  The lines must form a square grid.
pub fn parse_board(text: &Vec<u8>) -> (r: Result<Board, FormatError>)
    ensures
        !board_square_ok(logical_lines(text@)) ==> r == Err::<Board, FormatError>(
            FormatError::SizeMismatch,
        ),
        board_square_ok(logical_lines(text@)) && !board_cells_ok(logical_lines(text@)) ==> r
            == Err::<Board, FormatError>(FormatError::BadCell),
        board_square_ok(logical_lines(text@)) && board_cells_ok(logical_lines(text@)) ==> (
        r matches Ok(b) && b@.len() == logical_lines(text@).len() && crate::board::grid_wf(b@)
            && forall|rr: int, cc: int|
            #![trigger b@[rr][cc]]
            0 <= rr < b@.len() && 0 <= cc < b@.len() ==> b@[rr][cc] == cell_of_byte(
                logical_lines(text@)[rr][cc],
            )),
{
    let ghost lls = logical_lines(text@);
    let lines = lines_of(text);
    let n = lines.len();
    let mut r: usize = 0;
    while r < n
        invariant
            lls == logical_lines(text@),
            r <= n,
            n == lls.len(),
            lines@.len() == n,
            forall|j: int| 0 <= j < n ==> (#[trigger] lines@[j])@ == lls[j],
            forall|j: int| 0 <= j < r ==> (#[trigger] lls[j]).len() == n,
        decreases n - r,
    {
        if lines[r].len() != n {
            proof {
                assert(lls[r as int].len() != n);
            }
            return Err(FormatError::SizeMismatch);
        }
        r += 1;
    }
    let mut table: Vec<Vec<Cell>> = Vec::new();
    let mut rr: usize = 0;
    while rr < n
        invariant
            lls == logical_lines(text@),
            rr <= n,
            n == lls.len(),
            lines@.len() == n,
            board_square_ok(lls),
            forall|j: int| 0 <= j < n ==> (#[trigger] lines@[j])@ == lls[j],
            table@.len() == rr,
            forall|j: int, c: int|
                #![trigger table@[j]@[c]]
                0 <= j < rr && 0 <= c < n ==> cell_byte_ok(lls[j][c]) && table@[j]@[c]
                    == cell_of_byte(lls[j][c]),
            forall|j: int| 0 <= j < rr ==> (#[trigger] table@[j])@.len() == n,
        decreases n - rr,
    {
        let mut row: Vec<Cell> = Vec::new();
        let mut cc: usize = 0;
        while cc < n
            invariant
                lls == logical_lines(text@),
                cc <= n,
                rr < n,
                n == lls.len(),
                lines@.len() == n,
                board_square_ok(lls),
                forall|j: int| 0 <= j < n ==> (#[trigger] lines@[j])@ == lls[j],
                row@.len() == cc,
                forall|c: int| 0 <= c < cc ==> cell_byte_ok(lls[rr as int][c]) && #[trigger] row@[c]
                    == cell_of_byte(lls[rr as int][c]),
            decreases n - cc,
        {
            let b = lines[rr][cc];
            if b == 35 {
                row.push(Cell::Filled);
            } else if b == 46 {
                row.push(Cell::Empty);
            } else {
                proof {
                    assert(!cell_byte_ok(lls[rr as int][cc as int]));
                }
                return Err(FormatError::BadCell);
            }
            cc += 1;
        }
        table.push(row);
        rr += 1;
    }
    let board = Board { table };
    proof {
        assert(board@.len() == n);
        assert(crate::board::grid_wf(board@));
        assert forall|a: int, c: int|
            #![trigger lls[a][c]]
            0 <= a < lls.len() && 0 <= c < lls[a].len() implies cell_byte_ok(lls[a][c]) by {
            assert(lls[a].len() == n);
            assert(table@[a]@[c] == cell_of_byte(lls[a][c]));
        }
        assert(board_cells_ok(lls));
        assert forall|a: int, c: int|
            #![trigger board@[a][c]]
            0 <= a < n && 0 <= c < n implies board@[a][c] == cell_of_byte(lls[a][c]) by {
            assert(board@[a] == table@[a]@);
            assert(table@[a]@[c] == cell_of_byte(lls[a][c]));
        }
    }
    Ok(board)
}

} // verus!
