//! The whole puzzle: rows and columns are deduced in turn until nothing changes.

use vstd::prelude::*;
use crate::cell::CellState;
use crate::grid::{copy_grid, extends, grids_equal, is_grid, lemma_transposed_twice, lines_equal, transpose, transposed};
use crate::line::{contradictory, deduced_line, solve_line};
use crate::lists::contents;
use crate::text::{message_for, message_text};

verus! {

/// How a run of the solver ended.
#[derive(Clone, Copy, Debug, PartialEq, Eq, Structural)]
pub enum Outcome {
    /// Nothing more can be deduced, and the grid is as it was handed in.
    Unchanged,
    /// Nothing more can be deduced, and cells were deduced in this run.
    Updated,
    /// The clue of this row, counted from 0, cannot be met.
    RowContradiction(usize),
    /// The clue of this column, counted from 0, cannot be met.
    ColumnContradiction(usize),
    /// The run was stopped after the greatest number of passes that it may take.
    IterationLimit,
}

/// What a run of the solver hands back.
pub struct SolveResult {
    /// The grid: with what was deduced, or as it was handed in if a clue cannot be met.
    pub grid: Vec<Vec<CellState>>,
    /// What happened, in words.
    pub message: String,
    /// Whether the run ended in an error.
    pub error: bool,
}

/// The outcomes that count as errors.
pub open spec fn is_error(outcome: Outcome) -> bool {
    !(outcome is Unchanged || outcome is Updated)
}

/// The greatest number of passes that a run may take.
pub open spec fn iteration_limit(rows: int, cols: int) -> int {
    (rows + cols) * 2
}

/// The clues and the grid have the shape that the dimensions announce.
pub open spec fn well_formed(
    rows: int,
    cols: int,
    row_clues: Seq<Seq<usize>>,
    col_clues: Seq<Seq<usize>>,
    g: Seq<Seq<CellState>>,
) -> bool {
    row_clues.len() == rows && col_clues.len() == cols && is_grid(g, rows, cols)
}

/// The first line at or after `from` whose clue cannot be met, if there is one.
pub open spec fn first_contradiction(
    n: int,
    clues: Seq<Seq<usize>>,
    lines: Seq<Seq<CellState>>,
    from: int,
) -> Option<int>
    decreases lines.len() - from,
{
    if from < 0 || from >= lines.len() {
        None
    } else if contradictory(n, clues[from], lines[from]) {
        Some(from)
    } else {
        first_contradiction(n, clues, lines, from + 1)
    }
}

/// Each line after the deduction from its own clue.
pub open spec fn swept(n: int, clues: Seq<Seq<usize>>, lines: Seq<Seq<CellState>>) -> Seq<
    Seq<CellState>,
> {
    Seq::new(lines.len(), |i: int| deduced_line(n, clues[i], lines[i]))
}

/// One pass over the grid: all rows, then all columns. It ends at the first line whose
/// clue cannot be met, rows before columns; otherwise it gives the grid after the pass
/// and whether any line changed.
pub open spec fn pass_result(
    rows: int,
    cols: int,
    row_clues: Seq<Seq<usize>>,
    col_clues: Seq<Seq<usize>>,
    g: Seq<Seq<CellState>>,
) -> Result<(Seq<Seq<CellState>>, bool), Outcome> {
    match first_contradiction(cols, row_clues, g, 0) {
        Some(r) => Err(Outcome::RowContradiction(r as usize)),
        None => {
            let by_rows = swept(cols, row_clues, g);
            let columns = transposed(by_rows, rows, cols);
            match first_contradiction(rows, col_clues, columns, 0) {
                Some(c) => Err(Outcome::ColumnContradiction(c as usize)),
                None => {
                    let by_columns = swept(rows, col_clues, columns);
                    Ok(
                        (
                            transposed(by_columns, cols, rows),
                            by_rows != g || by_columns != columns,
                        ),
                    )
                },
            }
        },
    }
}

/// The grid and the outcome that a run ends with when, after `iteration` passes, it has
/// reached the grid `g` from `original`.
pub open spec fn outcome_from(
    rows: int,
    cols: int,
    row_clues: Seq<Seq<usize>>,
    col_clues: Seq<Seq<usize>>,
    original: Seq<Seq<CellState>>,
    g: Seq<Seq<CellState>>,
    iteration: int,
) -> (Seq<Seq<CellState>>, Outcome)
    decreases iteration_limit(rows, cols) - iteration,
{
    match pass_result(rows, cols, row_clues, col_clues, g) {
        Err(outcome) => (original, outcome),
        Ok((next, changed)) => {
            if !changed {
                (
                    next,
                    if next == original {
                        Outcome::Unchanged
                    } else {
                        Outcome::Updated
                    },
                )
            } else if iteration + 1 >= iteration_limit(rows, cols) {
                (next, Outcome::IterationLimit)
            } else {
                outcome_from(rows, cols, row_clues, col_clues, original, next, iteration + 1)
            }
        },
    }
}

/// The grid and the outcome that a run on `g` ends with.
pub open spec fn outcome_of(
    rows: int,
    cols: int,
    row_clues: Seq<Seq<usize>>,
    col_clues: Seq<Seq<usize>>,
    g: Seq<Seq<CellState>>,
) -> (Seq<Seq<CellState>>, Outcome) {
    outcome_from(rows, cols, row_clues, col_clues, g, g, 0)
}

/// Deduces every line from its own clue. Gives the lines after the deduction and whether
/// any of them changed, or the index of the first line whose clue cannot be met.
pub fn deduce_lines(n: usize, clues: &Vec<Vec<usize>>, lines: &Vec<Vec<CellState>>) -> (res: Result<
    (Vec<Vec<CellState>>, bool),
    usize,
>)
    requires
        clues.len() == lines.len(),
        is_grid(contents(lines@), lines.len() as int, n as int),
    ensures
        match res {
            Ok((next, changed)) => {
                &&& first_contradiction(n as int, contents(clues@), contents(lines@), 0) is None
                &&& contents(next@) == swept(n as int, contents(clues@), contents(lines@))
                &&& changed == (contents(next@) != contents(lines@))
            },
            Err(i) => {
                &&& i < lines.len()
                &&& first_contradiction(n as int, contents(clues@), contents(lines@), 0) == Some(
                    i as int,
                )
            },
        },
{
    let ghost cs = contents(clues@);
    let ghost ls = contents(lines@);
    let mut next: Vec<Vec<CellState>> = Vec::new();
    let mut changed = false;
    let mut i: usize = 0;
    while i < lines.len()
        invariant
            i <= lines.len(),
            clues.len() == lines.len(),
            cs == contents(clues@),
            ls == contents(lines@),
            is_grid(ls, lines.len() as int, n as int),
            next.len() == i,
            first_contradiction(n as int, cs, ls, 0) == first_contradiction(
                n as int,
                cs,
                ls,
                i as int,
            ),
            forall|j: int|
                0 <= j < i ==> (#[trigger] next@[j])@ == deduced_line(n as int, cs[j], ls[j]),
            changed <==> exists|j: int| 0 <= j < i && (#[trigger] next@[j])@ != ls[j],
        decreases lines.len() - i,
    {
        assert(ls[i as int] == lines@[i as int]@);
        assert(cs[i as int] == clues@[i as int]@);
        match solve_line(n, clues[i].as_slice(), lines[i].as_slice()) {
            Err(_) => {
                return Err(i);
            },
            Ok(new_line) => {
                let differs = !lines_equal(&new_line, &lines[i]);
                let ghost before = next@;
                let ghost was_changed = changed;
                next.push(new_line);
                if differs {
                    changed = true;
                    assert(next@[i as int]@ != ls[i as int]);
                } else {
                    proof {
                        if was_changed {
                            let j = choose|j: int| 0 <= j < i && (#[trigger] before[j])@ != ls[j];
                            assert(next@[j]@ != ls[j]);
                        }
                    }
                }
                assert forall|j: int| 0 <= j < i implies next@[j] == before[j] by {}
            },
        }
        i = i + 1;
    }
    proof {
        assert(contents(next@) =~= swept(n as int, cs, ls));
        if changed {
            let j = choose|j: int| 0 <= j < i && (#[trigger] next@[j])@ != ls[j];
            assert(contents(next@)[j] != ls[j]);
        } else {
            assert(contents(next@) =~= ls);
        }
    }
    Ok((next, changed))
}

/// One pass over the grid: every row is deduced from its clue, then every column from
/// its own. Gives the grid after the pass and whether anything changed, or the line at
/// which the pass had to stop.
pub fn pass(
    rows: usize,
    cols: usize,
    row_clues: &Vec<Vec<usize>>,
    col_clues: &Vec<Vec<usize>>,
    grid: &Vec<Vec<CellState>>,
) -> (res: Result<(Vec<Vec<CellState>>, bool), Outcome>)
    requires
        well_formed(
            rows as int,
            cols as int,
            contents(row_clues@),
            contents(col_clues@),
            contents(grid@),
        ),
    ensures
        match res {
            Ok((next, changed)) => {
                &&& pass_result(
                    rows as int,
                    cols as int,
                    contents(row_clues@),
                    contents(col_clues@),
                    contents(grid@),
                ) == Ok::<(Seq<Seq<CellState>>, bool), Outcome>((contents(next@), changed))
                &&& is_grid(contents(next@), rows as int, cols as int)
            },
            Err(outcome) => {
                &&& pass_result(
                    rows as int,
                    cols as int,
                    contents(row_clues@),
                    contents(col_clues@),
                    contents(grid@),
                ) == Err::<(Seq<Seq<CellState>>, bool), Outcome>(outcome)
                &&& outcome matches Outcome::RowContradiction(r) ==> r < rows
                &&& outcome matches Outcome::ColumnContradiction(c) ==> c < cols
            },
        },
{
    match deduce_lines(cols, row_clues, grid) {
        Err(r) => Err(Outcome::RowContradiction(r)),
        Ok((by_rows, rows_changed)) => {
            let columns = transpose(&by_rows, rows, cols);
            match deduce_lines(rows, col_clues, &columns) {
                Err(c) => Err(Outcome::ColumnContradiction(c)),
                Ok((by_columns, columns_changed)) => {
                    let next = transpose(&by_columns, cols, rows);
                    Ok((next, rows_changed || columns_changed))
                },
            }
        },
    }
}

/// Deduces what the clues force, pass after pass, until a pass changes nothing.
///
/// Gives the grid with everything that was deduced and how the run ended. Where a clue
/// cannot be met, the grid is handed back as it came.
pub fn propagate(
    rows: usize,
    cols: usize,
    row_clues: &Vec<Vec<usize>>,
    col_clues: &Vec<Vec<usize>>,
    initial_grid: &Vec<Vec<CellState>>,
) -> (res: (Vec<Vec<CellState>>, Outcome))
    requires
        well_formed(
            rows as int,
            cols as int,
            contents(row_clues@),
            contents(col_clues@),
            contents(initial_grid@),
        ),
    ensures
        (contents(res.0@), res.1) == outcome_of(
            rows as int,
            cols as int,
            contents(row_clues@),
            contents(col_clues@),
            contents(initial_grid@),
        ),
        res.1 matches Outcome::RowContradiction(r) ==> r < rows,
        res.1 matches Outcome::ColumnContradiction(c) ==> c < cols,
{
    let ghost original = contents(initial_grid@);
    let ghost rc = contents(row_clues@);
    let ghost cc = contents(col_clues@);
    let limit: u128 = (rows as u128 + cols as u128) * 2;
    let mut iteration: u128 = 0;
    let mut current = copy_grid(initial_grid);
    loop
        invariant
            limit == iteration_limit(rows as int, cols as int),
            iteration <= limit,
            original == contents(initial_grid@),
            rc == contents(row_clues@),
            cc == contents(col_clues@),
            well_formed(rows as int, cols as int, rc, cc, contents(current@)),
            outcome_from(
                rows as int,
                cols as int,
                rc,
                cc,
                original,
                contents(current@),
                iteration as int,
            ) == outcome_of(rows as int, cols as int, rc, cc, original),
        decreases limit - iteration,
    {
        match pass(rows, cols, row_clues, col_clues, &current) {
            Err(outcome) => {
                return (copy_grid(initial_grid), outcome);
            },
            Ok((next, changed)) => {
                if !changed {
                    let outcome = if grids_equal(&next, initial_grid) {
                        Outcome::Unchanged
                    } else {
                        Outcome::Updated
                    };
                    return (next, outcome);
                }
                if iteration + 1 >= limit {
                    return (next, Outcome::IterationLimit);
                }
                iteration = iteration + 1;
                current = next;
            },
        }
    }
}

/// Solves as much of a puzzle as line-by-line deduction can.
///
/// `row_clues` holds the clue of each of the `rows` rows, `col_clues` that of each of the
/// `cols` columns, and `initial_grid` what is known of the cells so far. The result holds
/// the grid with what was deduced, a message, and whether the run ended in an error: a
/// clue that cannot be met (the grid is then handed back as it came) or too many passes.
pub fn solve_puzzle(
    rows: usize,
    cols: usize,
    row_clues: &Vec<Vec<usize>>,
    col_clues: &Vec<Vec<usize>>,
    initial_grid: &Vec<Vec<CellState>>,
) -> (result: SolveResult)
    requires
        well_formed(
            rows as int,
            cols as int,
            contents(row_clues@),
            contents(col_clues@),
            contents(initial_grid@),
        ),
    ensures
        ({
            let (g, outcome) = outcome_of(
                rows as int,
                cols as int,
                contents(row_clues@),
                contents(col_clues@),
                contents(initial_grid@),
            );
            &&& contents(result.grid@) == g
            &&& result.message@ == message_text(outcome)
            &&& result.error == is_error(outcome)
        }),
        extends(contents(result.grid@), contents(initial_grid@)),
{
    let (grid, outcome) = propagate(rows, cols, row_clues, col_clues, initial_grid);
    proof {
        lemma_run_extends(
            rows as int,
            cols as int,
            contents(row_clues@),
            contents(col_clues@),
            contents(initial_grid@),
            contents(initial_grid@),
            0,
        );
    }
    let error = match outcome {
        Outcome::Unchanged => false,
        Outcome::Updated => false,
        _ => true,
    };
    SolveResult { grid, message: message_for(outcome), error }
}

/// Whether the clues and the grid have the shape that the dimensions announce.
pub fn is_well_formed(
    rows: usize,
    cols: usize,
    row_clues: &Vec<Vec<usize>>,
    col_clues: &Vec<Vec<usize>>,
    grid: &Vec<Vec<CellState>>,
) -> (ok: bool)
    ensures
        ok == well_formed(
            rows as int,
            cols as int,
            contents(row_clues@),
            contents(col_clues@),
            contents(grid@),
        ),
{
    if row_clues.len() != rows || col_clues.len() != cols || grid.len() != rows {
        return false;
    }
    let mut r: usize = 0;
    while r < rows
        invariant
            r <= rows,
            grid.len() == rows,
            forall|j: int| 0 <= j < r ==> (#[trigger] contents(grid@)[j]).len() == cols,
        decreases rows - r,
    {
        if grid[r].len() != cols {
            assert(contents(grid@)[r as int].len() != cols);
            return false;
        }
        r = r + 1;
    }
    true
}

/// Deduction never takes back what is known: after the lines have been deduced, every
/// known cell is as it was.
pub proof fn lemma_swept_extends(n: int, clues: Seq<Seq<usize>>, lines: Seq<Seq<CellState>>)
    requires
        is_grid(lines, lines.len() as int, n),
    ensures
        extends(swept(n, clues, lines), lines),
        is_grid(swept(n, clues, lines), lines.len() as int, n),
{
}

/// A cell that is `Filled` or `Crossed` before a pass is the same after it.
pub proof fn lemma_pass_extends(
    rows: int,
    cols: int,
    row_clues: Seq<Seq<usize>>,
    col_clues: Seq<Seq<usize>>,
    g: Seq<Seq<CellState>>,
)
    requires
        is_grid(g, rows, cols),
        pass_result(rows, cols, row_clues, col_clues, g) is Ok,
    ensures
        extends(pass_result(rows, cols, row_clues, col_clues, g)->Ok_0.0, g),
        is_grid(pass_result(rows, cols, row_clues, col_clues, g)->Ok_0.0, rows, cols),
{
    let by_rows = swept(cols, row_clues, g);
    let columns = transposed(by_rows, rows, cols);
    let by_columns = swept(rows, col_clues, columns);
    let next = transposed(by_columns, cols, rows);
    lemma_swept_extends(cols, row_clues, g);
    lemma_swept_extends(rows, col_clues, columns);
    assert forall|r: int, c: int|
        0 <= r < g.len() && 0 <= c < g[r].len() && g[r][c] != CellState::Empty implies next[r][c]
        == g[r][c] by {
        assert(by_rows[r][c] == g[r][c]);
        assert(columns[c][r] == by_rows[r][c]);
        assert(by_columns[c][r] == columns[c][r]);
    }
}

/// Over a whole run no known cell changes: whatever the outcome, a cell that was
/// `Filled` or `Crossed` in the grid that was handed in is the same in the grid that is
/// handed back.
pub proof fn lemma_run_extends(
    rows: int,
    cols: int,
    row_clues: Seq<Seq<usize>>,
    col_clues: Seq<Seq<usize>>,
    original: Seq<Seq<CellState>>,
    g: Seq<Seq<CellState>>,
    iteration: int,
)
    requires
        is_grid(original, rows, cols),
        is_grid(g, rows, cols),
        extends(g, original),
    ensures
        extends(outcome_from(rows, cols, row_clues, col_clues, original, g, iteration).0, original),
        is_grid(outcome_from(rows, cols, row_clues, col_clues, original, g, iteration).0, rows, cols),
    decreases iteration_limit(rows, cols) - iteration,
{
    match pass_result(rows, cols, row_clues, col_clues, g) {
        Err(outcome) => {},
        Ok((next, changed)) => {
            lemma_pass_extends(rows, cols, row_clues, col_clues, g);
            if changed && iteration + 1 < iteration_limit(rows, cols) {
                lemma_run_extends(rows, cols, row_clues, col_clues, original, next, iteration + 1);
            }
        },
    }
}

/// The grid that a run without error ends with is one that a pass leaves as it is.
pub proof fn lemma_result_is_settled(
    rows: int,
    cols: int,
    row_clues: Seq<Seq<usize>>,
    col_clues: Seq<Seq<usize>>,
    original: Seq<Seq<CellState>>,
    g: Seq<Seq<CellState>>,
    iteration: int,
)
    requires
        is_grid(g, rows, cols),
        !is_error(outcome_from(rows, cols, row_clues, col_clues, original, g, iteration).1),
    ensures
        ({
            let end = outcome_from(rows, cols, row_clues, col_clues, original, g, iteration).0;
            pass_result(rows, cols, row_clues, col_clues, end) == Ok::<
                (Seq<Seq<CellState>>, bool),
                Outcome,
            >((end, false))
        }),
    decreases iteration_limit(rows, cols) - iteration,
{
    match pass_result(rows, cols, row_clues, col_clues, g) {
        Err(outcome) => {},
        Ok((next, changed)) => {
            if !changed {
                lemma_transposed_twice(g, rows, cols);
            } else if iteration + 1 < iteration_limit(rows, cols) {
                lemma_pass_extends(rows, cols, row_clues, col_clues, g);
                lemma_result_is_settled(
                    rows,
                    cols,
                    row_clues,
                    col_clues,
                    original,
                    next,
                    iteration + 1,
                );
            }
        },
    }
}

/// Solving again changes nothing: a run on the grid that a run without error ended
/// with hands that grid back and reports that it is as it was handed in.
pub proof fn lemma_solving_again_changes_nothing(
    rows: int,
    cols: int,
    row_clues: Seq<Seq<usize>>,
    col_clues: Seq<Seq<usize>>,
    g: Seq<Seq<CellState>>,
)
    requires
        is_grid(g, rows, cols),
        !is_error(outcome_of(rows, cols, row_clues, col_clues, g).1),
    ensures
        outcome_of(rows, cols, row_clues, col_clues, outcome_of(rows, cols, row_clues, col_clues, g).0)
            == (outcome_of(rows, cols, row_clues, col_clues, g).0, Outcome::Unchanged),
{
    lemma_result_is_settled(rows, cols, row_clues, col_clues, g, g, 0);
}

} // verus!
