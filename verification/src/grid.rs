//! Grids of cells: their shape, their transposition, and a few whole-grid operations.

use vstd::prelude::*;
use crate::cell::CellState;
use crate::lists::contents;

verus! {

/// The grid has `rows` rows of `cols` cells each.
pub open spec fn is_grid(g: Seq<Seq<CellState>>, rows: int, cols: int) -> bool {
    g.len() == rows && forall|r: int| 0 <= r < rows ==> (#[trigger] g[r]).len() == cols
}

/// The grid of `rows` rows and `cols` columns turned over: `cols` lines of `rows` cells,
/// line `c` being column `c` of `g`.
pub open spec fn transposed(g: Seq<Seq<CellState>>, rows: int, cols: int) -> Seq<Seq<CellState>> {
    Seq::new(cols as nat, |c: int| Seq::new(rows as nat, |r: int| g[r][c]))
}

/// `later` has the shape of `earlier`, and every cell that is known in `earlier` has
/// the same state in `later`.
pub open spec fn extends(later: Seq<Seq<CellState>>, earlier: Seq<Seq<CellState>>) -> bool {
    &&& later.len() == earlier.len()
    &&& forall|r: int|
        0 <= r < earlier.len() ==> (#[trigger] later[r]).len() == earlier[r].len()
    &&& forall|r: int, c: int|
        0 <= r < earlier.len() && 0 <= c < earlier[r].len() && earlier[r][c]
            != CellState::Empty ==> later[r][c] == earlier[r][c]
}

/// Turning a grid over twice gives the grid back.
pub proof fn lemma_transposed_twice(g: Seq<Seq<CellState>>, rows: int, cols: int)
    requires
        is_grid(g, rows, cols),
    ensures
        transposed(transposed(g, rows, cols), cols, rows) == g,
{
    let back = transposed(transposed(g, rows, cols), cols, rows);
    assert forall|r: int| 0 <= r < rows implies back[r] == g[r] by {
        assert(back[r] =~= g[r]);
    }
    assert(back =~= g);
}

/// A copy of a line of cells.
pub fn copy_line(line: &Vec<CellState>) -> (copy: Vec<CellState>)
    ensures
        copy@ == line@,
{
    let mut copy: Vec<CellState> = Vec::new();
    let mut i: usize = 0;
    while i < line.len()
        invariant
            i <= line.len(),
            copy@ == line@.take(i as int),
        decreases line.len() - i,
    {
        copy.push(line[i]);
        i = i + 1;
    }
    copy
}

/// A copy of a grid.
pub fn copy_grid(grid: &Vec<Vec<CellState>>) -> (copy: Vec<Vec<CellState>>)
    ensures
        contents(copy@) == contents(grid@),
{
    let mut copy: Vec<Vec<CellState>> = Vec::new();
    let mut r: usize = 0;
    while r < grid.len()
        invariant
            r <= grid.len(),
            contents(copy@) == contents(grid@).take(r as int),
        decreases grid.len() - r,
    {
        let line = copy_line(&grid[r]);
        let ghost before = contents(copy@);
        copy.push(line);
        assert(contents(copy@) =~= before.push(grid[r as int]@));
        assert(contents(copy@) =~= contents(grid@).take(r + 1));
        r = r + 1;
    }
    assert(contents(grid@).take(grid.len() as int) =~= contents(grid@));
    copy
}

/// Whether two lines hold the same cells.
pub fn lines_equal(a: &Vec<CellState>, b: &Vec<CellState>) -> (same: bool)
    ensures
        same == (a@ == b@),
{
    if a.len() != b.len() {
        return false;
    }
    let mut i: usize = 0;
    while i < a.len()
        invariant
            i <= a.len(),
            a.len() == b.len(),
            forall|j: int| 0 <= j < i ==> a@[j] == b@[j],
        decreases a.len() - i,
    {
        if a[i] != b[i] {
            return false;
        }
        i = i + 1;
    }
    assert(a@ =~= b@);
    true
}

/// Whether two grids hold the same cells.
pub fn grids_equal(a: &Vec<Vec<CellState>>, b: &Vec<Vec<CellState>>) -> (same: bool)
    ensures
        same == (contents(a@) == contents(b@)),
{
    if a.len() != b.len() {
        assert(contents(a@).len() != contents(b@).len());
        return false;
    }
    let mut r: usize = 0;
    while r < a.len()
        invariant
            r <= a.len(),
            a.len() == b.len(),
            forall|j: int| 0 <= j < r ==> a@[j]@ == b@[j]@,
        decreases a.len() - r,
    {
        if !lines_equal(&a[r], &b[r]) {
            assert(contents(a@)[r as int] != contents(b@)[r as int]);
            return false;
        }
        r = r + 1;
    }
    assert(contents(a@) =~= contents(b@));
    true
}

/// Turns a grid of `rows` rows and `cols` columns over, so that its columns become lines.
pub fn transpose(grid: &Vec<Vec<CellState>>, rows: usize, cols: usize) -> (turned: Vec<
    Vec<CellState>,
>)
    requires
        is_grid(contents(grid@), rows as int, cols as int),
    ensures
        contents(turned@) == transposed(contents(grid@), rows as int, cols as int),
        is_grid(contents(turned@), cols as int, rows as int),
{
    let ghost g = contents(grid@);
    let mut turned: Vec<Vec<CellState>> = Vec::new();
    let mut c: usize = 0;
    while c < cols
        invariant
            c <= cols,
            g == contents(grid@),
            is_grid(g, rows as int, cols as int),
            turned.len() == c,
            forall|k: int|
                0 <= k < c ==> (#[trigger] turned@[k])@ == Seq::new(
                    rows as nat,
                    |r: int| g[r][k],
                ),
        decreases cols - c,
    {
        let mut line: Vec<CellState> = Vec::new();
        let mut r: usize = 0;
        while r < rows
            invariant
                r <= rows,
                c < cols,
                g == contents(grid@),
                is_grid(g, rows as int, cols as int),
                line.len() == r,
                forall|k: int| 0 <= k < r ==> line@[k] == g[k][c as int],
            decreases rows - r,
        {
            assert(g[r as int] == grid@[r as int]@);
            line.push(grid[r][c]);
            r = r + 1;
        }
        assert(line@ =~= Seq::new(rows as nat, |r: int| g[r][c as int]));
        turned.push(line);
        c = c + 1;
    }
    assert(contents(turned@) =~= transposed(g, rows as int, cols as int));
    turned
}

} // verus!
