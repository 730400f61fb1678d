//! Deduction on a single line: what its clue and its known cells force.

use vstd::prelude::*;
use crate::cell::CellState;
use crate::enumerate::{arrangements, clue_is_blank, generate_possibilities, is_blank, zeros};
use crate::lists::contents;
use crate::runs::{
    is_binary, lemma_arrangements_complete, lemma_arrangements_sound, lengths, positive_from, runs,
};

verus! {

/// The clue of a line cannot be met with the cells that are already known.
#[derive(Clone, Copy, Debug, PartialEq, Eq, Structural)]
pub struct Contradiction;

/// The arrangement agrees with every known cell of the line: filled where the line is
/// `Filled`, not filled where it is `Crossed`.
pub open spec fn consistent(a: Seq<u8>, line: Seq<CellState>) -> bool {
    forall|i: int|
        0 <= i < line.len() ==> match #[trigger] line[i] {
            CellState::Filled => a[i] == 1,
            CellState::Crossed => a[i] == 0,
            CellState::Empty => true,
        }
}

/// The arrangement is admitted by the clue and agrees with the known cells.
pub open spec fn is_candidate(n: int, clue: Seq<usize>, line: Seq<CellState>, a: Seq<u8>) -> bool {
    arrangements(n, clue).contains(a) && consistent(a, line)
}

/// No arrangement is left for the line.
pub open spec fn contradictory(n: int, clue: Seq<usize>, line: Seq<CellState>) -> bool {
    forall|a: Seq<u8>| !#[trigger] is_candidate(n, clue, line, a)
}

/// Every arrangement that is left has `value` in cell `i`.
pub open spec fn forced(n: int, clue: Seq<usize>, line: Seq<CellState>, i: int, value: u8) -> bool {
    forall|a: Seq<u8>| #[trigger] is_candidate(n, clue, line, a) ==> a[i] == value
}

/// What is known of cell `i` after the deduction: a known cell stays; an unknown one
/// becomes `Filled` or `Crossed` where all arrangements that are left agree on it.
pub open spec fn deduced_cell(n: int, clue: Seq<usize>, line: Seq<CellState>, i: int) -> CellState {
    if line[i] != CellState::Empty {
        line[i]
    } else if forced(n, clue, line, i, 1) {
        CellState::Filled
    } else if forced(n, clue, line, i, 0) {
        CellState::Crossed
    } else {
        CellState::Empty
    }
}

/// The line after the deduction.
pub open spec fn deduced_line(n: int, clue: Seq<usize>, line: Seq<CellState>) -> Seq<CellState> {
    Seq::new(n as nat, |i: int| deduced_cell(n, clue, line, i))
}

/// Whether an arrangement agrees with the known cells of a line.
pub fn agrees(a: &Vec<u8>, line: &[CellState]) -> (b: bool)
    requires
        a.len() == line.len(),
    ensures
        b == consistent(a@, line@),
{
    let mut i: usize = 0;
    while i < line.len()
        invariant
            i <= line.len(),
            a.len() == line.len(),
            forall|j: int|
                0 <= j < i ==> match #[trigger] line@[j] {
                    CellState::Filled => a@[j] == 1,
                    CellState::Crossed => a@[j] == 0,
                    CellState::Empty => true,
                },
        decreases line.len() - i,
    {
        let fits = match line[i] {
            CellState::Filled => a[i] == 1,
            CellState::Crossed => a[i] == 0,
            CellState::Empty => true,
        };
        if !fits {
            assert(!consistent(a@, line@)) by {
                let _ = line@[i as int];
            }
            return false;
        }
        i = i + 1;
    }
    true
}

/// Whether all the arrangements picked out by `keep` have `value` in cell `i`.
pub fn all_have(possibilities: &Vec<Vec<u8>>, keep: &Vec<usize>, i: usize, value: u8) -> (b: bool)
    requires
        forall|t: int| 0 <= t < keep.len() ==> keep[t] < possibilities.len(),
        forall|j: int| 0 <= j < possibilities.len() ==> i < (#[trigger] possibilities[j]).len(),
    ensures
        b == forall|t: int| 0 <= t < keep.len() ==> possibilities[keep[t] as int][i as int] == value,
{
    let mut t: usize = 0;
    while t < keep.len()
        invariant
            t <= keep.len(),
            forall|t: int| 0 <= t < keep.len() ==> keep[t] < possibilities.len(),
            forall|j: int| 0 <= j < possibilities.len() ==> i < (#[trigger] possibilities[j]).len(),
            forall|s: int| 0 <= s < t ==> possibilities[keep[s] as int][i as int] == value,
        decreases keep.len() - t,
    {
        if possibilities[keep[t]][i] != value {
            return false;
        }
        t = t + 1;
    }
    true
}

/// Where the clue is blank or none of its blocks is empty, the arrangements that are left
/// for a line are the lines of `n` cells, each 0 or 1, whose maximal runs of filled cells
/// are the blocks of the clue in order and which agree with the known cells.
pub proof fn lemma_candidates_by_runs(n: int, clue: Seq<usize>, line: Seq<CellState>, a: Seq<u8>)
    requires
        0 <= n,
        is_blank(clue) || positive_from(clue, 0),
    ensures
        is_candidate(n, clue, line, a) <==> a.len() == n && is_binary(a) && runs(a) == lengths(
            clue,
        ) && consistent(a, line),
{
    if is_candidate(n, clue, line, a) {
        lemma_arrangements_sound(n, clue, a);
    }
    if a.len() == n && is_binary(a) && runs(a) == lengths(clue) {
        lemma_arrangements_complete(n, clue, a);
    }
}

/// With a blank clue the only arrangement is the line without a filled cell.
proof fn lemma_blank_candidates(n: int, clue: Seq<usize>, line: Seq<CellState>)
    requires
        is_blank(clue),
        line.len() == n,
    ensures
        forall|a: Seq<u8>| #[trigger] is_candidate(n, clue, line, a) ==> a == zeros(n),
        consistent(zeros(n), line) ==> is_candidate(n, clue, line, zeros(n)),
{
    assert(arrangements(n, clue)[0] == zeros(n));
}

/// Deduces what the clue forces on a line of `line_size` cells.
///
/// Of all arrangements that the clue admits, those that agree with the known cells are
/// kept. If none is left the line is contradictory. Otherwise each unknown cell on which
/// all of them agree becomes `Filled` or `Crossed`; known cells stay as they are.
pub fn solve_line(line_size: usize, clue: &[usize], current_line: &[CellState]) -> (res: Result<
    Vec<CellState>,
    Contradiction,
>)
    requires
        current_line.len() == line_size,
    ensures
        res is Err <==> contradictory(line_size as int, clue@, current_line@),
        res matches Ok(line) ==> line@ == deduced_line(line_size as int, clue@, current_line@),
{
    let ghost n = line_size as int;
    if clue_is_blank(clue) {
        let mut new_line: Vec<CellState> = Vec::new();
        let mut i: usize = 0;
        while i < line_size
            invariant
                i <= line_size,
                n == line_size,
                is_blank(clue@),
                current_line.len() == line_size,
                new_line.len() == i,
                forall|j: int| 0 <= j < i ==> current_line@[j] != CellState::Filled,
                forall|j: int| 0 <= j < i ==> new_line@[j] == CellState::Crossed,
            decreases line_size - i,
        {
            if current_line[i] == CellState::Filled {
                assert(contradictory(n, clue@, current_line@)) by {
                    assert forall|a: Seq<u8>| !#[trigger] is_candidate(
                        n,
                        clue@,
                        current_line@,
                        a,
                    ) by {
                        if is_candidate(n, clue@, current_line@, a) {
                            lemma_blank_candidates(n, clue@, current_line@);
                            let _ = current_line@[i as int];
                        }
                    }
                }
                return Err(Contradiction);
            }
            new_line.push(CellState::Crossed);
            i = i + 1;
        }
        proof {
            lemma_blank_candidates(n, clue@, current_line@);
            assert(consistent(zeros(n), current_line@));
            assert(is_candidate(n, clue@, current_line@, zeros(n)));
            assert forall|j: int| 0 <= j < n implies new_line@[j] == deduced_cell(
                n,
                clue@,
                current_line@,
                j,
            ) by {
                if current_line@[j] == CellState::Empty {
                    assert(!forced(n, clue@, current_line@, j, 1));
                    assert(forced(n, clue@, current_line@, j, 0));
                }
            }
            assert(new_line@ =~= deduced_line(n, clue@, current_line@));
        }
        return Ok(new_line);
    }
    let possibilities = generate_possibilities(line_size, clue);
    let ghost found = contents(possibilities@);
    let mut keep: Vec<usize> = Vec::new();
    let mut j: usize = 0;
    while j < possibilities.len()
        invariant
            j <= possibilities.len(),
            current_line.len() == line_size,
            forall|j: int|
                0 <= j < possibilities.len() ==> (#[trigger] possibilities[j]).len() == line_size,
            forall|t: int|
                0 <= t < keep.len() ==> keep[t] < possibilities.len() && consistent(
                    possibilities[keep[t] as int]@,
                    current_line@,
                ),
            forall|s: int|
                0 <= s < j && consistent(possibilities[s]@, current_line@) ==> exists|t: int|
                    0 <= t < keep.len() && keep[t] == s,
        decreases possibilities.len() - j,
    {
        if agrees(&possibilities[j], current_line) {
            let ghost before = keep@;
            keep.push(j);
            assert(keep[before.len() as int] == j);
            assert forall|s: int|
                0 <= s < j + 1 && consistent(
                    possibilities[s]@,
                    current_line@,
                ) implies exists|t: int| 0 <= t < keep.len() && keep[t] == s by {
                if s < j {
                    let t = choose|t: int| 0 <= t < before.len() && before[t] == s;
                    assert(keep[t] == s);
                }
            }
        }
        j = j + 1;
    }
    proof {
        // The arrangements that are left are those that `keep` picks out.
        assert forall|a: Seq<u8>| #[trigger]
            is_candidate(n, clue@, current_line@, a) implies exists|t: int|
            0 <= t < keep.len() && possibilities[keep[t] as int]@ == a by {
            let s = choose|s: int| 0 <= s < found.len() && found[s] == a;
            assert(found[s] == possibilities[s]@);
            let t = choose|t: int| 0 <= t < keep.len() && keep[t] == s;
            assert(possibilities[keep[t] as int]@ == a);
        }
        assert forall|t: int| 0 <= t < keep.len() implies is_candidate(
            n,
            clue@,
            current_line@,
            #[trigger] possibilities[keep[t] as int]@,
        ) by {
            assert(found[keep[t] as int] == possibilities[keep[t] as int]@);
        }
    }
    if keep.len() == 0 {
        return Err(Contradiction);
    }
    let ghost witness = possibilities[keep[0] as int]@;
    assert(is_candidate(n, clue@, current_line@, witness));
    let mut new_line: Vec<CellState> = Vec::new();
    let mut i: usize = 0;
    while i < line_size
        invariant
            i <= line_size,
            n == line_size,
            current_line.len() == line_size,
            keep.len() > 0,
            new_line.len() == i,
            forall|j: int|
                0 <= j < possibilities.len() ==> (#[trigger] possibilities[j]).len() == line_size
                    && is_binary(possibilities[j]@),
            forall|t: int| 0 <= t < keep.len() ==> keep[t] < possibilities.len(),
            forall|a: Seq<u8>| #[trigger]
                is_candidate(n, clue@, current_line@, a) ==> exists|t: int|
                    0 <= t < keep.len() && possibilities[keep[t] as int]@ == a,
            forall|t: int|
                0 <= t < keep.len() ==> is_candidate(
                    n,
                    clue@,
                    current_line@,
                    #[trigger] possibilities[keep[t] as int]@,
                ),
            forall|j: int|
                0 <= j < i ==> new_line@[j] == deduced_cell(n, clue@, current_line@, j),
        decreases line_size - i,
    {
        let known = current_line[i];
        let cell = if known != CellState::Empty {
            known
        } else {
            let first = possibilities[keep[0]][i];
            let ghost head = possibilities[keep[0] as int]@;
            assert(is_candidate(n, clue@, current_line@, head));
            assert(head[i as int] == 0 || head[i as int] == 1);
            if all_have(&possibilities, &keep, i, first) {
                assert(forced(n, clue@, current_line@, i as int, first)) by {
                    assert forall|a: Seq<u8>| #[trigger]
                        is_candidate(n, clue@, current_line@, a) implies a[i as int]
                        == first by {
                        let t = choose|t: int|
                            0 <= t < keep.len() && possibilities[keep[t] as int]@ == a;
                        assert(possibilities[keep[t] as int][i as int] == first);
                    }
                }
                if first == 1 {
                    CellState::Filled
                } else {
                    assert(!forced(n, clue@, current_line@, i as int, 1));
                    CellState::Crossed
                }
            } else {
                let ghost t = choose|t: int|
                    0 <= t < keep.len() && possibilities[keep[t] as int][i as int] != first;
                let ghost other = possibilities[keep[t] as int]@;
                assert(is_candidate(n, clue@, current_line@, other));
                assert(other[i as int] == 0 || other[i as int] == 1);
                assert(!forced(n, clue@, current_line@, i as int, 1));
                assert(!forced(n, clue@, current_line@, i as int, 0));
                CellState::Empty
            }
        };
        new_line.push(cell);
        i = i + 1;
    }
    assert(new_line@ =~= deduced_line(n, clue@, current_line@));
    Ok(new_line)
}

} // verus!
