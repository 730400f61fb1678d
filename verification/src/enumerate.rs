//! Enumeration of every way to lay the blocks of a clue into a line.

use vstd::prelude::*;
use crate::lists::contents;
use crate::runs::{
    is_binary, lemma_arrangements_complete, lemma_arrangements_distinct, lemma_arrangements_sound,
    lengths, positive_from, runs,
};

verus! {

/// A clue that asks for no filled cell at all: no block, or a single block of length zero.
pub open spec fn is_blank(clue: Seq<usize>) -> bool {
    clue.len() == 0 || (clue.len() == 1 && clue[0] == 0)
}

/// Number of cells that the blocks from `k` on take up when packed as tightly as the rules
/// allow: their lengths, plus one gap cell between neighbours.
pub open spec fn span_from(clue: Seq<usize>, k: int) -> nat
    decreases clue.len() - k,
{
    if k < 0 || k >= clue.len() {
        0
    } else if k + 1 == clue.len() {
        clue[k] as nat
    } else {
        clue[k] as nat + 1 + span_from(clue, k + 1)
    }
}

/// The line of `n` cells with nothing filled.
pub open spec fn zeros(n: int) -> Seq<u8> {
    Seq::new(n as nat, |j: int| 0u8)
}

/// `base` with the cells `start .. start + len` set to `value`.
pub open spec fn paint(base: Seq<u8>, start: int, len: int, value: u8) -> Seq<u8> {
    Seq::new(base.len(), |j: int| if start <= j < start + len { value } else { base[j] })
}

/// Every arrangement that extends `base` by the blocks from `k` on, the first of them
/// starting at `lo` or later, in the order in which they are found: first those in which
/// block `k` starts at `lo` itself, then those in which it starts further right.
pub open spec fn placements(n: int, clue: Seq<usize>, k: int, lo: int, base: Seq<u8>) -> Seq<Seq<u8>>
    decreases clue.len() - k, n + 1 - lo,
{
    if k < 0 || k >= clue.len() {
        seq![base]
    } else if lo + span_from(clue, k) > n {
        Seq::empty()
    } else {
        placements(n, clue, k + 1, lo + clue[k] + 1, paint(base, lo, clue[k] as int, 1))
            + placements(n, clue, k, lo + 1, base)
    }
}

/// Every arrangement of a line of `n` cells that a clue admits.
pub open spec fn arrangements(n: int, clue: Seq<usize>) -> Seq<Seq<u8>> {
    if is_blank(clue) {
        seq![zeros(n)]
    } else {
        placements(n, clue, 0, 0, zeros(n))
    }
}

/// The tightly packed span only grows when more blocks are taken in.
pub proof fn lemma_span_monotone(clue: Seq<usize>, j: int, k: int)
    requires
        0 <= j <= k < clue.len(),
    ensures
        span_from(clue, k) <= span_from(clue, j),
    decreases k - j,
{
    if j < k {
        lemma_span_monotone(clue, j + 1, k);
    }
}

/// Whether the clue asks for no filled cell.
pub fn clue_is_blank(clue: &[usize]) -> (b: bool)
    ensures
        b == is_blank(clue@),
{
    clue.len() == 0 || (clue.len() == 1 && clue[0] == 0)
}

/// The rightmost cell at which block `k` may start so that it and all blocks after it
/// still fit in `size` cells, or `None` when they do not fit at all.
pub fn latest_start(size: usize, clue: &[usize], k: usize) -> (r: Option<usize>)
    requires
        k < clue.len(),
    ensures
        match r {
            Some(s) => s + span_from(clue@, k as int) == size,
            None => span_from(clue@, k as int) > size,
        },
{
    let mut j: usize = clue.len() - 1;
    if clue[j] > size {
        proof {
            lemma_span_monotone(clue@, k as int, j as int);
        }
        return None;
    }
    let mut used: usize = clue[j];
    while j > k
        invariant
            k <= j < clue.len(),
            used == span_from(clue@, j as int),
            used <= size,
        decreases j,
    {
        j = j - 1;
        if used == size || clue[j] > size - used - 1 {
            proof {
                lemma_span_monotone(clue@, k as int, j as int);
            }
            return None;
        }
        used = clue[j] + 1 + used;
    }
    Some(size - used)
}

/// A fresh line of `size` cells with nothing filled.
pub fn blank_cells(size: usize) -> (line: Vec<u8>)
    ensures
        line@ == zeros(size as int),
{
    let mut line: Vec<u8> = Vec::new();
    let mut i: usize = 0;
    while i < size
        invariant
            i <= size,
            line@ == zeros(i as int),
        decreases size - i,
    {
        line.push(0);
        i = i + 1;
    }
    line
}

/// A copy of a line.
pub fn copy_cells(line: &Vec<u8>) -> (copy: Vec<u8>)
    ensures
        copy@ == line@,
{
    let mut copy: Vec<u8> = Vec::new();
    let mut i: usize = 0;
    while i < line.len()
        invariant
            i <= line.len(),
            copy@ == line@.take(i as int),
        decreases line.len() - i,
    {
        copy.push(line[i]);
        i = i + 1;
    }
    copy
}

/// Sets the cells `start .. start + len` of a line to `value`.
pub fn paint_cells(line: &mut Vec<u8>, start: usize, len: usize, value: u8)
    requires
        start + len <= old(line).len(),
    ensures
        final(line)@ == paint(old(line)@, start as int, len as int, value),
{
    let mut j: usize = 0;
    while j < len
        invariant
            j <= len,
            start + len <= line.len(),
            line@ == paint(old(line)@, start as int, j as int, value),
        decreases len - j,
    {
        line.set(start + j, value);
        j = j + 1;
    }
}

/// Appends to `solutions` every arrangement that extends `current` by the blocks from `k`
/// on, block `k` starting at `start` or later. `current` is used as scratch space and
/// handed back as it came.
pub fn place_blocks(
    size: usize,
    clue: &[usize],
    k: usize,
    start: usize,
    current: &mut Vec<u8>,
    solutions: &mut Vec<Vec<u8>>,
)
    requires
        k < clue.len(),
        old(current).len() == size,
        forall|j: int| start <= j < size ==> old(current)[j] == 0,
    ensures
        final(current)@ == old(current)@,
        contents(final(solutions)@) == contents(old(solutions)@) + placements(
            size as int,
            clue@,
            k as int,
            start as int,
            old(current)@,
        ),
    decreases clue.len() - k,
{
    let ghost base = current@;
    let ghost found = contents(solutions@);
    let ghost target = found + placements(size as int, clue@, k as int, start as int, base);
    match latest_start(size, clue, k) {
        None => {
            assert(contents(solutions@) =~= target);
        },
        Some(latest) => {
            if start > latest {
                assert(contents(solutions@) =~= target);
            } else {
                let len = clue[k];
                let mut i: usize = start;
                let mut done = false;
                while !done
                    invariant
                        k < clue.len(),
                        len == clue[k as int],
                        start <= i <= latest,
                        latest + span_from(clue@, k as int) == size,
                        current@ == base,
                        base.len() == size,
                        forall|j: int| start <= j < size ==> base[j] == 0,
                        !done ==> contents(solutions@) + placements(
                            size as int,
                            clue@,
                            k as int,
                            i as int,
                            base,
                        ) == target,
                        done ==> contents(solutions@) == target,
                    decreases latest - i + (if done { 0int } else { 1int }),
                {
                    let ghost before = contents(solutions@);
                    let ghost painted = paint(base, i as int, len as int, 1);
                    let ghost here = placements(
                        size as int,
                        clue@,
                        k + 1,
                        i + len + 1,
                        painted,
                    );
                    let ghost later = placements(size as int, clue@, k as int, i + 1, base);
                    assert(placements(size as int, clue@, k as int, i as int, base) == here
                        + later);
                    paint_cells(current, i, len, 1);
                    if k + 1 == clue.len() {
                        let found_one = copy_cells(current);
                        solutions.push(found_one);
                        assert(contents(solutions@) =~= before + here);
                    } else {
                        place_blocks(size, clue, k + 1, i + len + 1, current, solutions);
                    }
                    paint_cells(current, i, len, 0);
                    assert(current@ =~= base);
                    assert((before + here) + later =~= before + (here + later));
                    if i == latest {
                        done = true;
                        assert(later =~= Seq::<Seq<u8>>::empty());
                        assert(contents(solutions@) =~= target);
                    } else {
                        i = i + 1;
                    }
                }
            }
        },
    }
}

/// Every arrangement of a line of `size` cells that the clue admits, each a line of 0s
/// (not filled) and 1s (filled).
///
/// Each has `size` cells, and its maximal runs of filled cells are the blocks of the clue
/// that take up cells, in order. Where the clue is blank or none of its blocks is empty,
/// every such line is listed, and none twice. A clue whose blocks do not fit in the line
/// has no arrangement.
pub fn generate_possibilities(size: usize, clue: &[usize]) -> (solutions: Vec<Vec<u8>>)
    ensures
        contents(solutions@) == arrangements(size as int, clue@),
        forall|i: int|
            0 <= i < solutions.len() ==> {
                &&& (#[trigger] solutions[i]).len() == size
                &&& is_binary(solutions[i]@)
                &&& runs(solutions[i]@) == lengths(clue@)
            },
        is_blank(clue@) || positive_from(clue@, 0) ==> forall|a: Seq<u8>|
            a.len() == size && is_binary(a) && runs(a) == lengths(clue@) ==> #[trigger] contents(
                solutions@,
            ).contains(a),
        is_blank(clue@) || positive_from(clue@, 0) ==> forall|i: int, j: int|
            0 <= i < j < solutions.len() ==> solutions[i]@ != solutions[j]@,
        span_from(clue@, 0) > size ==> solutions.len() == 0,
{
    let mut solutions: Vec<Vec<u8>> = Vec::new();
    let mut current = blank_cells(size);
    if clue_is_blank(clue) {
        solutions.push(current);
        assert(contents(solutions@) =~= seq![zeros(size as int)]);
    } else {
        assert(contents(solutions@) =~= Seq::<Seq<u8>>::empty());
        place_blocks(size, clue, 0, 0, &mut current, &mut solutions);
        assert(contents(solutions@) =~= arrangements(size as int, clue@));
    }
    proof {
        let found = contents(solutions@);
        assert forall|i: int| 0 <= i < solutions.len() implies {
            &&& (#[trigger] solutions[i]).len() == size
            &&& is_binary(solutions[i]@)
            &&& runs(solutions[i]@) == lengths(clue@)
        } by {
            assert(found[i] == solutions[i]@);
            lemma_arrangements_sound(size as int, clue@, found[i]);
        }
        if is_blank(clue@) || positive_from(clue@, 0) {
            assert forall|a: Seq<u8>|
                a.len() == size && is_binary(a) && runs(a) == lengths(
                    clue@,
                ) implies #[trigger] found.contains(a) by {
                lemma_arrangements_complete(size as int, clue@, a);
            }
            lemma_arrangements_distinct(size as int, clue@);
            assert forall|i: int, j: int| 0 <= i < j < solutions.len() implies solutions[i]@
                != solutions[j]@ by {
                assert(found[i] == solutions[i]@);
                assert(found[j] == solutions[j]@);
            }
        }
    }
    solutions
}

} // verus!
