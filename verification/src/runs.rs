//! What the enumerated arrangements are, said without reference to how they are found:
//! the lines whose maximal runs of filled cells are the blocks of the clue, in order.

use vstd::prelude::*;
use crate::enumerate::{arrangements, is_blank, paint, placements, span_from, zeros};

verus! {

/// Every cell is 0 or 1.
pub open spec fn is_binary(line: Seq<u8>) -> bool {
    forall|j: int| 0 <= j < line.len() ==> line[j] == 0 || line[j] == 1
}

/// Number of consecutive filled cells that start at cell `i`.
pub open spec fn ones_from(line: Seq<u8>, i: int) -> nat
    decreases line.len() - i,
{
    if 0 <= i < line.len() && line[i] == 1 {
        1 + ones_from(line, i + 1)
    } else {
        0
    }
}

/// Lengths of the maximal runs of filled cells that start at cell `i` or later, left to
/// right.
pub open spec fn runs_from(line: Seq<u8>, i: int) -> Seq<int>
    decreases line.len() - i,
{
    if i < 0 || i >= line.len() {
        Seq::empty()
    } else if line[i] != 1 {
        runs_from(line, i + 1)
    } else {
        proof {
            lemma_ones_cells(line, i + 1);
        }
        seq![1 + ones_from(line, i + 1) as int] + runs_from(
            line,
            i + 1 + ones_from(line, i + 1),
        )
    }
}

/// Lengths of the maximal runs of filled cells of a line, left to right.
pub open spec fn runs(line: Seq<u8>) -> Seq<int> {
    runs_from(line, 0)
}

/// The blocks from `k` on that take up cells, in order: the clue without its zeros.
pub open spec fn lengths_from(clue: Seq<usize>, k: int) -> Seq<int>
    decreases clue.len() - k,
{
    if k < 0 || k >= clue.len() {
        Seq::empty()
    } else if clue[k] == 0 {
        lengths_from(clue, k + 1)
    } else {
        seq![clue[k] as int] + lengths_from(clue, k + 1)
    }
}

/// The blocks of a clue that take up cells, in order.
pub open spec fn lengths(clue: Seq<usize>) -> Seq<int> {
    lengths_from(clue, 0)
}

/// No block from `k` on has length zero.
pub open spec fn positive_from(clue: Seq<usize>, k: int) -> bool {
    forall|j: int| k <= j < clue.len() ==> clue[j] > 0
}

/// A line without a filled cell from `i` on has no run there.
pub proof fn lemma_runs_of_unfilled(line: Seq<u8>, i: int)
    requires
        forall|j: int| i <= j < line.len() && 0 <= j ==> line[j] != 1,
    ensures
        runs_from(line, i) == Seq::<int>::empty(),
    decreases line.len() - i,
{
    if 0 <= i < line.len() {
        lemma_runs_of_unfilled(line, i + 1);
    }
}

/// A line with no run from `i` on has no filled cell there.
pub proof fn lemma_no_runs_unfilled(line: Seq<u8>, i: int)
    requires
        0 <= i,
        runs_from(line, i).len() == 0,
    ensures
        forall|j: int| i <= j < line.len() ==> line[j] != 1,
    decreases line.len() - i,
{
    if i < line.len() {
        if line[i] == 1 {
            assert(runs_from(line, i)[0] == 1 + ones_from(line, i + 1));
        } else {
            lemma_runs_of_unfilled_step(line, i);
            lemma_no_runs_unfilled(line, i + 1);
        }
    }
}

/// An unfilled cell, or the end of the line, contributes nothing to the runs.
pub proof fn lemma_runs_of_unfilled_step(line: Seq<u8>, i: int)
    requires
        0 <= i,
        i >= line.len() || line[i] != 1,
    ensures
        runs_from(line, i) == runs_from(line, i + 1),
{
}

/// The filled cells counted by `ones_from` are there, and the cell after them is not filled.
pub proof fn lemma_ones_cells(line: Seq<u8>, i: int)
    requires
        0 <= i,
    ensures
        i + ones_from(line, i) <= line.len() || ones_from(line, i) == 0,
        forall|j: int| i <= j < i + ones_from(line, i) ==> line[j] == 1,
        i + ones_from(line, i) < line.len() ==> line[i + ones_from(line, i)] != 1,
    decreases line.len() - i,
{
    if i < line.len() && line[i] == 1 {
        lemma_ones_cells(line, i + 1);
    }
}

/// A stretch of `m` filled cells that ends at an unfilled cell or at the end of the line
/// is counted in full.
pub proof fn lemma_ones_block(line: Seq<u8>, i: int, m: int)
    requires
        0 <= i,
        0 <= m,
        i + m <= line.len(),
        forall|j: int| i <= j < i + m ==> line[j] == 1,
        i + m == line.len() || line[i + m] != 1,
    ensures
        ones_from(line, i) == m,
    decreases m,
{
    if m > 0 {
        lemma_ones_block(line, i + 1, m - 1);
    }
}

/// Every run has at least one cell.
pub proof fn lemma_runs_positive(line: Seq<u8>, i: int)
    requires
        0 <= i,
    ensures
        forall|j: int| 0 <= j < runs_from(line, i).len() ==> runs_from(line, i)[j] >= 1,
    decreases line.len() - i,
{
    if i < line.len() {
        if line[i] != 1 {
            lemma_runs_positive(line, i + 1);
            assert(runs_from(line, i) == runs_from(line, i + 1));
        } else {
            let rest = runs_from(line, i + 1 + ones_from(line, i + 1));
            lemma_ones_cells(line, i + 1);
            lemma_runs_positive(line, i + 1 + ones_from(line, i + 1));
            assert forall|j: int| 0 <= j < runs_from(line, i).len() implies runs_from(line, i)[j]
                >= 1 by {
                if j > 0 {
                    assert(runs_from(line, i)[j] == rest[j - 1]);
                }
            }
        }
    }
}

/// The first block that takes up cells heads the list of lengths.
pub proof fn lemma_lengths_unfold(clue: Seq<usize>, k: int)
    requires
        0 <= k < clue.len(),
    ensures
        clue[k] == 0 ==> lengths_from(clue, k) == lengths_from(clue, k + 1),
        clue[k] > 0 ==> lengths_from(clue, k) == seq![clue[k] as int] + lengths_from(
            clue,
            k + 1,
        ),
{
}

/// Where no block is empty, the lengths are the clue itself.
pub proof fn lemma_lengths_of_positive(clue: Seq<usize>, k: int)
    requires
        0 <= k <= clue.len(),
        positive_from(clue, k),
    ensures
        lengths_from(clue, k).len() == clue.len() - k,
        forall|i: int| 0 <= i < clue.len() - k ==> lengths_from(clue, k)[i] == clue[k + i],
    decreases clue.len() - k,
{
    if k < clue.len() {
        lemma_lengths_of_positive(clue, k + 1);
    }
}

/// Two lists with a head each are equal only if heads and tails are.
proof fn lemma_cons_equal(x: int, s: Seq<int>, y: int, t: Seq<int>)
    requires
        seq![x] + s == seq![y] + t,
    ensures
        x == y,
        s == t,
{
    let l = seq![x] + s;
    let r = seq![y] + t;
    assert(l[0] == r[0]);
    assert(l.len() == r.len());
    assert forall|j: int| 0 <= j < s.len() implies s[j] == t[j] by {
        assert(l[j + 1] == r[j + 1]);
    }
    assert(s =~= t);
}

/// An element of a concatenation is an element of one of its parts.
proof fn lemma_contains_concat(s: Seq<Seq<u8>>, t: Seq<Seq<u8>>, a: Seq<u8>)
    ensures
        (s + t).contains(a) <==> s.contains(a) || t.contains(a),
{
    if (s + t).contains(a) {
        let i = choose|i: int| 0 <= i < (s + t).len() && (s + t)[i] == a;
        if i < s.len() {
            assert(s[i] == a);
        } else {
            assert(t[i - s.len()] == a);
        }
    }
    if s.contains(a) {
        let i = choose|i: int| 0 <= i < s.len() && s[i] == a;
        assert((s + t)[i] == a);
    }
    if t.contains(a) {
        let i = choose|i: int| 0 <= i < t.len() && t[i] == a;
        assert((s + t)[i + s.len()] == a);
    }
}

/// What holds of every arrangement found from `base` on: it keeps the cells before `lo`,
/// and its runs from `lo` on are the blocks from `k` on that take up cells.
pub proof fn lemma_placements_sound(
    n: int,
    clue: Seq<usize>,
    k: int,
    lo: int,
    base: Seq<u8>,
    a: Seq<u8>,
)
    requires
        0 <= k <= clue.len(),
        0 <= lo,
        base.len() == n,
        is_binary(base),
        forall|j: int| lo - 1 <= j < n && 0 <= j ==> base[j] == 0,
        placements(n, clue, k, lo, base).contains(a),
    ensures
        a.len() == n,
        is_binary(a),
        forall|j: int| 0 <= j < lo && j < n ==> a[j] == base[j],
        runs_from(a, lo) == lengths_from(clue, k),
    decreases clue.len() - k, n + 1 - lo,
{
    if k >= clue.len() {
        assert(a == base);
        lemma_runs_of_unfilled(base, lo);
    } else {
        let len = clue[k] as int;
        let painted = paint(base, lo, len, 1);
        let here = placements(n, clue, k + 1, lo + len + 1, painted);
        let later = placements(n, clue, k, lo + 1, base);
        assert(lo + span_from(clue, k) <= n);
        assert(span_from(clue, k) >= len);
        lemma_contains_concat(here, later, a);
        lemma_lengths_unfold(clue, k);
        if later.contains(a) {
            lemma_placements_sound(n, clue, k, lo + 1, base, a);
            lemma_runs_of_unfilled_step(a, lo);
        } else {
            lemma_placements_sound(n, clue, k + 1, lo + len + 1, painted, a);
            lemma_runs_of_unfilled_step(a, lo + len);
            if len == 0 {
                assert(painted =~= base);
            } else {
                lemma_ones_block(a, lo + 1, len - 1);
            }
        }
    }
}

/// A line whose runs from `i` on are the blocks from `k` on has room for them.
pub proof fn lemma_runs_need_room(line: Seq<u8>, i: int, clue: Seq<usize>, k: int)
    requires
        0 <= i,
        0 <= k < clue.len(),
        positive_from(clue, k),
        runs_from(line, i) == lengths_from(clue, k),
    ensures
        i + span_from(clue, k) <= line.len(),
    decreases line.len() - i,
{
    lemma_lengths_unfold(clue, k);
    if i >= line.len() {
        assert(lengths_from(clue, k)[0] == clue[k]);
    } else if line[i] != 1 {
        lemma_runs_need_room(line, i + 1, clue, k);
    } else {
        let m: int = 1 + ones_from(line, i + 1) as int;
        lemma_cons_equal(
            m,
            runs_from(line, i + m),
            clue[k] as int,
            lengths_from(clue, k + 1),
        );
        lemma_ones_cells(line, i);
        if k + 1 < clue.len() {
            lemma_lengths_unfold(clue, k + 1);
            assert(lengths_from(clue, k + 1)[0] == clue[k + 1]);
            lemma_runs_of_unfilled_step(line, i + m);
            lemma_runs_need_room(line, i + m + 1, clue, k + 1);
        }
    }
}

/// Every line that keeps the cells of `base` before `lo` and whose runs from `lo` on are
/// the blocks from `k` on is found from `base`.
pub proof fn lemma_placements_complete(
    n: int,
    clue: Seq<usize>,
    k: int,
    lo: int,
    base: Seq<u8>,
    a: Seq<u8>,
)
    requires
        0 <= k <= clue.len(),
        0 <= lo,
        base.len() == n,
        a.len() == n,
        is_binary(a),
        positive_from(clue, k),
        forall|j: int| lo - 1 <= j < n && 0 <= j ==> base[j] == 0,
        forall|j: int| 0 <= j < lo && j < n ==> a[j] == base[j],
        runs_from(a, lo) == lengths_from(clue, k),
    ensures
        placements(n, clue, k, lo, base).contains(a),
    decreases clue.len() - k, n + 1 - lo,
{
    if k >= clue.len() {
        lemma_no_runs_unfilled(a, lo);
        assert(a =~= base);
        assert(placements(n, clue, k, lo, base)[0] == a);
    } else {
        let len = clue[k] as int;
        let painted = paint(base, lo, len, 1);
        let here = placements(n, clue, k + 1, lo + len + 1, painted);
        let later = placements(n, clue, k, lo + 1, base);
        lemma_runs_need_room(a, lo, clue, k);
        lemma_lengths_unfold(clue, k);
        lemma_contains_concat(here, later, a);
        assert(lengths_from(clue, k)[0] == clue[k]);
        assert(lo < n);
        if a[lo] != 1 {
            lemma_placements_complete(n, clue, k, lo + 1, base, a);
        } else {
            let m: int = 1 + ones_from(a, lo + 1) as int;
            lemma_cons_equal(m, runs_from(a, lo + m), len, lengths_from(clue, k + 1));
            lemma_ones_cells(a, lo);
            lemma_runs_of_unfilled_step(a, lo + m);
            lemma_placements_complete(n, clue, k + 1, lo + len + 1, painted, a);
        }
    }
}

/// Where no block from `k` on is empty, no arrangement is found twice from `base`.
pub proof fn lemma_placements_distinct(
    n: int,
    clue: Seq<usize>,
    k: int,
    lo: int,
    base: Seq<u8>,
)
    requires
        0 <= k <= clue.len(),
        0 <= lo,
        base.len() == n,
        is_binary(base),
        positive_from(clue, k),
        forall|j: int| lo - 1 <= j < n && 0 <= j ==> base[j] == 0,
    ensures
        forall|i: int, j: int|
            0 <= i < j < placements(n, clue, k, lo, base).len() ==> placements(
                n,
                clue,
                k,
                lo,
                base,
            )[i] != placements(n, clue, k, lo, base)[j],
    decreases clue.len() - k, n + 1 - lo,
{
    if k < clue.len() && lo + span_from(clue, k) <= n {
        let len = clue[k] as int;
        let painted = paint(base, lo, len, 1);
        let here = placements(n, clue, k + 1, lo + len + 1, painted);
        let later = placements(n, clue, k, lo + 1, base);
        let all = placements(n, clue, k, lo, base);
        assert(all == here + later);
        assert(span_from(clue, k) >= len);
        lemma_placements_distinct(n, clue, k + 1, lo + len + 1, painted);
        lemma_placements_distinct(n, clue, k, lo + 1, base);
        assert forall|i: int, j: int| 0 <= i < j < all.len() implies all[i] != all[j] by {
            if i < here.len() && j >= here.len() {
                // Block `k` starts at `lo` in the one and further right in the other.
                assert(here.contains(here[i]));
                assert(later.contains(later[j - here.len()]));
                lemma_placements_sound(n, clue, k + 1, lo + len + 1, painted, here[i]);
                lemma_placements_sound(n, clue, k, lo + 1, base, later[j - here.len()]);
                assert(here[i][lo] == 1);
                assert(later[j - here.len()][lo] == 0);
            }
        }
    }
}

/// Every arrangement that a clue admits for a line of `n` cells has `n` cells, each 0 or
/// 1, and its maximal runs of filled cells are, in order, the blocks of the clue that
/// take up cells.
pub proof fn lemma_arrangements_sound(n: int, clue: Seq<usize>, a: Seq<u8>)
    requires
        0 <= n,
        arrangements(n, clue).contains(a),
    ensures
        a.len() == n,
        is_binary(a),
        runs(a) == lengths(clue),
{
    if is_blank(clue) {
        assert(a == zeros(n));
        lemma_runs_of_unfilled(a, 0);
        if clue.len() == 1 {
            lemma_lengths_unfold(clue, 0);
        }
    } else {
        lemma_placements_sound(n, clue, 0, 0, zeros(n), a);
    }
}

/// Where no block of the clue is empty, every arrangement that the clue admits has
/// exactly as many maximal runs of filled cells as the clue has blocks, of the lengths
/// that the clue gives, in its order.
pub proof fn lemma_arrangement_runs_are_clue(n: int, clue: Seq<usize>, a: Seq<u8>)
    requires
        0 <= n,
        positive_from(clue, 0),
        arrangements(n, clue).contains(a),
    ensures
        a.len() == n,
        is_binary(a),
        runs(a).len() == clue.len(),
        forall|i: int| 0 <= i < clue.len() ==> runs(a)[i] == clue[i],
{
    lemma_arrangements_sound(n, clue, a);
    lemma_lengths_of_positive(clue, 0);
}

/// No line is missing: where the clue is blank or none of its blocks is empty, every
/// line of `n` cells, each 0 or 1, whose maximal runs of filled cells are the blocks of
/// the clue in order is among the arrangements that the clue admits.
pub proof fn lemma_arrangements_complete(n: int, clue: Seq<usize>, a: Seq<u8>)
    requires
        a.len() == n,
        is_binary(a),
        is_blank(clue) || positive_from(clue, 0),
        runs(a) == lengths(clue),
    ensures
        arrangements(n, clue).contains(a),
{
    if is_blank(clue) {
        if clue.len() == 1 {
            lemma_lengths_unfold(clue, 0);
        }
        lemma_no_runs_unfilled(a, 0);
        assert(a =~= zeros(n));
        assert(arrangements(n, clue)[0] == a);
    } else {
        lemma_placements_complete(n, clue, 0, 0, zeros(n), a);
    }
}

/// No line is missing: every line of `n` cells, each 0 or 1, that has exactly as many
/// maximal runs of filled cells as the clue has blocks, of the lengths that the clue
/// gives, in its order, is among the arrangements that the clue admits.
pub proof fn lemma_line_with_runs_of_clue_is_listed(n: int, clue: Seq<usize>, a: Seq<u8>)
    requires
        a.len() == n,
        is_binary(a),
        runs(a).len() == clue.len(),
        forall|i: int| 0 <= i < clue.len() ==> runs(a)[i] == clue[i],
    ensures
        arrangements(n, clue).contains(a),
{
    lemma_runs_positive(a, 0);
    assert(positive_from(clue, 0)) by {
        assert forall|j: int| 0 <= j < clue.len() implies clue[j] > 0 by {
            assert(runs(a)[j] >= 1);
        }
    }
    lemma_lengths_of_positive(clue, 0);
    assert(runs(a) =~= lengths(clue));
    lemma_arrangements_complete(n, clue, a);
}

/// Where the clue is blank or none of its blocks is empty, no arrangement is listed
/// twice.
pub proof fn lemma_arrangements_distinct(n: int, clue: Seq<usize>)
    requires
        0 <= n,
        is_blank(clue) || positive_from(clue, 0),
    ensures
        forall|i: int, j: int|
            0 <= i < j < arrangements(n, clue).len() ==> arrangements(n, clue)[i]
                != arrangements(n, clue)[j],
{
    if !is_blank(clue) {
        lemma_placements_distinct(n, clue, 0, 0, zeros(n));
    }
}

/// A clue whose blocks, packed as tightly as the rules allow, take up more cells than the
/// line has admits no arrangement.
pub proof fn lemma_no_room(n: int, clue: Seq<usize>)
    requires
        0 <= n,
        span_from(clue, 0) > n,
    ensures
        arrangements(n, clue).len() == 0,
{
}

} // verus!
