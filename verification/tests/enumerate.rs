use nonogram_solver::enumerate::{
    blank_cells, clue_is_blank, copy_cells, generate_possibilities, latest_start, paint_cells,
    place_blocks,
};
use std::collections::BTreeMap;

/// Lengths of the maximal runs of 1s, found by a plain scan.
fn runs_of(line: &[u8]) -> Vec<usize> {
    let mut runs = Vec::new();
    let mut open = 0usize;
    for &cell in line {
        if cell == 1 {
            open += 1;
        } else if open > 0 {
            runs.push(open);
            open = 0;
        }
    }
    if open > 0 {
        runs.push(open);
    }
    runs
}

/// All lines of `n` cells, each 0 or 1, counting upwards in binary.
fn all_lines(n: usize) -> Vec<Vec<u8>> {
    let mut lines = Vec::new();
    for bits in 0u32..(1u32 << n) {
        let mut line = Vec::new();
        for i in 0..n {
            line.push(((bits >> (n - 1 - i)) & 1) as u8);
        }
        lines.push(line);
    }
    lines
}

/// All clues of at most `max_len` blocks, each of length 1 to `max_block`.
fn all_clues(max_len: usize, max_block: usize) -> Vec<Vec<usize>> {
    let mut clues: Vec<Vec<usize>> = vec![Vec::new()];
    let mut last: Vec<Vec<usize>> = vec![Vec::new()];
    for _ in 0..max_len {
        let mut next = Vec::new();
        for clue in &last {
            for block in 1..=max_block {
                let mut longer = clue.clone();
                longer.push(block);
                next.push(longer);
            }
        }
        clues.extend(next.iter().cloned());
        last = next;
    }
    clues
}

#[test]
fn impossible_clue_yields_nothing() {
    assert_eq!(generate_possibilities(3, &[5]), Vec::<Vec<u8>>::new());
}

#[test]
fn clue_needing_one_cell_too_many_yields_nothing() {
    assert!(generate_possibilities(4, &[2, 2]).is_empty());
    assert!(generate_possibilities(5, &[1, 1, 1, 1]).is_empty());
    assert!(generate_possibilities(0, &[1]).is_empty());
}

#[test]
fn clue_filling_the_line_exactly_has_one_arrangement() {
    assert_eq!(generate_possibilities(5, &[2, 2]), vec![vec![1, 1, 0, 1, 1]]);
    assert_eq!(generate_possibilities(5, &[5]), vec![vec![1, 1, 1, 1, 1]]);
    assert_eq!(generate_possibilities(5, &[1, 1, 1]), vec![vec![1, 0, 1, 0, 1]]);
}

#[test]
fn huge_blocks_do_not_overflow() {
    assert!(generate_possibilities(10, &[usize::MAX]).is_empty());
    assert!(generate_possibilities(10, &[usize::MAX, usize::MAX]).is_empty());
    assert!(generate_possibilities(10, &[1, usize::MAX, 1]).is_empty());
    assert!(generate_possibilities(10, &[usize::MAX - 1, 1]).is_empty());
}

#[test]
fn empty_clue_has_the_blank_line_only() {
    assert_eq!(generate_possibilities(4, &[]), vec![vec![0, 0, 0, 0]]);
    assert_eq!(generate_possibilities(0, &[]), vec![Vec::<u8>::new()]);
}

#[test]
fn single_zero_clue_has_the_blank_line_only() {
    assert_eq!(generate_possibilities(4, &[0]), vec![vec![0, 0, 0, 0]]);
    assert_eq!(generate_possibilities(0, &[0]), vec![Vec::<u8>::new()]);
}

#[test]
fn one_block_slides_from_left_to_right() {
    assert_eq!(
        generate_possibilities(5, &[3]),
        vec![vec![1, 1, 1, 0, 0], vec![0, 1, 1, 1, 0], vec![0, 0, 1, 1, 1]]
    );
}

#[test]
fn two_blocks_are_listed_by_start_of_the_first_then_of_the_second() {
    assert_eq!(
        generate_possibilities(5, &[2, 1]),
        vec![vec![1, 1, 0, 1, 0], vec![1, 1, 0, 0, 1], vec![0, 1, 1, 0, 1]]
    );
    assert_eq!(
        generate_possibilities(5, &[1, 1]),
        vec![
            vec![1, 0, 1, 0, 0],
            vec![1, 0, 0, 1, 0],
            vec![1, 0, 0, 0, 1],
            vec![0, 1, 0, 1, 0],
            vec![0, 1, 0, 0, 1],
            vec![0, 0, 1, 0, 1],
        ]
    );
}

#[test]
fn empty_block_among_others_takes_its_gap() {
    // The empty block sits at cell 0 or 1; the block after it starts one cell further on.
    assert_eq!(
        generate_possibilities(3, &[0, 1]),
        vec![vec![0, 1, 0], vec![0, 0, 1], vec![0, 0, 1]]
    );
    assert!(generate_possibilities(1, &[0, 1]).is_empty());
}

#[test]
fn arrangements_have_the_runs_of_the_clue() {
    for n in 0..=8usize {
        for clue in all_clues(3, 4) {
            for line in generate_possibilities(n, &clue) {
                assert_eq!(line.len(), n);
                assert!(line.iter().all(|&c| c == 0 || c == 1));
                assert_eq!(runs_of(&line), clue);
            }
        }
    }
}

#[test]
fn arrangements_with_an_empty_block_have_the_runs_of_the_other_blocks() {
    for n in 0..=7usize {
        for clue in [vec![0, 2], vec![2, 0], vec![1, 0, 1], vec![0, 0], vec![0, 1, 0, 2]] {
            let blocks: Vec<usize> = clue.iter().copied().filter(|&b| b > 0).collect();
            for line in generate_possibilities(n, &clue) {
                assert_eq!(line.len(), n);
                assert_eq!(runs_of(&line), blocks);
            }
        }
    }
}

#[test]
fn no_arrangement_is_missing_or_listed_twice() {
    for n in 0..=10usize {
        let mut by_runs: BTreeMap<Vec<usize>, Vec<Vec<u8>>> = BTreeMap::new();
        for line in all_lines(n) {
            by_runs.entry(runs_of(&line)).or_default().push(line);
        }
        for clue in all_clues(4, 5) {
            let mut expected = by_runs.get(&clue).cloned().unwrap_or_default();
            let mut found = generate_possibilities(n, &clue);
            let listed = found.len();
            expected.sort();
            found.sort();
            found.dedup();
            assert_eq!(found.len(), listed);
            assert_eq!(found, expected);
        }
    }
}

#[test]
fn count_is_the_number_of_ways_to_spread_the_free_cells() {
    // Three blocks in 10 cells leave 10 - (2 + 3 + 1) - 2 = 2 cells to spread over 4 gaps.
    assert_eq!(generate_possibilities(10, &[2, 3, 1]).len(), 10);
    assert_eq!(generate_possibilities(10, &[1]).len(), 10);
    assert_eq!(generate_possibilities(10, &[4, 5]).len(), 1);
    assert_eq!(generate_possibilities(10, &[4, 6]).len(), 0);
}

#[test]
fn blank_clues_are_recognised() {
    assert!(clue_is_blank(&[]));
    assert!(clue_is_blank(&[0]));
    assert!(!clue_is_blank(&[1]));
    assert!(!clue_is_blank(&[0, 0]));
    assert!(!clue_is_blank(&[0, 1]));
}

#[test]
fn latest_start_leaves_room_for_the_blocks_that_follow() {
    assert_eq!(latest_start(10, &[2, 3, 1], 0), Some(2));
    assert_eq!(latest_start(10, &[2, 3, 1], 1), Some(5));
    assert_eq!(latest_start(10, &[2, 3, 1], 2), Some(9));
    assert_eq!(latest_start(8, &[2, 3, 1], 0), Some(0));
    assert_eq!(latest_start(7, &[2, 3, 1], 0), None);
    assert_eq!(latest_start(7, &[2, 3, 1], 1), Some(2));
    assert_eq!(latest_start(0, &[0], 0), Some(0));
    assert_eq!(latest_start(3, &[usize::MAX, 1], 0), None);
    assert_eq!(latest_start(usize::MAX, &[usize::MAX], 0), Some(0));
}

#[test]
fn scratch_line_helpers() {
    assert_eq!(blank_cells(3), vec![0, 0, 0]);
    assert_eq!(blank_cells(0), Vec::<u8>::new());
    let mut line = vec![0, 0, 1, 0, 0];
    paint_cells(&mut line, 1, 3, 1);
    assert_eq!(line, vec![0, 1, 1, 1, 0]);
    paint_cells(&mut line, 0, 2, 0);
    assert_eq!(line, vec![0, 0, 1, 1, 0]);
    paint_cells(&mut line, 5, 0, 1);
    assert_eq!(line, vec![0, 0, 1, 1, 0]);
    assert_eq!(copy_cells(&line), line);
}

#[test]
fn placing_from_a_later_block_keeps_what_is_in_the_line() {
    let mut current = vec![1, 1, 0, 0, 0, 0];
    let mut solutions = vec![vec![9u8]];
    place_blocks(6, &[2, 2], 1, 3, &mut current, &mut solutions);
    assert_eq!(current, vec![1, 1, 0, 0, 0, 0]);
    assert_eq!(
        solutions,
        vec![vec![9], vec![1, 1, 0, 1, 1, 0], vec![1, 1, 0, 0, 1, 1]]
    );
}
