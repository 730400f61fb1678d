use nonogram_solver::cell::CellState;
use nonogram_solver::cell::CellState::{Crossed, Empty, Filled};
use nonogram_solver::line::{agrees, all_have, solve_line, Contradiction};

#[test]
fn blank_clue_crosses_every_cell() {
    assert_eq!(
        solve_line(4, &[], &[Empty, Empty, Empty, Empty]),
        Ok(vec![Crossed, Crossed, Crossed, Crossed])
    );
    assert_eq!(
        solve_line(4, &[0], &[Empty, Crossed, Empty, Crossed]),
        Ok(vec![Crossed, Crossed, Crossed, Crossed])
    );
}

#[test]
fn blank_clue_with_a_filled_cell_is_a_contradiction() {
    assert_eq!(solve_line(4, &[0], &[Filled, Empty, Empty, Empty]), Err(Contradiction));
    assert_eq!(solve_line(4, &[], &[Empty, Empty, Empty, Filled]), Err(Contradiction));
}

#[test]
fn only_the_common_cell_is_forced() {
    assert_eq!(
        solve_line(5, &[3], &[Empty, Empty, Empty, Empty, Empty]),
        Ok(vec![Empty, Empty, Filled, Empty, Empty])
    );
}

#[test]
fn clue_that_fills_the_line_forces_every_cell() {
    assert_eq!(solve_line(5, &[5], &[Empty; 5]), Ok(vec![Filled; 5]));
    assert_eq!(
        solve_line(5, &[1, 1, 1], &[Empty; 5]),
        Ok(vec![Filled, Crossed, Filled, Crossed, Filled])
    );
    assert_eq!(
        solve_line(5, &[2, 2], &[Empty; 5]),
        Ok(vec![Filled, Filled, Crossed, Filled, Filled])
    );
}

#[test]
fn known_cells_narrow_the_arrangements() {
    assert_eq!(
        solve_line(5, &[3], &[Filled, Empty, Empty, Empty, Empty]),
        Ok(vec![Filled, Filled, Filled, Crossed, Crossed])
    );
    assert_eq!(
        solve_line(5, &[3], &[Crossed, Empty, Empty, Empty, Crossed]),
        Ok(vec![Crossed, Filled, Filled, Filled, Crossed])
    );
    assert_eq!(
        solve_line(5, &[3], &[Empty, Empty, Empty, Empty, Filled]),
        Ok(vec![Crossed, Crossed, Filled, Filled, Filled])
    );
    assert_eq!(
        solve_line(6, &[1, 2], &[Empty, Empty, Crossed, Empty, Empty, Empty]),
        Ok(vec![Empty, Empty, Crossed, Empty, Filled, Empty])
    );
}

#[test]
fn cells_on_which_arrangements_differ_stay_empty() {
    assert_eq!(solve_line(4, &[1], &[Empty; 4]), Ok(vec![Empty; 4]));
    assert_eq!(
        solve_line(4, &[1], &[Empty, Crossed, Empty, Empty]),
        Ok(vec![Empty, Crossed, Empty, Empty])
    );
}

#[test]
fn known_cells_pass_through() {
    let line = [Filled, Filled, Crossed, Empty, Empty, Empty];
    let solved = solve_line(6, &[2, 1], &line).unwrap();
    for i in 0..3 {
        assert_eq!(solved[i], line[i]);
    }
    assert_eq!(solved, vec![Filled, Filled, Crossed, Empty, Empty, Empty]);
}

#[test]
fn no_arrangement_left_is_a_contradiction() {
    assert_eq!(solve_line(3, &[2], &[Filled, Crossed, Empty]), Err(Contradiction));
    assert_eq!(solve_line(3, &[1], &[Crossed, Crossed, Crossed]), Err(Contradiction));
    assert_eq!(solve_line(3, &[1], &[Filled, Empty, Filled]), Err(Contradiction));
}

#[test]
fn clue_that_does_not_fit_is_a_contradiction() {
    assert_eq!(solve_line(3, &[5], &[Empty; 3]), Err(Contradiction));
    assert_eq!(solve_line(0, &[1], &[]), Err(Contradiction));
    assert_eq!(solve_line(2, &[usize::MAX, usize::MAX], &[Empty; 2]), Err(Contradiction));
}

#[test]
fn line_without_cells() {
    assert_eq!(solve_line(0, &[], &[]), Ok(Vec::<CellState>::new()));
    assert_eq!(solve_line(0, &[0], &[]), Ok(Vec::<CellState>::new()));
}

#[test]
fn solved_line_is_left_as_it_is() {
    let solved = vec![Crossed, Filled, Filled, Crossed, Filled];
    assert_eq!(solve_line(5, &[2, 1], &solved), Ok(solved.clone()));
}

#[test]
fn solving_a_line_twice_changes_nothing_more() {
    let first = solve_line(7, &[2, 3], &[Empty; 7]).unwrap();
    assert_eq!(
        first,
        vec![Empty, Filled, Empty, Empty, Filled, Filled, Empty]
    );
    assert_eq!(solve_line(7, &[2, 3], &first), Ok(first.clone()));
}

#[test]
fn agreement_with_known_cells() {
    assert!(agrees(&vec![1, 0, 1], &[Filled, Crossed, Empty]));
    assert!(agrees(&vec![1, 0, 0], &[Filled, Crossed, Empty]));
    assert!(!agrees(&vec![0, 0, 1], &[Filled, Crossed, Empty]));
    assert!(!agrees(&vec![1, 1, 1], &[Filled, Crossed, Empty]));
    assert!(agrees(&vec![], &[]));
}

#[test]
fn agreement_of_picked_arrangements_on_a_cell() {
    let possibilities = vec![vec![1, 0, 1], vec![1, 1, 0], vec![0, 1, 1]];
    assert!(all_have(&possibilities, &vec![0, 1], 0, 1));
    assert!(!all_have(&possibilities, &vec![0, 1, 2], 0, 1));
    assert!(!all_have(&possibilities, &vec![0, 1], 1, 1));
    assert!(all_have(&possibilities, &vec![1, 2], 1, 1));
    assert!(all_have(&possibilities, &vec![], 2, 0));
}

#[test]
fn contradiction_has_its_message() {
    assert_eq!(Contradiction.message(), "入力に矛盾があります");
}
