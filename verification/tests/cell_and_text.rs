use nonogram_solver::cell::CellState;
use nonogram_solver::puzzle::Outcome;
use nonogram_solver::text::{decimal_string, message_for};

#[test]
fn states_are_exchanged_as_zero_one_two() {
    assert_eq!(CellState::Empty.code(), 0);
    assert_eq!(CellState::Filled.code(), 1);
    assert_eq!(CellState::Crossed.code(), 2);
}

#[test]
fn zero_one_two_are_decoded() {
    assert_eq!(CellState::from_code(0), Some(CellState::Empty));
    assert_eq!(CellState::from_code(1), Some(CellState::Filled));
    assert_eq!(CellState::from_code(2), Some(CellState::Crossed));
}

#[test]
fn other_numbers_are_rejected() {
    assert_eq!(CellState::from_code(3), None);
    assert_eq!(CellState::from_code(u64::MAX), None);
    assert_eq!(CellState::from_signed_code(-1), None);
    assert_eq!(CellState::from_signed_code(i64::MIN), None);
    assert_eq!(CellState::from_signed_code(3), None);
}

#[test]
fn signed_zero_one_two_are_decoded() {
    assert_eq!(CellState::from_signed_code(0), Some(CellState::Empty));
    assert_eq!(CellState::from_signed_code(1), Some(CellState::Filled));
    assert_eq!(CellState::from_signed_code(2), Some(CellState::Crossed));
}

#[test]
fn decoding_undoes_encoding() {
    for state in [CellState::Empty, CellState::Filled, CellState::Crossed] {
        assert_eq!(CellState::from_code(state.code() as u64), Some(state));
    }
}

#[test]
fn numbers_are_written_in_decimal() {
    assert_eq!(decimal_string(0), "0");
    assert_eq!(decimal_string(7), "7");
    assert_eq!(decimal_string(10), "10");
    assert_eq!(decimal_string(409), "409");
    assert_eq!(decimal_string(1234567890), "1234567890");
    assert_eq!(decimal_string(usize::MAX), usize::MAX.to_string());
}

#[test]
fn every_outcome_has_its_message() {
    assert_eq!(
        message_for(Outcome::Unchanged),
        "これ以上自動で確定できるマスはありません"
    );
    assert_eq!(message_for(Outcome::Updated), "確定できるマスを更新しました");
    assert_eq!(
        message_for(Outcome::RowContradiction(0)),
        "行 1: 入力に矛盾があります"
    );
    assert_eq!(
        message_for(Outcome::ColumnContradiction(41)),
        "列 42: 入力に矛盾があります"
    );
    assert_eq!(
        message_for(Outcome::IterationLimit),
        "反復回数が上限に達しましたロジックが複雑すぎるか、矛盾があるかもしれません"
    );
}
