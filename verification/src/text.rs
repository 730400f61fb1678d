//! The wording of the messages that a run of the solver ends with.

use vstd::prelude::*;
use crate::line::Contradiction;
use crate::puzzle::Outcome;

verus! {

/// The character for a single decimal digit.
pub open spec fn digit_char(d: int) -> char {
    if d == 0 {
        '0'
    } else if d == 1 {
        '1'
    } else if d == 2 {
        '2'
    } else if d == 3 {
        '3'
    } else if d == 4 {
        '4'
    } else if d == 5 {
        '5'
    } else if d == 6 {
        '6'
    } else if d == 7 {
        '7'
    } else if d == 8 {
        '8'
    } else {
        '9'
    }
}

/// A number written in decimal, without leading zeros.
pub open spec fn decimal(n: nat) -> Seq<char>
    decreases n,
{
    if n < 10 {
        seq![digit_char(n as int)]
    } else {
        decimal(n / 10).push(digit_char((n % 10) as int))
    }
}

/// What is said of a line whose clue cannot be met.
pub open spec fn contradiction_text() -> Seq<char> {
    "入力に矛盾があります"@
}

/// The message for each way in which a run can end. Rows and columns are counted from 1.
pub open spec fn message_text(outcome: Outcome) -> Seq<char> {
    match outcome {
        Outcome::Unchanged => "これ以上自動で確定できるマスはありません"@,
        Outcome::Updated => "確定できるマスを更新しました"@,
        Outcome::RowContradiction(r) => "行 "@ + decimal((r + 1) as nat) + ": "@
            + contradiction_text(),
        Outcome::ColumnContradiction(c) => "列 "@ + decimal((c + 1) as nat) + ": "@
            + contradiction_text(),
        Outcome::IterationLimit => "反復回数が上限に達しましたロジックが複雑すぎるか、矛盾があるかもしれません"@,
    }
}

/// A single decimal digit as text.
fn digit_str(d: usize) -> (s: &'static str)
    requires
        d < 10,
    ensures
        s@ == seq![digit_char(d as int)],
{
    proof {
        reveal_strlit("0");
        reveal_strlit("1");
        reveal_strlit("2");
        reveal_strlit("3");
        reveal_strlit("4");
        reveal_strlit("5");
        reveal_strlit("6");
        reveal_strlit("7");
        reveal_strlit("8");
        reveal_strlit("9");
    }
    let s = if d == 0 {
        "0"
    } else if d == 1 {
        "1"
    } else if d == 2 {
        "2"
    } else if d == 3 {
        "3"
    } else if d == 4 {
        "4"
    } else if d == 5 {
        "5"
    } else if d == 6 {
        "6"
    } else if d == 7 {
        "7"
    } else if d == 8 {
        "8"
    } else {
        "9"
    };
    assert(s@ =~= seq![digit_char(d as int)]);
    s
}

/// Writes a number in decimal.
pub fn decimal_string(n: usize) -> (s: String)
    ensures
        s@ == decimal(n as nat),
    decreases n,
{
    if n < 10 {
        String::from_str(digit_str(n))
    } else {
        let s = decimal_string(n / 10).concat(digit_str(n % 10));
        assert(s@ =~= decimal(n as nat));
        s
    }
}

impl Contradiction {
    /// What is said of a line whose clue cannot be met.
    pub fn message(&self) -> (s: String)
        ensures
            s@ == contradiction_text(),
    {
        String::from_str("入力に矛盾があります")
    }
}

/// The message for a line, counted from 1, whose clue cannot be met.
fn contradiction_message(kind: &str, index: usize) -> (s: String)
    requires
        index < usize::MAX,
    ensures
        s@ == kind@ + decimal((index + 1) as nat) + ": "@ + contradiction_text(),
{
    let number = decimal_string(index + 1);
    let detail = Contradiction.message();
    String::from_str(kind).concat(number.as_str()).concat(": ").concat(detail.as_str())
}

/// The message that a run ends with.
pub fn message_for(outcome: Outcome) -> (s: String)
    requires
        outcome matches Outcome::RowContradiction(r) ==> r < usize::MAX,
        outcome matches Outcome::ColumnContradiction(c) ==> c < usize::MAX,
    ensures
        s@ == message_text(outcome),
{
    match outcome {
        Outcome::Unchanged => String::from_str("これ以上自動で確定できるマスはありません"),
        Outcome::Updated => String::from_str("確定できるマスを更新しました"),
        Outcome::RowContradiction(r) => contradiction_message("行 ", r),
        Outcome::ColumnContradiction(c) => contradiction_message("列 ", c),
        Outcome::IterationLimit => String::from_str(
            "反復回数が上限に達しましたロジックが複雑すぎるか、矛盾があるかもしれません",
        ),
    }
}

} // verus!
