use postfix_csv::coord::Coord;
use postfix_csv::postfix::{Postfix, PostfixError};
use postfix_csv::rational::Num;
use postfix_csv::sheet::Sheet;

fn n(i: i64) -> Num {
    Num::from_int(i)
}

fn q(a: i128, b: i128) -> Num {
    Num::ratio(a, b).unwrap()
}

fn grid(rows: &[&[&str]]) -> Sheet {
    Sheet {
        data: rows
            .iter()
            .map(|r| r.iter().map(|c| String::from(*c)).collect())
            .collect(),
        separator: String::from(","),
    }
}

fn empty() -> Sheet {
    Sheet {
        data: Vec::new(),
        separator: String::from(","),
    }
}

fn at(column: usize, row: usize) -> Coord {
    Coord { column, row }
}

#[test]
fn postfix_error_enum_test() {
    assert_eq!(PostfixError::RecursionDepthExceeded.render(), String::from("#ERR"));
    assert_eq!(PostfixError::NotEnoughOperands.render(), String::from("#ERR"));
    assert_eq!(PostfixError::TooManyOperands.render(), String::from("#ERR"));
    assert_eq!(PostfixError::CellNotFound.render(), String::from("#ERR"));
    assert_eq!(PostfixError::DivisionByZero.render(), String::from("#ERR"));
    assert_eq!(PostfixError::NumberOverflow.render(), String::from("#ERR"));
}

#[test]
fn postfix_new_test() {
    let sheet = grid(&[&["x x"]]);
    assert_eq!(Postfix::new(&sheet), Postfix { sheet: &sheet });
}

#[test]
fn postfix_calc_cell_test() {
    let sheet = empty();
    let postfix = Postfix::new(&sheet);
    assert_eq!(
        postfix.calc_cell(&at(0, 0), " 2    3 + ", &mut Vec::new()),
        Ok(n(5))
    );
    assert_eq!(postfix.calc_cell(&at(0, 0), "2 3 +", &mut Vec::new()), Ok(n(5)));
    assert_eq!(
        postfix.calc_cell(&at(0, 0), "2 5 3 * -", &mut Vec::new()),
        Ok(n(-13))
    );
    assert_eq!(postfix.calc_cell(&at(0, 0), "6 2 /", &mut Vec::new()), Ok(n(3)));
    assert_eq!(
        postfix.calc_cell(
            &at(0, 0),
            "          8 ? 19.5 # 6  / : * 3  1.5  14 - +      * ",
            &mut Vec::new()
        ),
        Ok(n(-247))
    );
    assert_eq!(postfix.calc_cell(&at(0, 0), "26", &mut Vec::new()), Ok(n(26)));

    assert_eq!(
        postfix.calc_cell(&at(0, 0), "6 /", &mut Vec::new()),
        Err(PostfixError::NotEnoughOperands)
    );
    assert_eq!(
        postfix.calc_cell(&at(0, 0), "62/", &mut Vec::new()),
        Err(PostfixError::NotEnoughOperands)
    );
    assert_eq!(
        postfix.calc_cell(&at(0, 0), "6 2 / +", &mut Vec::new()),
        Err(PostfixError::NotEnoughOperands)
    );
    assert_eq!(
        postfix.calc_cell(&at(0, 0), "6 /", &mut Vec::new()),
        Err(PostfixError::NotEnoughOperands)
    );
    assert_eq!(
        postfix.calc_cell(&at(0, 0), "?", &mut Vec::new()),
        Err(PostfixError::NotEnoughOperands)
    );

    let sheet = grid(&[&["5", "A1 2 +"]]);
    assert_eq!(
        Postfix::new(&sheet).calc_cell(&at(1, 0), "A1 2 +", &mut Vec::new()),
        Ok(n(7))
    );
    let sheet = grid(&[&["5", "A1 C1 +", "2"]]);
    assert_eq!(
        Postfix::new(&sheet).calc_cell(&at(1, 0), "A1 C1 +", &mut Vec::new()),
        Ok(n(7))
    );

    let sheet = grid(&[
        &["B1 B2 +", "2 B2 3 * -", "+"],
        &["A1", "5", "7 2 /"],
        &["C2 3 *", "1 2", "5 1 2 + 4 * + 3 -"],
    ]);
    let postfix = Postfix::new(&sheet);
    assert_eq!(
        postfix.calc_cell(&at(0, 0), "B1 B2 +", &mut Vec::new()),
        Ok(n(-8))
    );
    assert_eq!(
        postfix.calc_cell(&at(1, 0), "2 B2 3 * -", &mut Vec::new()),
        Ok(n(-13))
    );
    assert_eq!(
        postfix.calc_cell(&at(2, 0), "+", &mut Vec::new()),
        Err(PostfixError::NotEnoughOperands)
    );
    assert_eq!(postfix.calc_cell(&at(0, 1), "A1", &mut Vec::new()), Ok(n(-8)));
    assert_eq!(postfix.calc_cell(&at(1, 1), "5", &mut Vec::new()), Ok(n(5)));
    assert_eq!(
        postfix.calc_cell(&at(2, 1), "7 2 /", &mut Vec::new()),
        Ok(q(7, 2))
    );
    assert_eq!(
        postfix.calc_cell(&at(0, 2), "C2 3 *", &mut Vec::new()),
        Ok(q(21, 2))
    );
    assert_eq!(
        postfix.calc_cell(&at(1, 2), "1 2", &mut Vec::new()),
        Err(PostfixError::TooManyOperands)
    );
    assert_eq!(
        postfix.calc_cell(&at(2, 2), "5 1 2 + 4 * + 3 -", &mut Vec::new()),
        Ok(n(14))
    );

    let sheet = grid(&[&["B1", "A1 C1 +", "2"]]);
    assert_eq!(
        Postfix::new(&sheet).calc_cell(&at(1, 0), "A1 C1 +", &mut Vec::new()),
        Err(PostfixError::RecursionDepthExceeded)
    );

    let sheet = grid(&[&["5 5", "5 C1 +", "A1"]]);
    assert_eq!(
        Postfix::new(&sheet).calc_cell(&at(1, 0), "5 C1 +", &mut Vec::new()),
        Err(PostfixError::TooManyOperands)
    );
    let sheet = grid(&[&["5", "D1 C1 +", "A1"]]);
    assert_eq!(
        Postfix::new(&sheet).calc_cell(&at(1, 0), "D1 C1 +", &mut Vec::new()),
        Err(PostfixError::CellNotFound)
    );
    let sheet = grid(&[&["5", "A2 C1 +", "A1"]]);
    assert_eq!(
        Postfix::new(&sheet).calc_cell(&at(1, 0), "A2 C1 +", &mut Vec::new()),
        Err(PostfixError::CellNotFound)
    );
    let sheet = grid(&[&["5 -", "4 C1 +", "A1"]]);
    assert_eq!(
        Postfix::new(&sheet).calc_cell(&at(1, 0), "4 C1 +", &mut Vec::new()),
        Err(PostfixError::NotEnoughOperands)
    );
    let sheet = grid(&[&["0", "4 C1 /", "A1"]]);
    assert_eq!(
        Postfix::new(&sheet).calc_cell(&at(1, 0), "4 C1 /", &mut Vec::new()),
        Err(PostfixError::DivisionByZero)
    );

    let sheet = grid(&[&["5", "A1 C1 + +", "A1 1"]]);
    assert_eq!(
        Postfix::new(&sheet).calc_cell(&at(1, 0), "A1 C1 + +", &mut Vec::new()),
        Err(PostfixError::TooManyOperands)
    );
    let sheet = grid(&[&["5", "A1 5 1 C1", "+ +"]]);
    assert_eq!(
        Postfix::new(&sheet).calc_cell(&at(1, 0), "A1 5 1 C1", &mut Vec::new()),
        Err(PostfixError::NotEnoughOperands)
    );
    let sheet = grid(&[&["5", "A1 5 1 C1", "+ +"]]);
    assert_eq!(
        Postfix::new(&sheet).calc_cell(&at(1, 0), "A1 5 1 C1", &mut Vec::new()),
        Err(PostfixError::NotEnoughOperands)
    );

    let sheet = grid(&[&["5", "A1 A1 A1 A1 + + +"]]);
    assert_eq!(
        Postfix::new(&sheet).calc_cell(&at(1, 0), "A1 A1 A1 A1 + + +", &mut Vec::new()),
        Ok(n(20))
    );
}

#[test]
fn postfix_process_sheet_test() {
    let sheet = grid(&[
        &["B1 B2 +", "2 B2 3 * -", "+"],
        &["A1", "5", "7 2 /"],
        &["C2 3 *", "1 2", "5 1 2 + 4 * + 3 -"],
    ]);
    let postfix = Postfix::new(&sheet);
    let output = postfix.process_sheet();

    let expect: Vec<Vec<String>> = vec![
        vec!["-8", "-13", "#ERR"],
        vec!["-8", "5", "3.5"],
        vec!["10.5", "#ERR", "14"],
    ]
    .into_iter()
    .map(|r| r.into_iter().map(String::from).collect())
    .collect();
    assert_eq!(output, expect);

    let rendered = Sheet {
        data: output,
        separator: String::from(","),
    }
    .render();
    assert_eq!(rendered, String::from("-8,-13,#ERR\n-8,5,3.5\n10.5,#ERR,14"));
}

#[test]
fn two_cell_cycle_test() {
    // A1 references B1 and B1 references A1: both cells report the
    // cycle, and evaluation terminates.
    let sheet = grid(&[&["B1", "A1"]]);
    let postfix = Postfix::new(&sheet);
    assert_eq!(
        postfix.calc_cell(&at(0, 0), "B1", &mut Vec::new()),
        Err(PostfixError::RecursionDepthExceeded)
    );
    assert_eq!(
        postfix.calc_cell(&at(1, 0), "A1", &mut Vec::new()),
        Err(PostfixError::RecursionDepthExceeded)
    );
    assert_eq!(
        postfix.process_sheet(),
        vec![vec![String::from("#ERR"), String::from("#ERR")]]
    );
}

#[test]
fn snapshot_forward_reference_test() {
    // The driver reads only the original text: a forward reference
    // sees the formula of the later cell, never its computed result,
    // and the same grid gives the same output whatever the order.
    let sheet = grid(&[&["B1 1 +", "2 3 +"]]);
    let postfix = Postfix::new(&sheet);
    assert_eq!(
        postfix.process_sheet(),
        vec![vec![String::from("6"), String::from("5")]]
    );
}

#[test]
fn overflow_reports_error_test() {
    let sheet = empty();
    let postfix = Postfix::new(&sheet);
    // Doubling the largest representable value leaves the fixed
    // width.
    assert_eq!(
        postfix.calc_cell(
            &at(0, 0),
            "170141183460469231731687303715884105727 2 *",
            &mut Vec::new()
        ),
        Err(PostfixError::NumberOverflow)
    );
    // The same magnitude alone still evaluates.
    assert_eq!(
        postfix.calc_cell(
            &at(0, 0),
            "170141183460469231731687303715884105727",
            &mut Vec::new()
        ),
        Ok(q(170141183460469231731687303715884105727i128, 1))
    );
}

#[test]
fn unrecognized_tokens_are_skipped_test() {
    let sheet = empty();
    let postfix = Postfix::new(&sheet);
    // The documented quirk: tokens that are no operator, coordinate
    // or numeric literal fall out of the expression.
    assert_eq!(
        postfix.calc_cell(&at(0, 0), "foo! 2 bar? 3 + baz", &mut Vec::new()),
        Ok(n(5))
    );
    // Scientific notation is not part of the literal grammar, so the
    // token is skipped and the stack stays empty.
    assert_eq!(
        postfix.calc_cell(&at(0, 0), "1e3", &mut Vec::new()),
        Err(PostfixError::NotEnoughOperands)
    );
}

#[test]
fn error_enum_test() {
    assert_eq!(PostfixError::RecursionDepthExceeded.render(), String::from("#ERR"));
    assert_eq!(PostfixError::NotEnoughOperands.render(), String::from("#ERR"));
    assert_eq!(PostfixError::TooManyOperands.render(), String::from("#ERR"));
    assert_eq!(PostfixError::CellNotFound.render(), String::from("#ERR"));
    assert_eq!(PostfixError::DivisionByZero.render(), String::from("#ERR"));
    assert_eq!(PostfixError::NumberOverflow.render(), String::from("#ERR"));
}
