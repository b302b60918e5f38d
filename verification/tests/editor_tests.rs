use spreadsheet_engine::ast::{cell, CellRef, Formula, Op};
use spreadsheet_engine::editor::{column_name, formula_to_string, EditorState, Mode};
use spreadsheet_engine::parser::parse_formula;

fn blank_sheet(rows: usize, cols: usize) -> Vec<Vec<cell>> {
    let mut sheet = Vec::new();
    for _ in 0..rows {
        let mut row = Vec::new();
        for _ in 0..cols {
            row.push(cell {
                val: 0,
                formula: None,
                err: 0,
            });
        }
        sheet.push(row);
    }
    sheet
}

#[test]
fn test_column_name_values() {
    assert_eq!(column_name(0), "A");
    assert_eq!(column_name(25), "Z");
    assert_eq!(column_name(26), "AA");
    assert_eq!(column_name(51), "AZ");
    assert_eq!(column_name(52), "BA");
    assert_eq!(column_name(701), "ZZ");
    assert_eq!(column_name(702), "AAA");
}

#[test]
fn test_formula_to_string_literal() {
    assert_eq!(formula_to_string(&Formula::Literal(42)), "42");
    assert_eq!(formula_to_string(&Formula::Literal(-5)), "-5");
}

#[test]
fn test_formula_to_string_cell() {
    assert_eq!(
        formula_to_string(&Formula::Cell(CellRef { row: 0, col: 0 })),
        "A1"
    );
    assert_eq!(
        formula_to_string(&Formula::Cell(CellRef { row: 9, col: 27 })),
        "AB10"
    );
}

#[test]
fn test_formula_to_string_inc() {
    let f = Formula::Inc {
        base: CellRef { row: 0, col: 0 },
        offset: 3,
    };
    assert_eq!(formula_to_string(&f), "A1 + 3");
}

#[test]
fn test_formula_to_string_arith() {
    let f = Formula::Arith {
        op: Op::Mul,
        left: Box::new(Formula::Literal(3)),
        right: Box::new(Formula::Cell(CellRef { row: 1, col: 1 })),
    };
    assert_eq!(formula_to_string(&f), "3 * B2");
}

#[test]
fn test_formula_to_string_range() {
    let f = Formula::Range {
        func: "SUM".to_string(),
        start: CellRef { row: 0, col: 0 },
        end: CellRef { row: 1, col: 1 },
    };
    assert_eq!(formula_to_string(&f), "SUM(A1:B2)");
}

#[test]
fn test_formula_to_string_sleep() {
    assert_eq!(formula_to_string(&Formula::SleepLiteral(7)), "SLEEP(7)");
    assert_eq!(
        formula_to_string(&Formula::SleepCell(CellRef { row: 2, col: 4 })),
        "SLEEP(E3)"
    );
}

#[test]
fn test_round_trip_literal() {
    let f = parse_formula("42").unwrap();
    let s = formula_to_string(&f);
    assert!(matches!(parse_formula(&s), Ok(Formula::Literal(42))));
}

#[test]
fn test_round_trip_cell() {
    let f = parse_formula("AB10").unwrap();
    let s = formula_to_string(&f);
    assert_eq!(s, "AB10");
    assert!(matches!(
        parse_formula(&s),
        Ok(Formula::Cell(CellRef { row: 9, col: 27 }))
    ));
}

#[test]
fn test_round_trip_inc() {
    let f = parse_formula("A1+3").unwrap();
    let s = formula_to_string(&f);
    assert!(matches!(
        parse_formula(&s),
        Ok(Formula::Inc {
            base: CellRef { row: 0, col: 0 },
            offset: 3
        })
    ));
}

#[test]
fn test_round_trip_arith() {
    let f = parse_formula("3 * B2").unwrap();
    let s = formula_to_string(&f);
    let g = parse_formula(&s).unwrap();
    match g {
        Formula::Arith { op, left, right } => {
            assert_eq!(op, Op::Mul);
            assert!(matches!(*left, Formula::Literal(3)));
            assert!(matches!(*right, Formula::Cell(CellRef { row: 1, col: 1 })));
        }
        _ => panic!("expected an arithmetic formula"),
    }
}

#[test]
fn test_round_trip_range() {
    let f = parse_formula("MAX(A1:C7)").unwrap();
    let s = formula_to_string(&f);
    assert_eq!(s, "MAX(A1:C7)");
    assert!(matches!(
        parse_formula(&s),
        Ok(Formula::Range { func, .. }) if func == "MAX"
    ));
}

#[test]
fn test_round_trip_sleep() {
    let f = parse_formula("SLEEP(12)").unwrap();
    let s = formula_to_string(&f);
    assert!(matches!(parse_formula(&s), Ok(Formula::SleepLiteral(12))));
    let f2 = parse_formula("SLEEP(B2)").unwrap();
    let s2 = formula_to_string(&f2);
    assert!(matches!(
        parse_formula(&s2),
        Ok(Formula::SleepCell(CellRef { row: 1, col: 1 }))
    ));
}

#[test]
fn test_editor_new_defaults() {
    let s = EditorState::new();
    assert_eq!(s.mode, Mode::Normal);
    assert_eq!(s.cursor_row, 0);
    assert_eq!(s.cursor_col, 0);
    assert!(s.clipboard.is_none());
    assert!(s.search_matches.is_empty());
}

#[test]
fn test_reset_view() {
    let mut s = EditorState::new();
    s.cursor_row = 3;
    s.cursor_col = 4;
    s.row_offset = 2;
    s.col_offset = 1;
    s.reset_view();
    assert_eq!(s.cursor_row, 0);
    assert_eq!(s.cursor_col, 0);
    assert_eq!(s.row_offset, 0);
    assert_eq!(s.col_offset, 0);
}

#[test]
fn test_enter_insert_mode_formula() {
    let mut s = EditorState::new();
    let mut sheet = blank_sheet(2, 2);
    sheet[0][0].formula = Some(Formula::Inc {
        base: CellRef { row: 0, col: 1 },
        offset: 2,
    });
    s.enter_insert_mode(&sheet);
    assert_eq!(s.mode, Mode::Insert);
    assert_eq!(s.edit_buffer, "=B1 + 2");
}

#[test]
fn test_enter_insert_mode_value() {
    let mut s = EditorState::new();
    let mut sheet = blank_sheet(1, 1);
    sheet[0][0].val = -9;
    s.enter_insert_mode(&sheet);
    assert_eq!(s.edit_buffer, "-9");
}

#[test]
fn test_enter_normal_mode() {
    let mut s = EditorState::new();
    let sheet = blank_sheet(1, 1);
    s.enter_insert_mode(&sheet);
    s.enter_normal_mode();
    assert_eq!(s.mode, Mode::Normal);
    assert!(s.edit_buffer.is_empty());
}

#[test]
fn test_enter_command_mode() {
    let mut s = EditorState::new();
    s.enter_command_mode();
    assert_eq!(s.mode, Mode::Command);
    assert_eq!(s.command_buffer, ":");
}

#[test]
fn test_enter_visual_mode_and_selection() {
    let mut s = EditorState::new();
    s.cursor_row = 2;
    s.cursor_col = 3;
    s.enter_visual_mode();
    s.cursor_row = 1;
    s.cursor_col = 5;
    assert_eq!(s.get_visual_selection(), Some((1, 3, 2, 5)));
}

#[test]
fn test_get_visual_selection_outside_visual_mode() {
    let s = EditorState::new();
    assert_eq!(s.get_visual_selection(), None);
}

#[test]
fn test_apply_edit_empty_clears() {
    let s = EditorState::new();
    let mut sheet = blank_sheet(1, 1);
    sheet[0][0].val = 9;
    sheet[0][0].err = 1;
    s.apply_edit(&mut sheet);
    assert_eq!(sheet[0][0].val, 0);
    assert_eq!(sheet[0][0].err, 0);
    assert!(sheet[0][0].formula.is_none());
}

#[test]
fn test_apply_edit_number() {
    let mut s = EditorState::new();
    s.edit_buffer = "17".to_string();
    let mut sheet = blank_sheet(1, 1);
    s.apply_edit(&mut sheet);
    assert_eq!(sheet[0][0].val, 17);
    assert!(sheet[0][0].formula.is_none());
}

#[test]
fn test_apply_edit_formula_with_equals() {
    let mut s = EditorState::new();
    s.edit_buffer = "=A1+2".to_string();
    let mut sheet = blank_sheet(1, 2);
    s.cursor_col = 1;
    s.apply_edit(&mut sheet);
    assert!(matches!(
        sheet[0][1].formula,
        Some(Formula::Inc {
            base: CellRef { row: 0, col: 0 },
            offset: 2
        })
    ));
}

#[test]
fn test_apply_edit_invalid_sets_error() {
    let mut s = EditorState::new();
    s.edit_buffer = "=???".to_string();
    let mut sheet = blank_sheet(1, 1);
    s.apply_edit(&mut sheet);
    assert!(sheet[0][0].formula.is_none());
    assert_eq!(sheet[0][0].err, 1);
}

#[test]
fn test_apply_edit_bare_formula() {
    let mut s = EditorState::new();
    s.edit_buffer = "SUM(A1:A1)".to_string();
    let mut sheet = blank_sheet(1, 1);
    s.apply_edit(&mut sheet);
    assert!(matches!(
        sheet[0][0].formula,
        Some(Formula::Range { .. })
    ));
}
