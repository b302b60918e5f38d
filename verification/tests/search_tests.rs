use spreadsheet_engine::ast::{cell, CellRef, Formula};
use spreadsheet_engine::editor::{parse_cell_reference, EditorState};
use spreadsheet_engine::search::{find_next_match, search_and_replace_vim, search_sheet};

fn blank_sheet(rows: usize, cols: usize) -> Vec<Vec<cell>> {
    let mut sheet = Vec::new();
    for _ in 0..rows {
        let mut row = Vec::new();
        for _ in 0..cols {
            row.push(cell {
                val: 0,
                formula: None,
                err: 0,
            });
        }
        sheet.push(row);
    }
    sheet
}

#[test]
fn test_parse_cell_reference_valid() {
    assert_eq!(parse_cell_reference("A1"), Some((0, 0)));
    assert_eq!(parse_cell_reference("b2"), Some((1, 1)));
    assert_eq!(parse_cell_reference("AA10"), Some((9, 26)));
}

#[test]
fn test_parse_cell_reference_invalid() {
    assert_eq!(parse_cell_reference(""), None);
    assert_eq!(parse_cell_reference("12"), None);
    assert_eq!(parse_cell_reference("AB"), None);
    assert_eq!(parse_cell_reference("A0"), None);
    assert_eq!(parse_cell_reference("A-1"), None);
}

#[test]
fn test_parse_cell_reference_interleaved() {
    assert_eq!(parse_cell_reference("A1B"), Some((0, 27)));
}

#[test]
fn test_search_sheet_finds_values() {
    let mut state = EditorState::new();
    let mut sheet = blank_sheet(2, 2);
    sheet[0][1].val = 42;
    sheet[1][0].val = 142;
    let r = search_sheet(&mut state, &sheet, "42", true, 2, 2);
    assert!(r.is_ok());
    assert_eq!(state.search_matches, vec![(0, 1), (1, 0)]);
    assert_eq!((state.cursor_row, state.cursor_col), (0, 1));
}

#[test]
fn test_search_sheet_finds_formula_text() {
    let mut state = EditorState::new();
    let mut sheet = blank_sheet(1, 2);
    sheet[0][1].formula = Some(Formula::Cell(CellRef { row: 0, col: 0 }));
    let r = search_sheet(&mut state, &sheet, "A1", true, 1, 2);
    assert!(r.is_ok());
    assert_eq!(state.search_matches, vec![(0, 1)]);
}

#[test]
fn test_search_sheet_empty_pattern() {
    let mut state = EditorState::new();
    let sheet = blank_sheet(1, 1);
    assert!(search_sheet(&mut state, &sheet, "", true, 1, 1).is_err());
}

#[test]
fn test_search_sheet_not_found() {
    let mut state = EditorState::new();
    let sheet = blank_sheet(2, 2);
    assert!(search_sheet(&mut state, &sheet, "7", true, 2, 2).is_err());
}

#[test]
fn test_find_next_match_forward_wraps() {
    let mut state = EditorState::new();
    state.search_matches = vec![(0, 0), (1, 1)];
    state.cursor_row = 2;
    state.cursor_col = 0;
    assert!(find_next_match(&mut state, true));
    assert_eq!(state.current_match, Some(0));
    assert_eq!((state.cursor_row, state.cursor_col), (0, 0));
}

#[test]
fn test_find_next_match_backward() {
    let mut state = EditorState::new();
    state.search_matches = vec![(0, 0), (1, 1), (2, 2)];
    state.cursor_row = 2;
    state.cursor_col = 0;
    assert!(find_next_match(&mut state, false));
    assert_eq!(state.current_match, Some(1));
    assert_eq!((state.cursor_row, state.cursor_col), (1, 1));
}

#[test]
fn test_find_next_match_empty() {
    let mut state = EditorState::new();
    assert!(!find_next_match(&mut state, true));
    assert_eq!(state.current_match, None);
}

#[test]
fn test_search_and_replace_updates_formulas() {
    let mut state = EditorState::new();
    let mut sheet = blank_sheet(1, 3);
    sheet[0][1].formula = Some(Formula::Cell(CellRef { row: 0, col: 0 }));
    sheet[0][2].formula = Some(Formula::Inc {
        base: CellRef { row: 0, col: 0 },
        offset: 2,
    });
    let r = search_and_replace_vim(&mut state, &mut sheet, ":%s/A1/B1/g", 1, 3);
    assert!(r.is_ok());
    assert!(matches!(
        sheet[0][1].formula,
        Some(Formula::Cell(CellRef { row: 0, col: 1 }))
    ));
    assert!(matches!(
        sheet[0][2].formula,
        Some(Formula::Inc { base: CellRef { row: 0, col: 1 }, offset: 2 })
    ));
}

#[test]
fn test_search_and_replace_malformed_command() {
    let mut state = EditorState::new();
    let mut sheet = blank_sheet(1, 1);
    assert!(search_and_replace_vim(&mut state, &mut sheet, "nonsense", 1, 1).is_err());
}

#[test]
fn test_search_and_replace_not_found() {
    let mut state = EditorState::new();
    let mut sheet = blank_sheet(1, 1);
    sheet[0][0].formula = Some(Formula::Literal(5));
    assert!(search_and_replace_vim(&mut state, &mut sheet, ":%s/9/8/", 1, 1).is_err());
    assert!(matches!(sheet[0][0].formula, Some(Formula::Literal(5))));
}

#[test]
fn test_search_and_replace_first_only() {
    let mut state = EditorState::new();
    let mut sheet = blank_sheet(1, 1);
    sheet[0][0].formula = Some(Formula::Arith {
        op: spreadsheet_engine::ast::Op::Add,
        left: Box::new(Formula::Literal(7)),
        right: Box::new(Formula::Literal(7)),
    });
    let r = search_and_replace_vim(&mut state, &mut sheet, ":%s/7/9/", 1, 1);
    assert!(r.is_ok());
    match &sheet[0][0].formula {
        Some(Formula::Arith { left, right, .. }) => {
            assert!(matches!(**left, Formula::Literal(9)));
            assert!(matches!(**right, Formula::Literal(7)));
        }
        _ => panic!("expected an arithmetic formula"),
    }
}
