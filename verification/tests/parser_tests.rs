use spreadsheet_engine::ast::{CellRef, Formula, Op};
use spreadsheet_engine::parser::{
    check_invalid_range, get_col_index, is_valid_formula, parse_cell_ref, parse_formula,
    parse_range,
};

#[test]
fn test_literal_parsing() {
    let parsed = parse_formula("42");
    assert!(matches!(parsed, Ok(Formula::Literal(42))));
}

#[test]
fn test_cell_parsing() {
    let parsed = parse_formula("A1");
    assert!(matches!(
        parsed,
        Ok(Formula::Cell(CellRef { row: 0, col: 0 }))
    ));
}

#[test]
fn test_arithmetic_parsing() {
    let parsed = parse_formula("2+3");
    assert!(matches!(parsed, Ok(Formula::Arith { op: Op::Add, .. })));
}

#[test]
fn test_range_parsing() {
    let parsed = parse_formula("SUM(A1:B2)");
    assert!(matches!(parsed, Ok(Formula::Range { func, .. }) if func == "SUM"));
}

#[test]
fn test_sleep_literal_parsing() {
    let parsed = parse_formula("SLEEP(5)");
    assert!(matches!(parsed, Ok(Formula::SleepLiteral(5))));
}

#[test]
fn test_invalid_formula() {
    let parsed = parse_formula("garbage");
    assert!(parsed.is_err());
}

#[test]
fn test_is_valid_formula_true() {
    assert!(is_valid_formula("B1+5"));
}

#[test]
fn test_is_valid_formula_false() {
    assert!(!is_valid_formula("XYZ"));
}

#[test]
fn test_get_col_index_valid() {
    assert_eq!(get_col_index("A"), 0);
    assert_eq!(get_col_index("Z"), 25);
    assert_eq!(get_col_index("AA"), 26);
    assert_eq!(get_col_index("AZ"), 51);
    assert_eq!(get_col_index("BA"), 52);
}

#[test]
fn test_get_col_index_invalid() {
    assert_eq!(get_col_index("1A"), -1);
    assert_eq!(get_col_index(""), -1);
}

#[test]
fn test_parse_cell_ref_valid() {
    assert_eq!(parse_cell_ref("A1"), Some((0, 0)));
    assert_eq!(parse_cell_ref("B2"), Some((1, 1)));
}

#[test]
fn test_parse_cell_ref_invalid() {
    assert_eq!(parse_cell_ref("123"), None);
    assert_eq!(parse_cell_ref("A"), None);
}

#[test]
fn test_check_invalid_range_valid() {
    assert_eq!(check_invalid_range("SUM(A1:B2)", 3, 3), 0);
}

#[test]
fn test_check_invalid_range_self_reference() {
    assert_eq!(check_invalid_range("SUM(A1:B2)", 0, 0), 1);
}

#[test]
fn test_check_invalid_range_inverted_start_end() {
    let result = check_invalid_range("SUM(B2:A1)", 0, 0);
    assert_eq!(result, 1);
}

#[test]
fn test_check_invalid_range_inside_own_range() {
    let result = check_invalid_range("SUM(A1:C3)", 1, 1);
    assert_eq!(result, 1);
}

#[test]
fn test_parse_formula_sleep_cell() {
    let parsed = parse_formula("SLEEP(A1)");
    assert!(matches!(
        parsed,
        Ok(Formula::SleepCell(CellRef { row: 0, col: 0 }))
    ));
}

#[test]
fn test_parse_formula_sleep_invalid() {
    let parsed = parse_formula("SLEEP(XYZ)");
    assert!(parsed.is_err());
}

#[test]
fn test_parse_formula_range_func_invalid_colon() {
    let parsed = parse_formula("SUM(A1B2)");
    assert!(parsed.is_err());
}

#[test]
fn test_parse_formula_arith_invalid_operator() {
    let parsed = parse_formula("A1%2");
    assert!(parsed.is_err());
}

#[test]
fn test_parse_formula_arith_spaces() {
    let parsed = parse_formula(" 3 * 4 ");
    assert!(matches!(parsed, Ok(Formula::Arith { op: Op::Mul, .. })));
}

#[test]
fn test_parse_formula_invalid_range_parts_len() {
    let parsed = parse_formula("SUM(A1)");
    assert!(parsed.is_err());
}

#[test]
fn test_parse_formula_range_func_invalid_cell() {
    let parsed = parse_formula("SUM(A1:X)");
    assert!(parsed.is_err());
}

#[test]
fn test_is_valid_formula_arith() {
    assert!(is_valid_formula("A1 + 2"));
}

#[test]
fn test_is_valid_formula_range() {
    assert!(is_valid_formula("AVG(A1:B2)"));
}

#[test]
fn test_is_valid_formula_sleep() {
    assert!(is_valid_formula("SLEEP(10)"));
}

#[test]
fn test_is_valid_formula_cell_ref() {
    assert!(is_valid_formula("B4"));
}

#[test]
fn test_is_valid_formula_integer_literal() {
    assert!(is_valid_formula("  42 "));
}

#[test]
fn test_is_valid_formula_false_branch() {
    assert!(!is_valid_formula("!!@#"));
}

#[test]
fn test_check_invalid_range_bad_parens() {
    let result = check_invalid_range("SUMA1:B2)", 0, 0);
    assert_eq!(result, 0);
}

#[test]
fn test_check_invalid_range_empty_parts() {
    let result = check_invalid_range("SUM(:)", 0, 0);
    assert_eq!(result, 0);
}

#[test]
fn test_parse_formula_arithmetic_all_operators() {
    assert!(parse_formula("A1*B2").is_ok());
    assert!(parse_formula("C3/2").is_ok());
    assert!(parse_formula("5-3").is_ok());
    assert!(parse_formula("X5+Y6").is_ok());
}

#[test]
fn test_parse_formula_invalid_operator() {
    assert!(parse_formula("A1%2").is_err());
}

#[test]
fn test_lowercase_cell_reference() {
    assert_eq!(get_col_index("a1"), -1);
    assert_eq!(parse_cell_ref("a1"), None);
}

#[test]
fn test_parse_range_valid() {
    let mut sr = 0;
    let mut er = 0;
    let mut sc = 0;
    let mut ec = 0;
    let result = parse_range("A1:B2", &mut sr, &mut er, &mut sc, &mut ec);
    assert_eq!(result, 0);
    assert_eq!((sr, er, sc, ec), (0, 1, 0, 1));
}

#[test]
fn test_parse_range_invalid_format() {
    let mut sr = 0;
    let mut er = 0;
    let mut sc = 0;
    let mut ec = 0;
    let result = parse_range("invalid", &mut sr, &mut er, &mut sc, &mut ec);
    assert_eq!(result, -1);
}

#[test]
fn test_parse_negative_literal() {
    let parsed = parse_formula("-17");
    assert!(matches!(parsed, Ok(Formula::Literal(-17))));
}

#[test]
fn test_parse_inc_from_cell_plus_literal() {
    let parsed = parse_formula("A1+3");
    assert!(matches!(
        parsed,
        Ok(Formula::Inc {
            base: CellRef { row: 0, col: 0 },
            offset: 3
        })
    ));
}

#[test]
fn test_parse_literal_overflow_rejected() {
    assert!(parse_formula("2147483648").is_err());
    assert!(matches!(
        parse_formula("2147483647"),
        Ok(Formula::Literal(2147483647))
    ));
    assert!(matches!(
        parse_formula("-2147483648"),
        Ok(Formula::Literal(-2147483648))
    ));
}

#[test]
fn test_parse_stdev_range() {
    let parsed = parse_formula("STDEV(B2:C3)");
    assert!(matches!(
        parsed,
        Ok(Formula::Range { func, start: CellRef { row: 1, col: 1 }, end: CellRef { row: 2, col: 2 } })
        if func == "STDEV"
    ));
}

#[test]
fn test_parse_row_zero_reference() {
    assert_eq!(parse_cell_ref("A0"), Some((-1, 0)));
}
