use spreadsheet_engine::ast::{cell, get_dependencies_from_formula, CellRef, Formula, Op};
use spreadsheet_engine::eval::{evaluate_formula, evaluate_range, get_value_from_formula, stdev};
use spreadsheet_engine::parser::parse_formula;

fn initialize_sheet(rows: i32, cols: i32) -> Vec<Vec<cell>> {
    let mut sheet = Vec::new();
    for _ in 0..rows {
        let mut row = Vec::new();
        for _ in 0..cols {
            row.push(cell {
                val: 0,
                formula: None,
                err: 0,
            });
        }
        sheet.push(row);
    }
    sheet
}

#[test]
fn test_get_dependencies_literal() {
    let deps = get_dependencies_from_formula(&Formula::Literal(10));
    assert!(deps.is_empty());
}

#[test]
fn test_get_dependencies_cell() {
    let deps = get_dependencies_from_formula(&Formula::Cell(CellRef { row: 1, col: 2 }));
    assert_eq!(deps, vec![CellRef { row: 1, col: 2 }]);
}

#[test]
fn test_get_dependencies_arith() {
    let f = Formula::Arith {
        op: Op::Add,
        left: Box::new(Formula::Cell(CellRef { row: 0, col: 0 })),
        right: Box::new(Formula::Literal(3)),
    };
    let deps = get_dependencies_from_formula(&f);
    assert_eq!(deps, vec![CellRef { row: 0, col: 0 }]);
}

#[test]
fn test_get_value_from_formula_literal() {
    let sheet = vec![vec![cell {
        val: 5,
        formula: None,
        err: 0,
    }]];
    let mut err = 0;
    let val = get_value_from_formula("42", 1, 1, &sheet, &mut err);
    assert_eq!(val, 42);
    assert_eq!(err, 0);
}

#[test]
fn test_get_value_from_formula_cell() {
    let sheet = vec![vec![cell {
        val: 9,
        formula: None,
        err: 0,
    }]];
    let mut err = 0;
    let val = get_value_from_formula("A1", 1, 1, &sheet, &mut err);
    assert_eq!(val, 9);
    assert_eq!(err, 0);
}

#[test]
fn test_get_value_from_formula_invalid() {
    let sheet = vec![vec![cell {
        val: 9,
        formula: None,
        err: 0,
    }]];
    let mut err = 0;
    let val = get_value_from_formula("INVALID", 1, 1, &sheet, &mut err);
    assert_eq!(val, 0);
    assert_eq!(err, 1);
}

#[test]
fn test_stdev_single_value() {
    let v = vec![5];
    assert_eq!(stdev(&v), 0);
}

#[test]
fn test_evaluate_literal_formula() {
    let mut err = 0;
    let sheet = vec![];
    let val = evaluate_formula(&Formula::Literal(42), &sheet, &mut err);
    assert_eq!(val, 42);
    assert_eq!(err, 0);
}

#[test]
fn test_evaluate_cell_formula_valid() {
    let mut err = 0;
    let sheet = vec![vec![cell {
        val: 10,
        formula: None,
        err: 0,
    }]];
    let val = evaluate_formula(&Formula::Cell(CellRef { row: 0, col: 0 }), &sheet, &mut err);
    assert_eq!(val, 10);
    assert_eq!(err, 0);
}

#[test]
fn test_evaluate_cell_formula_error() {
    let mut err = 0;
    let sheet = vec![vec![cell {
        val: 10,
        formula: None,
        err: 1,
    }]];
    let val = evaluate_formula(&Formula::Cell(CellRef { row: 0, col: 0 }), &sheet, &mut err);
    assert_eq!(val, 0);
    assert_eq!(err, 1);
}

#[test]
fn test_evaluate_cell_formula_out_of_bounds() {
    let mut err = 0;
    let sheet: Vec<Vec<cell>> = vec![];
    let val = evaluate_formula(&Formula::Cell(CellRef { row: 1, col: 1 }), &sheet, &mut err);
    assert_eq!(val, 0);
    assert_eq!(err, 1);
}

#[test]
fn main_test_evaluate_inc_formula() {
    let mut err = 0;
    let sheet = vec![vec![cell {
        val: 10,
        formula: None,
        err: 0,
    }]];
    let val = evaluate_formula(
        &Formula::Inc {
            base: CellRef { row: 0, col: 0 },
            offset: 5,
        },
        &sheet,
        &mut err,
    );
    assert_eq!(val, 15);
    assert_eq!(err, 0);
}

#[test]
fn test_evaluate_arith_add() {
    let mut err = 0;
    let formula = Formula::Arith {
        op: Op::Add,
        left: Box::new(Formula::Literal(2)),
        right: Box::new(Formula::Literal(3)),
    };
    let val = evaluate_formula(&formula, &vec![], &mut err);
    assert_eq!(val, 5);
    assert_eq!(err, 0);
}

#[test]
fn test_evaluate_arith_div_by_zero() {
    let mut err = 0;
    let formula = Formula::Arith {
        op: Op::Div,
        left: Box::new(Formula::Literal(10)),
        right: Box::new(Formula::Literal(0)),
    };
    let val = evaluate_formula(&formula, &vec![], &mut err);
    assert_eq!(val, 0);
    assert_eq!(err, 1);
}

#[test]
fn test_evaluate_range_sum() {
    let mut err = 0;
    let sheet = vec![
        vec![
            cell {
                val: 1,
                formula: None,
                err: 0,
            },
            cell {
                val: 2,
                formula: None,
                err: 0,
            },
        ],
        vec![
            cell {
                val: 3,
                formula: None,
                err: 0,
            },
            cell {
                val: 4,
                formula: None,
                err: 0,
            },
        ],
    ];
    let formula = Formula::Range {
        func: "SUM".to_string(),
        start: CellRef { row: 0, col: 0 },
        end: CellRef { row: 1, col: 1 },
    };
    let val = evaluate_formula(&formula, &sheet, &mut err);
    assert_eq!(val, 10);
    assert_eq!(err, 0);
}

#[test]
fn test_evaluate_range_invalid_bounds() {
    let mut err = 0;
    let sheet = vec![vec![cell {
        val: 0,
        formula: None,
        err: 0,
    }]];
    let formula = Formula::Range {
        func: "SUM".to_string(),
        start: CellRef { row: 1, col: 1 },
        end: CellRef { row: 2, col: 2 },
    };
    let val = evaluate_formula(&formula, &sheet, &mut err);
    assert_eq!(val, 0);
    assert_eq!(err, 1);
}

#[test]
fn test_evaluate_sleep_literal() {
    let mut err = 0;
    let sheet = vec![];
    let val = evaluate_formula(&Formula::SleepLiteral(7), &sheet, &mut err);
    assert_eq!(val, 7);
    assert_eq!(err, 0);
}

#[test]
fn test_evaluate_sleep_cell() {
    let mut err = 0;
    let sheet = vec![vec![cell {
        val: 4,
        formula: None,
        err: 0,
    }]];
    let val = evaluate_formula(
        &Formula::SleepCell(CellRef { row: 0, col: 0 }),
        &sheet,
        &mut err,
    );
    assert_eq!(val, 4);
    assert_eq!(err, 0);
}

#[test]
fn test_sleep_cell_invalid_cell_sets_error() {
    let sheet = vec![vec![cell {
        val: 0,
        formula: None,
        err: 1,
    }]];
    let mut err = 0;
    let val = evaluate_formula(
        &Formula::SleepCell(CellRef { row: 0, col: 0 }),
        &sheet,
        &mut err,
    );
    assert_eq!(val, 0);
    assert_eq!(err, 1);
}

#[test]
fn test_get_value_from_formula_empty_string() {
    let sheet = vec![vec![cell {
        val: 0,
        formula: None,
        err: 0,
    }]];
    let mut err = 0;
    let result = get_value_from_formula("", 1, 1, &sheet, &mut err);
    assert_eq!(result, 0);
    assert_eq!(err, 1);
}

#[test]
fn test_get_value_from_formula_valid_literal_with_spaces() {
    let sheet = vec![vec![cell {
        val: 0,
        formula: None,
        err: 0,
    }]];
    let mut err = 0;
    let result = get_value_from_formula("   20 ", 1, 1, &sheet, &mut err);
    assert_eq!(result, 20);
    assert_eq!(err, 0);
}

#[test]
fn test_evaluate_inc_formula() {
    let mut sheet = initialize_sheet(2, 2);
    sheet[0][0].val = 5;
    let formula = parse_formula("A1+3").unwrap();
    let mut err = 0;
    assert_eq!(evaluate_formula(&formula, &sheet, &mut err), 8);
}

#[test]
fn test_division_by_zero_propagation() {
    let mut sheet = initialize_sheet(1, 2);
    sheet[0][1].formula = Some(Formula::Literal(0));
    let formula = parse_formula("A1/B1").unwrap();
    let mut err = 0;
    evaluate_formula(&formula, &sheet, &mut err);
    assert_eq!(err, 1);
}

#[test]
fn test_stdev_valid_calculation() {
    let vals = vec![2, 4, 4, 4, 5, 5, 7, 9];
    assert_eq!(stdev(&vals), 2);
}

#[test]
fn test_sleep_with_error_cell() {
    let mut sheet = initialize_sheet(2, 2);
    sheet[0][0].err = 1;
    let formula = parse_formula("SLEEP(A1)").unwrap();
    let mut err = 0;
    evaluate_formula(&formula, &sheet, &mut err);
    assert_eq!(err, 1);
}

#[test]
fn test_evaluate_range_avg() {
    let mut sheet = initialize_sheet(3, 3);
    for (i, val) in [2, 4, 6].iter().enumerate() {
        sheet[0][i].val = *val;
    }
    let formula = Formula::Range {
        func: "AVG".to_string(),
        start: CellRef { row: 0, col: 0 },
        end: CellRef { row: 0, col: 2 },
    };
    let mut err = 0;
    let result = evaluate_formula(&formula, &sheet, &mut err);
    assert_eq!(result, 4);
    assert_eq!(err, 0);
}

#[test]
fn test_evaluate_range_min_max() {
    let mut sheet = initialize_sheet(2, 2);
    sheet[0][0].val = -5;
    sheet[0][1].val = 10;
    sheet[1][0].val = 3;
    sheet[1][1].val = 7;

    let min_formula = Formula::Range {
        func: "MIN".to_string(),
        start: CellRef { row: 0, col: 0 },
        end: CellRef { row: 1, col: 1 },
    };
    let mut err = 0;
    assert_eq!(evaluate_formula(&min_formula, &sheet, &mut err), -5);

    let max_formula = Formula::Range {
        func: "MAX".to_string(),
        start: CellRef { row: 0, col: 0 },
        end: CellRef { row: 1, col: 1 },
    };
    assert_eq!(evaluate_formula(&max_formula, &sheet, &mut err), 10);
}

#[test]
fn test_evaluate_range_stdev_edge_cases() {
    let mut sheet = initialize_sheet(1, 1);
    sheet[0][0].val = 5;
    let formula = Formula::Range {
        func: "STDEV".to_string(),
        start: CellRef { row: 0, col: 0 },
        end: CellRef { row: 0, col: 0 },
    };
    let mut err = 0;
    assert_eq!(evaluate_formula(&formula, &sheet, &mut err), 0);

    let mut sheet = initialize_sheet(1, 2);
    sheet[0][0].val = 2;
    sheet[0][1].val = 4;
    let formula = Formula::Range {
        func: "STDEV".to_string(),
        start: CellRef { row: 0, col: 0 },
        end: CellRef { row: 0, col: 1 },
    };
    assert_eq!(evaluate_formula(&formula, &sheet, &mut err), 1);
}

#[test]
fn test_evaluate_range_stdev_large_sample() {
    let mut sheet = initialize_sheet(1, 5);
    let values = [1, 2, 3, 4, 5];
    for (i, &val) in values.iter().enumerate() {
        sheet[0][i].val = val;
    }
    let formula = Formula::Range {
        func: "STDEV".to_string(),
        start: CellRef { row: 0, col: 0 },
        end: CellRef { row: 0, col: 4 },
    };
    let mut err = 0;
    assert_eq!(evaluate_formula(&formula, &sheet, &mut err), 2);
}

#[test]
fn test_range_function_error_propagation() {
    let mut sheet = initialize_sheet(2, 2);
    sheet[0][0].err = 1;
    let formula = Formula::Range {
        func: "SUM".to_string(),
        start: CellRef { row: 0, col: 0 },
        end: CellRef { row: 1, col: 1 },
    };
    let mut err = 0;
    evaluate_formula(&formula, &sheet, &mut err);
    assert_eq!(err, 1);
}

#[test]
fn test_range_dependencies_multiple_cells() {
    let formula = Formula::Range {
        func: "SUM".to_string(),
        start: CellRef { row: 1, col: 1 },
        end: CellRef { row: 3, col: 3 },
    };

    let deps = get_dependencies_from_formula(&formula);
    assert_eq!(deps.len(), 9);
    assert!(deps.contains(&CellRef { row: 1, col: 1 }));
    assert!(deps.contains(&CellRef { row: 3, col: 3 }));
}

#[test]
fn test_single_cell_range_dependencies() {
    let formula = Formula::Range {
        func: "MIN".to_string(),
        start: CellRef { row: 0, col: 0 },
        end: CellRef { row: 0, col: 0 },
    };

    let deps = get_dependencies_from_formula(&formula);
    assert_eq!(deps, vec![CellRef { row: 0, col: 0 }]);
}

#[test]
fn test_sleep_literal_no_dependencies() {
    let formula = Formula::SleepLiteral(5);
    let deps = get_dependencies_from_formula(&formula);
    assert!(deps.is_empty());
}

#[test]
fn test_sleep_cell_dependency() {
    let formula = Formula::SleepCell(CellRef { row: 2, col: 4 });
    let deps = get_dependencies_from_formula(&formula);
    assert_eq!(deps, vec![CellRef { row: 2, col: 4 }]);
}

#[test]
fn test_evaluate_range_with_error() {
    let sheet = vec![vec![cell {
        val: 1,
        formula: None,
        err: 1,
    }]];
    let mut err = 0;
    let result = evaluate_range("A1:A1", 1, 1, &sheet, "SUM", &mut err);
    assert_eq!(result, 0);
    assert_eq!(err, 1);
}

#[test]
fn test_evaluate_range_sum_basic() {
    let sheet = vec![
        vec![
            cell {
                val: 2,
                formula: None,
                err: 0,
            },
            cell {
                val: 3,
                formula: None,
                err: 0,
            },
        ],
        vec![
            cell {
                val: 4,
                formula: None,
                err: 0,
            },
            cell {
                val: 1,
                formula: None,
                err: 0,
            },
        ],
    ];
    let mut err = 0;
    let result = evaluate_range("A1:B2", 2, 2, &sheet, "SUM", &mut err);
    assert_eq!(result, 10);
    assert_eq!(err, 0);
}

#[test]
fn test_evaluate_range_avg_basic() {
    let sheet = vec![
        vec![
            cell {
                val: 6,
                formula: None,
                err: 0,
            },
            cell {
                val: 3,
                formula: None,
                err: 0,
            },
        ],
        vec![
            cell {
                val: 9,
                formula: None,
                err: 0,
            },
            cell {
                val: 0,
                formula: None,
                err: 0,
            },
        ],
    ];
    let mut err = 0;
    let result = evaluate_range("A1:B2", 2, 2, &sheet, "AVG", &mut err);
    assert_eq!(result, 4);
    assert_eq!(err, 0);
}

#[test]
fn test_addition_overflow_wraps() {
    let formula = Formula::Arith {
        op: Op::Add,
        left: Box::new(Formula::Literal(i32::MAX)),
        right: Box::new(Formula::Literal(1)),
    };
    let mut err = 0;
    let val = evaluate_formula(&formula, &vec![], &mut err);
    assert_eq!(val, i32::MIN);
    assert_eq!(err, 0);
}

#[test]
fn test_multiplication_overflow_wraps() {
    let formula = Formula::Arith {
        op: Op::Mul,
        left: Box::new(Formula::Literal(1 << 20)),
        right: Box::new(Formula::Literal(1 << 20)),
    };
    let mut err = 0;
    let val = evaluate_formula(&formula, &vec![], &mut err);
    assert_eq!(val, (1i32 << 20).wrapping_mul(1 << 20));
    assert_eq!(err, 0);
}

#[test]
fn test_unknown_range_function_is_error() {
    let sheet = vec![vec![cell {
        val: 1,
        formula: None,
        err: 0,
    }]];
    let formula = Formula::Range {
        func: "MEDIAN".to_string(),
        start: CellRef { row: 0, col: 0 },
        end: CellRef { row: 0, col: 0 },
    };
    let mut err = 0;
    let val = evaluate_formula(&formula, &sheet, &mut err);
    assert_eq!(val, 0);
    assert_eq!(err, 1);
}

#[test]
fn test_negative_division_truncates() {
    let formula = Formula::Arith {
        op: Op::Div,
        left: Box::new(Formula::Literal(-7)),
        right: Box::new(Formula::Literal(2)),
    };
    let mut err = 0;
    assert_eq!(evaluate_formula(&formula, &vec![], &mut err), -3);
    assert_eq!(err, 0);
}
