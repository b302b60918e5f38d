use spreadsheet_engine::ast::CellRef;
use spreadsheet_engine::engine::{Engine, Outcome};

fn a1() -> CellRef {
    CellRef { row: 0, col: 0 }
}

fn b1() -> CellRef {
    CellRef { row: 0, col: 1 }
}

fn c1() -> CellRef {
    CellRef { row: 0, col: 2 }
}

#[test]
fn test_edit_commits_literal() {
    let mut e = Engine::new(4, 4);
    assert_eq!(e.edit(a1(), "5"), Outcome::Committed);
    assert_eq!(e.value_of(a1()), (5, 0));
}

#[test]
fn test_edit_parse_failure_changes_nothing() {
    let mut e = Engine::new(4, 4);
    assert_eq!(e.edit(a1(), "5"), Outcome::Committed);
    assert_eq!(e.edit(a1(), "not a formula"), Outcome::ParseFailed);
    assert_eq!(e.value_of(a1()), (5, 0));
}

#[test]
fn test_edit_out_of_bounds_target() {
    let mut e = Engine::new(2, 2);
    assert_eq!(e.edit(CellRef { row: 5, col: 0 }, "1"), Outcome::InvalidRange);
}

#[test]
fn test_edit_inverted_range_rejected() {
    let mut e = Engine::new(2, 2);
    assert_eq!(e.edit(a1(), "SUM(B2:A1)"), Outcome::InvalidRange);
}

#[test]
fn test_edit_self_range_rejected() {
    let mut e = Engine::new(3, 3);
    assert_eq!(e.edit(b1(), "SUM(A1:C3)"), Outcome::InvalidRange);
}

#[test]
fn test_self_reference_rejected() {
    let mut e = Engine::new(2, 2);
    assert_eq!(e.edit(a1(), "A1"), Outcome::CycleDetected);
}

#[test]
fn test_indirect_circular_dependency() {
    let mut e = Engine::new(2, 2);
    assert_eq!(e.edit(a1(), "B1"), Outcome::Committed);
    assert_eq!(e.edit(b1(), "A1"), Outcome::CycleDetected);
}

#[test]
fn test_rollback_exactness_after_cycle() {
    let mut e = Engine::new(2, 2);
    assert_eq!(e.edit(a1(), "7"), Outcome::Committed);
    assert_eq!(e.edit(b1(), "A1+1"), Outcome::Committed);
    let deps_before = e.dependencies_of(b1());
    let vals_before = [
        e.value_of(a1()),
        e.value_of(b1()),
        e.value_of(CellRef { row: 1, col: 0 }),
        e.value_of(CellRef { row: 1, col: 1 }),
    ];
    assert_eq!(e.edit(a1(), "B1"), Outcome::CycleDetected);
    assert_eq!(e.dependencies_of(b1()), deps_before);
    assert_eq!(
        [
            e.value_of(a1()),
            e.value_of(b1()),
            e.value_of(CellRef { row: 1, col: 0 }),
            e.value_of(CellRef { row: 1, col: 1 }),
        ],
        vals_before
    );
}

#[test]
fn test_dependency_removal_on_formula_update() {
    let mut e = Engine::new(5, 5);
    assert_eq!(e.edit(a1(), "B2"), Outcome::Committed);
    assert_eq!(e.edit(a1(), "5"), Outcome::Committed);
    assert!(e.dependents_of(CellRef { row: 1, col: 1 }).is_empty());
    assert!(e.dependencies_of(a1()).is_empty());
}

#[test]
fn test_dependency_evaluation_order() {
    let mut e = Engine::new(3, 3);
    assert_eq!(e.edit(a1(), "B2"), Outcome::Committed);
    assert_eq!(e.edit(CellRef { row: 1, col: 1 }, "C3"), Outcome::Committed);
    assert_eq!(e.edit(CellRef { row: 2, col: 2 }, "5"), Outcome::Committed);
    assert_eq!(e.value_of(CellRef { row: 2, col: 2 }), (5, 0));
    assert_eq!(e.value_of(CellRef { row: 1, col: 1 }), (5, 0));
    assert_eq!(e.value_of(a1()), (5, 0));
}

#[test]
fn test_chain_recompute_propagates() {
    let mut e = Engine::new(1, 3);
    assert_eq!(e.edit(c1(), "2"), Outcome::Committed);
    assert_eq!(e.edit(b1(), "C1+1"), Outcome::Committed);
    assert_eq!(e.edit(a1(), "B1+1"), Outcome::Committed);
    assert_eq!(e.value_of(a1()), (4, 0));
    assert_eq!(e.edit(c1(), "10"), Outcome::Committed);
    assert_eq!(e.value_of(c1()), (10, 0));
    assert_eq!(e.value_of(b1()), (11, 0));
    assert_eq!(e.value_of(a1()), (12, 0));
}

#[test]
fn test_division_by_zero_reports_error_value_zero() {
    let mut e = Engine::new(1, 1);
    assert_eq!(e.edit(a1(), "1 / 0"), Outcome::Committed);
    assert_eq!(e.value_of(a1()), (0, 1));
}

#[test]
fn test_increment_path_value() {
    let mut e = Engine::new(1, 2);
    assert_eq!(e.edit(a1(), "5"), Outcome::Committed);
    assert_eq!(e.edit(b1(), "A1+3"), Outcome::Committed);
    assert_eq!(e.value_of(b1()), (8, 0));
}

#[test]
fn test_addition_overflow_wraps_in_engine() {
    let mut e = Engine::new(1, 2);
    assert_eq!(e.edit(a1(), "2147483647"), Outcome::Committed);
    assert_eq!(e.edit(b1(), "A1+1"), Outcome::Committed);
    assert_eq!(e.value_of(b1()), (i32::MIN, 0));
}

#[test]
fn test_sum_over_rectangle() {
    let mut e = Engine::new(2, 3);
    assert_eq!(e.edit(a1(), "1"), Outcome::Committed);
    assert_eq!(e.edit(b1(), "2"), Outcome::Committed);
    assert_eq!(e.edit(CellRef { row: 1, col: 0 }, "3"), Outcome::Committed);
    assert_eq!(e.edit(CellRef { row: 1, col: 1 }, "4"), Outcome::Committed);
    assert_eq!(e.edit(c1(), "SUM(A1:B2)"), Outcome::Committed);
    assert_eq!(e.value_of(c1()), (10, 0));
}

#[test]
fn test_stdev_two_values_rounds_to_one() {
    let mut e = Engine::new(2, 2);
    assert_eq!(e.edit(a1(), "2"), Outcome::Committed);
    assert_eq!(e.edit(b1(), "4"), Outcome::Committed);
    assert_eq!(
        e.edit(CellRef { row: 1, col: 0 }, "STDEV(A1:B1)"),
        Outcome::Committed
    );
    assert_eq!(e.value_of(CellRef { row: 1, col: 0 }), (1, 0));
}

#[test]
fn test_stdev_single_cell_is_zero() {
    let mut e = Engine::new(2, 2);
    assert_eq!(e.edit(a1(), "9"), Outcome::Committed);
    assert_eq!(
        e.edit(b1(), "STDEV(A1:A1)"),
        Outcome::Committed
    );
    assert_eq!(e.value_of(b1()), (0, 0));
}

#[test]
fn test_aggregate_error_propagation() {
    let mut e = Engine::new(2, 3);
    assert_eq!(e.edit(a1(), "1 / 0"), Outcome::Committed);
    assert_eq!(e.edit(b1(), "7"), Outcome::Committed);
    assert_eq!(e.edit(c1(), "SUM(A1:B2)"), Outcome::Committed);
    assert_eq!(e.value_of(c1()), (0, 1));
}

#[test]
fn test_error_clears_after_fix() {
    let mut e = Engine::new(1, 2);
    assert_eq!(e.edit(a1(), "1 / 0"), Outcome::Committed);
    assert_eq!(e.edit(b1(), "A1"), Outcome::Committed);
    assert_eq!(e.value_of(b1()), (0, 1));
    assert_eq!(e.edit(a1(), "6"), Outcome::Committed);
    assert_eq!(e.value_of(b1()), (6, 0));
}

#[test]
fn test_wait_literal_is_pure_value() {
    let mut e = Engine::new(1, 1);
    assert_eq!(e.edit(a1(), "SLEEP(5)"), Outcome::Committed);
    assert_eq!(e.value_of(a1()), (5, 0));
}

#[test]
fn test_wait_cell_follows_value() {
    let mut e = Engine::new(1, 2);
    assert_eq!(e.edit(a1(), "4"), Outcome::Committed);
    assert_eq!(e.edit(b1(), "SLEEP(A1)"), Outcome::Committed);
    assert_eq!(e.value_of(b1()), (4, 0));
}

#[test]
fn test_dependencies_of_reports_rectangle() {
    let mut e = Engine::new(2, 2);
    assert_eq!(
        e.edit(CellRef { row: 1, col: 1 }, "SUM(A1:B1)"),
        Outcome::Committed
    );
    let deps = e.dependencies_of(CellRef { row: 1, col: 1 });
    assert_eq!(deps.len(), 2);
    assert!(deps.contains(&CellRef { row: 0, col: 0 }));
    assert!(deps.contains(&CellRef { row: 0, col: 1 }));
}

#[test]
fn test_longer_cycle_rejected_and_unwound() {
    let mut e = Engine::new(1, 3);
    assert_eq!(e.edit(a1(), "B1"), Outcome::Committed);
    assert_eq!(e.edit(b1(), "C1"), Outcome::Committed);
    assert_eq!(e.edit(c1(), "A1"), Outcome::CycleDetected);
    assert_eq!(e.edit(c1(), "3"), Outcome::Committed);
    assert_eq!(e.value_of(a1()), (3, 0));
}

#[test]
fn test_out_of_bounds_reference_is_cell_error() {
    let mut e = Engine::new(1, 1);
    assert_eq!(e.edit(a1(), "Z99"), Outcome::Committed);
    assert_eq!(e.value_of(a1()), (0, 1));
}

#[test]
fn test_value_of_out_of_bounds() {
    let e = Engine::new(1, 1);
    assert_eq!(e.value_of(CellRef { row: 3, col: 3 }), (0, 1));
}
