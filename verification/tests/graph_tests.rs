use spreadsheet_engine::ast::{cell, remove_from_list, CellRef, DAGNode, Formula, Node};
use spreadsheet_engine::graph::{add_dependency, is_reachable, remove_dependency, EdgeOutcome};
use spreadsheet_engine::recompute::evaluate_cell;

fn initialize_graph(rows: i32, cols: i32) -> Vec<Option<Box<DAGNode>>> {
    let mut graph = Vec::new();
    for _ in 0..(rows * cols) {
        graph.push(Some(Box::new(DAGNode {
            in_degree: 0,
            dependents: Vec::new(),
            dependencies: Vec::new(),
        })));
    }
    graph
}

fn initialize_sheet(rows: i32, cols: i32) -> Vec<Vec<cell>> {
    let mut sheet = Vec::new();
    for _ in 0..rows {
        let mut row = Vec::new();
        for _ in 0..cols {
            row.push(cell {
                val: 0,
                formula: None,
                err: 0,
            });
        }
        sheet.push(row);
    }
    sheet
}

#[test]
fn test_add_dependency_self_cycle() {
    let mut graph = initialize_graph(1, 1);
    let out = add_dependency(&mut graph, 0, 0, 0, 0, 1, 1);
    assert_eq!(out, EdgeOutcome::SelfLoop);
    assert!(graph[0].as_ref().unwrap().dependents.is_empty());
    assert!(graph[0].as_ref().unwrap().dependencies.is_empty());
}

#[test]
fn test_remove_dependency() {
    let mut graph = vec![
        Some(Box::new(DAGNode {
            in_degree: 1,
            dependencies: vec![(0, 1)],
            dependents: Vec::new(),
        })),
        Some(Box::new(DAGNode {
            in_degree: 0,
            dependencies: Vec::new(),
            dependents: vec![(0, 0)],
        })),
    ];
    remove_dependency(&mut graph, 0, 0, 0, 1, 1, 2);
    assert!(graph[0].as_ref().unwrap().dependencies.is_empty());
    assert!(graph[1].as_ref().unwrap().dependents.is_empty());
    assert_eq!(graph[0].as_ref().unwrap().in_degree, 0);
}

#[test]
fn test_is_reachable_true() {
    let graph = vec![
        Some(Box::new(DAGNode {
            in_degree: 0,
            dependencies: Vec::new(),
            dependents: vec![(0, 1)],
        })),
        Some(Box::new(DAGNode {
            in_degree: 0,
            dependencies: Vec::new(),
            dependents: Vec::new(),
        })),
    ];
    let result = is_reachable(&graph, 1, 2, 0, 1);
    assert!(result);
}

#[test]
fn test_is_reachable_false() {
    let graph = vec![
        Some(Box::new(DAGNode {
            in_degree: 0,
            dependencies: Vec::new(),
            dependents: Vec::new(),
        })),
        Some(Box::new(DAGNode {
            in_degree: 0,
            dependencies: Vec::new(),
            dependents: Vec::new(),
        })),
    ];
    assert!(!is_reachable(&graph, 1, 2, 0, 1));
}

#[test]
fn test_cycle_detection_multiple_nodes() {
    let r = 3;
    let c = 3;
    let mut graph = initialize_graph(r, c);

    assert_eq!(add_dependency(&mut graph, 0, 0, 1, 1, r, c), EdgeOutcome::Added);
    assert_eq!(add_dependency(&mut graph, 1, 1, 2, 2, r, c), EdgeOutcome::Added);
    assert_eq!(add_dependency(&mut graph, 2, 2, 0, 0, r, c), EdgeOutcome::Cycle);
}

#[test]
fn test_add_dependency_out_of_bounds_is_no_op() {
    let mut graph = initialize_graph(2, 2);
    let out = add_dependency(&mut graph, 0, 0, 5, 5, 2, 2);
    assert_eq!(out, EdgeOutcome::OutOfBounds);
    assert!(graph[0].as_ref().unwrap().dependencies.is_empty());
}

#[test]
fn test_add_dependency_records_both_sides() {
    let mut graph = initialize_graph(2, 2);
    let out = add_dependency(&mut graph, 0, 0, 1, 1, 2, 2);
    assert_eq!(out, EdgeOutcome::Added);
    assert_eq!(graph[0].as_ref().unwrap().dependencies, vec![(1, 1)]);
    assert_eq!(graph[0].as_ref().unwrap().in_degree, 1);
    assert_eq!(graph[3].as_ref().unwrap().dependents, vec![(0, 0)]);
}

#[test]
fn test_evaluate_cell_simple_dependency() {
    let mut sheet = vec![vec![
        cell {
            val: 0,
            formula: Some(Formula::Literal(3)),
            err: 0,
        },
        cell {
            val: 0,
            formula: Some(Formula::Cell(CellRef { row: 0, col: 0 })),
            err: 0,
        },
    ]];
    let graph = vec![
        Some(Box::new(DAGNode {
            in_degree: 0,
            dependencies: Vec::new(),
            dependents: vec![(0, 1)],
        })),
        Some(Box::new(DAGNode {
            in_degree: 1,
            dependencies: vec![(0, 0)],
            dependents: Vec::new(),
        })),
    ];
    let mut evaluated = vec![false, false];
    evaluate_cell(0, 0, &mut sheet, &graph, &mut evaluated, 1, 2);
    assert_eq!(sheet[0][0].val, 3);
    assert_eq!(sheet[0][1].val, 3);
    assert!(evaluated[0]);
    assert!(evaluated[1]);
}

#[test]
fn test_evaluate_cell_cycle_ignored_due_to_evaluated() {
    let mut sheet = vec![vec![
        cell {
            val: 1,
            formula: Some(Formula::Literal(1)),
            err: 0,
        },
        cell {
            val: 2,
            formula: Some(Formula::Cell(CellRef { row: 0, col: 0 })),
            err: 0,
        },
    ]];
    let graph = vec![
        Some(Box::new(DAGNode {
            in_degree: 0,
            dependencies: Vec::new(),
            dependents: vec![(0, 1)],
        })),
        Some(Box::new(DAGNode {
            in_degree: 1,
            dependencies: vec![(0, 0)],
            dependents: Vec::new(),
        })),
    ];
    let mut evaluated = vec![true, false];
    evaluate_cell(0, 1, &mut sheet, &graph, &mut evaluated, 1, 2);
    assert_eq!(sheet[0][1].val, 1);
}

#[test]
fn test_dependency_graph_multiple_dependents() {
    let mut sheet = vec![vec![
        cell {
            val: 0,
            formula: Some(Formula::Literal(4)),
            err: 0,
        },
        cell {
            val: 0,
            formula: Some(Formula::Cell(CellRef { row: 0, col: 0 })),
            err: 0,
        },
        cell {
            val: 0,
            formula: Some(Formula::Cell(CellRef { row: 0, col: 0 })),
            err: 0,
        },
    ]];
    let graph = vec![
        Some(Box::new(DAGNode {
            in_degree: 0,
            dependencies: Vec::new(),
            dependents: vec![(0, 1), (0, 2)],
        })),
        Some(Box::new(DAGNode {
            in_degree: 1,
            dependencies: vec![(0, 0)],
            dependents: Vec::new(),
        })),
        Some(Box::new(DAGNode {
            in_degree: 1,
            dependencies: vec![(0, 0)],
            dependents: Vec::new(),
        })),
    ];
    let mut evaluated = vec![false; 3];
    evaluate_cell(0, 0, &mut sheet, &graph, &mut evaluated, 1, 3);
    assert_eq!(sheet[0][1].val, 4);
    assert_eq!(sheet[0][2].val, 4);
}

fn create_node(cells: Vec<CellRef>) -> Option<Box<Node>> {
    let mut head = None;
    for cr in cells.into_iter().rev() {
        head = Some(Box::new(Node {
            cell: cr,
            next: head.take(),
        }));
    }
    head
}

fn list_to_vec(list: &Option<Box<Node>>) -> Vec<CellRef> {
    let mut result = Vec::new();
    let mut current = list.as_ref();
    while let Some(node) = current {
        result.push(node.cell);
        current = node.next.as_ref();
    }
    result
}

#[test]
fn test_remove_from_list_head() {
    let list = create_node(vec![
        CellRef { row: 0, col: 0 },
        CellRef { row: 1, col: 1 },
        CellRef { row: 2, col: 2 },
    ]);

    let result = remove_from_list(list, CellRef { row: 0, col: 0 });
    assert_eq!(
        list_to_vec(&result),
        vec![CellRef { row: 1, col: 1 }, CellRef { row: 2, col: 2 }]
    );
}

#[test]
fn test_remove_from_list_middle() {
    let list = create_node(vec![
        CellRef { row: 0, col: 0 },
        CellRef { row: 1, col: 1 },
        CellRef { row: 2, col: 2 },
    ]);

    let result = remove_from_list(list, CellRef { row: 1, col: 1 });
    assert_eq!(
        list_to_vec(&result),
        vec![CellRef { row: 0, col: 0 }, CellRef { row: 2, col: 2 }]
    );
}

#[test]
fn test_evaluate_cell_leaves_unrelated_cells_untouched() {
    let mut sheet = vec![vec![
        cell {
            val: 0,
            formula: Some(Formula::Literal(3)),
            err: 0,
        },
        cell {
            val: 5,
            formula: None,
            err: 1,
        },
    ]];
    let graph = initialize_graph(1, 2);
    let mut evaluated = vec![false, false];
    evaluate_cell(0, 0, &mut sheet, &graph, &mut evaluated, 1, 2);
    assert_eq!(sheet[0][0].val, 3);
    assert!(evaluated[0]);
    assert_eq!(sheet[0][1].val, 5);
    assert_eq!(sheet[0][1].err, 1);
    assert!(!evaluated[1]);
}

#[test]
fn test_evaluate_cell_reaches_dependencies_of_dependents() {
    let mut sheet = vec![vec![
        cell {
            val: 0,
            formula: Some(Formula::Literal(2)),
            err: 0,
        },
        cell {
            val: 0,
            formula: Some(Formula::Arith {
                op: spreadsheet_engine::ast::Op::Add,
                left: Box::new(Formula::Cell(CellRef { row: 0, col: 0 })),
                right: Box::new(Formula::Cell(CellRef { row: 0, col: 2 })),
            }),
            err: 0,
        },
        cell {
            val: 0,
            formula: Some(Formula::Literal(4)),
            err: 0,
        },
    ]];
    let mut graph = initialize_graph(1, 3);
    assert_eq!(add_dependency(&mut graph, 0, 1, 0, 0, 1, 3), EdgeOutcome::Added);
    assert_eq!(add_dependency(&mut graph, 0, 1, 0, 2, 1, 3), EdgeOutcome::Added);
    let mut evaluated = vec![false, false, false];
    evaluate_cell(0, 0, &mut sheet, &graph, &mut evaluated, 1, 3);
    assert_eq!(sheet[0][1].val, 6);
    assert!(evaluated[0] && evaluated[1] && evaluated[2]);
}
