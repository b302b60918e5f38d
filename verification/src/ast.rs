//! The formula expression tree and the cell records of the grid.

use vstd::prelude::*;

verus! {

/// A reference to one grid cell by zero-based row and column.
#[derive(Debug, Copy, Clone, PartialEq, Eq, Structural)]
pub struct CellRef {
    pub row: i32,
    pub col: i32,
}

/// The four binary arithmetic operators a formula may use.
#[derive(Clone, Copy, Debug, PartialEq, Eq, Structural)]
pub enum Op {
    Add,
    Sub,
    Mul,
    Div,
}

/// The expression tree of a cell formula.
#[derive(Debug)]
pub enum Formula {
    /// A bare integer value.
    Literal(i32),
    /// The value of another cell.
    Cell(CellRef),
    /// A cell plus a non-negative literal offset, recognised as its own case.
    Inc { base: CellRef, offset: i32 },
    /// A binary arithmetic expression over two sub-formulas.
    Arith { op: Op, left: Box<Formula>, right: Box<Formula> },
    /// An aggregate function over a closed rectangle of cells.
    Range { func: String, start: CellRef, end: CellRef },
    /// A wait request for a literal number of time units.
    SleepLiteral(i32),
    /// A wait request whose duration is read from another cell.
    SleepCell(CellRef),
}

impl Clone for Formula {
    /// Cloning a formula yields an equal expression tree.
    fn clone(&self) -> (res: Self)
        ensures
            res == *self,
        decreases *self,
    {
        match self {
            Formula::Literal(n) => Formula::Literal(*n),
            Formula::Cell(c) => Formula::Cell(*c),
            Formula::Inc { base, offset } => Formula::Inc { base: *base, offset: *offset },
            Formula::Arith { op, left, right } => Formula::Arith {
                op: *op,
                left: Box::new((**left).clone()),
                right: Box::new((**right).clone()),
            },
            Formula::Range { func, start, end } => Formula::Range {
                func: func.clone(),
                start: *start,
                end: *end,
            },
            Formula::SleepLiteral(n) => Formula::SleepLiteral(*n),
            Formula::SleepCell(c) => Formula::SleepCell(*c),
        }
    }
}

/// One grid cell: its computed value, its formula if any, and its error flag.
#[allow(non_camel_case_types)]
pub struct cell {
    /// The computed value of the cell.
    pub val: i32,
    /// The formula assigned to the cell, if any.
    pub formula: Option<Formula>,
    /// Error flag (0 = OK, nonzero = error).
    pub err: i32,
}

impl Clone for cell {
    /// Cloning a cell keeps its value, formula and error flag.
    fn clone(&self) -> (res: Self)
        ensures
            res == *self,
    {
        cell {
            val: self.val,
            formula: match &self.formula {
                Some(f) => Some(f.clone()),
                None => None,
            },
            err: self.err,
        }
    }
}

/// A record of which cell an edit touched last.
#[derive(Copy, Clone)]
pub struct CellUpdate {
    /// Row index of the updated cell.
    pub row: i32,
    /// Column index of the updated cell.
    pub col: i32,
    /// Whether the cell was updated.
    pub is_updated: bool,
}

/// A node of a singly linked list of cell references.
pub struct Node {
    pub cell: CellRef,
    pub next: Option<Box<Node>>,
}

/// The dependency record of one grid cell: the cells whose formulas read it,
/// the cells it reads, and the count of the latter.
///
/// The two lists are kept free of duplicates, so they stand for sets; the
/// mathematical view of each is the set of its entries.
pub struct DAGNode {
    pub in_degree: i32,
    pub dependents: Vec<(i32, i32)>,
    pub dependencies: Vec<(i32, i32)>,
}

/// The cells of the closed rectangle `[start.row..end.row] x [start.col..end.col]`
/// in row-major order; empty when the rectangle is inverted.
pub open spec fn rect_refs(start: CellRef, end: CellRef) -> Seq<CellRef> {
    if start.row > end.row || start.col > end.col {
        Seq::empty()
    } else {
        let w = end.col - start.col + 1;
        let h = end.row - start.row + 1;
        Seq::new(
            (w * h) as nat,
            |k: int| CellRef { row: (start.row + k / w) as i32, col: (start.col + k % w) as i32 },
        )
    }
}

/// The cells a formula reads, in the order the evaluator visits them.
pub open spec fn formula_deps(f: Formula) -> Seq<CellRef>
    decreases f,
{
    match f {
        Formula::Literal(_) => Seq::empty(),
        Formula::Cell(c) => seq![c],
        Formula::Inc { base, .. } => seq![base],
        Formula::Arith { left, right, .. } => formula_deps(*left) + formula_deps(*right),
        Formula::Range { start, end, .. } => rect_refs(start, end),
        Formula::SleepLiteral(_) => Seq::empty(),
        Formula::SleepCell(c) => seq![c],
    }
}

/// Every cell of a rectangle's list lies between the corners.
pub proof fn lemma_rect_bounds(start: CellRef, end: CellRef)
    ensures
        forall|k: int|
            0 <= k < rect_refs(start, end).len() ==> {
                let d = #[trigger] rect_refs(start, end)[k];
                start.row <= d.row <= end.row && start.col <= d.col <= end.col
            },
{
    if start.row <= end.row && start.col <= end.col {
        let w = end.col - start.col + 1;
        let h = end.row - start.row + 1;
        lemma_rect_len(start, end);
        assert forall|k: int| 0 <= k < rect_refs(start, end).len() implies {
            let d = #[trigger] rect_refs(start, end)[k];
            start.row <= d.row <= end.row && start.col <= d.col <= end.col
        } by {
            vstd::arithmetic::div_mod::lemma_fundamental_div_mod(k, w);
            vstd::arithmetic::div_mod::lemma_mod_bound(k, w);
            assert(0 <= k / w <= h - 1) by (nonlinear_arith)
                requires
                    k == w * (k / w) + k % w,
                    0 <= k % w < w,
                    0 <= k,
                    k < w * h,
                    w >= 1,
                    h >= 1,
            ;
        }
    }
}

/// Returns the list of all cell dependencies of a formula: the one cell of a
/// lookup, both sides of an arithmetic expression in order, and every cell of
/// an aggregate rectangle in row-major order.
pub fn get_dependencies_from_formula(formula: &Formula) -> (deps: Vec<CellRef>)
    ensures
        deps@ == formula_deps(*formula),
    decreases *formula,
{
    let mut deps: Vec<CellRef> = Vec::new();
    match formula {
        Formula::Literal(_) => {},
        Formula::Cell(c) => deps.push(*c),
        Formula::Inc { base, .. } => deps.push(*base),
        Formula::Arith { left, right, .. } => {
            let mut l = get_dependencies_from_formula(left);
            let mut r = get_dependencies_from_formula(right);
            deps.append(&mut l);
            deps.append(&mut r);
        },
        Formula::Range { start, end, .. } => {
            if start.row <= end.row && start.col <= end.col {
                let w: i64 = end.col as i64 - start.col as i64 + 1;
                let mut r: i64 = start.row as i64;
                while r <= end.row as i64
                    invariant
                        start.row <= r <= end.row + 1,
                        start.col <= end.col,
                        w == end.col - start.col + 1,
                        deps@ =~= rect_refs(*start, *end).take((r - start.row) * w),
                    decreases end.row - r + 1,
                {
                    let mut c: i64 = start.col as i64;
                    while c <= end.col as i64
                        invariant
                            start.row <= r <= end.row,
                            start.col <= c <= end.col + 1,
                            w == end.col - start.col + 1,
                            deps@ =~= rect_refs(*start, *end).take(
                                (r - start.row) * w + (c - start.col),
                            ),
                        decreases end.col - c + 1,
                    {
                        proof {
                            lemma_rect_index(*start, *end, r as int, c as int);
                        }
                        deps.push(CellRef { row: r as i32, col: c as i32 });
                        c = c + 1;
                    }
                    proof {
                        assert((r - start.row) * w + w == (r + 1 - start.row) * w)
                            by (nonlinear_arith);
                    }
                    r = r + 1;
                }
                proof {
                    lemma_rect_len(*start, *end);
                    let h = end.row - start.row + 1;
                    assert(h * w == w * h) by (nonlinear_arith);
                    assert(deps@ =~= rect_refs(*start, *end));
                }
            }
        },
        Formula::SleepLiteral(_) => {},
        Formula::SleepCell(c) => deps.push(*c),
    }
    deps
}

/// The length of a rectangle's cell list is its width times its height.
pub proof fn lemma_rect_len(start: CellRef, end: CellRef)
    requires
        start.row <= end.row,
        start.col <= end.col,
    ensures
        rect_refs(start, end).len() == (end.col - start.col + 1) * (end.row - start.row + 1),
{
    let w = end.col - start.col + 1;
    let h = end.row - start.row + 1;
    assert(w * h >= 0) by (nonlinear_arith)
        requires
            w >= 1,
            h >= 1,
    ;
}

/// Position `(r - start.row) * w + (c - start.col)` of the rectangle's
/// row-major cell list holds the cell `(r, c)`.
pub proof fn lemma_rect_index(start: CellRef, end: CellRef, r: int, c: int)
    requires
        start.row <= r <= end.row,
        start.col <= c <= end.col,
    ensures
        0 <= (r - start.row) * (end.col - start.col + 1) + (c - start.col) < rect_refs(
            start,
            end,
        ).len(),
        rect_refs(start, end)[(r - start.row) * (end.col - start.col + 1) + (c - start.col)]
            == (CellRef { row: r as i32, col: c as i32 }),
        (r - start.row) * (end.col - start.col + 1) + (c - start.col) + 1 == (r - start.row) * (
        end.col - start.col + 1) + (c + 1 - start.col),
{
    let w = end.col - start.col + 1;
    let h = end.row - start.row + 1;
    let i = r - start.row;
    let j = c - start.col;
    let k = i * w + j;
    lemma_rect_len(start, end);
    assert(0 <= k && k < w * h && k / w == i && k % w == j) by (nonlinear_arith)
        requires
            w >= 1,
            h >= 1,
            0 <= i < h,
            0 <= j < w,
            k == i * w + j,
    ;
}

/// Removes the first node that holds `target` from a linked list of cell
/// references, leaving the rest of the list in order.
pub fn remove_from_list(list: Option<Box<Node>>, target: CellRef) -> (out: Option<Box<Node>>)
    ensures
        list_refs(out) == remove_first(list_refs(list), target),
    decreases list,
{
    match list {
        None => None,
        Some(node) => {
            proof {
                assert((seq![node.cell] + list_refs(node.next)).drop_first() =~= list_refs(
                    node.next,
                ));
            }
            if node.cell.row == target.row && node.cell.col == target.col {
                assert(node.cell == target);
                node.next
            } else {
                let rest = remove_from_list(node.next, target);
                Some(Box::new(Node { cell: node.cell, next: rest }))
            }
        },
    }
}

/// The cell references held by a linked list, front to back.
pub open spec fn list_refs(list: Option<Box<Node>>) -> Seq<CellRef>
    decreases list,
{
    match list {
        None => Seq::empty(),
        Some(node) => seq![node.cell] + list_refs(node.next),
    }
}

/// `s` with the first occurrence of `target` removed, if there is one.
pub open spec fn remove_first(s: Seq<CellRef>, target: CellRef) -> Seq<CellRef>
    decreases s.len(),
{
    if s.len() == 0 {
        s
    } else if s[0] == target {
        s.drop_first()
    } else {
        seq![s[0]] + remove_first(s.drop_first(), target)
    }
}

} // verus!
