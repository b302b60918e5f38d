//! The edit orchestrator: one transaction per cell edit -- validate, parse,
//! cycle-check, commit or reject, then recompute -- over a grid store and
//! dependency graph that it owns.

use vstd::prelude::*;

use crate::ast::cell;
use crate::ast::formula_deps;
use crate::ast::CellRef;
use crate::ast::DAGNode;
use crate::ast::Formula;
use crate::eval::in_bounds;
use crate::eval::rect_sheet;
use crate::eval::spec_cols;
use crate::eval::spec_eval;
use crate::graph::acyclic;
use crate::graph::dependencies_at;
use crate::graph::dependents_at;
use crate::graph::idx_of;
use crate::graph::in_degree_at;
use crate::graph::is_path;
use crate::graph::spec_edge;
use crate::graph::spec_reachable;
use crate::recompute::cell_at;
use crate::recompute::deps_covered;
use crate::recompute::formula_at;
use crate::recompute::graph_deps_in_bounds;
use crate::recompute::graph_mirrored;
use crate::recompute::grid_idx;

verus! {

/// How one edit transaction ended.
#[derive(Clone, Copy, Debug, PartialEq, Eq, Structural)]
pub enum Outcome {
    /// The new formula was committed and the grid recomputed.
    Committed,
    /// The text does not match the formula grammar; nothing changed.
    ParseFailed,
    /// The target is outside the grid, or the formula holds an inverted or
    /// self-referential range; nothing changed.
    InvalidRange,
    /// The new dependencies would close a cycle; nothing changed.
    CycleDetected,
}

/// The cells an optional formula depends on, as in-bounds `(row, col)`
/// pairs.
pub open spec fn dep_pair_set(of: Option<Formula>, rr: int, cc: int) -> Set<(i32, i32)> {
    match of {
        None => Set::empty(),
        Some(f) => Set::new(
            |p: (i32, i32)|
                0 <= p.0 < rr && 0 <= p.1 < cc && formula_deps(f).contains(
                    CellRef { row: p.0, col: p.1 },
                ),
        ),
    }
}

/// Every cell's value and error flag agree with evaluating its formula
/// against the sheet as it stands; a cell without a formula carries no
/// error.
pub open spec fn sheet_consistent(s: Seq<Vec<cell>>, cc: int) -> bool {
    forall|i: int|
        0 <= i < s.len() * cc ==> match #[trigger] formula_at(s, i, cc) {
            Some(f) => cell_at(s, i, cc).val == spec_eval(f, s).0 && cell_at(s, i, cc).err == (
            if spec_eval(f, s).1 {
                1int
            } else {
                0int
            }),
            None => cell_at(s, i, cc).err == 0,
        }
}

/// Structural well-formedness of a dependency graph store: a filled node
/// per cell, duplicate-free in-bounds adjacency lists, matching in-degrees,
/// and the two lists mirroring each other.
pub open spec fn graph_struct_wf(g: Seq<Option<Box<DAGNode>>>, rr: int, cc: int) -> bool {
    &&& g.len() == rr * cc
    &&& forall|i: int| 0 <= i < g.len() ==> (#[trigger] g[i]) is Some
    &&& forall|i: int| 0 <= i < g.len() ==> (#[trigger] dependencies_at(g, i)).no_duplicates()
    &&& forall|i: int| 0 <= i < g.len() ==> (#[trigger] dependents_at(g, i)).no_duplicates()
    &&& graph_deps_in_bounds(g, rr, cc)
    &&& forall|i: int, k: int|
        0 <= i < g.len() && 0 <= k < dependents_at(g, i).len() ==> {
            let p = #[trigger] dependents_at(g, i)[k];
            0 <= p.0 < rr && 0 <= p.1 < cc
        }
    &&& forall|i: int|
        0 <= i < g.len() ==> in_degree_at(g, i) == (#[trigger] dependencies_at(g, i)).len()
    &&& graph_mirrored(g, rr, cc)
    &&& forall|r: int, c: int, p: (i32, i32)|
        0 <= r < rr && 0 <= c < cc && #[trigger] dependents_at(g, grid_idx(r, c, cc)).contains(
            p,
        ) ==> dependencies_at(g, idx_of(p, cc)).contains((r as i32, c as i32))
}

/// The in-bounds cells of a dependency list, as `(row, col)` pairs.
pub open spec fn pair_set_of(ds: Seq<CellRef>, rr: int, cc: int) -> Set<(i32, i32)> {
    Set::new(
        |p: (i32, i32)|
            0 <= p.0 < rr && 0 <= p.1 < cc && ds.contains(CellRef { row: p.0, col: p.1 }),
    )
}

/// The formula evaluation engine: a fixed-size grid of cells and the
/// dependency graph that mirrors the committed formulas.
pub struct Engine {
    rows: i32,
    cols: i32,
    sheet: Vec<Vec<cell>>,
    graph: Vec<Option<Box<DAGNode>>>,
}

impl Engine {
    /// The number of rows of the grid.
    pub closed spec fn spec_rows(&self) -> int {
        self.rows as int
    }

    /// The number of columns of the grid.
    pub closed spec fn spec_cols(&self) -> int {
        self.cols as int
    }

    /// The grid contents.
    pub closed spec fn spec_sheet(&self) -> Seq<Vec<cell>> {
        self.sheet@
    }

    /// The dependency graph.
    pub closed spec fn spec_graph(&self) -> Seq<Option<Box<DAGNode>>> {
        self.graph@
    }

    /// Structural well-formedness of the graph store: a filled node per
    /// cell, duplicate-free in-bounds adjacency lists, matching in-degrees,
    /// and the two lists mirroring each other.
    pub open spec fn graph_wf(&self) -> bool {
        graph_struct_wf(self.spec_graph(), self.spec_rows(), self.spec_cols())
    }

    /// The graph lists exactly the in-bounds dependencies of each cell's
    /// committed formula.
    pub open spec fn deps_exact(&self) -> bool {
        let g = self.spec_graph();
        let cc = self.spec_cols();
        forall|i: int|
            0 <= i < g.len() ==> (#[trigger] dependencies_at(g, i)).to_set() == dep_pair_set(
                formula_at(self.spec_sheet(), i, cc),
                self.spec_rows(),
                cc,
            )
    }

    /// The engine invariant: a well-shaped grid, a well-formed graph that
    /// mirrors the formulas exactly, no dependency cycles, and a sheet
    /// whose values agree with its formulas.
    pub open spec fn wf(&self) -> bool {
        &&& 1 <= self.spec_rows()
        &&& 1 <= self.spec_cols()
        &&& self.spec_rows() * self.spec_cols() <= 0x7fff_ffff
        &&& self.spec_sheet().len() == self.spec_rows()
        &&& spec_cols(self.spec_sheet()) == self.spec_cols()
        &&& rect_sheet(self.spec_sheet())
        &&& self.graph_wf()
        &&& self.deps_exact()
        &&& acyclic(self.spec_graph(), self.spec_cols())
        &&& sheet_consistent(self.spec_sheet(), self.spec_cols())
    }

    /// Builds an engine over an empty `rows x cols` grid: every cell holds
    /// value 0 with no formula and no error, and the graph has no edges.
    pub fn new(rows: i32, cols: i32) -> (e: Engine)
        requires
            1 <= rows,
            1 <= cols,
            rows as int * cols as int <= 0x7fff_ffff,
        ensures
            e.wf(),
            e.spec_rows() == rows as int,
            e.spec_cols() == cols as int,
            forall|i: int|
                0 <= i < rows as int * cols as int ==> {
                    &&& (#[trigger] cell_at(e.spec_sheet(), i, cols as int)).val == 0
                    &&& cell_at(e.spec_sheet(), i, cols as int).err == 0
                    &&& formula_at(e.spec_sheet(), i, cols as int) is None
                },
            forall|i: int|
                0 <= i < rows as int * cols as int ==> dependencies_at(
                    e.spec_graph(),
                    i,
                ).len() == 0 && dependents_at(e.spec_graph(), i).len() == 0,
    {
        let mut sheet: Vec<Vec<cell>> = Vec::new();
        let mut r: usize = 0;
        while r < rows as usize
            invariant
                1 <= rows,
                1 <= cols,
                0 <= r <= rows as int,
                sheet@.len() == r,
                forall|i: int|
                    0 <= i < r ==> (#[trigger] sheet@[i])@.len() == cols as int,
                forall|i: int, j: int|
                    0 <= i < r && 0 <= j < cols as int ==> {
                        &&& (#[trigger] sheet@[i]@[j]).val == 0
                        &&& sheet@[i]@[j].err == 0
                        &&& sheet@[i]@[j].formula is None
                    },
            decreases rows as int - r,
        {
            let mut rowv: Vec<cell> = Vec::new();
            let mut c: usize = 0;
            while c < cols as usize
                invariant
                    1 <= cols,
                    0 <= c <= cols as int,
                    rowv@.len() == c,
                    forall|j: int|
                        0 <= j < c ==> (#[trigger] rowv@[j]).val == 0 && rowv@[j].err == 0
                            && rowv@[j].formula is None,
                decreases cols as int - c,
            {
                rowv.push(cell { val: 0, formula: None, err: 0 });
                c = c + 1;
            }
            sheet.push(rowv);
            r = r + 1;
        }
        let total: usize = (rows as usize) * (cols as usize);
        let mut graph: Vec<Option<Box<DAGNode>>> = Vec::new();
        let mut i: usize = 0;
        while i < total
            invariant
                0 <= i <= total,
                graph@.len() == i,
                total == rows as int * cols as int,
                forall|j: int|
                    0 <= j < i ==> ((#[trigger] graph@[j]) matches Some(n) && n.in_degree == 0
                        && n.dependents@.len() == 0 && n.dependencies@.len() == 0),
            decreases total - i,
        {
            graph.push(
                Some(
                    Box::new(
                        DAGNode { in_degree: 0, dependents: Vec::new(), dependencies: Vec::new() },
                    ),
                ),
            );
            i = i + 1;
        }
        let e = Engine { rows, cols, sheet, graph };
        proof {
            let cc = cols as int;
            let rr = rows as int;
            assert forall|i2: int| 0 <= i2 < rr * cc implies {
                &&& (#[trigger] cell_at(e.spec_sheet(), i2, cc)).val == 0
                &&& cell_at(e.spec_sheet(), i2, cc).err == 0
                &&& formula_at(e.spec_sheet(), i2, cc) is None
            } by {
                crate::recompute::lemma_flat(i2, rr, cc);
            }
            assert forall|i2: int|
                0 <= i2 < e.spec_graph().len() implies (#[trigger] dependencies_at(
                e.spec_graph(),
                i2,
            )).to_set() == dep_pair_set(formula_at(e.spec_sheet(), i2, cc), rr, cc) by {
                crate::recompute::lemma_flat(i2, rr, cc);
                assert(dependencies_at(e.spec_graph(), i2).to_set() =~= Set::<(i32, i32)>::empty());
                assert(dep_pair_set(None::<Formula>, rr, cc) =~= Set::<(i32, i32)>::empty());
            }
            assert forall|r2: int, c2: int| 0 <= r2 < rr && 0 <= c2 < cc implies dependencies_at(
                e.spec_graph(),
                grid_idx(r2, c2, cc),
            ).len() == 0 && dependents_at(e.spec_graph(), grid_idx(r2, c2, cc)).len() == 0 by {
                assert(0 <= r2 * cc + c2 < rr * cc) by (nonlinear_arith)
                    requires
                        0 <= r2 < rr,
                        0 <= c2 < cc,
                ;
            }
            assert forall|s: Seq<int>|
                !(#[trigger] is_path(e.spec_graph(), cc, s) && s.len() >= 2 && s.first()
                    == s.last()) by {
                if is_path(e.spec_graph(), cc, s) && s.len() >= 2 {
                    assert(spec_edge(e.spec_graph(), cc, s[0], s[1]));
                    let p = choose|p: (i32, i32)|
                        dependents_at(e.spec_graph(), s[0]).contains(p) && idx_of(p, cc) == s[1];
                    assert(false);
                }
            }
            assert forall|i2: int|
                0 <= i2 < e.spec_sheet().len() * cc implies match #[trigger] formula_at(
                e.spec_sheet(),
                i2,
                cc,
            ) {
                Some(f) => cell_at(e.spec_sheet(), i2, cc).val == spec_eval(
                    f,
                    e.spec_sheet(),
                ).0 && cell_at(e.spec_sheet(), i2, cc).err == (if spec_eval(f, e.spec_sheet()).1 {
                    1int
                } else {
                    0int
                }),
                None => cell_at(e.spec_sheet(), i2, cc).err == 0,
            } by {
                crate::recompute::lemma_flat(i2, rr, cc);
            }
        }
        e
    }

    /// One edit transaction: validates the target and range, parses the
    /// text, rejects an edit whose new dependencies could already be reached
    /// from the target -- which would close a cycle -- and otherwise commits
    /// the formula, rewires the graph, and recomputes the grid in dependency
    /// order.
    ///
    /// A rejected edit leaves the engine exactly as it was.  The cycle check
    /// runs against the unmodified graph: removing the target's old edges
    /// first, as the transaction protocol describes, accepts exactly the
    /// same edits, because those edges all point into the target and cannot
    /// lie on any path out of it.
    pub fn edit(&mut self, target: CellRef, text: &str) -> (out: Outcome)
        requires
            old(self).wf(),
        ensures
            final(self).wf(),
            final(self).spec_rows() == old(self).spec_rows(),
            final(self).spec_cols() == old(self).spec_cols(),
            ({
                let rr = old(self).spec_rows();
                let cc = old(self).spec_cols();
                let ok_target = in_bounds(target, rr, cc);
                let range_bad = crate::parser::spec_check_invalid_range(
                    text@,
                    target.row as int,
                    target.col as int,
                ) == 1;
                let parses = crate::parser::spec_parse_ok(text@);
                let ti = grid_idx(target.row as int, target.col as int, cc);
                &&& (out == Outcome::InvalidRange <==> !ok_target || range_bad)
                &&& (out == Outcome::ParseFailed <==> ok_target && !range_bad && !parses)
                &&& ((out == Outcome::CycleDetected || out == Outcome::Committed) <==> ok_target
                    && !range_bad && parses)
                &&& out != Outcome::Committed ==> *final(self) == *old(self)
                &&& (out == Outcome::CycleDetected || out == Outcome::Committed)
                    ==> exists|f: Formula|
                    {
                        &&& #[trigger] crate::parser::spec_parse_result(text@, f)
                        &&& (out == Outcome::Committed <==> !spec_would_cycle(
                            old(self).spec_graph(),
                            rr,
                            cc,
                            ti,
                            formula_deps(f),
                        ))
                        &&& out == Outcome::Committed ==> {
                            &&& formula_at(final(self).spec_sheet(), ti, cc) == Some(f)
                            &&& forall|j: int|
                                0 <= j < rr * cc && j != ti ==> #[trigger] formula_at(
                                    final(self).spec_sheet(),
                                    j,
                                    cc,
                                ) == formula_at(old(self).spec_sheet(), j, cc)
                            &&& forall|j: int|
                                0 <= j < rr * cc && formula_at(final(self).spec_sheet(), j, cc)
                                    is None ==> #[trigger] cell_at(
                                    final(self).spec_sheet(),
                                    j,
                                    cc,
                                ).val == cell_at(old(self).spec_sheet(), j, cc).val
                        }
                    }
            }),
    {
        let ghost rr = self.spec_rows();
        let ghost cc = self.spec_cols();
        if target.row < 0 || target.row >= self.rows || target.col < 0 || target.col
            >= self.cols {
            return Outcome::InvalidRange;
        }
        if crate::parser::check_invalid_range(text, target.row, target.col) != 0 {
            return Outcome::InvalidRange;
        }
        let new_ast = match crate::parser::parse_formula(text) {
            Ok(f) => f,
            Err(()) => {
                return Outcome::ParseFailed;
            },
        };
        let new_deps = crate::ast::get_dependencies_from_formula(&new_ast);
        proof {
            crate::graph::lemma_idx_in_range((target.row, target.col), rr, cc);
        }
        let ghost ti = grid_idx(target.row as int, target.col as int, cc);
        let t_idx: usize = (target.row as usize) * (self.cols as usize) + (target.col as usize);
        let nd: usize = new_deps.len();
        let mut k: usize = 0;
        let mut cyc = false;
        while k < nd
            invariant
                0 <= k <= nd,
                nd == new_deps@.len(),
                self.wf(),
                rr == self.spec_rows(),
                cc == self.spec_cols(),
                in_bounds(target, rr, cc),
                ti == grid_idx(target.row as int, target.col as int, cc),
                0 <= ti < rr * cc,
                t_idx as int == ti,
                cyc == exists|m: int|
                    0 <= m < k && in_bounds(#[trigger] new_deps@[m], rr, cc) && spec_reachable(
                        self.spec_graph(),
                        cc,
                        ti,
                        idx_of((new_deps@[m].row, new_deps@[m].col), cc),
                    ),
            decreases nd - k,
        {
            let d = new_deps[k];
            if d.row >= 0 && d.row < self.rows && d.col >= 0 && d.col < self.cols {
                proof {
                    crate::graph::lemma_idx_in_range((d.row, d.col), rr, cc);
                }
                let d_idx: usize = (d.row as usize) * (self.cols as usize) + (d.col as usize);
                if crate::graph::is_reachable(&self.graph, self.rows, self.cols, t_idx, d_idx) {
                    proof {
                        assert(in_bounds(new_deps@[k as int], rr, cc));
                    }
                    cyc = true;
                }
            }
            k = k + 1;
        }
        if cyc {
            proof {
                assert(spec_would_cycle(self.spec_graph(), rr, cc, ti, new_deps@));
            }
            return Outcome::CycleDetected;
        }
        proof {
            assert(!spec_would_cycle(self.spec_graph(), rr, cc, ti, new_deps@));
        }
        let ghost g0 = self.spec_graph();
        let ghost s0 = self.spec_sheet();
        let old_deps: Vec<CellRef> = match &self.sheet[target.row as usize][target.col
            as usize].formula {
            Some(f) => crate::ast::get_dependencies_from_formula(f),
            None => Vec::new(),
        };
        proof {
            assert(formula_at(s0, ti, cc) == s0[target.row as int]@[target.col as int].formula)
                by {
                crate::recompute::lemma_flat_inverse(target.row as int, target.col as int, cc);
            }
            match formula_at(s0, ti, cc) {
                Some(f) => {
                    assert(dependencies_at(g0, ti).to_set() == dep_pair_set(Some(f), rr, cc));
                    assert(dep_pair_set(Some(f), rr, cc) =~= pair_set_of(old_deps@, rr, cc));
                },
                None => {
                    assert(dependencies_at(g0, ti).to_set() =~= Set::<(i32, i32)>::empty())
                        by {
                        assert(dependencies_at(g0, ti).to_set() == dep_pair_set(
                            None::<Formula>,
                            rr,
                            cc,
                        ));
                    }
                },
            }
            assert(!dependencies_at(g0, ti).to_set().contains((target.row, target.col))) by {
                if dependencies_at(g0, ti).contains((target.row, target.col)) {
                    assert(dependencies_at(g0, grid_idx(target.row as int, target.col as int,
                        cc)).contains((target.row, target.col)));
                    assert(dependents_at(g0, idx_of((target.row, target.col), cc)).contains(
                        (target.row, target.col),
                    ));
                    assert(spec_edge(g0, cc, ti, ti));
                    let s: Seq<int> = seq![ti, ti];
                    assert(is_path(g0, cc, s));
                    assert(false);
                }
            }
        }
        unlink_edges(&mut self.graph, target, &old_deps, self.rows, self.cols);
        proof {
            crate::graph::lemma_acyclic_mono(self.spec_graph(), g0, cc);
        }
        link_edges(&mut self.graph, target, &new_deps, self.rows, self.cols, Ghost(g0));
        let ghost the_ast = new_ast;
        let rowv = &mut self.sheet[target.row as usize];
        let cl = &mut rowv[target.col as usize];
        cl.formula = Some(new_ast);
        proof {
            crate::recompute::lemma_flat_inverse(target.row as int, target.col as int, cc);
            assert(cell_at(self.spec_sheet(), ti, cc) == self.spec_sheet()[target.row as int]@[
                target.col as int]);
            assert(cell_at(s0, ti, cc) == s0[target.row as int]@[target.col as int]);
            assert(self.spec_sheet() =~= s0.update(ti / cc, self.spec_sheet()[ti / cc]));
            assert(self.spec_sheet()[ti / cc]@ =~= s0[ti / cc]@.update(
                ti % cc,
                self.spec_sheet()[ti / cc]@[ti % cc],
            ));
            lemma_formula_write(s0, self.spec_sheet(), rr, cc, ti);
            assert(formula_at(self.spec_sheet(), ti, cc) == Some(the_ast));
        }
        let total: usize = (self.rows as usize) * (self.cols as usize);
        let mut evaluated: Vec<bool> = Vec::new();
        let mut i: usize = 0;
        while i < total
            invariant
                0 <= i <= total,
                evaluated@.len() == i,
                forall|j: int| 0 <= j < i ==> !evaluated@[j],
            decreases total - i,
        {
            evaluated.push(false);
            i = i + 1;
        }
        let ghost s1 = self.spec_sheet();
        let ghost g1 = self.spec_graph();
        let ghost ev0 = evaluated@;
        proof {
            assert(deps_covered(s1, g1, rr, cc)) by {
                assert forall|j: int|
                    0 <= j < g1.len() implies match #[trigger] formula_at(s1, j, cc) {
                    Some(f) => forall|dd: CellRef|
                        formula_deps(f).contains(dd) && in_bounds(dd, rr, cc)
                            ==> dependencies_at(g1, j).contains((dd.row, dd.col)),
                    None => true,
                } by {
                    match formula_at(s1, j, cc) {
                        Some(f) => {
                            assert forall|dd: CellRef|
                                formula_deps(f).contains(dd) && in_bounds(dd, rr, cc)
                                    implies dependencies_at(g1, j).contains(
                                (dd.row, dd.col),
                            ) by {
                                if j == ti {
                                    assert(formula_at(s1, ti, cc) == Some(the_ast));
                                    assert(f == the_ast);
                                    assert(formula_deps(the_ast) == new_deps@);
                                    assert(new_deps@.contains(dd));
                                    assert(dd == (CellRef { row: dd.row, col: dd.col }));
                                    assert(pair_set_of(new_deps@, rr, cc).contains(
                                        (dd.row, dd.col),
                                    ));
                                    assert(dependencies_at(g1, ti).to_set() =~= pair_set_of(
                                        new_deps@,
                                        rr,
                                        cc,
                                    ));
                                } else {
                                    assert(formula_at(s1, j, cc) == formula_at(s0, j, cc));
                                    assert(dependencies_at(g1, j) == dependencies_at(g0, j));
                                    assert(dep_pair_set(Some(f), rr, cc).contains(
                                        (dd.row, dd.col),
                                    ));
                                }
                            }
                        },
                        None => {},
                    }
                }
            }
        }
        proof {
            assert(formula_at(s1, ti, cc) == Some(the_ast));
        }
        crate::recompute::evaluate_cell(
            target.row,
            target.col,
            &mut self.sheet,
            &self.graph,
            &mut evaluated,
            self.rows,
            self.cols,
        );
        proof {
            lemma_after_commit(
                s0,
                s1,
                self.spec_sheet(),
                self.spec_graph(),
                ev0,
                evaluated@,
                rr,
                cc,
                ti,
            );
        }
        Outcome::Committed
    }

    /// Reads a cell: its value and its error flag, or `(0, 1)` for a
    /// reference outside the grid.
    pub fn value_of(&self, r: CellRef) -> (out: (i32, i32))
        requires
            self.wf(),
        ensures
            in_bounds(r, self.spec_rows(), self.spec_cols()) ==> out == (
                cell_at(
                    self.spec_sheet(),
                    grid_idx(r.row as int, r.col as int, self.spec_cols()),
                    self.spec_cols(),
                ).val,
                cell_at(
                    self.spec_sheet(),
                    grid_idx(r.row as int, r.col as int, self.spec_cols()),
                    self.spec_cols(),
                ).err,
            ),
            !in_bounds(r, self.spec_rows(), self.spec_cols()) ==> out == (0i32, 1i32),
    {
        if r.row < 0 || r.row >= self.rows || r.col < 0 || r.col >= self.cols {
            return (0, 1);
        }
        proof {
            crate::recompute::lemma_flat_inverse(r.row as int, r.col as int, self.spec_cols());
        }
        let c = &self.sheet[r.row as usize][r.col as usize];
        (c.val, c.err)
    }

    /// Lists the cells the given cell depends on; empty for a reference
    /// outside the grid.
    pub fn dependencies_of(&self, r: CellRef) -> (out: Vec<CellRef>)
        requires
            self.wf(),
        ensures
            in_bounds(r, self.spec_rows(), self.spec_cols()) ==> out@
                == dependencies_at(
                self.spec_graph(),
                grid_idx(r.row as int, r.col as int, self.spec_cols()),
            ).map_values(|p: (i32, i32)| CellRef { row: p.0, col: p.1 }),
            !in_bounds(r, self.spec_rows(), self.spec_cols()) ==> out@ == Seq::<CellRef>::empty(),
    {
        let mut out: Vec<CellRef> = Vec::new();
        if r.row < 0 || r.row >= self.rows || r.col < 0 || r.col >= self.cols {
            return out;
        }
        proof {
            crate::graph::lemma_idx_in_range((r.row, r.col), self.spec_rows(), self.spec_cols());
        }
        let idx: usize = (r.row as usize) * (self.cols as usize) + (r.col as usize);
        match &self.graph[idx] {
            Some(dag) => {
                let n: usize = dag.dependencies.len();
                let mut k: usize = 0;
                while k < n
                    invariant
                        0 <= k <= n,
                        n == dag.dependencies@.len(),
                        out@ =~= dag.dependencies@.take(k as int).map_values(
                            |p: (i32, i32)| CellRef { row: p.0, col: p.1 },
                        ),
                    decreases n - k,
                {
                    let p = dag.dependencies[k];
                    out.push(CellRef { row: p.0, col: p.1 });
                    proof {
                        assert(dag.dependencies@.take(k + 1).drop_last() =~= dag.dependencies@.take(
                            k as int,
                        ));
                        assert(dag.dependencies@.take(k + 1) =~= dag.dependencies@.take(
                            k as int,
                        ).push(dag.dependencies@[k as int]));
                    }
                    k = k + 1;
                }
                proof {
                    assert(dag.dependencies@.take(n as int) =~= dag.dependencies@);
                }
            },
            None => {
                proof {
                    assert(false);
                }
            },
        }
        out
    }

    /// Lists the cells that depend on the given cell; empty for a reference
    /// outside the grid.
    pub fn dependents_of(&self, r: CellRef) -> (out: Vec<CellRef>)
        requires
            self.wf(),
        ensures
            in_bounds(r, self.spec_rows(), self.spec_cols()) ==> out@
                == dependents_at(
                self.spec_graph(),
                grid_idx(r.row as int, r.col as int, self.spec_cols()),
            ).map_values(|p: (i32, i32)| CellRef { row: p.0, col: p.1 }),
            !in_bounds(r, self.spec_rows(), self.spec_cols()) ==> out@ == Seq::<CellRef>::empty(),
    {
        let mut out: Vec<CellRef> = Vec::new();
        if r.row < 0 || r.row >= self.rows || r.col < 0 || r.col >= self.cols {
            return out;
        }
        proof {
            crate::graph::lemma_idx_in_range((r.row, r.col), self.spec_rows(), self.spec_cols());
        }
        let idx: usize = (r.row as usize) * (self.cols as usize) + (r.col as usize);
        match &self.graph[idx] {
            Some(dag) => {
                let n: usize = dag.dependents.len();
                let mut k: usize = 0;
                while k < n
                    invariant
                        0 <= k <= n,
                        n == dag.dependents@.len(),
                        out@ =~= dag.dependents@.take(k as int).map_values(
                            |p: (i32, i32)| CellRef { row: p.0, col: p.1 },
                        ),
                    decreases n - k,
                {
                    let p = dag.dependents[k];
                    out.push(CellRef { row: p.0, col: p.1 });
                    proof {
                        assert(dag.dependents@.take(k + 1) =~= dag.dependents@.take(
                            k as int,
                        ).push(dag.dependents@[k as int]));
                    }
                    k = k + 1;
                }
                proof {
                    assert(dag.dependents@.take(n as int) =~= dag.dependents@);
                }
            },
            None => {
                proof {
                    assert(false);
                }
            },
        }
        out
    }
}

/// Committing these dependencies for the target would close a cycle: some
/// in-bounds dependency can already be reached from the target.
pub open spec fn spec_would_cycle(
    g: Seq<Option<Box<DAGNode>>>,
    rr: int,
    cc: int,
    ti: int,
    ds: Seq<CellRef>,
) -> bool {
    exists|m: int|
        0 <= m < ds.len() && in_bounds(#[trigger] ds[m], rr, cc) && spec_reachable(
            g,
            cc,
            ti,
            idx_of((ds[m].row, ds[m].col), cc),
        )
}

/// Writing one cell's formula leaves the sheet's shape and every other cell
/// untouched, and keeps the target's value.
proof fn lemma_formula_write(s0: Seq<Vec<cell>>, s1: Seq<Vec<cell>>, rr: int, cc: int, ti: int)
    requires
        1 <= cc <= 0x7fff_ffff,
        1 <= rr <= 0x7fff_ffff,
        0 <= ti < rr * cc,
        s0.len() == rr,
        spec_cols(s0) == cc,
        rect_sheet(s0),
        s1.len() == s0.len(),
        s1 =~= s0.update(ti / cc, s1[ti / cc]),
        s1[ti / cc]@ =~= s0[ti / cc]@.update(ti % cc, s1[ti / cc]@[ti % cc]),
        cell_at(s1, ti, cc).val == cell_at(s0, ti, cc).val,
        cell_at(s1, ti, cc).err == cell_at(s0, ti, cc).err,
    ensures
        spec_cols(s1) == cc,
        rect_sheet(s1),
        forall|j: int|
            0 <= j < rr * cc && j != ti ==> #[trigger] cell_at(s1, j, cc) == cell_at(s0, j, cc),
        forall|j: int|
            0 <= j < rr * cc && j != ti ==> #[trigger] formula_at(s1, j, cc) == formula_at(
                s0,
                j,
                cc,
            ),
{
    crate::recompute::lemma_flat(ti, rr, cc);
    let wr = ti / cc;
    let wc = ti % cc;
    assert(spec_cols(s1) == spec_cols(s0)) by {
        if wr == 0 {
            assert(s1[0]@.len() == s0[0]@.len());
        }
    }
    assert forall|j: int|
        0 <= j < rr * cc && j != ti implies #[trigger] cell_at(s1, j, cc) == cell_at(
        s0,
        j,
        cc,
    ) by {
        crate::recompute::lemma_flat(j, rr, cc);
        if j / cc == wr && j % cc == wc {
            assert(grid_idx(j / cc, j % cc, cc) == j && grid_idx(wr, wc, cc) == ti);
            assert(false);
        }
    }
    assert forall|j: int|
        0 <= j < rr * cc && j != ti implies #[trigger] formula_at(s1, j, cc) == formula_at(
        s0,
        j,
        cc,
    ) by {
        assert(cell_at(s1, j, cc) == cell_at(s0, j, cc));
    }
}

/// After the commit's recomputation, the sheet is consistent, every formula
/// stands as committed, and formula-less cells keep their values.  Cells the
/// recomputation did not reach keep their old values, which still agree with
/// their formulas: none of their dependencies was touched.
proof fn lemma_after_commit(
    s0: Seq<Vec<cell>>,
    s1: Seq<Vec<cell>>,
    s2: Seq<Vec<cell>>,
    g1: Seq<Option<Box<DAGNode>>>,
    ev0: Seq<bool>,
    ev: Seq<bool>,
    rr: int,
    cc: int,
    ti: int,
)
    requires
        1 <= cc <= 0x7fff_ffff,
        1 <= rr <= 0x7fff_ffff,
        0 <= ti < rr * cc,
        g1.len() == rr * cc,
        s0.len() == rr,
        spec_cols(s0) == cc,
        rect_sheet(s0),
        sheet_consistent(s0, cc),
        s1.len() == rr,
        spec_cols(s1) == cc,
        crate::recompute::recompute_inv(s1, s2, g1, ev0, ev, cc),
        forall|i: int| 0 <= i < ev0.len() ==> !ev0[i],
        ev0.len() == g1.len(),
        ev.len() == g1.len(),
        forall|j: int|
            0 <= j < g1.len() && ev[j] && !ev0[j] ==> #[trigger] crate::recompute::affected(
                g1,
                cc,
                ev0,
                ti,
                j,
            ),
        forall|j: int|
            #[trigger] crate::recompute::affected(g1, cc, ev0, ti, j) ==> 0 <= j < g1.len()
                && ev[j],
        deps_covered(s1, g1, rr, cc),
        graph_mirrored(g1, rr, cc),
        graph_deps_in_bounds(g1, rr, cc),
        formula_at(s1, ti, cc) is Some,
        forall|j: int|
            0 <= j < rr * cc && j != ti ==> #[trigger] cell_at(s1, j, cc) == cell_at(s0, j, cc),
    ensures
        sheet_consistent(s2, cc),
        s2.len() == rr,
        spec_cols(s2) == cc,
        rect_sheet(s2),
        forall|j: int|
            0 <= j < rr * cc ==> #[trigger] formula_at(s2, j, cc) == formula_at(s1, j, cc),
        forall|j: int|
            0 <= j < rr * cc && formula_at(s2, j, cc) is None ==> #[trigger] cell_at(
                s2,
                j,
                cc,
            ).val == cell_at(s0, j, cc).val,
{
    crate::recompute::lemma_affected_self(g1, cc, ev0, ti);
    assert(ev[ti]);
    assert forall|j: int|
        0 <= j < rr * cc && !ev[j] implies #[trigger] cell_at(s2, j, cc) == cell_at(
        s0,
        j,
        cc,
    ) && formula_at(s2, j, cc) == formula_at(s0, j, cc) by {
        assert(cell_at(s2, j, cc) == cell_at(s1, j, cc));
        assert(j != ti);
        assert(cell_at(s1, j, cc) == cell_at(s0, j, cc));
        assert(formula_at(s2, j, cc) == formula_at(s1, j, cc));
    }
    assert forall|i: int|
        0 <= i < s2.len() * cc implies match #[trigger] formula_at(s2, i, cc) {
        Some(f) => cell_at(s2, i, cc).val == spec_eval(f, s2).0 && cell_at(s2, i, cc).err == (
        if spec_eval(f, s2).1 {
            1int
        } else {
            0int
        }),
        None => cell_at(s2, i, cc).err == 0,
    } by {
        if ev[i] {
            assert(crate::recompute::newly_ok(s1, s2, i, cc));
            assert(formula_at(s2, i, cc) == formula_at(s1, i, cc));
        } else {
            assert(cell_at(s2, i, cc) == cell_at(s0, i, cc));
            assert(formula_at(s2, i, cc) == formula_at(s0, i, cc));
            match formula_at(s0, i, cc) {
                Some(f) => {
                    assert(formula_at(s1, i, cc) == formula_at(s0, i, cc));
                    lemma_unreached_frame(s0, s1, s2, g1, ev0, ev, rr, cc, ti, i, f);
                    assert(cell_at(s0, i, cc).val == spec_eval(f, s0).0 && cell_at(
                        s0,
                        i,
                        cc,
                    ).err == (if spec_eval(f, s0).1 {
                        1int
                    } else {
                        0int
                    }));
                },
                None => {
                    assert(cell_at(s0, i, cc).err == 0);
                },
            }
        }
    }
    assert forall|j: int|
        0 <= j < rr * cc && formula_at(s2, j, cc) is None implies #[trigger] cell_at(
        s2,
        j,
        cc,
    ).val == cell_at(s0, j, cc).val by {
        if ev[j] {
            assert(crate::recompute::newly_ok(s1, s2, j, cc));
            assert(formula_at(s1, j, cc) is None);
            assert(j != ti);
            assert(cell_at(s1, j, cc) == cell_at(s0, j, cc));
        } else {
            assert(cell_at(s2, j, cc) == cell_at(s0, j, cc));
        }
    }
}

/// A cell the recomputation did not reach evaluates the same on the final
/// sheet as on the original one: every cell its formula reads was also out
/// of reach, hence untouched.
proof fn lemma_unreached_frame(
    s0: Seq<Vec<cell>>,
    s1: Seq<Vec<cell>>,
    s2: Seq<Vec<cell>>,
    g1: Seq<Option<Box<DAGNode>>>,
    ev0: Seq<bool>,
    ev: Seq<bool>,
    rr: int,
    cc: int,
    ti: int,
    i: int,
    f: Formula,
)
    requires
        1 <= cc <= 0x7fff_ffff,
        1 <= rr <= 0x7fff_ffff,
        0 <= ti < rr * cc,
        g1.len() == rr * cc,
        s0.len() == rr,
        spec_cols(s0) == cc,
        s1.len() == rr,
        spec_cols(s1) == cc,
        crate::recompute::recompute_inv(s1, s2, g1, ev0, ev, cc),
        forall|j: int| 0 <= j < ev0.len() ==> !ev0[j],
        ev0.len() == g1.len(),
        ev.len() == g1.len(),
        forall|j: int|
            0 <= j < g1.len() && ev[j] && !ev0[j] ==> #[trigger] crate::recompute::affected(
                g1,
                cc,
                ev0,
                ti,
                j,
            ),
        forall|j: int|
            #[trigger] crate::recompute::affected(g1, cc, ev0, ti, j) ==> 0 <= j < g1.len()
                && ev[j],
        deps_covered(s1, g1, rr, cc),
        graph_mirrored(g1, rr, cc),
        graph_deps_in_bounds(g1, rr, cc),
        0 <= i < rr * cc,
        !ev[i],
        ev[ti],
        formula_at(s1, i, cc) == Some(f),
        forall|j: int|
            0 <= j < rr * cc && j != ti ==> #[trigger] cell_at(s1, j, cc) == cell_at(s0, j, cc),
    ensures
        spec_eval(f, s2) == spec_eval(f, s0),
{
    assert(s2.len() == rr && spec_cols(s2) == cc);
    assert forall|d: CellRef|
        formula_deps(f).contains(d) && in_bounds(d, s0.len() as int, spec_cols(s0)) implies s0[d.row as int]@[d.col as int]
        == s2[d.row as int]@[d.col as int] by {
        crate::recompute::lemma_flat_inverse(d.row as int, d.col as int, cc);
        let di = grid_idx(d.row as int, d.col as int, cc);
        crate::graph::lemma_idx_in_range((d.row, d.col), rr, cc);
        assert(dependencies_at(g1, i).contains((d.row, d.col)));
        crate::recompute::lemma_flat(i, rr, cc);
        assert(dependencies_at(g1, grid_idx(i / cc, i % cc, cc)).contains((d.row, d.col)));
        assert(dependents_at(g1, idx_of((d.row, d.col), cc)).contains(
            ((i / cc) as i32, (i % cc) as i32),
        ));
        assert(idx_of((((i / cc) as i32), ((i % cc) as i32)), cc) == i);
        assert(crate::graph::spec_edge(g1, cc, di, i));
        if ev[di] {
            assert(crate::recompute::affected(g1, cc, ev0, ti, di));
            assert(crate::recompute::spread_step(g1, cc, ev0, di, i));
            crate::recompute::lemma_affected_step(g1, cc, ev0, ti, di, i);
            assert(false);
        }
        assert(cell_at(s2, di, cc) == cell_at(s1, di, cc));
        assert(di != ti);
        assert(cell_at(s1, di, cc) == cell_at(s0, di, cc));
        assert(cell_at(s0, di, cc) == s0[d.row as int]@[d.col as int]);
        assert(cell_at(s2, di, cc) == s2[d.row as int]@[d.col as int]);
    }
    crate::recompute::lemma_eval_frame(f, s0, s2);
}

/// What the two edge phases of an edit preserve: the graph keeps its
/// structure, only the target's dependency list changes, and any edge not
/// present before points into the target.
pub open spec fn edit_phase_inv(
    g0: Seq<Option<Box<DAGNode>>>,
    g: Seq<Option<Box<DAGNode>>>,
    rr: int,
    cc: int,
    ti: int,
) -> bool {
    &&& g.len() == g0.len()
    &&& graph_struct_wf(g, rr, cc)
    &&& forall|j: int|
        0 <= j < g.len() && j != ti ==> #[trigger] dependencies_at(g, j) == dependencies_at(
            g0,
            j,
        )
    &&& forall|a: int, b: int|
        spec_edge(g, cc, a, b) ==> spec_edge(g0, cc, a, b) || b == ti
}

/// Removes the dependency edges of the target named by `old_deps`, leaving
/// the target with no dependencies at all.
fn unlink_edges(
    graph: &mut Vec<Option<Box<DAGNode>>>,
    target: CellRef,
    old_deps: &Vec<CellRef>,
    R: i32,
    C: i32,
)
    requires
        graph_struct_wf(old(graph)@, R as int, C as int),
        1 <= R,
        1 <= C,
        R as int * C as int <= 0x7fff_ffff,
        in_bounds(target, R as int, C as int),
        dependencies_at(
            old(graph)@,
            grid_idx(target.row as int, target.col as int, C as int),
        ).to_set().subset_of(pair_set_of(old_deps@, R as int, C as int)),
        !dependencies_at(
            old(graph)@,
            grid_idx(target.row as int, target.col as int, C as int),
        ).to_set().contains((target.row, target.col)),
    ensures
        edit_phase_inv(
            old(graph)@,
            final(graph)@,
            R as int,
            C as int,
            grid_idx(target.row as int, target.col as int, C as int),
        ),
        forall|a: int, b: int|
            spec_edge(final(graph)@, C as int, a, b) ==> spec_edge(old(graph)@, C as int, a, b),
        dependencies_at(
            final(graph)@,
            grid_idx(target.row as int, target.col as int, C as int),
        ).len() == 0,
{
    let ghost g0 = graph@;
    let ghost rr = R as int;
    let ghost cc = C as int;
    let ghost ti = grid_idx(target.row as int, target.col as int, cc);
    proof {
        crate::graph::lemma_idx_in_range((target.row, target.col), rr, cc);
    }
    let n: usize = old_deps.len();
    let mut i: usize = 0;
    while i < n
        invariant
            0 <= i <= n,
            n == old_deps@.len(),
            1 <= R,
            1 <= C,
            rr == R as int,
            cc == C as int,
            rr * cc <= 0x7fff_ffff,
            in_bounds(target, rr, cc),
            ti == grid_idx(target.row as int, target.col as int, cc),
            0 <= ti < g0.len(),
            g0.len() == rr * cc,
            graph_struct_wf(g0, rr, cc),
            edit_phase_inv(g0, graph@, rr, cc, ti),
            forall|a: int, b: int|
                spec_edge(graph@, cc, a, b) ==> spec_edge(g0, cc, a, b),
            dependencies_at(g0, ti).to_set().subset_of(pair_set_of(old_deps@, rr, cc)),
            !dependencies_at(g0, ti).to_set().contains((target.row, target.col)),
            dependencies_at(graph@, ti).to_set() =~= dependencies_at(g0, ti).to_set().difference(
                pair_set_of(old_deps@.take(i as int), rr, cc),
            ),
        decreases n - i,
    {
        let od = old_deps[i];
        let ghost pre = graph@;
        let ghost prev_set = pair_set_of(old_deps@.take(i as int), rr, cc);
        let ghost next_set = pair_set_of(old_deps@.take(i + 1), rr, cc);
        proof {
            assert forall|p: (i32, i32)| #[trigger] next_set.contains(p) implies prev_set.contains(
                p,
            ) || (p == (od.row, od.col) && in_bounds(od, rr, cc)) by {
                let x = CellRef { row: p.0, col: p.1 };
                let m = choose|m: int|
                    0 <= m < old_deps@.take(i + 1).len() && #[trigger] old_deps@.take(i + 1)[m]
                        == x;
                if m < i {
                    assert(old_deps@.take(i as int)[m] == x);
                } else {
                    assert(old_deps@.take(i + 1)[m] == old_deps@[i as int]);
                }
            }
            assert forall|p: (i32, i32)| prev_set.contains(p) implies next_set.contains(p) by {
                let x = CellRef { row: p.0, col: p.1 };
                let m = choose|m: int|
                    0 <= m < old_deps@.take(i as int).len() && #[trigger] old_deps@.take(
                        i as int,
                    )[m] == x;
                assert(old_deps@.take(i + 1)[m] == x);
            }
            if in_bounds(od, rr, cc) {
                assert(old_deps@.take(i + 1)[i as int] == od);
                assert(old_deps@.take(i + 1).contains(CellRef { row: od.row, col: od.col }));
                assert(next_set.contains((od.row, od.col)));
            }
        }
        if od.row >= 0 && od.row < R && od.col >= 0 && od.col < C && !(od.row == target.row
            && od.col == target.col) {
            proof {
                crate::graph::lemma_idx_in_range((od.row, od.col), rr, cc);
                if idx_of((od.row, od.col), cc) == ti {
                    crate::graph::lemma_idx_injective(
                        (od.row, od.col),
                        (target.row, target.col),
                        rr,
                        cc,
                    );
                }
            }
            crate::graph::remove_dependency(graph, target.row, target.col, od.row, od.col, R, C);
            proof {
                let oi = idx_of((od.row, od.col), cc);
                let opair = (od.row, od.col);
                let tpair = (target.row, target.col);
                lemma_after_unlink_step(g0, pre, graph@, rr, cc, ti, oi, tpair, opair);
                assert(dependencies_at(graph@, ti).to_set() =~= dependencies_at(
                    g0,
                    ti,
                ).to_set().difference(next_set));
            }
        } else {
            proof {
                assert(dependencies_at(graph@, ti).to_set() =~= dependencies_at(
                    g0,
                    ti,
                ).to_set().difference(next_set)) by {
                    if in_bounds(od, rr, cc) {
                        assert(od.row == target.row && od.col == target.col);
                        assert(!dependencies_at(g0, ti).to_set().contains((od.row, od.col)));
                    }
                }
            }
        }
        i = i + 1;
    }
    proof {
        assert(old_deps@.take(n as int) =~= old_deps@);
        assert(dependencies_at(graph@, ti).to_set() =~= Set::<(i32, i32)>::empty());
        assert(dependencies_at(graph@, ti).len() == 0) by {
            if dependencies_at(graph@, ti).len() > 0 {
                assert(dependencies_at(graph@, ti).to_set().contains(
                    dependencies_at(graph@, ti)[0],
                ));
            }
        }
    }
}

/// One removal step keeps the edit-phase invariant: only the target's
/// dependency list and the removed cell's dependents list shrink, and both
/// stay mirrored.
proof fn lemma_after_unlink_step(
    g0: Seq<Option<Box<DAGNode>>>,
    pre: Seq<Option<Box<DAGNode>>>,
    post: Seq<Option<Box<DAGNode>>>,
    rr: int,
    cc: int,
    ti: int,
    oi: int,
    tpair: (i32, i32),
    opair: (i32, i32),
)
    requires
        1 <= cc <= 0x7fff_ffff,
        1 <= rr <= 0x7fff_ffff,
        graph_struct_wf(g0, rr, cc),
        edit_phase_inv(g0, pre, rr, cc, ti),
        forall|a: int, b: int| spec_edge(pre, cc, a, b) ==> spec_edge(g0, cc, a, b),
        0 <= ti < pre.len(),
        0 <= oi < pre.len(),
        ti != oi,
        0 <= tpair.0 < rr && 0 <= tpair.1 < cc,
        0 <= opair.0 < rr && 0 <= opair.1 < cc,
        idx_of(tpair, cc) == ti,
        idx_of(opair, cc) == oi,
        grid_idx(tpair.0 as int, tpair.1 as int, cc) == ti,
        post.len() == pre.len(),
        forall|j: int| 0 <= j < pre.len() && j != ti && j != oi ==> post[j] == pre[j],
        post[ti] is Some,
        post[oi] is Some,
        (dependents_at(pre, oi).contains(tpair) ==> exists|k: int|
            0 <= k < dependents_at(pre, oi).len() && dependents_at(pre, oi)[k] == tpair
                && dependents_at(post, oi) == dependents_at(pre, oi).remove(k)),
        (!dependents_at(pre, oi).contains(tpair) ==> dependents_at(post, oi) == dependents_at(
            pre,
            oi,
        )),
        dependencies_at(post, oi) == dependencies_at(pre, oi),
        in_degree_at(post, oi) == in_degree_at(pre, oi),
        dependents_at(post, ti) == dependents_at(pre, ti),
        (dependencies_at(pre, ti).contains(opair) ==> exists|k: int|
            0 <= k < dependencies_at(pre, ti).len() && dependencies_at(pre, ti)[k] == opair
                && dependencies_at(post, ti) == dependencies_at(pre, ti).remove(k)),
        (!dependencies_at(pre, ti).contains(opair) ==> dependencies_at(post, ti)
            == dependencies_at(pre, ti)),
        in_degree_at(post, ti) == in_degree_at(pre, ti) - (if dependencies_at(pre, ti).contains(
            opair,
        ) {
            1int
        } else {
            0int
        }),
    ensures
        edit_phase_inv(g0, post, rr, cc, ti),
        forall|a: int, b: int| spec_edge(post, cc, a, b) ==> spec_edge(g0, cc, a, b),
        dependencies_at(post, ti).to_set() =~= dependencies_at(pre, ti).to_set().remove(opair),
        dependencies_at(post, ti).to_set().subset_of(dependencies_at(pre, ti).to_set()),
{
    if dependents_at(pre, oi).contains(tpair) {
        let k = choose|k: int|
            0 <= k < dependents_at(pre, oi).len() && dependents_at(pre, oi)[k] == tpair
                && dependents_at(post, oi) == dependents_at(pre, oi).remove(k);
        lemma_remove_to_set(dependents_at(pre, oi), k);
    }
    if dependencies_at(pre, ti).contains(opair) {
        let k = choose|k: int|
            0 <= k < dependencies_at(pre, ti).len() && dependencies_at(pre, ti)[k] == opair
                && dependencies_at(post, ti) == dependencies_at(pre, ti).remove(k);
        lemma_remove_to_set(dependencies_at(pre, ti), k);
    } else {
        assert(dependencies_at(post, ti).to_set() =~= dependencies_at(
            pre,
            ti,
        ).to_set().remove(opair)) by {
            assert(!dependencies_at(pre, ti).to_set().contains(opair));
        }
    }
    assert forall|j: int| 0 <= j < post.len() implies (#[trigger] post[j]) is Some by {
        if j != ti && j != oi {
            assert(post[j] == pre[j]);
        }
    }
    assert forall|j: int|
        0 <= j < post.len() implies (#[trigger] dependencies_at(post, j)).no_duplicates()
        && in_degree_at(post, j) == dependencies_at(post, j).len() by {
        if j == ti {
            assert(dependents_at(post, ti) == dependents_at(pre, ti));
            if dependencies_at(pre, ti).contains(opair) {
                let k = choose|k: int|
                    0 <= k < dependencies_at(pre, ti).len() && dependencies_at(pre, ti)[k]
                        == opair && dependencies_at(post, ti) == dependencies_at(
                        pre,
                        ti,
                    ).remove(k);
                lemma_remove_to_set(dependencies_at(pre, ti), k);
            } else {
                assert(dependencies_at(post, ti) == dependencies_at(pre, ti));
            }
        } else if j == oi {
            assert(dependencies_at(post, oi) == dependencies_at(pre, oi));
            assert(in_degree_at(post, oi) == in_degree_at(pre, oi));
            if dependents_at(pre, oi).contains(tpair) {
                let k = choose|k: int|
                    0 <= k < dependents_at(pre, oi).len() && dependents_at(pre, oi)[k] == tpair
                        && dependents_at(post, oi) == dependents_at(pre, oi).remove(k);
                lemma_remove_to_set(dependents_at(pre, oi), k);
            } else {
                assert(dependents_at(post, oi) == dependents_at(pre, oi));
            }
        } else {
            assert(post[j] == pre[j]);
            assert(dependencies_at(post, j) == dependencies_at(pre, j));
            assert(dependents_at(post, j) == dependents_at(pre, j));
            assert(in_degree_at(post, j) == in_degree_at(pre, j));
        }
    }
    assert forall|j: int|
        0 <= j < post.len() implies (#[trigger] dependents_at(post, j)).no_duplicates() by {
        if j == ti {
            assert(dependents_at(post, ti) == dependents_at(pre, ti));
            if dependencies_at(pre, ti).contains(opair) {
                let k = choose|k: int|
                    0 <= k < dependencies_at(pre, ti).len() && dependencies_at(pre, ti)[k]
                        == opair && dependencies_at(post, ti) == dependencies_at(
                        pre,
                        ti,
                    ).remove(k);
                lemma_remove_to_set(dependencies_at(pre, ti), k);
            } else {
                assert(dependencies_at(post, ti) == dependencies_at(pre, ti));
            }
        } else if j == oi {
            assert(dependencies_at(post, oi) == dependencies_at(pre, oi));
            assert(in_degree_at(post, oi) == in_degree_at(pre, oi));
            if dependents_at(pre, oi).contains(tpair) {
                let k = choose|k: int|
                    0 <= k < dependents_at(pre, oi).len() && dependents_at(pre, oi)[k] == tpair
                        && dependents_at(post, oi) == dependents_at(pre, oi).remove(k);
                lemma_remove_to_set(dependents_at(pre, oi), k);
            } else {
                assert(dependents_at(post, oi) == dependents_at(pre, oi));
            }
        } else {
            assert(post[j] == pre[j]);
            assert(dependencies_at(post, j) == dependencies_at(pre, j));
            assert(dependents_at(post, j) == dependents_at(pre, j));
            assert(in_degree_at(post, j) == in_degree_at(pre, j));
        }
    }
    assert forall|j: int, k: int|
        0 <= j < post.len() && 0 <= k < dependencies_at(post, j).len() implies {
        let p = #[trigger] dependencies_at(post, j)[k];
        0 <= p.0 < rr && 0 <= p.1 < cc
    } by {
        let p = dependencies_at(post, j)[k];
        assert(dependencies_at(pre, j).contains(p)) by {
            assert(dependencies_at(post, j).contains(p));
            if j == ti && dependencies_at(pre, ti).contains(opair) {
                let m = choose|m: int|
                    0 <= m < dependencies_at(pre, ti).len() && dependencies_at(pre, ti)[m]
                        == opair && dependencies_at(post, ti) == dependencies_at(
                        pre,
                        ti,
                    ).remove(m);
                lemma_remove_to_set(dependencies_at(pre, ti), m);
            } else if j != ti {
                assert(dependencies_at(post, j) == dependencies_at(pre, j));
            }
        }
        let m2 = choose|m2: int|
            0 <= m2 < dependencies_at(pre, j).len() && dependencies_at(pre, j)[m2] == p;
    }
    assert forall|j: int, k: int|
        0 <= j < post.len() && 0 <= k < dependents_at(post, j).len() implies {
        let p = #[trigger] dependents_at(post, j)[k];
        0 <= p.0 < rr && 0 <= p.1 < cc
    } by {
        let p = dependents_at(post, j)[k];
        assert(dependents_at(pre, j).contains(p)) by {
            assert(dependents_at(post, j).contains(p));
            if j == oi && dependents_at(pre, oi).contains(tpair) {
                let m = choose|m: int|
                    0 <= m < dependents_at(pre, oi).len() && dependents_at(pre, oi)[m] == tpair
                        && dependents_at(post, oi) == dependents_at(pre, oi).remove(m);
                lemma_remove_to_set(dependents_at(pre, oi), m);
            } else if j != oi {
                assert(dependents_at(post, j) == dependents_at(pre, j));
            }
        }
        let m2 = choose|m2: int|
            0 <= m2 < dependents_at(pre, j).len() && dependents_at(pre, j)[m2] == p;
    }
    assert forall|j: int|
        0 <= j < post.len() && j != ti implies #[trigger] dependencies_at(post, j)
        == dependencies_at(g0, j) by {
        assert(dependencies_at(pre, j) == dependencies_at(g0, j));
        if j != oi {
            assert(post[j] == pre[j]);
        } else {
            assert(dependencies_at(post, oi) == dependencies_at(pre, oi));
        }
    }
    assert(graph_mirrored(post, rr, cc)) by {
        assert forall|r: int, c: int, p: (i32, i32)|
            0 <= r < rr && 0 <= c < cc && #[trigger] dependencies_at(
                post,
                grid_idx(r, c, cc),
            ).contains(p) implies dependents_at(post, idx_of(p, cc)).contains(
            (r as i32, c as i32),
        ) by {
            let a = grid_idx(r, c, cc);
            assert(0 <= a < post.len()) by (nonlinear_arith)
                requires
                    0 <= r < rr,
                    0 <= c < cc,
                    a == r * cc + c,
                    post.len() == rr * cc,
            ;
            assert(dependencies_at(pre, a).contains(p)) by {
                if a == ti && dependencies_at(pre, ti).contains(opair) {
                    let k = choose|k: int|
                        0 <= k < dependencies_at(pre, ti).len() && dependencies_at(pre, ti)[k]
                            == opair && dependencies_at(post, ti) == dependencies_at(
                            pre,
                            ti,
                        ).remove(k);
                    lemma_remove_to_set(dependencies_at(pre, ti), k);
                }
            }
            assert(dependents_at(pre, idx_of(p, cc)).contains((r as i32, c as i32)));
            assert(0 <= p.0 < rr && 0 <= p.1 < cc) by {
                let m = choose|m: int|
                    0 <= m < dependencies_at(pre, a).len() && dependencies_at(pre, a)[m] == p;
            }
            crate::graph::lemma_idx_in_range(p, rr, cc);
            if idx_of(p, cc) == oi {
                if a == ti {
                    assert(p != opair) by {
                        if dependencies_at(pre, ti).contains(opair) {
                            let k = choose|k: int|
                                0 <= k < dependencies_at(pre, ti).len() && dependencies_at(
                                    pre,
                                    ti,
                                )[k] == opair && dependencies_at(post, ti) == dependencies_at(
                                    pre,
                                    ti,
                                ).remove(k);
                            lemma_remove_to_set(dependencies_at(pre, ti), k);
                            assert(!dependencies_at(post, ti).to_set().contains(opair));
                        }
                    }
                    crate::graph::lemma_idx_injective(p, opair, rr, cc);
                    assert(false);
                }
                assert((r as i32, c as i32) != tpair) by {
                    if (r as i32, c as i32) == tpair {
                        assert(a == idx_of(tpair, cc));
                    }
                }
                if dependents_at(pre, oi).contains(tpair) {
                    let k = choose|k: int|
                        0 <= k < dependents_at(pre, oi).len() && dependents_at(pre, oi)[k]
                            == tpair && dependents_at(post, oi) == dependents_at(
                            pre,
                            oi,
                        ).remove(k);
                    lemma_remove_to_set(dependents_at(pre, oi), k);
                    assert(dependents_at(post, oi).to_set().contains((r as i32, c as i32)));
                }
            } else if idx_of(p, cc) == ti {
                assert(dependents_at(post, ti) == dependents_at(pre, ti));
            } else {
                assert(post[idx_of(p, cc)] == pre[idx_of(p, cc)]);
            }
        }
    }
    assert forall|r: int, c: int, p: (i32, i32)|
        0 <= r < rr && 0 <= c < cc && #[trigger] dependents_at(
            post,
            grid_idx(r, c, cc),
        ).contains(p) implies dependencies_at(post, idx_of(p, cc)).contains(
        (r as i32, c as i32),
    ) by {
        let a = grid_idx(r, c, cc);
        assert(0 <= a < post.len()) by (nonlinear_arith)
            requires
                0 <= r < rr,
                0 <= c < cc,
                a == r * cc + c,
                post.len() == rr * cc,
        ;
        assert(dependents_at(pre, a).contains(p)) by {
            if a == oi && dependents_at(pre, oi).contains(tpair) {
                let k = choose|k: int|
                    0 <= k < dependents_at(pre, oi).len() && dependents_at(pre, oi)[k] == tpair
                        && dependents_at(post, oi) == dependents_at(pre, oi).remove(k);
                lemma_remove_to_set(dependents_at(pre, oi), k);
            }
        }
        assert(dependencies_at(pre, idx_of(p, cc)).contains((r as i32, c as i32)));
        assert(0 <= p.0 < rr && 0 <= p.1 < cc) by {
            let m = choose|m: int|
                0 <= m < dependents_at(pre, a).len() && dependents_at(pre, a)[m] == p;
        }
        crate::graph::lemma_idx_in_range(p, rr, cc);
        if idx_of(p, cc) == ti {
            crate::graph::lemma_idx_injective(p, tpair, rr, cc);
            if (r as i32, c as i32) == opair {
                assert(a == idx_of(opair, cc));
                if dependents_at(pre, oi).contains(tpair) {
                    let k = choose|k: int|
                        0 <= k < dependents_at(pre, oi).len() && dependents_at(pre, oi)[k]
                            == tpair && dependents_at(post, oi) == dependents_at(
                            pre,
                            oi,
                        ).remove(k);
                    lemma_remove_to_set(dependents_at(pre, oi), k);
                    assert(!dependents_at(post, oi).to_set().contains(tpair));
                }
                assert(false);
            } else {
                if dependencies_at(pre, ti).contains(opair) {
                    let k = choose|k: int|
                        0 <= k < dependencies_at(pre, ti).len() && dependencies_at(pre, ti)[k]
                            == opair && dependencies_at(post, ti) == dependencies_at(
                            pre,
                            ti,
                        ).remove(k);
                    lemma_remove_to_set(dependencies_at(pre, ti), k);
                    assert(dependencies_at(post, ti).to_set().contains((r as i32, c as i32)));
                }
            }
        }
    }
    assert forall|a: int, b: int| spec_edge(post, cc, a, b) implies spec_edge(pre, cc, a, b) by {
        let p = choose|p: (i32, i32)| dependents_at(post, a).contains(p) && idx_of(p, cc) == b;
        assert(dependents_at(pre, a).contains(p)) by {
            if a == oi && dependents_at(pre, oi).contains(tpair) {
                let k = choose|k: int|
                    0 <= k < dependents_at(pre, oi).len() && dependents_at(pre, oi)[k] == tpair
                        && dependents_at(post, oi) == dependents_at(pre, oi).remove(k);
                lemma_remove_to_set(dependents_at(pre, oi), k);
            }
        }
    }
}

/// Adds one dependency edge from the target to each in-bounds cell of
/// `new_deps`, none of which may be able to reach back.
fn link_edges(
    graph: &mut Vec<Option<Box<DAGNode>>>,
    target: CellRef,
    new_deps: &Vec<CellRef>,
    R: i32,
    C: i32,
    Ghost(g0): Ghost<Seq<Option<Box<DAGNode>>>>,
)
    requires
        1 <= R,
        1 <= C,
        R as int * C as int <= 0x7fff_ffff,
        in_bounds(target, R as int, C as int),
        graph_struct_wf(g0, R as int, C as int),
        edit_phase_inv(
            g0,
            old(graph)@,
            R as int,
            C as int,
            grid_idx(target.row as int, target.col as int, C as int),
        ),
        acyclic(old(graph)@, C as int),
        dependencies_at(
            old(graph)@,
            grid_idx(target.row as int, target.col as int, C as int),
        ).len() == 0,
        forall|m: int|
            0 <= m < new_deps@.len() && in_bounds(#[trigger] new_deps@[m], R as int, C as int)
                ==> !spec_reachable(
                g0,
                C as int,
                grid_idx(target.row as int, target.col as int, C as int),
                idx_of((new_deps@[m].row, new_deps@[m].col), C as int),
            ),
    ensures
        edit_phase_inv(
            g0,
            final(graph)@,
            R as int,
            C as int,
            grid_idx(target.row as int, target.col as int, C as int),
        ),
        acyclic(final(graph)@, C as int),
        dependencies_at(
            final(graph)@,
            grid_idx(target.row as int, target.col as int, C as int),
        ).to_set() =~= pair_set_of(new_deps@, R as int, C as int),
{
    let ghost rr = R as int;
    let ghost cc = C as int;
    let ghost ti = grid_idx(target.row as int, target.col as int, cc);
    let ghost tpair = (target.row, target.col);
    proof {
        crate::graph::lemma_idx_in_range(tpair, rr, cc);
    }
    let n: usize = new_deps.len();
    let mut k: usize = 0;
    while k < n
        invariant
            0 <= k <= n,
            n == new_deps@.len(),
            1 <= R,
            1 <= C,
            rr == R as int,
            cc == C as int,
            rr * cc <= 0x7fff_ffff,
            in_bounds(target, rr, cc),
            tpair == (target.row, target.col),
            ti == grid_idx(target.row as int, target.col as int, cc),
            ti == idx_of(tpair, cc),
            0 <= ti < g0.len(),
            g0.len() == rr * cc,
            graph_struct_wf(g0, rr, cc),
            edit_phase_inv(g0, graph@, rr, cc, ti),
            acyclic(graph@, cc),
            forall|m: int|
                0 <= m < new_deps@.len() && in_bounds(#[trigger] new_deps@[m], rr, cc)
                    ==> !spec_reachable(
                    g0,
                    cc,
                    ti,
                    idx_of((new_deps@[m].row, new_deps@[m].col), cc),
                ),
            dependencies_at(graph@, ti).to_set() =~= pair_set_of(
                new_deps@.take(k as int),
                rr,
                cc,
            ),
        decreases n - k,
    {
        let d = new_deps[k];
        let ghost pre = graph@;
        let ghost prev_set = pair_set_of(new_deps@.take(k as int), rr, cc);
        let ghost next_set = pair_set_of(new_deps@.take(k + 1), rr, cc);
        proof {
            assert forall|p: (i32, i32)| #[trigger] next_set.contains(p) implies prev_set.contains(
                p,
            ) || (p == (d.row, d.col) && in_bounds(d, rr, cc)) by {
                let x = CellRef { row: p.0, col: p.1 };
                let m = choose|m: int|
                    0 <= m < new_deps@.take(k + 1).len() && #[trigger] new_deps@.take(k + 1)[m]
                        == x;
                if m < k {
                    assert(new_deps@.take(k as int)[m] == x);
                } else {
                    assert(new_deps@.take(k + 1)[m] == new_deps@[k as int]);
                }
            }
            assert forall|p: (i32, i32)| prev_set.contains(p) implies next_set.contains(p) by {
                let x = CellRef { row: p.0, col: p.1 };
                let m = choose|m: int|
                    0 <= m < new_deps@.take(k as int).len() && #[trigger] new_deps@.take(
                        k as int,
                    )[m] == x;
                assert(new_deps@.take(k + 1)[m] == x);
            }
            if in_bounds(d, rr, cc) {
                assert(new_deps@.take(k + 1)[k as int] == d);
                assert(new_deps@.take(k + 1).contains(CellRef { row: d.row, col: d.col }));
                assert(next_set.contains((d.row, d.col)));
            }
        }
        proof {
            if in_bounds(d, rr, cc) {
                crate::graph::lemma_idx_in_range((d.row, d.col), rr, cc);
                if d.row == target.row && d.col == target.col {
                    crate::graph::lemma_reachable_self(g0, cc, ti);
                    assert(false);
                }
                if idx_of((d.row, d.col), cc) == ti {
                    crate::graph::lemma_idx_injective((d.row, d.col), tpair, rr, cc);
                    assert(false);
                }
                if spec_reachable(pre, cc, ti, idx_of((d.row, d.col), cc)) {
                    lemma_reach_mono_incoming(g0, pre, cc, ti, idx_of((d.row, d.col), cc));
                    assert(false);
                }
                if !dependencies_at(pre, ti).contains((d.row, d.col)) {
                    lemma_pairs_card(dependencies_at(pre, ti).push((d.row, d.col)), rr, cc);
                    assert(in_degree_at(pre, ti) < 0x7fff_ffff);
                }
            }
        }
        let out = crate::graph::add_dependency(graph, target.row, target.col, d.row, d.col, R, C);
        proof {
            if in_bounds(d, rr, cc) {
                let oi = idx_of((d.row, d.col), cc);
                let opair = (d.row, d.col);
                assert(out == crate::graph::EdgeOutcome::Added);
                lemma_after_link_step(g0, pre, graph@, rr, cc, ti, oi, tpair, opair);
                assert forall|a: int, b: int|
                    spec_edge(graph@, cc, a, b) <==> (spec_edge(pre, cc, a, b) || (a == oi && b
                        == ti)) by {
                    if a == oi && b == ti {
                        assert(spec_edge(graph@, cc, oi, ti));
                    }
                }
                crate::graph::lemma_acyclic_after_add(pre, graph@, cc, oi, ti);
                assert(dependencies_at(graph@, ti).to_set() =~= next_set);
            } else {
                assert(out == crate::graph::EdgeOutcome::OutOfBounds);
                assert(graph@ == pre);
                assert(dependencies_at(graph@, ti).to_set() =~= next_set);
            }
        }
        k = k + 1;
    }
    proof {
        assert(new_deps@.take(n as int) =~= new_deps@);
    }
}

/// Reachability out of `t` in a graph whose extra edges point into `t`
/// already held in the smaller graph.
pub proof fn lemma_reach_mono_incoming(
    g_small: Seq<Option<Box<DAGNode>>>,
    g_big: Seq<Option<Box<DAGNode>>>,
    cc: int,
    t: int,
    x: int,
)
    requires
        g_small.len() == g_big.len(),
        forall|a: int, b: int|
            spec_edge(g_big, cc, a, b) ==> spec_edge(g_small, cc, a, b) || b == t,
        spec_reachable(g_big, cc, t, x),
    ensures
        spec_reachable(g_small, cc, t, x),
{
    let s = choose|s: Seq<int>| is_path(g_big, cc, s) && s.first() == t && s.last() == x;
    lemma_reach_ignores_incoming(g_small, g_big, cc, t, x, s);
}

/// A duplicate-free list of in-bounds cells is no longer than the grid.
pub proof fn lemma_pairs_card(s: Seq<(i32, i32)>, rr: int, cc: int)
    requires
        s.no_duplicates(),
        1 <= cc,
        1 <= rr,
        forall|k: int|
            0 <= k < s.len() ==> {
                let p = #[trigger] s[k];
                0 <= p.0 < rr && 0 <= p.1 < cc
            },
    ensures
        s.len() <= rr * cc,
{
    let ch = Seq::new(s.len(), |k: int| idx_of(s[k], cc));
    assert forall|k: int| 0 <= k < ch.len() implies 0 <= #[trigger] ch[k] < rr * cc by {
        crate::graph::lemma_idx_in_range(s[k], rr, cc);
    }
    if s.len() > rr * cc {
        crate::recompute::lemma_pigeonhole(ch, rr * cc);
        let (i, j) = choose|i: int, j: int| 0 <= i < j < ch.len() && ch[i] == ch[j];
        crate::graph::lemma_idx_injective(s[i], s[j], rr, cc);
        assert(false);
    }
}

/// One insertion step keeps the edit-phase invariant: the target's
/// dependency list and the new dependency's dependents list grow together,
/// and the only edge that may appear points into the target.
proof fn lemma_after_link_step(
    g0: Seq<Option<Box<DAGNode>>>,
    pre: Seq<Option<Box<DAGNode>>>,
    post: Seq<Option<Box<DAGNode>>>,
    rr: int,
    cc: int,
    ti: int,
    oi: int,
    tpair: (i32, i32),
    opair: (i32, i32),
)
    requires
        1 <= cc <= 0x7fff_ffff,
        1 <= rr <= 0x7fff_ffff,
        graph_struct_wf(g0, rr, cc),
        edit_phase_inv(g0, pre, rr, cc, ti),
        0 <= ti < pre.len(),
        0 <= oi < pre.len(),
        ti != oi,
        0 <= tpair.0 < rr && 0 <= tpair.1 < cc,
        0 <= opair.0 < rr && 0 <= opair.1 < cc,
        idx_of(tpair, cc) == ti,
        idx_of(opair, cc) == oi,
        grid_idx(tpair.0 as int, tpair.1 as int, cc) == ti,
        grid_idx(opair.0 as int, opair.1 as int, cc) == oi,
        post.len() == pre.len(),
        forall|j: int| 0 <= j < pre.len() && j != ti && j != oi ==> post[j] == pre[j],
        post[ti] is Some,
        post[oi] is Some,
        dependents_at(post, oi) == (if dependents_at(pre, oi).contains(tpair) {
            dependents_at(pre, oi)
        } else {
            dependents_at(pre, oi).push(tpair)
        }),
        dependencies_at(post, oi) == dependencies_at(pre, oi),
        in_degree_at(post, oi) == in_degree_at(pre, oi),
        dependents_at(post, ti) == dependents_at(pre, ti),
        dependencies_at(post, ti) == (if dependencies_at(pre, ti).contains(opair) {
            dependencies_at(pre, ti)
        } else {
            dependencies_at(pre, ti).push(opair)
        }),
        in_degree_at(post, ti) == in_degree_at(pre, ti) + (if dependencies_at(pre, ti).contains(
            opair,
        ) {
            0int
        } else {
            1int
        }),
    ensures
        edit_phase_inv(g0, post, rr, cc, ti),
        dependencies_at(post, ti).to_set() =~= dependencies_at(pre, ti).to_set().insert(opair),
        forall|a: int, b: int|
            spec_edge(post, cc, a, b) ==> spec_edge(pre, cc, a, b) || (a == oi && b == ti),
        forall|a: int, b: int| spec_edge(pre, cc, a, b) ==> spec_edge(post, cc, a, b),
        spec_edge(post, cc, oi, ti),
{
    assert(dependents_at(pre, oi).contains(tpair) <==> dependencies_at(pre, ti).contains(opair))
        by {
        if dependencies_at(pre, ti).contains(opair) {
            assert(dependencies_at(pre, grid_idx(tpair.0 as int, tpair.1 as int, cc)).contains(
                opair,
            ));
            assert(dependents_at(pre, idx_of(opair, cc)).contains(
                (tpair.0 as int as i32, tpair.1 as int as i32),
            ));
        }
        if dependents_at(pre, oi).contains(tpair) {
            assert(dependents_at(pre, grid_idx(opair.0 as int, opair.1 as int, cc)).contains(
                tpair,
            ));
            assert(dependencies_at(pre, idx_of(tpair, cc)).contains(
                (opair.0 as int as i32, opair.1 as int as i32),
            ));
        }
    }
    let fresh = !dependencies_at(pre, ti).contains(opair);
    if fresh {
        lemma_push_to_set(dependencies_at(pre, ti), opair);
        lemma_push_to_set(dependents_at(pre, oi), tpair);
    } else {
        assert(dependencies_at(post, ti).to_set() =~= dependencies_at(
            pre,
            ti,
        ).to_set().insert(opair));
    }
    assert forall|j: int| 0 <= j < post.len() implies (#[trigger] post[j]) is Some by {
        if j != ti && j != oi {
            assert(post[j] == pre[j]);
        }
    }
    assert forall|j: int|
        0 <= j < post.len() implies (#[trigger] dependencies_at(post, j)).no_duplicates()
        && in_degree_at(post, j) == dependencies_at(post, j).len() by {
        if j != ti && j != oi {
            assert(post[j] == pre[j]);
            assert(dependencies_at(post, j) == dependencies_at(pre, j));
            assert(in_degree_at(post, j) == in_degree_at(pre, j));
        }
    }
    assert forall|j: int|
        0 <= j < post.len() implies (#[trigger] dependents_at(post, j)).no_duplicates() by {
        if j != ti && j != oi {
            assert(post[j] == pre[j]);
            assert(dependents_at(post, j) == dependents_at(pre, j));
        }
    }
    assert forall|j: int, k: int|
        0 <= j < post.len() && 0 <= k < dependencies_at(post, j).len() implies {
        let p = #[trigger] dependencies_at(post, j)[k];
        0 <= p.0 < rr && 0 <= p.1 < cc
    } by {
        let p = dependencies_at(post, j)[k];
        if j == ti && fresh && k == dependencies_at(pre, ti).len() {
            assert(p == opair);
        } else {
            if j != ti && j != oi {
                assert(post[j] == pre[j]);
            }
            assert(dependencies_at(pre, j)[k] == p);
        }
    }
    assert forall|j: int, k: int|
        0 <= j < post.len() && 0 <= k < dependents_at(post, j).len() implies {
        let p = #[trigger] dependents_at(post, j)[k];
        0 <= p.0 < rr && 0 <= p.1 < cc
    } by {
        let p = dependents_at(post, j)[k];
        if j == oi && fresh && k == dependents_at(pre, oi).len() {
            assert(p == tpair);
        } else {
            if j != ti && j != oi {
                assert(post[j] == pre[j]);
            }
            assert(dependents_at(pre, j)[k] == p);
        }
    }
    assert forall|j: int|
        0 <= j < post.len() && j != ti implies #[trigger] dependencies_at(post, j)
        == dependencies_at(g0, j) by {
        assert(dependencies_at(pre, j) == dependencies_at(g0, j));
        if j != oi {
            assert(post[j] == pre[j]);
        }
    }
    assert(graph_mirrored(post, rr, cc)) by {
        assert forall|r: int, c: int, p: (i32, i32)|
            0 <= r < rr && 0 <= c < cc && #[trigger] dependencies_at(
                post,
                grid_idx(r, c, cc),
            ).contains(p) implies dependents_at(post, idx_of(p, cc)).contains(
            (r as i32, c as i32),
        ) by {
            let a = grid_idx(r, c, cc);
            assert(0 <= a < post.len()) by (nonlinear_arith)
                requires
                    0 <= r < rr,
                    0 <= c < cc,
                    a == r * cc + c,
                    post.len() == rr * cc,
            ;
            if a == ti && p == opair {
                assert(dependents_at(post, oi).contains(tpair)) by {
                    if fresh {
                        assert(dependents_at(post, oi)[dependents_at(pre, oi).len() as int]
                            == tpair);
                    }
                }
                crate::graph::lemma_idx_injective((r as i32, c as i32), tpair, rr, cc);
            } else {
                assert(dependencies_at(pre, a).contains(p)) by {
                    if a == ti && fresh {
                        let m = choose|m: int|
                            0 <= m < dependencies_at(post, ti).len() && dependencies_at(
                                post,
                                ti,
                            )[m] == p;
                        if m < dependencies_at(pre, ti).len() {
                            assert(dependencies_at(pre, ti)[m] == p);
                        }
                    }
                }
                assert(dependents_at(pre, idx_of(p, cc)).contains((r as i32, c as i32)));
                assert(0 <= p.0 < rr && 0 <= p.1 < cc) by {
                    let m = choose|m: int|
                        0 <= m < dependencies_at(pre, a).len() && dependencies_at(pre, a)[m] == p;
                }
                crate::graph::lemma_idx_in_range(p, rr, cc);
                if idx_of(p, cc) == oi {
                    assert(dependents_at(post, oi).contains((r as i32, c as i32))) by {
                        if fresh {
                            let m = choose|m: int|
                                0 <= m < dependents_at(pre, oi).len() && dependents_at(
                                    pre,
                                    oi,
                                )[m] == (r as i32, c as i32);
                            assert(dependents_at(post, oi)[m] == (r as i32, c as i32));
                        }
                    }
                } else if idx_of(p, cc) == ti {
                    assert(dependents_at(post, ti) == dependents_at(pre, ti));
                } else {
                    assert(post[idx_of(p, cc)] == pre[idx_of(p, cc)]);
                }
            }
        }
    }
    assert forall|r: int, c: int, p: (i32, i32)|
        0 <= r < rr && 0 <= c < cc && #[trigger] dependents_at(
            post,
            grid_idx(r, c, cc),
        ).contains(p) implies dependencies_at(post, idx_of(p, cc)).contains(
        (r as i32, c as i32),
    ) by {
        let a = grid_idx(r, c, cc);
        assert(0 <= a < post.len()) by (nonlinear_arith)
            requires
                0 <= r < rr,
                0 <= c < cc,
                a == r * cc + c,
                post.len() == rr * cc,
        ;
        if a == oi && p == tpair {
            assert(dependencies_at(post, ti).contains(opair)) by {
                if fresh {
                    assert(dependencies_at(post, ti)[dependencies_at(pre, ti).len() as int]
                        == opair);
                }
            }
            crate::graph::lemma_idx_injective((r as i32, c as i32), opair, rr, cc);
        } else {
            assert(dependents_at(pre, a).contains(p)) by {
                if a == oi && fresh {
                    let m = choose|m: int|
                        0 <= m < dependents_at(post, oi).len() && dependents_at(post, oi)[m] == p;
                    if m < dependents_at(pre, oi).len() {
                        assert(dependents_at(pre, oi)[m] == p);
                    }
                }
            }
            assert(dependencies_at(pre, idx_of(p, cc)).contains((r as i32, c as i32)));
            assert(0 <= p.0 < rr && 0 <= p.1 < cc) by {
                let m = choose|m: int|
                    0 <= m < dependents_at(pre, a).len() && dependents_at(pre, a)[m] == p;
            }
            crate::graph::lemma_idx_in_range(p, rr, cc);
            if idx_of(p, cc) == ti {
                assert(dependencies_at(post, ti).contains((r as i32, c as i32))) by {
                    if fresh {
                        let m = choose|m: int|
                            0 <= m < dependencies_at(pre, ti).len() && dependencies_at(
                                pre,
                                ti,
                            )[m] == (r as i32, c as i32);
                        assert(dependencies_at(post, ti)[m] == (r as i32, c as i32));
                    }
                }
            } else if idx_of(p, cc) == oi {
                assert(dependencies_at(post, oi) == dependencies_at(pre, oi));
            } else {
                assert(post[idx_of(p, cc)] == pre[idx_of(p, cc)]);
            }
        }
    }
    assert forall|a: int, b: int|
        spec_edge(post, cc, a, b) implies spec_edge(pre, cc, a, b) || (a == oi && b == ti) by {
        let p = choose|p: (i32, i32)| dependents_at(post, a).contains(p) && idx_of(p, cc) == b;
        if a == oi && fresh {
            let m = choose|m: int|
                0 <= m < dependents_at(post, oi).len() && dependents_at(post, oi)[m] == p;
            if m < dependents_at(pre, oi).len() {
                assert(dependents_at(pre, oi)[m] == p);
                assert(dependents_at(pre, a).contains(p));
            } else {
                assert(p == tpair);
            }
        } else {
            if a != ti && a != oi && 0 <= a < pre.len() {
                assert(post[a] == pre[a]);
            }
            assert(dependents_at(pre, a).contains(p));
        }
    }
    assert forall|a: int, b: int|
        spec_edge(pre, cc, a, b) implies spec_edge(post, cc, a, b) by {
        let p = choose|p: (i32, i32)| dependents_at(pre, a).contains(p) && idx_of(p, cc) == b;
        assert(dependents_at(post, a).contains(p)) by {
            if a == oi && fresh {
                let m = choose|m: int|
                    0 <= m < dependents_at(pre, oi).len() && dependents_at(pre, oi)[m] == p;
                assert(dependents_at(post, oi)[m] == p);
            } else if a == ti {
                assert(dependents_at(post, ti) == dependents_at(pre, ti));
            } else if a != oi && 0 <= a < pre.len() {
                assert(post[a] == pre[a]);
            }
        }
    }
    assert(spec_edge(post, cc, oi, ti)) by {
        assert(dependents_at(post, oi).contains(tpair)) by {
            if fresh {
                assert(dependents_at(post, oi)[dependents_at(pre, oi).len() as int] == tpair);
            }
        }
    }
}

/// Removing one entry of a duplicate-free list removes exactly that element
/// from its set.
pub proof fn lemma_remove_to_set(s: Seq<(i32, i32)>, k: int)
    requires
        s.no_duplicates(),
        0 <= k < s.len(),
    ensures
        s.remove(k).to_set() == s.to_set().remove(s[k]),
        s.remove(k).no_duplicates(),
        forall|x: (i32, i32)| s.remove(k).contains(x) ==> s.contains(x),
{
    let t = s.remove(k);
    assert forall|x: (i32, i32)| t.contains(x) implies s.contains(x) && x != s[k] by {
        let i = choose|i: int| 0 <= i < t.len() && t[i] == x;
        if i < k {
            assert(s[i] == x);
        } else {
            assert(s[i + 1] == x);
        }
    }
    assert forall|x: (i32, i32)| s.contains(x) && x != s[k] implies t.contains(x) by {
        let i = choose|i: int| 0 <= i < s.len() && s[i] == x;
        if i < k {
            assert(t[i] == x);
        } else {
            assert(t[i - 1] == x);
        }
    }
    assert(t.to_set() =~= s.to_set().remove(s[k]));
    assert forall|i: int, j: int| 0 <= i < j < t.len() implies t[i] != t[j] by {
        if j < k {
            assert(t[i] == s[i] && t[j] == s[j]);
        } else if i >= k {
            assert(t[i] == s[i + 1] && t[j] == s[j + 1]);
        } else {
            assert(t[i] == s[i] && t[j] == s[j + 1]);
        }
    }
}

/// Appending a fresh element to a duplicate-free list inserts exactly it
/// into its set.
pub proof fn lemma_push_to_set(s: Seq<(i32, i32)>, p: (i32, i32))
    requires
        s.no_duplicates(),
        !s.contains(p),
    ensures
        s.push(p).to_set() == s.to_set().insert(p),
        s.push(p).no_duplicates(),
{
    let t = s.push(p);
    assert forall|x: (i32, i32)| t.contains(x) implies s.contains(x) || x == p by {
        let i = choose|i: int| 0 <= i < t.len() && t[i] == x;
        if i < s.len() {
            assert(s[i] == x);
        }
    }
    assert forall|x: (i32, i32)| s.contains(x) implies t.contains(x) by {
        let i = choose|i: int| 0 <= i < s.len() && s[i] == x;
        assert(t[i] == x);
    }
    assert(t[s.len() as int] == p);
    assert(t.to_set() =~= s.to_set().insert(p));
    assert forall|i: int, j: int| 0 <= i < j < t.len() implies t[i] != t[j] by {
        if j < s.len() {
            assert(t[i] == s[i] && t[j] == s[j]);
        } else {
            assert(t[i] == s[i] && t[j] == p);
            assert(s.contains(s[i]));
        }
    }
}

/// A walk out of `t` in a graph whose extra edges all point into `t` can be
/// replayed in the smaller graph: its tail after the last visit to `t`
/// never uses an extra edge.
pub proof fn lemma_reach_ignores_incoming(
    g_small: Seq<Option<Box<DAGNode>>>,
    g_big: Seq<Option<Box<DAGNode>>>,
    cc: int,
    t: int,
    x: int,
    s: Seq<int>,
)
    requires
        g_small.len() == g_big.len(),
        forall|a: int, b: int|
            spec_edge(g_big, cc, a, b) ==> spec_edge(g_small, cc, a, b) || b == t,
        is_path(g_big, cc, s),
        s.first() == t,
        s.last() == x,
    ensures
        spec_reachable(g_small, cc, t, x),
    decreases s.len(),
{
    if exists|j: int|
        0 <= j < s.len() - 1 && !spec_edge(g_small, cc, #[trigger] s[j], s[j + 1]) {
        let j = choose|j: int|
            0 <= j < s.len() - 1 && !spec_edge(g_small, cc, #[trigger] s[j], s[j + 1]);
        assert(s[j + 1] == t);
        let u = s.skip(j + 1);
        assert(forall|i: int| 0 <= i < u.len() ==> u[i] == #[trigger] s[i + j + 1]);
        assert(is_path(g_big, cc, u));
        assert(u.first() == t && u.last() == x);
        assert(u.len() < s.len());
        lemma_reach_ignores_incoming(g_small, g_big, cc, t, x, u);
    } else {
        assert(forall|i: int|
            0 <= i < s.len() - 1 ==> spec_edge(g_small, cc, #[trigger] s[i], s[i + 1]));
        assert(is_path(g_small, cc, s));
    }
}

/// Acyclicity invariant: in a well-formed engine no cell can be reached
/// from itself along dependents edges by a walk of one or more steps; the
/// engine's edit transaction keeps this after every successful commit.
pub proof fn lemma_no_self_reach(e: &Engine, s: Seq<int>)
    requires
        e.wf(),
        is_path(e.spec_graph(), e.spec_cols(), s),
        s.len() >= 2,
    ensures
        s.first() != s.last(),
{
}

} // verus!
