//! Dependency-ordered recomputation: after a change, every cell is brought
//! up to date only once all the cells it depends on are.

use vstd::prelude::*;

use crate::ast::cell;
use crate::ast::formula_deps;
use crate::ast::Formula;
use crate::ast::CellRef;
use crate::ast::DAGNode;
use crate::eval::evaluate_formula;
use crate::eval::in_bounds;
use crate::eval::rect_sheet;
use crate::eval::spec_cols;
use crate::eval::spec_eval;
use crate::graph::acyclic;
use crate::graph::count_true;
use crate::graph::dependencies_at;
use crate::graph::dependents_at;
use crate::graph::idx_of;
use crate::graph::is_path;
use crate::graph::lemma_count_true_bound;
use crate::graph::lemma_count_true_update;
use crate::graph::spec_edge;

verus! {

/// What a formula is worth depends only on the cells it reads: two sheets
/// of the same shape that agree on every in-bounds dependency give the same
/// value and error.
pub proof fn lemma_eval_frame(f: Formula, s1: Seq<Vec<cell>>, s2: Seq<Vec<cell>>)
    requires
        s1.len() == s2.len(),
        spec_cols(s1) == spec_cols(s2),
        forall|d: CellRef|
            formula_deps(f).contains(d) && in_bounds(d, s1.len() as int, spec_cols(s1))
                ==> s1[d.row as int]@[d.col as int] == s2[d.row as int]@[d.col as int],
    ensures
        spec_eval(f, s1) == spec_eval(f, s2),
    decreases f,
{
    match f {
        Formula::Literal(_) => {},
        Formula::Cell(c) => {
            assert(formula_deps(f)[0] == c);
            assert(formula_deps(f).contains(c));
        },
        Formula::Inc { base, .. } => {
            assert(formula_deps(f)[0] == base);
            assert(formula_deps(f).contains(base));
        },
        Formula::Arith { op, left, right } => {
            let dl = formula_deps(*left);
            let dr = formula_deps(*right);
            assert(formula_deps(f) == dl + dr);
            assert forall|d: CellRef| dl.contains(d) implies formula_deps(f).contains(d) by {
                let k = choose|k: int| 0 <= k < dl.len() && dl[k] == d;
                assert(formula_deps(f)[k] == d);
            }
            assert forall|d: CellRef| dr.contains(d) implies formula_deps(f).contains(d) by {
                let k = choose|k: int| 0 <= k < dr.len() && dr[k] == d;
                assert(formula_deps(f)[dl.len() + k] == d);
            }
            lemma_eval_frame(*left, s1, s2);
            lemma_eval_frame(*right, s1, s2);
        },
        Formula::Range { func, start, end } => {
            if !(start.row < 0 || start.col < 0 || end.row < start.row || end.col < start.col
                || end.row >= s1.len() || end.col >= spec_cols(s1)) {
                let refs = crate::ast::rect_refs(start, end);
                assert(forall|k: int|
                    0 <= k < refs.len() ==> formula_deps(f).contains(#[trigger] refs[k]));
                assert(forall|k: int|
                    0 <= k < refs.len() ==> in_bounds(
                        #[trigger] refs[k],
                        s1.len() as int,
                        spec_cols(s1),
                    )) by {
                    crate::ast::lemma_rect_bounds(start, end);
                }
                assert(crate::eval::rect_vals(s1, start, end) =~= crate::eval::rect_vals(
                    s2,
                    start,
                    end,
                ));
                assert(crate::eval::rect_has_err(s1, start, end) == crate::eval::rect_has_err(
                    s2,
                    start,
                    end,
                )) by {
                    if crate::eval::rect_has_err(s1, start, end) {
                        let k = choose|k: int|
                            0 <= k < refs.len() && s1[refs[k].row as int]@[refs[k].col as int].err
                                != 0;
                        assert(s2[refs[k].row as int]@[refs[k].col as int].err != 0);
                    }
                    if crate::eval::rect_has_err(s2, start, end) {
                        let k = choose|k: int|
                            0 <= k < refs.len() && s2[refs[k].row as int]@[refs[k].col as int].err
                                != 0;
                        assert(s1[refs[k].row as int]@[refs[k].col as int].err != 0);
                    }
                }
            }
        },
        Formula::SleepLiteral(_) => {},
        Formula::SleepCell(c) => {
            assert(formula_deps(f)[0] == c);
            assert(formula_deps(f).contains(c));
        },
    }
}

/// Every dependency entry anywhere in the graph names an in-bounds cell.
pub open spec fn graph_deps_in_bounds(
    g: Seq<Option<Box<DAGNode>>>,
    rr: int,
    cc: int,
) -> bool {
    forall|a: int, k: int|
        0 <= a < g.len() && 0 <= k < dependencies_at(g, a).len() ==> {
            let p = #[trigger] dependencies_at(g, a)[k];
            0 <= p.0 < rr && 0 <= p.1 < cc
        }
}

/// Every dependency entry is mirrored by a dependents entry: if cell
/// `(r, c)` lists `p` among its dependencies, then `p` lists `(r, c)` among
/// its dependents.
pub open spec fn graph_mirrored(g: Seq<Option<Box<DAGNode>>>, rr: int, cc: int) -> bool {
    forall|r: int, c: int, p: (i32, i32)|
        0 <= r < rr && 0 <= c < cc && #[trigger] dependencies_at(
            g,
            grid_idx(r, c, cc),
        ).contains(p) ==> dependents_at(g, idx_of(p, cc)).contains((r as i32, c as i32))
}

/// The flattened index of grid coordinates.
pub open spec fn grid_idx(r: int, c: int, cc: int) -> int {
    r * cc + c
}

/// The formula of the cell at flattened index `i`.
pub open spec fn formula_at(sheet: Seq<Vec<cell>>, i: int, cc: int) -> Option<Formula> {
    sheet[i / cc]@[i % cc].formula
}

/// The cell record at flattened index `i`.
pub open spec fn cell_at(sheet: Seq<Vec<cell>>, i: int, cc: int) -> cell {
    sheet[i / cc]@[i % cc]
}

/// Node `a` lists a dependency whose flattened index is `b`.
pub open spec fn dep_link(g: Seq<Option<Box<DAGNode>>>, cc: int, a: int, b: int) -> bool {
    exists|q: (i32, i32)| dependencies_at(g, a).contains(q) && idx_of(q, cc) == b
}

/// Every in-bounds dependency of a cell's formula stands in its graph node.
pub open spec fn deps_covered(
    sheet: Seq<Vec<cell>>,
    g: Seq<Option<Box<DAGNode>>>,
    rr: int,
    cc: int,
) -> bool {
    forall|i: int|
        0 <= i < g.len() ==> match #[trigger] formula_at(sheet, i, cc) {
            Some(f) => forall|d: CellRef|
                formula_deps(f).contains(d) && in_bounds(d, rr, cc) ==> dependencies_at(
                    g,
                    i,
                ).contains((d.row, d.col)),
            None => true,
        }
}

/// All graph dependencies of node `a` are marked evaluated.
pub open spec fn deps_done(
    g: Seq<Option<Box<DAGNode>>>,
    ev: Seq<bool>,
    cc: int,
    a: int,
) -> bool {
    forall|k: int|
        0 <= k < dependencies_at(g, a).len() ==> ev[idx_of(
            #[trigger] dependencies_at(g, a)[k],
            cc,
        )]
}

/// Splitting a flattened index back into coordinates stays in bounds and
/// round-trips.
pub proof fn lemma_flat(j: int, rr: int, cc: int)
    requires
        cc >= 1,
        0 <= j < rr * cc,
    ensures
        0 <= j / cc < rr,
        0 <= j % cc < cc,
        grid_idx(j / cc, j % cc, cc) == j,
{
    vstd::arithmetic::div_mod::lemma_fundamental_div_mod(j, cc);
    vstd::arithmetic::div_mod::lemma_mod_bound(j, cc);
    assert(0 <= j / cc < rr && (j / cc) * cc == cc * (j / cc)) by (nonlinear_arith)
        requires
            j == cc * (j / cc) + j % cc,
            0 <= j % cc < cc,
            0 <= j,
            j < rr * cc,
            cc >= 1,
    ;
}

/// Flattening coordinates and splitting them again is the identity.
pub proof fn lemma_flat_inverse(r: int, c: int, cc: int)
    requires
        cc >= 1,
        0 <= c < cc,
        0 <= r,
    ensures
        grid_idx(r, c, cc) / cc == r,
        grid_idx(r, c, cc) % cc == c,
{
    assert(r * cc == cc * r) by (nonlinear_arith);
    vstd::arithmetic::div_mod::lemma_fundamental_div_mod_converse(grid_idx(r, c, cc), cc, r, c);
}

/// A dependency link is a dependents edge in the other direction, in a
/// mirrored graph.
proof fn lemma_dep_to_edge(
    g: Seq<Option<Box<DAGNode>>>,
    rr: int,
    cc: int,
    a: int,
    b: int,
)
    requires
        g.len() == rr * cc,
        1 <= cc <= 0x7fff_ffff,
        0 <= rr <= 0x7fff_ffff,
        0 <= a < g.len(),
        graph_deps_in_bounds(g, rr, cc),
        graph_mirrored(g, rr, cc),
        dep_link(g, cc, a, b),
    ensures
        spec_edge(g, cc, b, a),
{
    let q = choose|q: (i32, i32)| dependencies_at(g, a).contains(q) && idx_of(q, cc) == b;
    let k = choose|k: int| 0 <= k < dependencies_at(g, a).len() && dependencies_at(g, a)[k] == q;
    let r = a / cc;
    let c = a % cc;
    vstd::arithmetic::div_mod::lemma_fundamental_div_mod(a, cc);
    vstd::arithmetic::div_mod::lemma_mod_bound(a, cc);
    assert(0 <= r < rr) by (nonlinear_arith)
        requires
            a == cc * r + c,
            0 <= c < cc,
            0 <= a,
            a < rr * cc,
            cc >= 1,
    ;
    assert(r * cc == cc * r) by (nonlinear_arith);
    assert(grid_idx(r, c, cc) == a);
    assert(dependencies_at(g, grid_idx(r, c, cc)).contains(q));
    assert(dependents_at(g, idx_of(q, cc)).contains((r as i32, c as i32)));
    crate::graph::lemma_idx_in_range(q, rr, cc);
    assert(idx_of((r as i32, c as i32), cc) == a);
}

/// If the graph is acyclic and mirrored, some unevaluated cell has all of
/// its dependencies evaluated -- otherwise an unevaluated chain would loop.
proof fn lemma_build_chain(
    g: Seq<Option<Box<DAGNode>>>,
    rr: int,
    cc: int,
    ev: Seq<bool>,
    len: nat,
    start: int,
) -> (ch: Seq<int>)
    requires
        g.len() == rr * cc,
        1 <= cc <= 0x7fff_ffff,
        0 <= rr <= 0x7fff_ffff,
        ev.len() == g.len(),
        graph_deps_in_bounds(g, rr, cc),
        0 <= start < g.len(),
        !ev[start],
        forall|a: int|
            0 <= a < g.len() && !ev[a] ==> exists|k: int|
                0 <= k < dependencies_at(g, a).len() && !ev[idx_of(
                    #[trigger] dependencies_at(g, a)[k],
                    cc,
                )],
    ensures
        ch.len() == len + 1,
        ch[0] == start,
        forall|i: int| 0 <= i <= len ==> 0 <= #[trigger] ch[i] < g.len() && !ev[ch[i]],
        forall|i: int| 0 <= i < len ==> dep_link(g, cc, #[trigger] ch[i], ch[i + 1]),
    decreases len,
{
    if len == 0 {
        seq![start]
    } else {
        let k = choose|k: int|
            0 <= k < dependencies_at(g, start).len() && !ev[idx_of(
                dependencies_at(g, start)[k],
                cc,
            )];
        let q = dependencies_at(g, start)[k];
        crate::graph::lemma_idx_in_range(q, rr, cc);
        let next = idx_of(q, cc);
        assert(dependencies_at(g, start).contains(q));
        assert(dep_link(g, cc, start, next));
        let rest = lemma_build_chain(g, rr, cc, ev, (len - 1) as nat, next);
        let ch = seq![start] + rest;
        assert(forall|i: int| 0 <= i < rest.len() ==> ch[i + 1] == #[trigger] rest[i]);
        assert(ch[0] == start);
        assert forall|i: int| 0 <= i < len implies dep_link(g, cc, #[trigger] ch[i], ch[i + 1]) by {
            if i > 0 {
                assert(ch[i] == rest[i - 1] && ch[i + 1] == rest[i]);
            } else {
                assert(ch[0] == start && ch[1] == rest[0] && rest[0] == next);
            }
        }
        ch
    }
}

/// A sequence of more than `n` values drawn from `0..n` repeats one.
pub proof fn lemma_pigeonhole(ch: Seq<int>, n: int)
    requires
        ch.len() > n,
        n >= 0,
        forall|i: int| 0 <= i < ch.len() ==> 0 <= #[trigger] ch[i] < n,
    ensures
        exists|i: int, j: int| 0 <= i < j < ch.len() && ch[i] == ch[j],
{
    if ch.no_duplicates() {
        ch.unique_seq_to_set();
        let range = vstd::set_lib::set_int_range(0, n);
        assert(ch.to_set().subset_of(range)) by {
            assert forall|x: int| ch.to_set().contains(x) implies range.contains(x) by {
                let i = choose|i: int| 0 <= i < ch.len() && ch[i] == x;
            }
        }
        vstd::set_lib::lemma_int_range(0, n);
        vstd::set_lib::lemma_len_subset(ch.to_set(), range);
        assert(false);
    } else {
        let (i, j) = choose|i: int, j: int|
            0 <= i < ch.len() && 0 <= j < ch.len() && i != j && ch[i] == ch[j];
        if i < j {
            assert(0 <= i < j < ch.len() && ch[i] == ch[j]);
        } else {
            assert(0 <= j < i < ch.len() && ch[j] == ch[i]);
        }
    }
}

/// A repeating chain of dependency links yields a cycle of dependents
/// edges, which an acyclic mirrored graph forbids.
proof fn lemma_chain_cycle(
    g: Seq<Option<Box<DAGNode>>>,
    rr: int,
    cc: int,
    ch: Seq<int>,
    i: int,
    j: int,
)
    requires
        g.len() == rr * cc,
        1 <= cc <= 0x7fff_ffff,
        0 <= rr <= 0x7fff_ffff,
        graph_deps_in_bounds(g, rr, cc),
        graph_mirrored(g, rr, cc),
        forall|t: int| 0 <= t < ch.len() ==> 0 <= #[trigger] ch[t] < g.len(),
        forall|t: int| 0 <= t < ch.len() - 1 ==> dep_link(g, cc, #[trigger] ch[t], ch[t + 1]),
        0 <= i < j < ch.len(),
        ch[i] == ch[j],
    ensures
        !acyclic(g, cc),
{
    let p = Seq::new((j - i + 1) as nat, |t: int| ch[j - t]);
    assert forall|t: int| 0 <= t < p.len() - 1 implies spec_edge(
        g,
        cc,
        #[trigger] p[t],
        p[t + 1],
    ) by {
        assert(p[t] == ch[j - t] && p[t + 1] == ch[j - t - 1]);
        assert(dep_link(g, cc, ch[j - t - 1], ch[j - t]));
        lemma_dep_to_edge(g, rr, cc, ch[j - t - 1], ch[j - t]);
    }
    assert(is_path(g, cc, p));
    assert(p.first() == ch[j] && p.last() == ch[i]);
    assert(p.len() >= 2 && p.first() == p.last());
}

/// When every unevaluated cell waits on another unevaluated cell, the wait
/// chain must loop, which an acyclic mirrored graph forbids: so everything
/// is evaluated.
proof fn lemma_no_stall(
    g: Seq<Option<Box<DAGNode>>>,
    rr: int,
    cc: int,
    ev: Seq<bool>,
)
    requires
        g.len() == rr * cc,
        1 <= cc <= 0x7fff_ffff,
        0 <= rr <= 0x7fff_ffff,
        ev.len() == g.len(),
        graph_deps_in_bounds(g, rr, cc),
        graph_mirrored(g, rr, cc),
        acyclic(g, cc),
        forall|a: int|
            0 <= a < g.len() && !ev[a] ==> exists|k: int|
                0 <= k < dependencies_at(g, a).len() && !ev[idx_of(
                    #[trigger] dependencies_at(g, a)[k],
                    cc,
                )],
    ensures
        forall|a: int| 0 <= a < g.len() ==> ev[a],
{
    if exists|a: int| 0 <= a < g.len() && !ev[a] {
        let start = choose|a: int| 0 <= a < g.len() && !ev[a];
        let n = g.len() as nat;
        let ch = lemma_build_chain(g, rr, cc, ev, n, start);
        lemma_pigeonhole(ch, g.len() as int);
        let (i, j) = choose|i: int, j: int| 0 <= i < j < ch.len() && ch[i] == ch[j];
        lemma_chain_cycle(g, rr, cc, ch, i, j);
        assert(false);
    }
}

/// Recomputation spreads from cell `u` to cell `v`: either `v` depends on
/// `u` (a dependents edge), or `u` depends on `v` and `v` is not yet marked
/// evaluated, so `v` must be brought up to date first.
pub open spec fn spread_step(
    g: Seq<Option<Box<DAGNode>>>,
    cc: int,
    ev0: Seq<bool>,
    u: int,
    v: int,
) -> bool {
    ||| spec_edge(g, cc, u, v)
    ||| (dep_link(g, cc, u, v) && 0 <= v < ev0.len() && !ev0[v])
}

/// A walk along spreading steps, inside the node range.
pub open spec fn spread_chain(
    g: Seq<Option<Box<DAGNode>>>,
    cc: int,
    ev0: Seq<bool>,
    s: Seq<int>,
) -> bool {
    &&& s.len() >= 1
    &&& forall|i: int| 0 <= i < s.len() ==> 0 <= #[trigger] s[i] < g.len()
    &&& forall|i: int|
        0 <= i < s.len() - 1 ==> spread_step(g, cc, ev0, #[trigger] s[i], s[i + 1])
}

/// Cell `j` belongs to the recomputation seeded at `seed`: a chain of
/// spreading steps reaches it.  The seed itself is affected.
pub open spec fn affected(
    g: Seq<Option<Box<DAGNode>>>,
    cc: int,
    ev0: Seq<bool>,
    seed: int,
    j: int,
) -> bool {
    exists|s: Seq<int>| spread_chain(g, cc, ev0, s) && s.first() == seed && s.last() == j
}

/// The seed of a recomputation is affected by it.
pub proof fn lemma_affected_self(
    g: Seq<Option<Box<DAGNode>>>,
    cc: int,
    ev0: Seq<bool>,
    seed: int,
)
    requires
        0 <= seed < g.len(),
    ensures
        affected(g, cc, ev0, seed, seed),
{
    let s: Seq<int> = seq![seed];
    assert(spread_chain(g, cc, ev0, s));
    assert(s.first() == seed && s.last() == seed);
}

/// Being affected extends along one more spreading step.
pub proof fn lemma_affected_step(
    g: Seq<Option<Box<DAGNode>>>,
    cc: int,
    ev0: Seq<bool>,
    seed: int,
    u: int,
    v: int,
)
    requires
        affected(g, cc, ev0, seed, u),
        spread_step(g, cc, ev0, u, v),
        0 <= v < g.len(),
    ensures
        affected(g, cc, ev0, seed, v),
{
    let s = choose|s: Seq<int>|
        spread_chain(g, cc, ev0, s) && s.first() == seed && s.last() == u;
    let t = s.push(v);
    assert(forall|i: int| 0 <= i < s.len() ==> t[i] == #[trigger] s[i]);
    assert(spread_chain(g, cc, ev0, t));
    assert(t.first() == seed && t.last() == v);
}

/// A set of cells closed under spreading steps that holds a chain's start
/// holds its end.
proof fn lemma_spread_closed(
    g: Seq<Option<Box<DAGNode>>>,
    cc: int,
    ev0: Seq<bool>,
    marked: Seq<bool>,
    s: Seq<int>,
)
    requires
        marked.len() == g.len(),
        spread_chain(g, cc, ev0, s),
        marked[s.first()],
        forall|v: int, w: int|
            0 <= v < g.len() && marked[v] && spread_step(g, cc, ev0, v, w) && 0 <= w < g.len()
                ==> marked[w],
    ensures
        marked[s.last()],
    decreases s.len(),
{
    if s.len() > 1 {
        let t = s.drop_first();
        assert(spread_step(g, cc, ev0, s[0], s[1]));
        assert(marked[s[1]]);
        assert(forall|i: int| 0 <= i < t.len() ==> t[i] == #[trigger] s[i + 1]);
        assert(spread_chain(g, cc, ev0, t));
        lemma_spread_closed(g, cc, ev0, marked, t);
    }
}

/// Collects the cells the recomputation seeded at `seed` may touch: the
/// least set holding the seed and closed under dependents edges and
/// not-yet-evaluated dependency links.
fn collect_affected(
    graph: &Vec<Option<Box<DAGNode>>>,
    evaluated: &Vec<bool>,
    seed: usize,
    R: i32,
    C: i32,
) -> (reach: Vec<bool>)
    requires
        graph@.len() == R as int * C as int,
        1 <= R,
        1 <= C,
        R as int * C as int <= 0x7fff_ffff,
        evaluated@.len() == graph@.len(),
        graph_deps_in_bounds(graph@, R as int, C as int),
        seed < graph@.len(),
    ensures
        reach@.len() == graph@.len(),
        reach@[seed as int],
        forall|j: int|
            0 <= j < graph@.len() && reach@[j] ==> affected(
                graph@,
                C as int,
                evaluated@,
                seed as int,
                j,
            ),
        forall|v: int, w: int|
            0 <= v < graph@.len() && reach@[v] && spread_step(graph@, C as int, evaluated@, v, w)
                && 0 <= w < graph@.len() ==> reach@[w],
{
    let total: usize = graph.len();
    let ghost cc = C as int;
    let ghost rr = R as int;
    let ghost ev0 = evaluated@;
    let mut reach: Vec<bool> = Vec::new();
    let mut i: usize = 0;
    while i < total
        invariant
            0 <= i <= total,
            reach@.len() == i,
            forall|j: int| 0 <= j < i ==> !reach@[j],
        decreases total - i,
    {
        reach.push(false);
        i = i + 1;
    }
    let mut stack: Vec<usize> = Vec::new();
    stack.push(seed);
    proof {
        lemma_affected_self(graph@, cc, ev0, seed as int);
        assert(stack@[0] == seed);
    }
    loop
        invariant
            total == graph@.len(),
            rr * cc == graph@.len(),
            rr * cc <= 0x7fff_ffff,
            1 <= rr <= 0x7fff_ffff,
            1 <= cc <= 0x7fff_ffff,
            cc == C as int,
            rr == R as int,
            reach@.len() == total,
            ev0 == evaluated@,
            ev0.len() == total,
            graph_deps_in_bounds(graph@, rr, cc),
            seed < total,
            forall|i2: int|
                0 <= i2 < stack@.len() ==> (#[trigger] stack@[i2]) < total && affected(
                    graph@,
                    cc,
                    ev0,
                    seed as int,
                    stack@[i2] as int,
                ),
            forall|v: int|
                0 <= v < total && reach@[v] ==> affected(graph@, cc, ev0, seed as int, v),
            forall|v: int, w: int|
                0 <= v < total && reach@[v] && spread_step(graph@, cc, ev0, v, w) && 0 <= w
                    < total ==> crate::graph::in_frontier(reach@, stack@, w),
            crate::graph::in_frontier(reach@, stack@, seed as int),
        ensures
            reach@.len() == total,
            reach@[seed as int],
            forall|v: int|
                0 <= v < total && reach@[v] ==> affected(graph@, cc, ev0, seed as int, v),
            forall|v: int, w: int|
                0 <= v < total && reach@[v] && spread_step(graph@, cc, ev0, v, w) && 0 <= w
                    < total ==> reach@[w],
        decreases total - count_true(reach@), stack@.len(),
    {
        proof {
            lemma_count_true_bound(reach@);
        }
        if stack.len() == 0 {
            proof {
                assert forall|v: int, w: int|
                    0 <= v < total && reach@[v] && spread_step(graph@, cc, ev0, v, w) && 0 <= w
                        < total implies reach@[w] by {
                    assert(crate::graph::in_frontier(reach@, stack@, w));
                }
                assert(crate::graph::in_frontier(reach@, stack@, seed as int));
                assert(reach@[seed as int]);
            }
            break;
        }
        let ghost pop_stack = stack@;
        let v = match stack.pop() {
            Some(x) => x,
            None => {
                proof {
                    assert(false);
                }
                0
            },
        };
        proof {
            assert(stack@ =~= pop_stack.drop_last());
            assert(v == pop_stack.last());
        }
        if reach[v] {
            proof {
                assert forall|w: int|
                    crate::graph::in_frontier(reach@, pop_stack, w) implies crate::graph::in_frontier(
                    reach@,
                    stack@,
                    w,
                ) by {
                    if !(0 <= w < reach@.len() && reach@[w]) {
                        let j = choose|j: int|
                            0 <= j < pop_stack.len() && pop_stack[j] as int == w;
                        if j < pop_stack.len() - 1 {
                            assert(stack@[j] as int == w);
                        } else {
                            assert(w == v as int);
                        }
                    }
                }
            }
        } else {
            let ghost pre_reach = reach@;
            reach.set(v, true);
            proof {
                lemma_count_true_update(pre_reach, v as int);
                lemma_count_true_bound(reach@);
                assert forall|w: int|
                    crate::graph::in_frontier(pre_reach, pop_stack, w) implies crate::graph::in_frontier(
                    reach@,
                    stack@,
                    w,
                ) by {
                    if !(0 <= w < pre_reach.len() && pre_reach[w]) {
                        let j = choose|j: int|
                            0 <= j < pop_stack.len() && pop_stack[j] as int == w;
                        if j < pop_stack.len() - 1 {
                            assert(stack@[j] as int == w);
                        } else {
                            assert(w == v as int);
                            assert(reach@[w]);
                        }
                    }
                }
            }
            match &graph[v] {
                None => {
                    proof {
                        assert forall|w: int|
                            !spread_step(graph@, cc, ev0, v as int, w) by {
                            assert(dependents_at(graph@, v as int) =~= Seq::<(i32, i32)>::empty());
                            assert(dependencies_at(graph@, v as int) =~= Seq::<(
                                i32,
                                i32,
                            )>::empty());
                        }
                    }
                },
                Some(dag) => {
                    let deps = &dag.dependents;
                    let nd: usize = deps.len();
                    let mut k: usize = 0;
                    while k < nd
                        invariant
                            total == graph@.len(),
                            rr * cc == graph@.len(),
                            rr * cc <= 0x7fff_ffff,
                            1 <= cc <= 0x7fff_ffff,
                            1 <= rr <= 0x7fff_ffff,
                            cc == C as int,
                            reach@.len() == total,
                            ev0.len() == total,
                            v < total,
                            reach@[v as int],
                            graph@[v as int] matches Some(n) && n.dependents@ == deps@,
                            nd == deps@.len(),
                            0 <= k <= nd,
                            seed < total,
                            affected(graph@, cc, ev0, seed as int, v as int),
                            forall|i2: int|
                                0 <= i2 < stack@.len() ==> (#[trigger] stack@[i2]) < total
                                    && affected(graph@, cc, ev0, seed as int, stack@[i2] as int),
                            forall|vv: int|
                                0 <= vv < total && reach@[vv] ==> affected(
                                    graph@,
                                    cc,
                                    ev0,
                                    seed as int,
                                    vv,
                                ),
                            forall|vv: int, w: int|
                                0 <= vv < total && reach@[vv] && vv != v as int && spread_step(
                                    graph@,
                                    cc,
                                    ev0,
                                    vv,
                                    w,
                                ) && 0 <= w < total ==> crate::graph::in_frontier(
                                    reach@,
                                    stack@,
                                    w,
                                ),
                            forall|m: int|
                                0 <= m < k && 0 <= idx_of(#[trigger] deps@[m], cc) < total
                                    ==> crate::graph::in_frontier(
                                    reach@,
                                    stack@,
                                    idx_of(deps@[m], cc),
                                ),
                            crate::graph::in_frontier(reach@, stack@, seed as int),
                        decreases nd - k,
                    {
                        let p = deps[k];
                        proof {
                            assert(p.0 as int * cc + p.1 as int >= -0x4000_0000_0000_0000
                                && p.0 as int * cc + p.1 as int <= 0x4000_0000_0000_0000)
                                by (nonlinear_arith)
                                requires
                                    -0x8000_0000 <= p.0 as int <= 0x7fff_ffff,
                                    -0x8000_0000 <= p.1 as int <= 0x7fff_ffff,
                                    0 <= cc <= 0x7fff_ffff,
                            ;
                        }
                        let next64: i64 = p.0 as i64 * C as i64 + p.1 as i64;
                        proof {
                            assert(idx_of(deps@[k as int], cc) == next64 as int);
                        }
                        let ghost pre_stack = stack@;
                        if 0 <= next64 && next64 < total as i64 {
                            let next = next64 as usize;
                            proof {
                                assert(dependents_at(graph@, v as int).contains(deps@[k as int]));
                                assert(spec_edge(graph@, cc, v as int, next as int));
                                lemma_affected_step(
                                    graph@,
                                    cc,
                                    ev0,
                                    seed as int,
                                    v as int,
                                    next as int,
                                );
                            }
                            stack.push(next);
                            proof {
                                assert(stack@[stack@.len() - 1] == next);
                                assert(crate::graph::in_frontier(reach@, stack@, next as int));
                            }
                        }
                        proof {
                            assert forall|w: int|
                                crate::graph::in_frontier(reach@, pre_stack, w) implies crate::graph::in_frontier(
                                reach@,
                                stack@,
                                w,
                            ) by {
                                if !(0 <= w < reach@.len() && reach@[w]) {
                                    let j = choose|j: int|
                                        0 <= j < pre_stack.len() && pre_stack[j] as int == w;
                                    assert(stack@[j] as int == w);
                                }
                            }
                        }
                        k = k + 1;
                    }
                    let dps = &dag.dependencies;
                    let ndp: usize = dps.len();
                    let mut k2: usize = 0;
                    while k2 < ndp
                        invariant
                            total == graph@.len(),
                            rr * cc == graph@.len(),
                            rr * cc <= 0x7fff_ffff,
                            1 <= cc <= 0x7fff_ffff,
                            1 <= rr <= 0x7fff_ffff,
                            cc == C as int,
                            reach@.len() == total,
                            ev0 == evaluated@,
                            ev0.len() == total,
                            v < total,
                            reach@[v as int],
                            graph@[v as int] matches Some(n) && n.dependents@ == deps@
                                && n.dependencies@ == dps@,
                            nd == deps@.len(),
                            ndp == dps@.len(),
                            0 <= k2 <= ndp,
                            seed < total,
                            graph_deps_in_bounds(graph@, rr, cc),
                            affected(graph@, cc, ev0, seed as int, v as int),
                            forall|i2: int|
                                0 <= i2 < stack@.len() ==> (#[trigger] stack@[i2]) < total
                                    && affected(graph@, cc, ev0, seed as int, stack@[i2] as int),
                            forall|vv: int|
                                0 <= vv < total && reach@[vv] ==> affected(
                                    graph@,
                                    cc,
                                    ev0,
                                    seed as int,
                                    vv,
                                ),
                            forall|vv: int, w: int|
                                0 <= vv < total && reach@[vv] && vv != v as int && spread_step(
                                    graph@,
                                    cc,
                                    ev0,
                                    vv,
                                    w,
                                ) && 0 <= w < total ==> crate::graph::in_frontier(
                                    reach@,
                                    stack@,
                                    w,
                                ),
                            forall|m: int|
                                0 <= m < nd && 0 <= idx_of(#[trigger] deps@[m], cc) < total
                                    ==> crate::graph::in_frontier(
                                    reach@,
                                    stack@,
                                    idx_of(deps@[m], cc),
                                ),
                            forall|m: int|
                                0 <= m < k2 && !ev0[idx_of(#[trigger] dps@[m], cc)]
                                    ==> crate::graph::in_frontier(
                                    reach@,
                                    stack@,
                                    idx_of(dps@[m], cc),
                                ),
                            crate::graph::in_frontier(reach@, stack@, seed as int),
                        decreases ndp - k2,
                    {
                        let q = dps[k2];
                        proof {
                            assert(dependencies_at(graph@, v as int)[k2 as int] == q);
                            crate::graph::lemma_idx_in_range(q, rr, cc);
                        }
                        let dep_idx: usize = (q.0 as usize) * (C as usize) + (q.1 as usize);
                        proof {
                            assert(idx_of(dps@[k2 as int], cc) == dep_idx as int);
                        }
                        let ghost pre_stack = stack@;
                        if !evaluated[dep_idx] {
                            proof {
                                assert(dependencies_at(graph@, v as int).contains(
                                    dps@[k2 as int],
                                ));
                                assert(dep_link(graph@, cc, v as int, dep_idx as int));
                                assert(spread_step(graph@, cc, ev0, v as int, dep_idx as int));
                                lemma_affected_step(
                                    graph@,
                                    cc,
                                    ev0,
                                    seed as int,
                                    v as int,
                                    dep_idx as int,
                                );
                            }
                            stack.push(dep_idx);
                            proof {
                                assert(stack@[stack@.len() - 1] == dep_idx);
                                assert(crate::graph::in_frontier(reach@, stack@, dep_idx as int));
                            }
                        }
                        proof {
                            assert forall|w: int|
                                crate::graph::in_frontier(reach@, pre_stack, w) implies crate::graph::in_frontier(
                                reach@,
                                stack@,
                                w,
                            ) by {
                                if !(0 <= w < reach@.len() && reach@[w]) {
                                    let j = choose|j: int|
                                        0 <= j < pre_stack.len() && pre_stack[j] as int == w;
                                    assert(stack@[j] as int == w);
                                }
                            }
                        }
                        k2 = k2 + 1;
                    }
                    proof {
                        assert forall|w: int|
                            spread_step(graph@, cc, ev0, v as int, w) && 0 <= w
                                < total implies crate::graph::in_frontier(reach@, stack@, w) by {
                            if spec_edge(graph@, cc, v as int, w) {
                                let p = choose|p: (i32, i32)|
                                    dependents_at(graph@, v as int).contains(p) && idx_of(p, cc)
                                        == w;
                                let m = choose|m: int|
                                    0 <= m < deps@.len() && deps@[m] == p;
                                assert(0 <= idx_of(deps@[m], cc) < total);
                            } else {
                                let p = choose|p: (i32, i32)|
                                    dependencies_at(graph@, v as int).contains(p) && idx_of(p, cc)
                                        == w;
                                let m = choose|m: int|
                                    0 <= m < dps@.len() && dps@[m] == p;
                                assert(!ev0[idx_of(dps@[m], cc)]);
                            }
                        }
                    }
                },
            }
        }
    }
    reach
}

/// A freshly recomputed cell: its formula is unchanged and its value and
/// error flag agree with evaluating that formula on the current sheet; a
/// cell without a formula keeps its value and has its error flag cleared.
pub open spec fn newly_ok(s0: Seq<Vec<cell>>, s: Seq<Vec<cell>>, i: int, cc: int) -> bool {
    match formula_at(s0, i, cc) {
        Some(f) => {
            &&& cell_at(s, i, cc).val == spec_eval(f, s).0
            &&& cell_at(s, i, cc).err == (if spec_eval(f, s).1 {
                1int
            } else {
                0int
            })
        },
        None => {
            &&& cell_at(s, i, cc).val == cell_at(s0, i, cc).val
            &&& cell_at(s, i, cc).err == 0
        },
    }
}

/// How a recomputation round relates the state to the state at entry: the
/// shape is unchanged, formulas are untouched, marks only grow, anything
/// not freshly marked is untouched, and every freshly marked cell has all
/// of its dependencies marked and a value consistent with the sheet.
pub open spec fn recompute_inv(
    s0: Seq<Vec<cell>>,
    s: Seq<Vec<cell>>,
    g: Seq<Option<Box<DAGNode>>>,
    ev0: Seq<bool>,
    ev: Seq<bool>,
    cc: int,
) -> bool {
    &&& s.len() == s0.len()
    &&& spec_cols(s) == spec_cols(s0)
    &&& rect_sheet(s)
    &&& ev.len() == ev0.len()
    &&& ev.len() == g.len()
    &&& forall|i: int| 0 <= i < ev.len() && ev0[i] ==> ev[i]
    &&& forall|i: int| 0 <= i < ev.len() ==> #[trigger] formula_at(s, i, cc) == formula_at(s0, i, cc)
    &&& forall|i: int|
        0 <= i < ev.len() && ev[i] && !ev0[i] ==> deps_done(g, ev, cc, i)
    &&& forall|i: int|
        0 <= i < ev.len() && !(ev[i] && !ev0[i]) ==> #[trigger] cell_at(s, i, cc) == cell_at(
            s0,
            i,
            cc,
        )
    &&& forall|i: int| 0 <= i < ev.len() && ev[i] && !ev0[i] ==> #[trigger] newly_ok(s0, s, i, cc)
}

/// Recomputes the subgraph affected by the seed cell, in dependency order:
/// the seed, its transitive dependents, and the not-yet-evaluated
/// dependencies they need, and nothing else.  Within that set it repeatedly
/// sweeps for cells whose dependencies are all marked, evaluates them, and
/// propagates; cells already marked, and every cell outside the affected
/// set, are left untouched.  The acyclic graph guarantees the sweep never
/// stalls, so on return the whole affected set is marked, and every cell
/// computed here agrees with evaluating its formula against the final
/// sheet.
pub fn evaluate_cell(
    row: i32,
    col: i32,
    sheet: &mut Vec<Vec<cell>>,
    graph: &Vec<Option<Box<DAGNode>>>,
    evaluated: &mut Vec<bool>,
    R: i32,
    C: i32,
)
    requires
        1 <= R,
        1 <= C,
        R as int * C as int <= 0x7fff_ffff,
        old(sheet)@.len() == R as int,
        spec_cols(old(sheet)@) == C as int,
        rect_sheet(old(sheet)@),
        graph@.len() == R as int * C as int,
        old(evaluated)@.len() == graph@.len(),
        0 <= row < R,
        0 <= col < C,
        acyclic(graph@, C as int),
        graph_deps_in_bounds(graph@, R as int, C as int),
        graph_mirrored(graph@, R as int, C as int),
        deps_covered(old(sheet)@, graph@, R as int, C as int),
    ensures
        recompute_inv(
            old(sheet)@,
            final(sheet)@,
            graph@,
            old(evaluated)@,
            final(evaluated)@,
            C as int,
        ),
        forall|j: int|
            0 <= j < graph@.len() && final(evaluated)@[j] && !old(evaluated)@[j]
                ==> #[trigger] affected(
                graph@,
                C as int,
                old(evaluated)@,
                grid_idx(row as int, col as int, C as int),
                j,
            ),
        forall|j: int|
            #[trigger] affected(
                graph@,
                C as int,
                old(evaluated)@,
                grid_idx(row as int, col as int, C as int),
                j,
            ) ==> 0 <= j < graph@.len() && final(evaluated)@[j],
        forall|j: int|
            0 <= j < graph@.len() && !#[trigger] affected(
                graph@,
                C as int,
                old(evaluated)@,
                grid_idx(row as int, col as int, C as int),
                j,
            ) ==> final(evaluated)@[j] == old(evaluated)@[j] && cell_at(
                final(sheet)@,
                j,
                C as int,
            ) == cell_at(old(sheet)@, j, C as int),
{
    let ghost s0 = sheet@;
    let ghost ev0 = evaluated@;
    let ghost cc = C as int;
    let ghost rr = R as int;
    let total: usize = (R as usize) * (C as usize);
    proof {
        crate::graph::lemma_idx_in_range((row, col), rr, cc);
    }
    let seed_idx: usize = (row as usize) * (C as usize) + (col as usize);
    let ghost seedi = grid_idx(row as int, col as int, cc);
    let reach = collect_affected(graph, evaluated, seed_idx, R, C);
    loop
        invariant
            total == graph@.len(),
            cc == C as int,
            rr == R as int,
            1 <= C,
            1 <= R,
            rr * cc == graph@.len(),
            rr * cc <= 0x7fff_ffff,
            s0.len() == rr,
            spec_cols(s0) == cc,
            acyclic(graph@, cc),
            graph_deps_in_bounds(graph@, rr, cc),
            graph_mirrored(graph@, rr, cc),
            deps_covered(s0, graph@, rr, cc),
            ev0.len() == graph@.len(),
            recompute_inv(s0, sheet@, graph@, ev0, evaluated@, cc),
            0 <= seedi < graph@.len(),
            reach@.len() == graph@.len(),
            reach@[seedi],
            forall|j: int|
                0 <= j < graph@.len() && reach@[j] ==> affected(graph@, cc, ev0, seedi, j),
            forall|v: int, w: int|
                0 <= v < graph@.len() && reach@[v] && spread_step(graph@, cc, ev0, v, w) && 0 <= w
                    < graph@.len() ==> reach@[w],
            forall|j: int| 0 <= j < graph@.len() && evaluated@[j] && !ev0[j] ==> reach@[j],
        ensures
            recompute_inv(s0, sheet@, graph@, ev0, evaluated@, cc),
            forall|j: int| 0 <= j < graph@.len() && evaluated@[j] && !ev0[j] ==> reach@[j],
            forall|a: int|
                0 <= a < graph@.len() && !evaluated@[a] && reach@[a] ==> exists|k: int|
                    0 <= k < dependencies_at(graph@, a).len() && !evaluated@[idx_of(
                        #[trigger] dependencies_at(graph@, a)[k],
                        cc,
                    )],
        decreases graph@.len() - count_true(evaluated@),
    {
        proof {
            lemma_count_true_bound(evaluated@);
        }
        let ghost ev_start = evaluated@;
        let mut progressed = false;
        let mut idx: usize = 0;
        while idx < total
            invariant
                0 <= idx <= total,
                total == graph@.len(),
                cc == C as int,
                rr == R as int,
                1 <= C,
                1 <= R,
                rr * cc == graph@.len(),
                rr * cc <= 0x7fff_ffff,
                s0.len() == rr,
                spec_cols(s0) == cc,
                acyclic(graph@, cc),
                graph_deps_in_bounds(graph@, rr, cc),
                graph_mirrored(graph@, rr, cc),
                deps_covered(s0, graph@, rr, cc),
                ev0.len() == graph@.len(),
                recompute_inv(s0, sheet@, graph@, ev0, evaluated@, cc),
                reach@.len() == graph@.len(),
                forall|j: int| 0 <= j < graph@.len() && evaluated@[j] && !ev0[j] ==> reach@[j],
                progressed ==> count_true(evaluated@) > count_true(ev_start),
                !progressed ==> evaluated@ == ev_start,
                !progressed ==> forall|a: int|
                    0 <= a < idx && !evaluated@[a] && reach@[a] ==> exists|k: int|
                        0 <= k < dependencies_at(graph@, a).len() && !evaluated@[idx_of(
                            #[trigger] dependencies_at(graph@, a)[k],
                            cc,
                        )],
            decreases total - idx,
        {
            let in_reach = reach[idx];
            if in_reach && !evaluated[idx] {
                let mut ready = true;
                match &graph[idx] {
                    Some(dag) => {
                        let nd: usize = dag.dependencies.len();
                        let mut k: usize = 0;
                        while k < nd
                            invariant
                                0 <= k <= nd,
                                idx < total,
                                total == graph@.len(),
                                cc == C as int,
                                1 <= C,
                                rr == R as int,
                                rr * cc == graph@.len(),
                                rr * cc <= 0x7fff_ffff,
                                graph_deps_in_bounds(graph@, rr, cc),
                                evaluated@.len() == graph@.len(),
                                nd == dependencies_at(graph@, idx as int).len(),
                                graph@[idx as int] matches Some(n) && n.dependencies@
                                    == dag.dependencies@,
                                ready == (forall|m: int|
                                    0 <= m < k ==> evaluated@[idx_of(
                                        #[trigger] dependencies_at(graph@, idx as int)[m],
                                        cc,
                                    )]),
                            decreases nd - k,
                        {
                            let p = dag.dependencies[k];
                            proof {
                                assert(dependencies_at(graph@, idx as int)[k as int] == p);
                                crate::graph::lemma_idx_in_range(p, rr, cc);
                            }
                            let dep_idx: usize = (p.0 as usize) * (C as usize) + (p.1 as usize);
                            if !evaluated[dep_idx] {
                                ready = false;
                            }
                            k = k + 1;
                        }
                    },
                    None => {
                        proof {
                            assert(dependencies_at(graph@, idx as int) =~= Seq::<(
                                i32,
                                i32,
                            )>::empty());
                        }
                    },
                }
                if ready {
                    proof {
                        assert(deps_done(graph@, evaluated@, cc, idx as int));
                        lemma_flat(idx as int, rr, cc);
                    }
                    let row_i: usize = idx / (C as usize);
                    let col_i: usize = idx % (C as usize);
                    let ghost pre_sheet = sheet@;
                    let ghost idxi = idx as int;
                    let has_formula = sheet[row_i][col_i].formula.is_some();
                    if has_formula {
                        let fm = match &sheet[row_i][col_i].formula {
                            Some(f) => f.clone(),
                            None => {
                                proof {
                                    assert(false);
                                }
                                Formula::Literal(0)
                            },
                        };
                        let mut flag: i32 = 0;
                        let val = evaluate_formula(&fm, sheet, &mut flag);
                        let rowv = &mut sheet[row_i];
                        let cl = &mut rowv[col_i];
                        cl.val = val;
                        cl.err = flag;
                        proof {
                            lemma_write_ok(
                                s0,
                                pre_sheet,
                                sheet@,
                                graph@,
                                ev0,
                                evaluated@,
                                rr,
                                cc,
                                idxi,
                            );
                            assert(spec_eval(fm, sheet@) == spec_eval(fm, pre_sheet)) by {
                                lemma_self_frame(
                                    s0,
                                    pre_sheet,
                                    sheet@,
                                    graph@,
                                    ev0,
                                    evaluated@,
                                    rr,
                                    cc,
                                    idxi,
                                    fm,
                                );
                            }
                            assert(newly_ok(s0, sheet@, idxi, cc));
                        }
                    } else {
                        let rowv = &mut sheet[row_i];
                        let cl = &mut rowv[col_i];
                        cl.err = 0;
                        proof {
                            lemma_write_ok(
                                s0,
                                pre_sheet,
                                sheet@,
                                graph@,
                                ev0,
                                evaluated@,
                                rr,
                                cc,
                                idxi,
                            );
                            assert(newly_ok(s0, sheet@, idxi, cc));
                        }
                    }
                    let ghost ev_pre = evaluated@;
                    evaluated.set(idx, true);
                    proof {
                        lemma_count_true_update(ev_pre, idxi);
                        lemma_count_true_bound(ev_pre);
                        if progressed {
                            lemma_count_true_bound(evaluated@);
                        }
                        assert forall|i: int|
                            0 <= i < evaluated@.len() && evaluated@[i] && !ev0[i] implies deps_done(
                            graph@,
                            evaluated@,
                            cc,
                            i,
                        ) by {
                            if i != idxi {
                                assert(deps_done(graph@, ev_pre, cc, i));
                            } else {
                                assert(deps_done(graph@, ev_pre, cc, idxi));
                            }
                            assert forall|k: int|
                                0 <= k < dependencies_at(graph@, i).len() implies evaluated@[idx_of(
                                #[trigger] dependencies_at(graph@, i)[k],
                                cc,
                            )] by {
                                let p = dependencies_at(graph@, i)[k];
                                crate::graph::lemma_idx_in_range(p, rr, cc);
                                assert(ev_pre[idx_of(p, cc)]);
                            }
                        }
                        assert(recompute_inv(s0, sheet@, graph@, ev0, evaluated@, cc));
                    }
                    progressed = true;
                }
            }
            idx = idx + 1;
        }
        proof {
            lemma_count_true_bound(evaluated@);
        }
        if !progressed {
            break;
        }
    }
    proof {
        let g = graph@;
        let n = g.len() as int;
        let ev2 = Seq::new(g.len(), |i: int| evaluated@[i] || !reach@[i]);
        assert forall|a: int|
            0 <= a < n && !ev2[a] implies exists|k: int|
                0 <= k < dependencies_at(g, a).len() && !ev2[idx_of(
                    #[trigger] dependencies_at(g, a)[k],
                    cc,
                )] by {
            assert(!evaluated@[a] && reach@[a]);
            let k = choose|k: int|
                0 <= k < dependencies_at(g, a).len() && !evaluated@[idx_of(
                    #[trigger] dependencies_at(g, a)[k],
                    cc,
                )];
            let q = dependencies_at(g, a)[k];
            crate::graph::lemma_idx_in_range(q, rr, cc);
            let d = idx_of(q, cc);
            assert(!ev0[d]);
            assert(dependencies_at(g, a).contains(q));
            assert(dep_link(g, cc, a, d));
            assert(spread_step(g, cc, ev0, a, d));
            assert(reach@[d]);
            assert(!ev2[d]);
        }
        lemma_no_stall(g, rr, cc, ev2);
        assert forall|j: int|
            #[trigger] affected(g, cc, ev0, seedi, j) implies 0 <= j < n && evaluated@[j] by {
            let s = choose|s: Seq<int>|
                spread_chain(g, cc, ev0, s) && s.first() == seedi && s.last() == j;
            lemma_spread_closed(g, cc, ev0, reach@, s);
            assert(reach@[j]);
            assert(ev2[j]);
        }
        assert forall|j: int|
            0 <= j < n && evaluated@[j] && !ev0[j] implies #[trigger] affected(
            g,
            cc,
            ev0,
            seedi,
            j,
        ) by {
            assert(reach@[j]);
        }
        assert forall|j: int|
            0 <= j < n && !#[trigger] affected(g, cc, ev0, seedi, j) implies evaluated@[j]
            == ev0[j] && cell_at(sheet@, j, cc) == cell_at(s0, j, cc) by {
            assert(!reach@[j]);
            assert(!(evaluated@[j] && !ev0[j]));
            assert(!(evaluated@[j] && !ev0[j]) ==> cell_at(sheet@, j, cc) == cell_at(s0, j, cc));
        }
    }
}

/// After writing the value and error of one not-yet-marked cell, the rest
/// of the recomputation invariant still holds: every other cell is
/// untouched, and every previously recomputed cell still agrees with the
/// sheet, because its dependencies are all marked and so unchanged.
proof fn lemma_write_ok(
    s0: Seq<Vec<cell>>,
    pre: Seq<Vec<cell>>,
    post: Seq<Vec<cell>>,
    g: Seq<Option<Box<DAGNode>>>,
    ev0: Seq<bool>,
    ev: Seq<bool>,
    rr: int,
    cc: int,
    idxi: int,
)
    requires
        1 <= cc <= 0x7fff_ffff,
        1 <= rr <= 0x7fff_ffff,
        g.len() == rr * cc,
        deps_covered(s0, g, rr, cc),
        recompute_inv(s0, pre, g, ev0, ev, cc),
        s0.len() == rr,
        spec_cols(s0) == cc,
        0 <= idxi < g.len(),
        !ev[idxi],
        post.len() == pre.len(),
        post =~= pre.update(idxi / cc, post[idxi / cc]),
        post[idxi / cc]@ =~= pre[idxi / cc]@.update(idxi % cc, post[idxi / cc]@[idxi % cc]),
        cell_at(post, idxi, cc).formula == cell_at(pre, idxi, cc).formula,
    ensures
        post.len() == s0.len(),
        spec_cols(post) == spec_cols(s0),
        rect_sheet(post),
        forall|j: int|
            0 <= j < g.len() && j != idxi ==> #[trigger] cell_at(post, j, cc) == cell_at(
                pre,
                j,
                cc,
            ),
        forall|j: int|
            0 <= j < g.len() ==> #[trigger] formula_at(post, j, cc) == formula_at(s0, j, cc),
        forall|j: int|
            0 <= j < g.len() && ev[j] && !ev0[j] ==> #[trigger] newly_ok(s0, post, j, cc),
        forall|j: int|
            0 <= j < g.len() && !(ev[j] && !ev0[j]) && j != idxi ==> #[trigger] cell_at(
                post,
                j,
                cc,
            ) == cell_at(s0, j, cc),
{
    lemma_flat(idxi, rr, cc);
    let wr = idxi / cc;
    let wc = idxi % cc;
    assert(spec_cols(post) == spec_cols(pre)) by {
        if wr == 0 {
            assert(post[0]@.len() == pre[0]@.len());
        }
    }
    assert forall|j: int|
        0 <= j < g.len() && j != idxi implies #[trigger] cell_at(post, j, cc) == cell_at(
        pre,
        j,
        cc,
    ) by {
        lemma_flat(j, rr, cc);
        if j / cc == wr && j % cc == wc {
            assert(grid_idx(j / cc, j % cc, cc) == j && grid_idx(wr, wc, cc) == idxi);
            assert(false);
        }
    }
    assert forall|j: int|
        0 <= j < g.len() implies #[trigger] formula_at(post, j, cc) == formula_at(s0, j, cc) by {
        if j != idxi {
            assert(cell_at(post, j, cc) == cell_at(pre, j, cc));
        }
        assert(formula_at(pre, j, cc) == formula_at(s0, j, cc));
    }
    assert forall|j: int|
        0 <= j < g.len() && ev[j] && !ev0[j] implies #[trigger] newly_ok(s0, post, j, cc) by {
        assert(newly_ok(s0, pre, j, cc));
        assert(j != idxi);
        match formula_at(s0, j, cc) {
            Some(f) => {
                assert(spec_eval(f, post) == spec_eval(f, pre)) by {
                    lemma_frame_from_done(s0, pre, post, g, ev, rr, cc, idxi, j, f);
                }
            },
            None => {},
        }
    }
}

/// A marked cell's formula evaluates the same before and after a write to
/// an unmarked cell, since all of its dependencies are marked.
proof fn lemma_frame_from_done(
    s0: Seq<Vec<cell>>,
    pre: Seq<Vec<cell>>,
    post: Seq<Vec<cell>>,
    g: Seq<Option<Box<DAGNode>>>,
    ev: Seq<bool>,
    rr: int,
    cc: int,
    idxi: int,
    j: int,
    f: Formula,
)
    requires
        1 <= cc <= 0x7fff_ffff,
        1 <= rr <= 0x7fff_ffff,
        g.len() == rr * cc,
        ev.len() == g.len(),
        deps_covered(s0, g, rr, cc),
        pre.len() == rr,
        post.len() == rr,
        spec_cols(pre) == cc,
        spec_cols(post) == cc,
        formula_at(s0, j, cc) == Some(f),
        0 <= j < g.len(),
        0 <= idxi < g.len(),
        !ev[idxi],
        deps_done(g, ev, cc, j),
        forall|x: int|
            0 <= x < g.len() && x != idxi ==> #[trigger] cell_at(post, x, cc) == cell_at(
                pre,
                x,
                cc,
            ),
    ensures
        spec_eval(f, post) == spec_eval(f, pre),
{
    assert forall|d: CellRef|
        formula_deps(f).contains(d) && in_bounds(d, pre.len() as int, spec_cols(pre)) implies pre[d.row as int]@[d.col as int]
        == post[d.row as int]@[d.col as int] by {
        assert(dependencies_at(g, j).contains((d.row, d.col)));
        let k = choose|k: int|
            0 <= k < dependencies_at(g, j).len() && dependencies_at(g, j)[k] == (d.row, d.col);
        crate::graph::lemma_idx_in_range((d.row, d.col), rr, cc);
        let di = idx_of((d.row, d.col), cc);
        assert(ev[di]);
        assert(di != idxi);
        lemma_flat_inverse(d.row as int, d.col as int, cc);
        assert(cell_at(post, di, cc) == cell_at(pre, di, cc));
        assert(cell_at(pre, di, cc) == pre[d.row as int]@[d.col as int]);
        assert(cell_at(post, di, cc) == post[d.row as int]@[d.col as int]);
    }
    lemma_eval_frame(f, pre, post);
}

/// The cell just written does not appear among its own dependencies, so its
/// formula evaluates the same before and after its own value is stored.
proof fn lemma_self_frame(
    s0: Seq<Vec<cell>>,
    pre: Seq<Vec<cell>>,
    post: Seq<Vec<cell>>,
    g: Seq<Option<Box<DAGNode>>>,
    ev0: Seq<bool>,
    ev: Seq<bool>,
    rr: int,
    cc: int,
    idxi: int,
    f: Formula,
)
    requires
        1 <= cc <= 0x7fff_ffff,
        1 <= rr <= 0x7fff_ffff,
        g.len() == rr * cc,
        ev.len() == g.len(),
        deps_covered(s0, g, rr, cc),
        pre.len() == rr,
        post.len() == rr,
        spec_cols(pre) == cc,
        spec_cols(post) == cc,
        formula_at(s0, idxi, cc) == Some(f),
        0 <= idxi < g.len(),
        !ev[idxi],
        deps_done(g, ev, cc, idxi),
        forall|x: int|
            0 <= x < g.len() && x != idxi ==> #[trigger] cell_at(post, x, cc) == cell_at(
                pre,
                x,
                cc,
            ),
    ensures
        spec_eval(f, post) == spec_eval(f, pre),
{
    lemma_frame_from_done(s0, pre, post, g, ev, rr, cc, idxi, idxi, f);
}

} // verus!
