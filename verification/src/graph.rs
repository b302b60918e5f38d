//! The dependency graph: one node per grid cell, edge insertion with cycle
//! rejection, and the reachability query that guards it.
//!
//! Nodes are addressed by flattened index `row * cols + col`.  An edge runs
//! from a cell to each of its dependents, so a path follows the direction in
//! which changes propagate.

use vstd::prelude::*;

use crate::ast::DAGNode;

verus! {

/// The flattened index of a `(row, col)` pair.
pub open spec fn idx_of(p: (i32, i32), cc: int) -> int {
    p.0 * cc + p.1
}

/// The dependents list of node `a`, when the slot is filled.
pub open spec fn dependents_at(g: Seq<Option<Box<DAGNode>>>, a: int) -> Seq<(i32, i32)> {
    match g[a] {
        Some(n) => n.dependents@,
        None => Seq::empty(),
    }
}

/// The dependencies list of node `a`, when the slot is filled.
pub open spec fn dependencies_at(g: Seq<Option<Box<DAGNode>>>, a: int) -> Seq<(i32, i32)> {
    match g[a] {
        Some(n) => n.dependencies@,
        None => Seq::empty(),
    }
}

/// There is an edge from node `a` to node `b`: some entry of `a`'s
/// dependents list names a cell whose flattened index is `b`, and both ends
/// lie inside the graph.
pub open spec fn spec_edge(g: Seq<Option<Box<DAGNode>>>, cc: int, a: int, b: int) -> bool {
    &&& 0 <= a < g.len()
    &&& 0 <= b < g.len()
    &&& exists|p: (i32, i32)| dependents_at(g, a).contains(p) && idx_of(p, cc) == b
}

/// `s` is a walk through the graph: non-empty, inside the node range, and
/// stepping only along edges.
pub open spec fn is_path(g: Seq<Option<Box<DAGNode>>>, cc: int, s: Seq<int>) -> bool {
    &&& s.len() >= 1
    &&& forall|i: int| 0 <= i < s.len() ==> 0 <= #[trigger] s[i] < g.len()
    &&& forall|i: int| 0 <= i < s.len() - 1 ==> spec_edge(g, cc, #[trigger] s[i], s[i + 1])
}

/// Node `b` can be reached from node `a` by following edges; every node
/// reaches itself.
pub open spec fn spec_reachable(g: Seq<Option<Box<DAGNode>>>, cc: int, a: int, b: int) -> bool {
    exists|s: Seq<int>| is_path(g, cc, s) && s.first() == a && s.last() == b
}

/// No walk of at least one edge returns to its starting node.
pub open spec fn acyclic(g: Seq<Option<Box<DAGNode>>>, cc: int) -> bool {
    forall|s: Seq<int>|
        !(#[trigger] is_path(g, cc, s) && s.len() >= 2 && s.first() == s.last())
}

/// Every node inside the range reaches itself.
pub proof fn lemma_reachable_self(g: Seq<Option<Box<DAGNode>>>, cc: int, a: int)
    requires
        0 <= a < g.len(),
    ensures
        spec_reachable(g, cc, a, a),
{
    let s: Seq<int> = seq![a];
    assert(is_path(g, cc, s));
    assert(s.first() == a && s.last() == a);
}

/// Reachability extends along one more edge.
pub proof fn lemma_reachable_step(g: Seq<Option<Box<DAGNode>>>, cc: int, a: int, b: int, c: int)
    requires
        spec_reachable(g, cc, a, b),
        spec_edge(g, cc, b, c),
    ensures
        spec_reachable(g, cc, a, c),
{
    let s = choose|s: Seq<int>| is_path(g, cc, s) && s.first() == a && s.last() == b;
    let t = s.push(c);
    assert(forall|i: int| 0 <= i < s.len() ==> t[i] == #[trigger] s[i]);
    assert(is_path(g, cc, t));
    assert(t.first() == a && t.last() == c);
}

/// A set of nodes closed under edges that holds a path's start holds its
/// end.
pub proof fn lemma_closed_under_edges(
    g: Seq<Option<Box<DAGNode>>>,
    cc: int,
    marked: Seq<bool>,
    s: Seq<int>,
)
    requires
        marked.len() == g.len(),
        is_path(g, cc, s),
        marked[s.first()],
        forall|v: int, w: int|
            0 <= v < g.len() && marked[v] && spec_edge(g, cc, v, w) ==> marked[w],
    ensures
        marked[s.last()],
    decreases s.len(),
{
    if s.len() > 1 {
        let t = s.drop_first();
        assert(spec_edge(g, cc, s[0], s[1]));
        assert(marked[s[1]]);
        assert(forall|i: int| 0 <= i < t.len() ==> t[i] == #[trigger] s[i + 1]);
        assert(is_path(g, cc, t));
        lemma_closed_under_edges(g, cc, marked, t);
    }
}

/// How many entries of a boolean sequence are set.
pub open spec fn count_true(s: Seq<bool>) -> int
    decreases s.len(),
{
    if s.len() == 0 {
        0
    } else {
        count_true(s.drop_last()) + if s.last() {
            1int
        } else {
            0int
        }
    }
}

/// The count of set entries is bounded by the length.
pub proof fn lemma_count_true_bound(s: Seq<bool>)
    ensures
        0 <= count_true(s) <= s.len(),
    decreases s.len(),
{
    if s.len() > 0 {
        lemma_count_true_bound(s.drop_last());
    }
}

/// Setting a clear entry raises the count by one.
pub proof fn lemma_count_true_update(s: Seq<bool>, i: int)
    requires
        0 <= i < s.len(),
        !s[i],
    ensures
        count_true(s.update(i, true)) == count_true(s) + 1,
    decreases s.len(),
{
    let t = s.update(i, true);
    if i == s.len() - 1 {
        assert(t.drop_last() =~= s.drop_last());
    } else {
        assert(t.drop_last() =~= s.drop_last().update(i, true));
        assert(t.last() == s.last());
        lemma_count_true_update(s.drop_last(), i);
    }
}

/// Node `w` is already visited, or waiting on the work stack.
pub open spec fn in_frontier(visited: Seq<bool>, stack: Seq<usize>, w: int) -> bool {
    ||| (0 <= w < visited.len() && visited[w])
    ||| exists|j: int| 0 <= j < stack.len() && stack[j] as int == w
}

/// Depth-first search over the dependents edges, with an explicit work
/// stack and a visited bitmap sized to the grid; the bitmap must come in
/// clear.  Reports whether `target` can be reached from `curr`.
#[verifier::rlimit(80)]
pub fn dfs(
    graph: &Vec<Option<Box<DAGNode>>>,
    R: i32,
    C: i32,
    curr: usize,
    target: usize,
    visited: &mut Vec<bool>,
) -> (r: bool)
    requires
        graph@.len() == R as int * C as int,
        C >= 0,
        old(visited)@.len() == graph@.len(),
        forall|i: int| 0 <= i < old(visited)@.len() ==> !old(visited)@[i],
    ensures
        r == spec_reachable(graph@, C as int, curr as int, target as int),
{
    let total: usize = graph.len();
    let ghost cc = C as int;
    proof {
        assert(total < 0x4000_0000_0000_0000) by (nonlinear_arith)
            requires
                total == R as int * C as int,
                R <= 0x7fff_ffff,
                0 <= C <= 0x7fff_ffff,
                total >= 0,
        ;
    }
    if curr >= total {
        proof {
            if spec_reachable(graph@, cc, curr as int, target as int) {
                let s = choose|s: Seq<int>|
                    is_path(graph@, cc, s) && s.first() == curr as int && s.last()
                        == target as int;
                assert(0 <= s[0] < graph@.len());
            }
        }
        return false;
    }
    let mut stack: Vec<usize> = Vec::new();
    stack.push(curr);
    proof {
        lemma_reachable_self(graph@, cc, curr as int);
        assert(stack@[0] == curr);
    }
    loop
        invariant
            total == graph@.len(),
            total < 0x4000_0000_0000_0000,
            visited@.len() == total,
            cc == C as int,
            C >= 0,
            curr < total,
            forall|i: int|
                0 <= i < stack@.len() ==> (#[trigger] stack@[i]) < total && spec_reachable(
                    graph@,
                    cc,
                    curr as int,
                    stack@[i] as int,
                ),
            forall|v: int|
                0 <= v < total && visited@[v] ==> spec_reachable(graph@, cc, curr as int, v),
            forall|v: int, w: int|
                0 <= v < total && visited@[v] && spec_edge(graph@, cc, v, w) ==> in_frontier(
                    visited@,
                    stack@,
                    w,
                ),
            in_frontier(visited@, stack@, curr as int),
            target < total ==> !visited@[target as int],
        ensures
            visited@.len() == total,
            visited@[curr as int],
            target < total ==> !visited@[target as int],
            forall|v: int, w: int|
                0 <= v < total && visited@[v] && spec_edge(graph@, cc, v, w) ==> (0 <= w < total
                    && visited@[w]),
        decreases total - count_true(visited@), stack@.len(),
    {
        proof {
            lemma_count_true_bound(visited@);
        }
        if stack.len() == 0 {
            proof {
                assert forall|v: int, w: int|
                    0 <= v < total && visited@[v] && spec_edge(graph@, cc, v, w) implies (0 <= w
                    < total && visited@[w]) by {
                    assert(in_frontier(visited@, stack@, w));
                }
                assert(in_frontier(visited@, stack@, curr as int));
                assert(visited@[curr as int]);
            }
            break;
        }
        let ghost pop_stack = stack@;
        let v = match stack.pop() {
            Some(x) => x,
            None => {
                proof {
                    assert(false);
                }
                0
            },
        };
        proof {
            assert(stack@ =~= pop_stack.drop_last());
            assert(v == pop_stack.last());
        }
        if v == target {
            return true;
        }
        if visited[v] {
            proof {
                assert forall|w: int|
                    in_frontier(visited@, pop_stack, w) implies in_frontier(
                    visited@,
                    stack@,
                    w,
                ) by {
                    if !(0 <= w < visited@.len() && visited@[w]) {
                        let j = choose|j: int|
                            0 <= j < pop_stack.len() && pop_stack[j] as int == w;
                        if j < pop_stack.len() - 1 {
                            assert(stack@[j] as int == w);
                        } else {
                            assert(w == v as int);
                        }
                    }
                }
            }
        } else {
            let ghost pre_visited = visited@;
            visited.set(v, true);
            proof {
                lemma_count_true_update(pre_visited, v as int);
                lemma_count_true_bound(visited@);
                assert forall|w: int|
                    in_frontier(pre_visited, pop_stack, w) implies in_frontier(
                    visited@,
                    stack@,
                    w,
                ) by {
                    if !(0 <= w < pre_visited.len() && pre_visited[w]) {
                        let j = choose|j: int|
                            0 <= j < pop_stack.len() && pop_stack[j] as int == w;
                        if j < pop_stack.len() - 1 {
                            assert(stack@[j] as int == w);
                        } else {
                            assert(w == v as int);
                            assert(visited@[w]);
                        }
                    }
                }
            }
            match &graph[v] {
                None => {
                    proof {
                        assert forall|w: int| !spec_edge(graph@, cc, v as int, w) by {
                            assert(dependents_at(graph@, v as int) =~= Seq::<(i32, i32)>::empty());
                        }
                    }
                },
                Some(dag) => {
                    let deps = &dag.dependents;
                    let nd: usize = deps.len();
                    let mut di: usize = 0;
                    while di < nd
                        invariant
                            total == graph@.len(),
                            total < 0x4000_0000_0000_0000,
                            visited@.len() == total,
                            cc == C as int,
                            C >= 0,
                            curr < total,
                            v < total,
                            visited@[v as int],
                            graph@[v as int] matches Some(n) && n.dependents@ == deps@,
                            nd == deps@.len(),
                            0 <= di <= nd,
                            forall|i: int|
                                0 <= i < stack@.len() ==> (#[trigger] stack@[i]) < total
                                    && spec_reachable(graph@, cc, curr as int, stack@[i] as int),
                            forall|vv: int|
                                0 <= vv < total && visited@[vv] ==> spec_reachable(
                                    graph@,
                                    cc,
                                    curr as int,
                                    vv,
                                ),
                            forall|vv: int, w: int|
                                0 <= vv < total && visited@[vv] && vv != v as int && spec_edge(
                                    graph@,
                                    cc,
                                    vv,
                                    w,
                                ) ==> in_frontier(visited@, stack@, w),
                            forall|k: int|
                                0 <= k < di && 0 <= idx_of(#[trigger] deps@[k], cc) < total
                                    ==> in_frontier(visited@, stack@, idx_of(deps@[k], cc)),
                            in_frontier(visited@, stack@, curr as int),
                            target < total ==> !visited@[target as int],
                        decreases nd - di,
                    {
                        let p = deps[di];
                        proof {
                            assert(p.0 as int * cc + p.1 as int >= -0x4000_0000_0000_0000
                                && p.0 as int * cc + p.1 as int <= 0x4000_0000_0000_0000)
                                by (nonlinear_arith)
                                requires
                                    -0x8000_0000 <= p.0 as int <= 0x7fff_ffff,
                                    -0x8000_0000 <= p.1 as int <= 0x7fff_ffff,
                                    0 <= cc <= 0x7fff_ffff,
                            ;
                        }
                        let next64: i64 = p.0 as i64 * C as i64 + p.1 as i64;
                        proof {
                            assert(idx_of(deps@[di as int], cc) == next64 as int);
                        }
                        let ghost pre_stack = stack@;
                        if 0 <= next64 && next64 < total as i64 {
                            let next = next64 as usize;
                            proof {
                                assert(dependents_at(graph@, v as int).contains(deps@[di as int]));
                                assert(spec_edge(graph@, cc, v as int, next as int));
                                lemma_reachable_step(
                                    graph@,
                                    cc,
                                    curr as int,
                                    v as int,
                                    next as int,
                                );
                            }
                            stack.push(next);
                            proof {
                                assert(stack@[stack@.len() - 1] == next);
                                assert(in_frontier(visited@, stack@, next as int));
                            }
                        }
                        proof {
                            assert forall|w: int|
                                in_frontier(visited@, pre_stack, w) implies in_frontier(
                                visited@,
                                stack@,
                                w,
                            ) by {
                                if !(0 <= w < visited@.len() && visited@[w]) {
                                    let j = choose|j: int|
                                        0 <= j < pre_stack.len() && pre_stack[j] as int == w;
                                    assert(stack@[j] as int == w);
                                }
                            }
                        }
                        di = di + 1;
                    }
                    proof {
                        assert forall|w: int|
                            spec_edge(graph@, cc, v as int, w) implies in_frontier(
                            visited@,
                            stack@,
                            w,
                        ) by {
                            let p = choose|p: (i32, i32)|
                                dependents_at(graph@, v as int).contains(p) && idx_of(p, cc) == w;
                            let k = choose|k: int| 0 <= k < deps@.len() && deps@[k] == p;
                            assert(0 <= idx_of(deps@[k], cc) < total);
                        }
                    }
                },
            }
        }
    }
    proof {
        if spec_reachable(graph@, cc, curr as int, target as int) {
            let s = choose|s: Seq<int>|
                is_path(graph@, cc, s) && s.first() == curr as int && s.last() == target as int;
            assert(visited@[curr as int]);
            lemma_closed_under_edges(graph@, cc, visited@, s);
            assert(0 <= s.last() < total);
            assert(false);
        }
    }
    false
}

/// A path of a graph with fewer edges is a path of one with more.
pub proof fn lemma_path_mono(
    g1: Seq<Option<Box<DAGNode>>>,
    g2: Seq<Option<Box<DAGNode>>>,
    cc: int,
    s: Seq<int>,
)
    requires
        g1.len() == g2.len(),
        forall|a: int, b: int| spec_edge(g1, cc, a, b) ==> spec_edge(g2, cc, a, b),
        is_path(g1, cc, s),
    ensures
        is_path(g2, cc, s),
{
}

/// Removing edges keeps a graph acyclic.
pub proof fn lemma_acyclic_mono(
    g1: Seq<Option<Box<DAGNode>>>,
    g2: Seq<Option<Box<DAGNode>>>,
    cc: int,
)
    requires
        g1.len() == g2.len(),
        forall|x: int, y: int| spec_edge(g1, cc, x, y) ==> spec_edge(g2, cc, x, y),
        acyclic(g2, cc),
    ensures
        acyclic(g1, cc),
{
    assert forall|s: Seq<int>|
        !(#[trigger] is_path(g1, cc, s) && s.len() >= 2 && s.first() == s.last()) by {
        if is_path(g1, cc, s) {
            lemma_path_mono(g1, g2, cc, s);
        }
    }
}

/// A path from `di` to `ri` in the graph with the edge `ri -> di` added
/// shows `ri` was already reachable from `di` without that edge.
proof fn lemma_path_avoid_new(
    g_old: Seq<Option<Box<DAGNode>>>,
    g_new: Seq<Option<Box<DAGNode>>>,
    cc: int,
    ri: int,
    di: int,
    s: Seq<int>,
)
    requires
        g_old.len() == g_new.len(),
        forall|a: int, b: int|
            spec_edge(g_new, cc, a, b) <==> (spec_edge(g_old, cc, a, b) || (a == ri && b == di)),
        is_path(g_new, cc, s),
        s.first() == di,
        s.last() == ri,
    ensures
        spec_reachable(g_old, cc, di, ri),
    decreases s.len(),
{
    if exists|j: int|
        0 <= j < s.len() - 1 && !spec_edge(g_old, cc, #[trigger] s[j], s[j + 1]) {
        let j = choose|j: int|
            0 <= j < s.len() - 1 && !spec_edge(g_old, cc, #[trigger] s[j], s[j + 1]);
        assert(spec_edge(g_new, cc, s[j], s[j + 1]));
        assert(s[j] == ri && s[j + 1] == di);
        let t = s.take(j + 1);
        assert(forall|i: int| 0 <= i < t.len() ==> t[i] == #[trigger] s[i]);
        assert(is_path(g_new, cc, t));
        assert(t.first() == di && t.last() == ri);
        assert(t.len() < s.len());
        lemma_path_avoid_new(g_old, g_new, cc, ri, di, t);
    } else {
        assert(forall|i: int|
            0 <= i < s.len() - 1 ==> spec_edge(g_old, cc, #[trigger] s[i], s[i + 1]));
        assert(is_path(g_old, cc, s));
    }
}

/// Adding the edge `ri -> di` to an acyclic graph keeps it acyclic, as long
/// as `ri` was not reachable from `di` and the edge is no self-loop.
pub proof fn lemma_acyclic_after_add(
    g_old: Seq<Option<Box<DAGNode>>>,
    g_new: Seq<Option<Box<DAGNode>>>,
    cc: int,
    ri: int,
    di: int,
)
    requires
        g_old.len() == g_new.len(),
        forall|a: int, b: int|
            spec_edge(g_new, cc, a, b) <==> (spec_edge(g_old, cc, a, b) || (a == ri && b == di)),
        acyclic(g_old, cc),
        !spec_reachable(g_old, cc, di, ri),
        di != ri,
    ensures
        acyclic(g_new, cc),
{
    assert forall|s: Seq<int>|
        !(#[trigger] is_path(g_new, cc, s) && s.len() >= 2 && s.first() == s.last()) by {
        if is_path(g_new, cc, s) && s.len() >= 2 && s.first() == s.last() {
            if forall|i: int|
                0 <= i < s.len() - 1 ==> spec_edge(g_old, cc, #[trigger] s[i], s[i + 1]) {
                assert(is_path(g_old, cc, s));
                assert(false);
            } else {
                let j = choose|j: int|
                    0 <= j < s.len() - 1 && !spec_edge(g_old, cc, #[trigger] s[j], s[j + 1]);
                assert(spec_edge(g_new, cc, s[j], s[j + 1]));
                assert(s[j] == ri && s[j + 1] == di);
                let n = s.len() as int;
                let t = s.subrange(j + 1, n) + s.subrange(1, j + 1);
                assert(t.len() == n - 1);
                assert(forall|i: int|
                    0 <= i < n - 1 - j ==> t[i] == #[trigger] s[i + j + 1]);
                assert(forall|i: int|
                    n - 1 - j <= i < n - 1 ==> t[i] == #[trigger] s[i - (n - 1 - j) + 1]);
                assert(t.first() == di);
                assert(t.last() == s[j]);
                assert forall|i: int|
                    0 <= i < t.len() - 1 implies spec_edge(g_new, cc, #[trigger] t[i], t[i + 1]) by {
                    if i + 1 < n - 1 - j {
                        assert(t[i] == s[i + j + 1] && t[i + 1] == s[i + j + 2]);
                    } else if i + 1 == n - 1 - j {
                        assert(t[i] == s[n - 1] && t[i + 1] == s[1]);
                        assert(s[n - 1] == s[0]);
                        assert(spec_edge(g_new, cc, s[0], s[1]));
                    } else {
                        assert(t[i] == s[i - (n - 1 - j) + 1] && t[i + 1] == s[i + 1 - (n - 1 - j)
                            + 1]);
                    }
                }
                assert(is_path(g_new, cc, t));
                lemma_path_avoid_new(g_old, g_new, cc, ri, di, t);
                assert(false);
            }
        }
    }
}

/// In-bounds cells flatten to distinct indices.
pub proof fn lemma_idx_injective(p: (i32, i32), q: (i32, i32), rr: int, cc: int)
    requires
        0 <= p.0 < rr,
        0 <= p.1 < cc,
        0 <= q.0 < rr,
        0 <= q.1 < cc,
        idx_of(p, cc) == idx_of(q, cc),
    ensures
        p == q,
{
    assert(p.0 == q.0 && p.1 == q.1) by (nonlinear_arith)
        requires
            0 <= p.1 < cc,
            0 <= q.1 < cc,
            p.0 * cc + p.1 == q.0 * cc + q.1,
    ;
}

/// An in-bounds cell flattens into the node range.
pub proof fn lemma_idx_in_range(p: (i32, i32), rr: int, cc: int)
    requires
        0 <= p.0 < rr,
        0 <= p.1 < cc,
    ensures
        0 <= idx_of(p, cc) < rr * cc,
{
    assert(0 <= p.0 * cc + p.1 < rr * cc) by (nonlinear_arith)
        requires
            0 <= p.0 < rr,
            0 <= p.1 < cc,
    ;
}

/// The in-degree recorded at node `a`, when the slot is filled.
pub open spec fn in_degree_at(g: Seq<Option<Box<DAGNode>>>, a: int) -> int {
    match g[a] {
        Some(n) => n.in_degree as int,
        None => 0,
    }
}

/// The outcome of trying to insert a dependency edge.
#[derive(Clone, Copy, Debug, PartialEq, Eq, Structural)]
pub enum EdgeOutcome {
    /// The edge was inserted (or was already present).
    Added,
    /// One endpoint lies outside the grid; nothing changed.
    OutOfBounds,
    /// The edge would run from a cell to itself; nothing changed.
    SelfLoop,
    /// The edge would close a dependency cycle; nothing changed.
    Cycle,
}

/// Whether the list holds the given pair.
fn contains_pair(v: &Vec<(i32, i32)>, p: (i32, i32)) -> (b: bool)
    ensures
        b == v@.contains(p),
{
    let n: usize = v.len();
    let mut i: usize = 0;
    while i < n
        invariant
            0 <= i <= n,
            n == v@.len(),
            forall|j: int| 0 <= j < i ==> v@[j] != p,
        decreases n - i,
    {
        let q = v[i];
        if q.0 == p.0 && q.1 == p.1 {
            assert(v@[i as int] == p);
            return true;
        }
        i = i + 1;
    }
    false
}

/// Appends the pair unless it is already present; reports whether it was
/// appended.
fn insert_pair(v: &mut Vec<(i32, i32)>, p: (i32, i32)) -> (added: bool)
    ensures
        added == !old(v)@.contains(p),
        final(v)@ == if old(v)@.contains(p) {
            old(v)@
        } else {
            old(v)@.push(p)
        },
{
    if contains_pair(v, p) {
        false
    } else {
        v.push(p);
        true
    }
}

/// Removes one occurrence of the pair if present; reports whether one was
/// removed.
fn remove_pair(v: &mut Vec<(i32, i32)>, p: (i32, i32)) -> (removed: bool)
    ensures
        removed == old(v)@.contains(p),
        removed ==> exists|k: int|
            0 <= k < old(v)@.len() && old(v)@[k] == p && final(v)@ == old(v)@.remove(k),
        !removed ==> final(v)@ == old(v)@,
{
    let n: usize = v.len();
    let mut i: usize = 0;
    while i < n
        invariant
            0 <= i <= n,
            n == v@.len(),
            v@ == old(v)@,
            forall|j: int| 0 <= j < i ==> v@[j] != p,
        decreases n - i,
    {
        let q = v[i];
        if q.0 == p.0 && q.1 == p.1 {
            assert(v@[i as int] == p);
            v.remove(i);
            return true;
        }
        i = i + 1;
    }
    false
}

/// Inserts the dependency edge `(dep_row, dep_col) depends on
/// (ref_row, ref_col)` unless an endpoint is out of bounds, the edge is a
/// self-loop, or the dependency can already be reached from the dependent --
/// which would close a cycle.  On success the dependent joins the
/// dependency's dependents list, the dependency joins the dependent's
/// dependencies list, and the dependent's in-degree counts its
/// dependencies.
pub fn add_dependency(
    graph: &mut Vec<Option<Box<DAGNode>>>,
    dep_row: i32,
    dep_col: i32,
    ref_row: i32,
    ref_col: i32,
    R: i32,
    C: i32,
) -> (out: EdgeOutcome)
    requires
        old(graph)@.len() == R as int * C as int,
        C >= 0,
        (0 <= dep_row < R && 0 <= dep_col < C && 0 <= ref_row < R && 0 <= ref_col < C) ==> {
            &&& old(graph)@[dep_row as int * C as int + dep_col as int] is Some
            &&& old(graph)@[ref_row as int * C as int + ref_col as int] is Some
            &&& (dependencies_at(
                old(graph)@,
                dep_row as int * C as int + dep_col as int,
            ).contains((ref_row, ref_col)) || in_degree_at(
                old(graph)@,
                dep_row as int * C as int + dep_col as int,
            ) < 0x7fff_ffff)
        },
    ensures
        ({
            let cc = C as int;
            let di = dep_row as int * cc + dep_col as int;
            let ri = ref_row as int * cc + ref_col as int;
            let bounded = 0 <= dep_row < R && 0 <= dep_col < C && 0 <= ref_row < R && 0
                <= ref_col < C;
            let selfloop = dep_row == ref_row && dep_col == ref_col;
            &&& (out == EdgeOutcome::OutOfBounds <==> !bounded)
            &&& (out == EdgeOutcome::SelfLoop <==> bounded && selfloop)
            &&& (out == EdgeOutcome::Cycle <==> bounded && !selfloop && spec_reachable(
                old(graph)@,
                cc,
                di,
                ri,
            ))
            &&& out != EdgeOutcome::Added ==> final(graph)@ == old(graph)@
            &&& out == EdgeOutcome::Added ==> {
                let dpair = (dep_row, dep_col);
                let rpair = (ref_row, ref_col);
                &&& di != ri
                &&& final(graph)@.len() == old(graph)@.len()
                &&& forall|j: int|
                    0 <= j < old(graph)@.len() && j != di && j != ri ==> final(graph)@[j] == old(
                        graph,
                    )@[j]
                &&& final(graph)@[di] is Some
                &&& final(graph)@[ri] is Some
                &&& dependents_at(final(graph)@, ri) == (if dependents_at(
                    old(graph)@,
                    ri,
                ).contains(dpair) {
                    dependents_at(old(graph)@, ri)
                } else {
                    dependents_at(old(graph)@, ri).push(dpair)
                })
                &&& dependencies_at(final(graph)@, ri) == dependencies_at(old(graph)@, ri)
                &&& in_degree_at(final(graph)@, ri) == in_degree_at(old(graph)@, ri)
                &&& dependents_at(final(graph)@, di) == dependents_at(old(graph)@, di)
                &&& dependencies_at(final(graph)@, di) == (if dependencies_at(
                    old(graph)@,
                    di,
                ).contains(rpair) {
                    dependencies_at(old(graph)@, di)
                } else {
                    dependencies_at(old(graph)@, di).push(rpair)
                })
                &&& in_degree_at(final(graph)@, di) == in_degree_at(old(graph)@, di)
                    + (if dependencies_at(old(graph)@, di).contains(rpair) {
                    0int
                } else {
                    1int
                })
            }
        }),
{
    let ghost cc = C as int;
    if dep_row < 0 || dep_row >= R || dep_col < 0 || dep_col >= C || ref_row < 0 || ref_row >= R
        || ref_col < 0 || ref_col >= C {
        return EdgeOutcome::OutOfBounds;
    }
    if dep_row == ref_row && dep_col == ref_col {
        return EdgeOutcome::SelfLoop;
    }
    proof {
        lemma_idx_in_range((dep_row, dep_col), R as int, cc);
        lemma_idx_in_range((ref_row, ref_col), R as int, cc);
        if idx_of((dep_row, dep_col), cc) == idx_of((ref_row, ref_col), cc) {
            lemma_idx_injective((dep_row, dep_col), (ref_row, ref_col), R as int, cc);
        }
    }
    let total: usize = graph.len();
    proof {
        assert(dep_row as int * C as int >= 0 && dep_row as int * C as int
            <= 0x4000_0000_0000_0000 && ref_row as int * C as int >= 0 && ref_row as int * C as int
            <= 0x4000_0000_0000_0000) by (nonlinear_arith)
            requires
                0 <= dep_row as int <= 0x7fff_ffff,
                0 <= ref_row as int <= 0x7fff_ffff,
                0 <= C as int <= 0x7fff_ffff,
        ;
    }
    let di64: i64 = dep_row as i64 * C as i64 + dep_col as i64;
    let ri64: i64 = ref_row as i64 * C as i64 + ref_col as i64;
    let dependent_index: usize = di64 as usize;
    let reference_index: usize = ri64 as usize;
    if is_reachable(graph, R, C, dependent_index, reference_index) {
        return EdgeOutcome::Cycle;
    }
    match &mut graph[reference_index] {
        Some(dag) => {
            insert_pair(&mut dag.dependents, (dep_row, dep_col));
        },
        None => {
            proof {
                assert(false);
            }
        },
    }
    match &mut graph[dependent_index] {
        Some(dag) => {
            let added = insert_pair(&mut dag.dependencies, (ref_row, ref_col));
            if added {
                dag.in_degree = dag.in_degree + 1;
            }
        },
        None => {
            proof {
                assert(false);
            }
        },
    }
    EdgeOutcome::Added
}

/// Removes the dependency edge `(dep_row, dep_col) depends on
/// (ref_row, ref_col)` where present: each endpoint's list drops the other,
/// and the dependent's in-degree falls only when an entry was actually
/// removed.
pub fn remove_dependency(
    graph: &mut Vec<Option<Box<DAGNode>>>,
    dep_row: i32,
    dep_col: i32,
    ref_row: i32,
    ref_col: i32,
    R: i32,
    C: i32,
)
    requires
        old(graph)@.len() == R as int * C as int,
        C >= 1,
        0 <= dep_row as int * C as int + dep_col as int,
        (dep_row as int * C as int + dep_col as int) < old(graph)@.len(),
        0 <= ref_row as int * C as int + ref_col as int,
        (ref_row as int * C as int + ref_col as int) < old(graph)@.len(),
        dep_row as int * C as int + dep_col as int != ref_row as int * C as int + ref_col as int,
        old(graph)@[dep_row as int * C as int + dep_col as int] is Some,
        old(graph)@[ref_row as int * C as int + ref_col as int] is Some,
        in_degree_at(old(graph)@, dep_row as int * C as int + dep_col as int) > i32::MIN as int,
    ensures
        ({
            let cc = C as int;
            let di = dep_row as int * cc + dep_col as int;
            let ri = ref_row as int * cc + ref_col as int;
            let dpair = (dep_row, dep_col);
            let rpair = (ref_row, ref_col);
            &&& final(graph)@.len() == old(graph)@.len()
            &&& forall|j: int|
                0 <= j < old(graph)@.len() && j != di && j != ri ==> final(graph)@[j] == old(
                    graph,
                )@[j]
            &&& final(graph)@[di] is Some
            &&& final(graph)@[ri] is Some
            &&& (dependents_at(old(graph)@, ri).contains(dpair) ==> exists|k: int|
                0 <= k < dependents_at(old(graph)@, ri).len() && dependents_at(old(graph)@, ri)[k]
                    == dpair && dependents_at(final(graph)@, ri) == dependents_at(
                    old(graph)@,
                    ri,
                ).remove(k))
            &&& (!dependents_at(old(graph)@, ri).contains(dpair) ==> dependents_at(
                final(graph)@,
                ri,
            ) == dependents_at(old(graph)@, ri))
            &&& dependencies_at(final(graph)@, ri) == dependencies_at(old(graph)@, ri)
            &&& in_degree_at(final(graph)@, ri) == in_degree_at(old(graph)@, ri)
            &&& dependents_at(final(graph)@, di) == dependents_at(old(graph)@, di)
            &&& (dependencies_at(old(graph)@, di).contains(rpair) ==> exists|k: int|
                0 <= k < dependencies_at(old(graph)@, di).len() && dependencies_at(
                    old(graph)@,
                    di,
                )[k] == rpair && dependencies_at(final(graph)@, di) == dependencies_at(
                    old(graph)@,
                    di,
                ).remove(k))
            &&& (!dependencies_at(old(graph)@, di).contains(rpair) ==> dependencies_at(
                final(graph)@,
                di,
            ) == dependencies_at(old(graph)@, di))
            &&& in_degree_at(final(graph)@, di) == in_degree_at(old(graph)@, di)
                - (if dependencies_at(old(graph)@, di).contains(rpair) {
                1int
            } else {
                0int
            })
        }),
{
    let total: usize = graph.len();
    proof {
        assert(dep_row as int * C as int >= -0x4000_0000_0000_0000 && dep_row as int * C as int
            <= 0x4000_0000_0000_0000 && ref_row as int * C as int >= -0x4000_0000_0000_0000
            && ref_row as int * C as int <= 0x4000_0000_0000_0000) by (nonlinear_arith)
            requires
                -0x8000_0000 <= dep_row as int <= 0x7fff_ffff,
                -0x8000_0000 <= ref_row as int <= 0x7fff_ffff,
                1 <= C as int <= 0x7fff_ffff,
        ;
    }
    let di64: i64 = dep_row as i64 * C as i64 + dep_col as i64;
    let ri64: i64 = ref_row as i64 * C as i64 + ref_col as i64;
    let dependent_index: usize = di64 as usize;
    let reference_index: usize = ri64 as usize;
    match &mut graph[reference_index] {
        Some(dag) => {
            remove_pair(&mut dag.dependents, (dep_row, dep_col));
        },
        None => {
            proof {
                assert(false);
            }
        },
    }
    match &mut graph[dependent_index] {
        Some(dag) => {
            let removed = remove_pair(&mut dag.dependencies, (ref_row, ref_col));
            if removed {
                dag.in_degree = dag.in_degree - 1;
            }
        },
        None => {
            proof {
                assert(false);
            }
        },
    }
}

/// Determines whether `target` is reachable from `start` along dependents
/// edges: the query that cycle rejection rests on.
pub fn is_reachable(
    graph: &Vec<Option<Box<DAGNode>>>,
    R: i32,
    C: i32,
    start: usize,
    target: usize,
) -> (r: bool)
    requires
        graph@.len() == R as int * C as int,
        C >= 0,
    ensures
        r == spec_reachable(graph@, C as int, start as int, target as int),
{
    let total: usize = graph.len();
    let mut visited: Vec<bool> = Vec::new();
    let mut i: usize = 0;
    while i < total
        invariant
            0 <= i <= total,
            visited@.len() == i,
            forall|j: int| 0 <= j < i ==> !visited@[j],
        decreases total - i,
    {
        visited.push(false);
        i = i + 1;
    }
    dfs(graph, R, C, start, target, &mut visited)
}

} // verus!
