//! Slack (total float) of every node: how far its longest path falls short of the
//! longest path of the whole graph. Nodes with zero slack lie on a critical path.

use vstd::prelude::*;
use crate::graph::{DiGraph, GraphModel};
use crate::topo::{as_ids, topological_sort};

verus! {

// ---------------------------------------------------------------------------
// The model
// ---------------------------------------------------------------------------

/// Some path of `len` nodes ends at `v`.
pub open spec fn ends_path(g: GraphModel, v: int, len: int) -> bool {
    exists|p: Seq<int>| #[trigger] g.is_path(p) && p.last() == v && p.len() == len
}

/// Some path of `len` nodes starts at `v`.
pub open spec fn starts_path(g: GraphModel, v: int, len: int) -> bool {
    exists|p: Seq<int>| #[trigger] g.is_path(p) && p[0] == v && p.len() == len
}

/// `len` is the number of nodes of a longest path of `g`.
pub open spec fn is_longest_path_len(g: GraphModel, len: int) -> bool {
    &&& exists|p: Seq<int>| #[trigger] g.is_path(p) && p.len() == len
    &&& forall|p: Seq<int>| #[trigger] g.is_path(p) ==> p.len() <= len
}

/// `len` is the number of nodes of a longest path of `g` through node `i`.
pub open spec fn is_longest_through_len(g: GraphModel, i: int, len: int) -> bool {
    &&& exists|p: Seq<int>| #[trigger] g.is_path(p) && p.contains(i) && p.len() == len
    &&& forall|p: Seq<int>| #[trigger] g.is_path(p) && p.contains(i) ==> p.len() <= len
}

/// Number of nodes on a longest path of `g` (meaningful when `g` is acyclic and not empty).
pub open spec fn critical_length(g: GraphModel) -> int {
    choose|len: int| is_longest_path_len(g, len)
}

/// Number of nodes on a longest path through `i` (meaningful when `g` is acyclic).
pub open spec fn longest_through(g: GraphModel, i: int) -> int {
    choose|len: int| is_longest_through_len(g, i, len)
}

/// The slack of every node: the critical length less the longest path through the node,
/// on an acyclic graph; zero everywhere on a graph with a cycle.
pub open spec fn slack_of(g: GraphModel) -> Seq<int> {
    if g.is_acyclic() {
        Seq::new(g.n, |i: int| critical_length(g) - longest_through(g, i))
    } else {
        Seq::new(g.n, |i: int| 0)
    }
}

/// The largest value of `s`, folding from 0 (so 0 when `s` is empty or holds nothing larger).
pub open spec fn fold_max(s: Seq<int>) -> int
    decreases s.len(),
{
    if s.len() == 0 {
        0
    } else {
        let m = fold_max(s.drop_last());
        if s.last() > m {
            s.last()
        } else {
            m
        }
    }
}

// ---------------------------------------------------------------------------
// Facts about paths
// ---------------------------------------------------------------------------

/// The position of each node in a topological order.
proof fn lemma_positions(g: GraphModel, ord: Seq<int>) -> (pos: Seq<int>)
    requires
        g.is_topological_order(ord),
    ensures
        pos.len() == g.n,
        forall|v: int| g.is_node(v) ==> 0 <= #[trigger] pos[v] < g.n && ord[pos[v]] == v,
        forall|j: int| 0 <= j < g.n ==> #[trigger] pos[ord[j]] == j,
{
    let pos = Seq::new(g.n, |v: int| choose|j: int| 0 <= j < ord.len() && ord[j] == v);
    assert forall|v: int| g.is_node(v) implies 0 <= #[trigger] pos[v] < g.n && ord[pos[v]] == v by {
        assert(ord.contains(v));
    }
    assert forall|j: int| 0 <= j < g.n implies #[trigger] pos[ord[j]] == j by {
        assert(ord.contains(ord[j]));
    }
    pos
}

/// An edge goes forward in a topological order.
proof fn lemma_edge_forward(g: GraphModel, ord: Seq<int>, pos: Seq<int>, u: int, v: int)
    requires
        g.is_topological_order(ord),
        pos.len() == g.n,
        forall|w: int| g.is_node(w) ==> 0 <= #[trigger] pos[w] < g.n && ord[pos[w]] == w,
        g.is_node(u),
        g.is_node(v),
        g.has_edge(u, v),
    ensures
        pos[u] < pos[v],
{
    assert(g.has_edge(ord[pos[u]], ord[pos[v]]));
}

/// In an acyclic graph no path is longer than the number of nodes.
proof fn lemma_path_len_bounded(g: GraphModel, p: Seq<int>)
    requires
        g.is_acyclic(),
        g.is_path(p),
    ensures
        p.len() <= g.n,
{
    let ord = choose|ord: Seq<int>| g.is_topological_order(ord);
    let pos = lemma_positions(g, ord);
    lemma_positions_increase(g, ord, pos, p, p.len() - 1);
}

proof fn lemma_positions_increase(g: GraphModel, ord: Seq<int>, pos: Seq<int>, p: Seq<int>, k: int)
    requires
        g.is_topological_order(ord),
        pos.len() == g.n,
        forall|w: int| g.is_node(w) ==> 0 <= #[trigger] pos[w] < g.n && ord[pos[w]] == w,
        g.is_path(p),
        0 <= k < p.len(),
    ensures
        pos[p[k]] >= k,
    decreases k,
{
    if k > 0 {
        lemma_positions_increase(g, ord, pos, p, k - 1);
        assert(g.has_edge(p[k - 1], p[k]));
        lemma_edge_forward(g, ord, pos, p[k - 1], p[k]);
    }
}

/// A path ending at `i`, followed by a path starting at `i`, is a path through `i`.
proof fn lemma_join(g: GraphModel, p1: Seq<int>, p2: Seq<int>) -> (p: Seq<int>)
    requires
        g.is_path(p1),
        g.is_path(p2),
        p1.last() == p2[0],
    ensures
        g.is_path(p),
        p.contains(p2[0]),
        p.len() == p1.len() + p2.len() - 1,
{
    let p = p1 + p2.drop_first();
    assert(p[p1.len() - 1] == p2[0]);
    assert forall|k: int| 0 <= k < p.len() implies g.is_node(#[trigger] p[k]) by {
        if k >= p1.len() {
            assert(p[k] == p2[k - p1.len() + 1]);
        }
    }
    assert forall|k: int| 0 <= k < p.len() - 1 implies g.has_edge(#[trigger] p[k], p[k + 1]) by {
        if k >= p1.len() - 1 {
            assert(p[k] == p2[k - p1.len() + 1]);
            assert(p[k + 1] == p2[k + 1 - p1.len() + 1]);
        } else if k == p1.len() - 2 {
            assert(p[k + 1] == p1[k + 1]);
        }
    }
    p
}

/// With `d` growing along every edge and at least 1, a path has at most `d` of its last node nodes.
proof fn lemma_bound_to(g: GraphModel, d: Seq<usize>, p: Seq<int>)
    requires
        d.len() == g.n,
        forall|v: int| g.is_node(v) ==> 1 <= #[trigger] d[v],
        forall|u: int, v: int|
            g.is_node(u) && g.is_node(v) && #[trigger] g.has_edge(u, v) ==> d[u] < d[v],
        g.is_path(p),
    ensures
        p.len() <= d[p.last()],
    decreases p.len(),
{
    if p.len() > 1 {
        let q = p.drop_last();
        assert(g.is_path(q)) by {
            assert forall|k: int| 0 <= k < q.len() - 1 implies g.has_edge(#[trigger] q[k], q[k + 1]) by {
                assert(g.has_edge(p[k], p[k + 1]));
            }
            assert forall|k: int| 0 <= k < q.len() implies g.is_node(#[trigger] q[k]) by {
                assert(g.is_node(p[k]));
            }
        }
        lemma_bound_to(g, d, q);
        assert(g.has_edge(p[p.len() - 2], p[p.len() - 1]));
        assert(g.is_node(p[p.len() - 2]));
        assert(g.is_node(p[p.len() - 1]));
    } else {
        assert(g.is_node(p[0]));
    }
}

/// With `d` shrinking along every edge and at least 1, a path has at most `d` of its first node nodes.
proof fn lemma_bound_from(g: GraphModel, d: Seq<usize>, p: Seq<int>)
    requires
        d.len() == g.n,
        forall|v: int| g.is_node(v) ==> 1 <= #[trigger] d[v],
        forall|u: int, v: int|
            g.is_node(u) && g.is_node(v) && #[trigger] g.has_edge(u, v) ==> d[v] < d[u],
        g.is_path(p),
    ensures
        p.len() <= d[p[0]],
    decreases p.len(),
{
    if p.len() > 1 {
        let q = p.drop_first();
        assert(g.is_path(q)) by {
            assert forall|k: int| 0 <= k < q.len() - 1 implies g.has_edge(#[trigger] q[k], q[k + 1]) by {
                assert(g.has_edge(p[k + 1], p[k + 2]));
            }
            assert forall|k: int| 0 <= k < q.len() implies g.is_node(#[trigger] q[k]) by {
                assert(g.is_node(p[k + 1]));
            }
        }
        lemma_bound_from(g, d, q);
        assert(g.has_edge(p[0], p[1]));
        assert(g.is_node(p[0]));
        assert(g.is_node(p[1]));
    } else {
        assert(g.is_node(p[0]));
    }
}

/// A contiguous piece of a path is a path.
proof fn lemma_subpath(g: GraphModel, p: Seq<int>, a: int, b: int)
    requires
        g.is_path(p),
        0 <= a < b <= p.len(),
    ensures
        g.is_path(p.subrange(a, b)),
{
    let q = p.subrange(a, b);
    assert forall|k: int| 0 <= k < q.len() implies g.is_node(#[trigger] q[k]) by {
        assert(g.is_node(p[a + k]));
    }
    assert forall|k: int| 0 <= k < q.len() - 1 implies g.has_edge(#[trigger] q[k], q[k + 1]) by {
        assert(g.has_edge(p[a + k], p[a + k + 1]));
    }
}

/// The longest path through `i` has `dto[i] + dfrom[i] - 1` nodes, given the results of the two passes.
proof fn lemma_through(g: GraphModel, dto: Seq<usize>, dfrom: Seq<usize>, i: int)
    requires
        dto.len() == g.n,
        dfrom.len() == g.n,
        forall|v: int| g.is_node(v) ==> 1 <= #[trigger] dto[v] && ends_path(g, v, dto[v] as int),
        forall|u: int, v: int|
            g.is_node(u) && g.is_node(v) && #[trigger] g.has_edge(u, v) ==> dto[u] < dto[v],
        forall|v: int| g.is_node(v) ==> 1 <= #[trigger] dfrom[v] && starts_path(g, v, dfrom[v] as int),
        forall|u: int, v: int|
            g.is_node(u) && g.is_node(v) && #[trigger] g.has_edge(u, v) ==> dfrom[v] < dfrom[u],
        g.is_node(i),
    ensures
        is_longest_through_len(g, i, dto[i] + dfrom[i] - 1),
{
    let len = dto[i] + dfrom[i] - 1;
    assert(ends_path(g, i, dto[i] as int));
    assert(starts_path(g, i, dfrom[i] as int));
    let p1 = choose|p: Seq<int>| #[trigger] g.is_path(p) && p.last() == i && p.len() == dto[i] as int;
    let p2 = choose|p: Seq<int>| #[trigger] g.is_path(p) && p[0] == i && p.len() == dfrom[i] as int;
    let p = lemma_join(g, p1, p2);
    assert(g.is_path(p) && p.contains(i) && p.len() == len);
    assert forall|q: Seq<int>| #[trigger] g.is_path(q) && q.contains(i) implies q.len() <= len by {
        let k = choose|k: int| 0 <= k < q.len() && q[k] == i;
        lemma_subpath(g, q, 0, k + 1);
        lemma_subpath(g, q, k, q.len() as int);
        lemma_bound_to(g, dto, q.subrange(0, k + 1));
        lemma_bound_from(g, dfrom, q.subrange(k, q.len() as int));
    }
}

proof fn lemma_through_unique(g: GraphModel, i: int, len: int)
    requires
        is_longest_through_len(g, i, len),
    ensures
        longest_through(g, i) == len,
{
    let l = longest_through(g, i);
    assert(is_longest_through_len(g, i, l));
    let p = choose|p: Seq<int>| #[trigger] g.is_path(p) && p.contains(i) && p.len() == l;
    let q = choose|p: Seq<int>| #[trigger] g.is_path(p) && p.contains(i) && p.len() == len;
    assert(p.len() <= len);
    assert(q.len() <= l);
}

proof fn lemma_critical_unique(g: GraphModel, len: int)
    requires
        is_longest_path_len(g, len),
    ensures
        critical_length(g) == len,
{
    let l = critical_length(g);
    assert(is_longest_path_len(g, l));
    let p = choose|p: Seq<int>| #[trigger] g.is_path(p) && p.len() == l;
    let q = choose|p: Seq<int>| #[trigger] g.is_path(p) && p.len() == len;
    assert(p.len() <= len);
    assert(q.len() <= l);
}

/// A predicate on integers that holds somewhere and is bounded above has a largest witness.
proof fn lemma_max_exists(pred: spec_fn(int) -> bool, lo: int, hi: int) -> (m: int)
    requires
        pred(lo),
        forall|l: int| #[trigger] pred(l) ==> l <= hi,
    ensures
        pred(m),
        forall|l: int| #[trigger] pred(l) ==> l <= m,
    decreases hi - lo,
{
    if exists|l: int| #[trigger] pred(l) && l > lo {
        let l = choose|l: int| #[trigger] pred(l) && l > lo;
        lemma_max_exists(pred, l, hi)
    } else {
        lo
    }
}

/// On an acyclic graph, `longest_through` is the length of a longest path through the node.
proof fn lemma_longest_through_exists(g: GraphModel, i: int)
    requires
        g.is_acyclic(),
        g.is_node(i),
    ensures
        is_longest_through_len(g, i, longest_through(g, i)),
{
    let pred = |l: int| exists|p: Seq<int>| #[trigger] g.is_path(p) && p.contains(i) && p.len() == l;
    let p0 = seq![i];
    assert(p0[0] == i);
    assert(g.is_path(p0) && p0.contains(i) && p0.len() == 1);
    assert(pred(1));
    assert forall|l: int| #[trigger] pred(l) implies l <= g.n by {
        let p = choose|p: Seq<int>| #[trigger] g.is_path(p) && p.contains(i) && p.len() == l;
        lemma_path_len_bounded(g, p);
    }
    let m = lemma_max_exists(pred, 1, g.n as int);
    assert forall|p: Seq<int>| #[trigger] g.is_path(p) && p.contains(i) implies p.len() <= m by {
        assert(pred(p.len() as int));
    }
    assert(is_longest_through_len(g, i, m));
    lemma_through_unique(g, i, m);
}

/// On an acyclic graph with nodes, `critical_length` is the length of a longest path.
proof fn lemma_critical_exists(g: GraphModel)
    requires
        g.is_acyclic(),
        g.n > 0,
    ensures
        is_longest_path_len(g, critical_length(g)),
{
    let pred = |l: int| exists|p: Seq<int>| #[trigger] g.is_path(p) && p.len() == l;
    let p0 = seq![0int];
    assert(g.is_path(p0) && p0.len() == 1);
    assert(pred(1));
    assert forall|l: int| #[trigger] pred(l) implies l <= g.n by {
        let p = choose|p: Seq<int>| #[trigger] g.is_path(p) && p.len() == l;
        lemma_path_len_bounded(g, p);
    }
    let m = lemma_max_exists(pred, 1, g.n as int);
    assert forall|p: Seq<int>| #[trigger] g.is_path(p) implies p.len() <= m by {
        assert(pred(p.len() as int));
    }
    assert(is_longest_path_len(g, m));
    lemma_critical_unique(g, m);
}

// ---------------------------------------------------------------------------
// The two passes
// ---------------------------------------------------------------------------

/// Forward pass: for every node, the number of nodes on a longest path ending at it.
fn longest_to(g: &DiGraph, order: &Vec<usize>) -> (d: Vec<usize>)
    requires
        g.wf(),
        g@.is_topological_order(as_ids(order@)),
    ensures
        d@.len() == g@.n,
        forall|v: int| g@.is_node(v) ==> 1 <= #[trigger] d@[v] && ends_path(g@, v, d@[v] as int),
        forall|u: int, v: int|
            g@.is_node(u) && g@.is_node(v) && #[trigger] g@.has_edge(u, v) ==> d@[u] < d@[v],
{
    let n = g.len();
    let ghost gm = g@;
    let ghost ord = as_ids(order@);
    let ghost pos = lemma_positions(gm, ord);
    let mut d: Vec<usize> = vec![0; n];
    let mut k: usize = 0;
    while k < n
        invariant
            g.wf(),
            gm == g@,
            n == gm.n,
            ord == as_ids(order@),
            gm.is_topological_order(ord),
            pos.len() == n,
            forall|w: int| gm.is_node(w) ==> 0 <= #[trigger] pos[w] < n && ord[pos[w]] == w,
            forall|j: int| 0 <= j < n ==> #[trigger] pos[ord[j]] == j,
            d@.len() == n,
            k <= n,
            forall|v: int|
                gm.is_node(v) && pos[v] < k ==> 1 <= #[trigger] d@[v] <= pos[v] + 1 && ends_path(
                    gm,
                    v,
                    d@[v] as int,
                ),
            forall|u: int, v: int|
                gm.is_node(u) && gm.is_node(v) && pos[v] < k && #[trigger] gm.has_edge(u, v)
                    ==> d@[u] < d@[v],
        decreases n - k,
    {
        let w = order[k];
        assert(ord[k as int] == w as int);
        let preds = g.predecessors_slice(w);
        let mut m: usize = 0;
        let ghost mut arg: int = 0;
        let mut i: usize = 0;
        while i < preds.len()
            invariant
                g.wf(),
                gm == g@,
                n == gm.n,
                gm.is_topological_order(ord),
                pos.len() == n,
                forall|w: int| gm.is_node(w) ==> 0 <= #[trigger] pos[w] < n && ord[pos[w]] == w,
                forall|v: int|
                    gm.is_node(v) && pos[v] < k ==> 1 <= #[trigger] d@[v] <= pos[v] + 1 && ends_path(
                        gm,
                        v,
                        d@[v] as int,
                    ),
                d@.len() == n,
                k < n,
                gm.is_node(w as int),
                pos[w as int] == k,
                forall|j: int| 0 <= j < preds@.len() ==> gm.is_node(#[trigger] preds@[j] as int),
                forall|u: int|
                    gm.is_node(u) ==> (gm.has_edge(u, w as int) <==> #[trigger] preds@.contains(
                        u as usize,
                    )),
                i <= preds@.len(),
                m <= k,
                forall|j: int| 0 <= j < i ==> d@[#[trigger] preds@[j] as int] <= m,
                m == 0 || (gm.is_node(arg) && pos[arg] < k && d@[arg] == m && gm.has_edge(
                    arg,
                    w as int,
                )),
            decreases preds@.len() - i,
        {
            let u = preds[i];
            proof {
                assert(preds@[i as int] == u);
                assert(gm.is_node(u as int));
                assert(preds@.contains((u as int) as usize));
                assert(gm.has_edge(u as int, w as int));
                lemma_edge_forward(gm, ord, pos, u as int, w as int);
            }
            let du = d[u];
            if du > m {
                m = du;
                proof {
                    arg = u as int;
                }
            }
            i += 1;
        }
        let ghost old_d = d@;
        d.set(w, m + 1);
        proof {
            assert forall|v: int| gm.is_node(v) && pos[v] < k + 1 implies 1 <= #[trigger] d@[v]
                <= pos[v] + 1 && ends_path(gm, v, d@[v] as int) by {
                if v == w as int {
                    if m == 0 {
                        let p = seq![v];
                        assert(gm.is_path(p));
                        assert(p.last() == v);
                    } else {
                        let q = choose|q: Seq<int>| #[trigger] gm.is_path(q) && q.last() == arg && q.len() == m as int;
                        let p = q.push(v);
                        assert(gm.is_path(p)) by {
                            assert forall|j: int| 0 <= j < p.len() - 1 implies gm.has_edge(#[trigger] p[j], p[j + 1]) by {
                                if j < p.len() - 2 {
                                    assert(gm.has_edge(q[j], q[j + 1]));
                                }
                            }
                            assert forall|j: int| 0 <= j < p.len() implies gm.is_node(#[trigger] p[j]) by {
                                if j < p.len() - 1 {
                                    assert(gm.is_node(q[j]));
                                }
                            }
                        }
                        assert(p.last() == v);
                    }
                } else {
                    assert(pos[v] != k);
                    assert(old_d[v] == d@[v]);
                }
            }
            assert forall|u: int, v: int|
                gm.is_node(u) && gm.is_node(v) && pos[v] < k + 1 && #[trigger] gm.has_edge(u, v)
                    implies d@[u] < d@[v] by {
                lemma_edge_forward(gm, ord, pos, u, v);
                if v == w as int {
                    assert(preds@.contains(u as usize));
                    let j = choose|j: int| 0 <= j < preds@.len() && preds@[j] == u as usize;
                    assert(d@[preds@[j] as int] <= m);
                } else {
                    assert(pos[v] != k);
                }
            }
        }
        k += 1;
    }
    proof {
        assert forall|v: int| gm.is_node(v) implies 1 <= #[trigger] d@[v] && ends_path(gm, v, d@[v] as int) by {
            assert(pos[v] < k);
        }
    }
    d
}

/// Backward pass: for every node, the number of nodes on a longest path starting at it.
fn longest_from(g: &DiGraph, order: &Vec<usize>) -> (d: Vec<usize>)
    requires
        g.wf(),
        g@.is_topological_order(as_ids(order@)),
    ensures
        d@.len() == g@.n,
        forall|v: int| g@.is_node(v) ==> 1 <= #[trigger] d@[v] && starts_path(g@, v, d@[v] as int),
        forall|u: int, v: int|
            g@.is_node(u) && g@.is_node(v) && #[trigger] g@.has_edge(u, v) ==> d@[v] < d@[u],
{
    let n = g.len();
    let ghost gm = g@;
    let ghost ord = as_ids(order@);
    let ghost pos = lemma_positions(gm, ord);
    let mut d: Vec<usize> = vec![0; n];
    let mut k: usize = 0;
    while k < n
        invariant
            g.wf(),
            gm == g@,
            n == gm.n,
            ord == as_ids(order@),
            gm.is_topological_order(ord),
            pos.len() == n,
            forall|w: int| gm.is_node(w) ==> 0 <= #[trigger] pos[w] < n && ord[pos[w]] == w,
            forall|j: int| 0 <= j < n ==> #[trigger] pos[ord[j]] == j,
            d@.len() == n,
            k <= n,
            forall|v: int|
                gm.is_node(v) && pos[v] + k >= n ==> 1 <= #[trigger] d@[v] <= n - pos[v]
                    && starts_path(gm, v, d@[v] as int),
            forall|u: int, v: int|
                gm.is_node(u) && gm.is_node(v) && pos[u] + k >= n && #[trigger] gm.has_edge(u, v)
                    ==> d@[v] < d@[u],
        decreases n - k,
    {
        let w = order[n - 1 - k];
        assert(ord[n - 1 - k] == w as int);
        let succs = g.successors_slice(w);
        let mut m: usize = 0;
        let ghost mut arg: int = 0;
        let mut i: usize = 0;
        while i < succs.len()
            invariant
                g.wf(),
                gm == g@,
                n == gm.n,
                gm.is_topological_order(ord),
                pos.len() == n,
                forall|w: int| gm.is_node(w) ==> 0 <= #[trigger] pos[w] < n && ord[pos[w]] == w,
                forall|v: int|
                    gm.is_node(v) && pos[v] + k >= n ==> 1 <= #[trigger] d@[v] <= n - pos[v]
                        && starts_path(gm, v, d@[v] as int),
                d@.len() == n,
                k < n,
                gm.is_node(w as int),
                pos[w as int] == n - 1 - k,
                forall|j: int| 0 <= j < succs@.len() ==> gm.is_node(#[trigger] succs@[j] as int),
                forall|v: int|
                    gm.is_node(v) ==> (gm.has_edge(w as int, v) <==> #[trigger] succs@.contains(
                        v as usize,
                    )),
                i <= succs@.len(),
                m <= k,
                forall|j: int| 0 <= j < i ==> d@[#[trigger] succs@[j] as int] <= m,
                m == 0 || (gm.is_node(arg) && pos[arg] + k >= n && d@[arg] == m && gm.has_edge(
                    w as int,
                    arg,
                )),
            decreases succs@.len() - i,
        {
            let v = succs[i];
            proof {
                assert(succs@[i as int] == v);
                assert(gm.is_node(v as int));
                assert(succs@.contains((v as int) as usize));
                assert(gm.has_edge(w as int, v as int));
                lemma_edge_forward(gm, ord, pos, w as int, v as int);
            }
            let dv = d[v];
            if dv > m {
                m = dv;
                proof {
                    arg = v as int;
                }
            }
            i += 1;
        }
        let ghost old_d = d@;
        d.set(w, m + 1);
        proof {
            assert forall|v: int| gm.is_node(v) && pos[v] + k + 1 >= n implies 1 <= #[trigger] d@[v]
                <= n - pos[v] && starts_path(gm, v, d@[v] as int) by {
                if v == w as int {
                    if m == 0 {
                        let p = seq![v];
                        assert(gm.is_path(p));
                        assert(p[0] == v);
                    } else {
                        let q = choose|q: Seq<int>| #[trigger] gm.is_path(q) && q[0] == arg && q.len() == m as int;
                        let p = seq![v] + q;
                        assert(gm.is_path(p)) by {
                            assert forall|j: int| 0 <= j < p.len() - 1 implies gm.has_edge(#[trigger] p[j], p[j + 1]) by {
                                if j > 0 {
                                    assert(p[j] == q[j - 1]);
                                    assert(p[j + 1] == q[j]);
                                    assert(gm.has_edge(q[j - 1], q[j]));
                                } else {
                                    assert(p[1] == q[0]);
                                }
                            }
                            assert forall|j: int| 0 <= j < p.len() implies gm.is_node(#[trigger] p[j]) by {
                                if j > 0 {
                                    assert(p[j] == q[j - 1]);
                                    assert(gm.is_node(q[j - 1]));
                                }
                            }
                        }
                        assert(p[0] == v);
                    }
                } else {
                    assert(pos[v] != n - 1 - k);
                    assert(old_d[v] == d@[v]);
                }
            }
            assert forall|u: int, v: int|
                gm.is_node(u) && gm.is_node(v) && pos[u] + k + 1 >= n && #[trigger] gm.has_edge(u, v)
                    implies d@[v] < d@[u] by {
                lemma_edge_forward(gm, ord, pos, u, v);
                if u == w as int {
                    assert(succs@.contains(v as usize));
                    let j = choose|j: int| 0 <= j < succs@.len() && succs@[j] == v as usize;
                    assert(d@[succs@[j] as int] <= m);
                } else {
                    assert(pos[u] != n - 1 - k);
                }
            }
        }
        k += 1;
    }
    proof {
        assert forall|v: int| gm.is_node(v) implies 1 <= #[trigger] d@[v] && starts_path(gm, v, d@[v] as int) by {
            assert(pos[v] + k >= n);
        }
    }
    d
}

// ---------------------------------------------------------------------------
// Slack
// ---------------------------------------------------------------------------

/// The slack of every node, indexed by node id: on an acyclic graph, the number of nodes
/// on a longest path less the number on a longest path through the node; on a graph with
/// a cycle, zero for every node.
pub fn slack(graph: &DiGraph) -> (r: Vec<usize>)
    requires
        graph.wf(),
    ensures
        r@.len() == graph@.n,
        as_ids(r@) == slack_of(graph@),
{
    let n = graph.len();
    let ghost gm = graph@;
    if n == 0 {
        let r: Vec<usize> = Vec::new();
        proof {
            assert(as_ids(r@) =~= slack_of(gm));
        }
        return r;
    }
    let order = match topological_sort(graph) {
        Some(o) => o,
        None => {
            let r: Vec<usize> = vec![0; n];
            proof {
                assert(as_ids(r@) =~= slack_of(gm));
            }
            return r;
        },
    };
    let dto = longest_to(graph, &order);
    let dfrom = longest_from(graph, &order);

    // Longest path through each node, and the longest of them all.
    let mut through: Vec<usize> = Vec::new();
    let mut longest: usize = 0;
    let ghost mut arg: int = 0;
    let mut i: usize = 0;
    while i < n
        invariant
            n == gm.n,
            gm.is_acyclic(),
            dto@.len() == n,
            dfrom@.len() == n,
            forall|v: int| gm.is_node(v) ==> 1 <= #[trigger] dto@[v] && ends_path(gm, v, dto@[v] as int),
            forall|u: int, v: int|
                gm.is_node(u) && gm.is_node(v) && #[trigger] gm.has_edge(u, v) ==> dto@[u] < dto@[v],
            forall|v: int|
                gm.is_node(v) ==> 1 <= #[trigger] dfrom@[v] && starts_path(gm, v, dfrom@[v] as int),
            forall|u: int, v: int|
                gm.is_node(u) && gm.is_node(v) && #[trigger] gm.has_edge(u, v) ==> dfrom@[v] < dfrom@[u],
            i <= n,
            through@.len() == i,
            forall|j: int|
                0 <= j < i ==> is_longest_through_len(gm, j, #[trigger] through@[j] as int),
            forall|j: int| 0 <= j < i ==> #[trigger] through@[j] <= longest,
            i == 0 ==> longest == 0,
            i > 0 ==> 0 <= arg < i && through@[arg] == longest,
        decreases n - i,
    {
        proof {
            lemma_through(gm, dto@, dfrom@, i as int);
            let p = choose|p: Seq<int>|
                #[trigger] gm.is_path(p) && p.contains(i as int) && p.len() == dto@[i as int]
                    + dfrom@[i as int] - 1;
            lemma_path_len_bounded(gm, p);
        }
        let t = dto[i] - 1 + dfrom[i];
        let ghost old_through = through@;
        through.push(t);
        if t > longest {
            longest = t;
            proof {
                arg = i as int;
            }
        }
        i += 1;
    }
    proof {
        assert(is_longest_path_len(gm, longest as int)) by {
            assert(is_longest_through_len(gm, arg, through@[arg] as int));
            assert forall|p: Seq<int>| #[trigger] gm.is_path(p) implies p.len() <= longest by {
                assert(gm.is_node(p[0]));
                assert(p.contains(p[0]));
                assert(is_longest_through_len(gm, p[0], through@[p[0]] as int));
            }
        }
        lemma_critical_unique(gm, longest as int);
    }

    let mut r: Vec<usize> = Vec::new();
    let mut i: usize = 0;
    while i < n
        invariant
            n == gm.n,
            through@.len() == n,
            forall|j: int| 0 <= j < n ==> #[trigger] through@[j] <= longest,
            i <= n,
            r@.len() == i,
            forall|j: int| 0 <= j < i ==> #[trigger] r@[j] == longest - through@[j],
        decreases n - i,
    {
        r.push(longest - through[i]);
        i += 1;
    }
    proof {
        assert forall|j: int| 0 <= j < n implies #[trigger] as_ids(r@)[j] == slack_of(gm)[j] by {
            lemma_through_unique(gm, j, through@[j] as int);
        }
        assert(as_ids(r@) =~= slack_of(gm));
    }
    r
}

/// The nodes whose slack is zero (those on some critical path), in increasing order.
pub fn zero_slack_nodes(graph: &DiGraph) -> (r: Vec<usize>)
    requires
        graph.wf(),
    ensures
        forall|v: int| #[trigger] as_ids(r@).contains(v) <==> (graph@.is_node(v) && slack_of(graph@)[v] == 0),
        forall|i: int, j: int| 0 <= i < j < r@.len() ==> r@[i] < r@[j],
{
    let slacks = slack(graph);
    let ghost s = slack_of(graph@);
    let mut r: Vec<usize> = Vec::new();
    let mut i: usize = 0;
    while i < slacks.len()
        invariant
            as_ids(slacks@) == s,
            s.len() == graph@.n,
            i <= slacks@.len(),
            forall|k: int| 0 <= k < r@.len() ==> #[trigger] r@[k] < i,
            forall|v: int| #[trigger] as_ids(r@).contains(v) <==> (0 <= v < i && s[v] == 0),
            forall|a: int, b: int| 0 <= a < b < r@.len() ==> r@[a] < r@[b],
        decreases slacks@.len() - i,
    {
        let ghost old_r = as_ids(r@);
        if slacks[i] == 0 {
            r.push(i);
            proof {
                assert(as_ids(r@) =~= old_r.push(i as int));
                assert forall|v: int| #[trigger] as_ids(r@).contains(v) <==> (0 <= v < i + 1 && s[v] == 0) by {
                    if v == i as int {
                        assert(as_ids(r@)[r@.len() - 1] == v);
                    }
                    if old_r.contains(v) {
                        let k = choose|k: int| 0 <= k < old_r.len() && old_r[k] == v;
                        assert(as_ids(r@)[k] == v);
                    }
                    if as_ids(r@).contains(v) && v != i as int {
                        let k = choose|k: int| 0 <= k < as_ids(r@).len() && as_ids(r@)[k] == v;
                        assert(old_r[k] == v);
                    }
                }
            }
        } else {
            proof {
                assert(s[i as int] != 0);
            }
        }
        i += 1;
    }
    r
}

/// The total float of the graph: the largest slack of any node, or 0 for an empty graph.
pub fn total_float(graph: &DiGraph) -> (r: usize)
    requires
        graph.wf(),
    ensures
        r == fold_max(slack_of(graph@)),
{
    let slacks = slack(graph);
    let ghost s = slack_of(graph@);
    let mut m: usize = 0;
    let mut i: usize = 0;
    while i < slacks.len()
        invariant
            as_ids(slacks@) == s,
            i <= slacks@.len(),
            m == fold_max(s.subrange(0, i as int)),
        decreases slacks@.len() - i,
    {
        proof {
            assert(s.subrange(0, i as int + 1).drop_last() =~= s.subrange(0, i as int));
        }
        if slacks[i] > m {
            m = slacks[i];
        }
        i += 1;
    }
    proof {
        assert(s.subrange(0, i as int) =~= s);
    }
    m
}

// ---------------------------------------------------------------------------
// Laws
// ---------------------------------------------------------------------------

/// No node has negative slack: no path through a node is longer than a longest path.
pub proof fn lemma_slack_nonnegative(g: GraphModel, i: int)
    requires
        g.is_node(i),
    ensures
        slack_of(g)[i] >= 0,
{
    if g.is_acyclic() {
        lemma_longest_through_exists(g, i);
        lemma_critical_exists(g);
    }
}

/// On an acyclic graph with at least one node, some node has zero slack.
pub proof fn lemma_some_node_critical(g: GraphModel)
    requires
        g.is_acyclic(),
        g.n > 0,
    ensures
        exists|i: int| g.is_node(i) && #[trigger] slack_of(g)[i] == 0,
{
    lemma_critical_exists(g);
    let p = choose|p: Seq<int>| #[trigger] g.is_path(p) && p.len() == critical_length(g);
    let i = p[0];
    assert(p.contains(i));
    lemma_longest_through_exists(g, i);
    lemma_slack_nonnegative(g, i);
    assert(slack_of(g)[i] == 0);
}

/// Every node of a longest path of an acyclic graph has zero slack.
pub proof fn lemma_critical_path_has_zero_slack(g: GraphModel, p: Seq<int>, k: int)
    requires
        g.is_acyclic(),
        g.is_path(p),
        is_longest_path_len(g, p.len() as int),
        0 <= k < p.len(),
    ensures
        slack_of(g)[p[k]] == 0,
{
    lemma_critical_unique(g, p.len() as int);
    assert(p.contains(p[k]));
    lemma_longest_through_exists(g, p[k]);
    lemma_slack_nonnegative(g, p[k]);
}

/// The slack of a graph depends on the graph alone: the same graph gives the same slack.
pub proof fn lemma_slack_deterministic(g1: GraphModel, g2: GraphModel)
    requires
        g1 == g2,
    ensures
        slack_of(g1) == slack_of(g2),
{
}

/// The total float is the largest slack: every slack is at most it, it is 0 for an empty
/// graph, and otherwise some node has exactly that slack.
pub proof fn lemma_total_float_is_max_slack(g: GraphModel)
    ensures
        forall|i: int| g.is_node(i) ==> #[trigger] slack_of(g)[i] <= fold_max(slack_of(g)),
        g.n == 0 ==> fold_max(slack_of(g)) == 0,
        g.n > 0 ==> exists|i: int| g.is_node(i) && #[trigger] slack_of(g)[i] == fold_max(slack_of(g)),
{
    let s = slack_of(g);
    assert forall|i: int| 0 <= i < s.len() implies #[trigger] s[i] >= 0 by {
        lemma_slack_nonnegative(g, i);
    }
    lemma_fold_max(s);
}

proof fn lemma_fold_max(s: Seq<int>)
    requires
        forall|i: int| 0 <= i < s.len() ==> #[trigger] s[i] >= 0,
    ensures
        forall|i: int| 0 <= i < s.len() ==> #[trigger] s[i] <= fold_max(s),
        s.len() == 0 ==> fold_max(s) == 0,
        s.len() > 0 ==> exists|i: int| 0 <= i < s.len() && #[trigger] s[i] == fold_max(s),
    decreases s.len(),
{
    if s.len() > 0 {
        let t = s.drop_last();
        assert forall|i: int| 0 <= i < t.len() implies #[trigger] t[i] >= 0 by {
            assert(t[i] == s[i]);
        }
        lemma_fold_max(t);
        assert forall|i: int| 0 <= i < s.len() implies #[trigger] s[i] <= fold_max(s) by {
            if i < t.len() {
                assert(t[i] == s[i]);
            }
        }
        if t.len() > 0 {
            let j = choose|j: int| 0 <= j < t.len() && #[trigger] t[j] == fold_max(t);
            assert(t[j] == s[j]);
        }
        assert(s[s.len() - 1] == s.last());
    }
}

} // verus!
