//! Topological ordering of a directed graph, or the finding that none exists.

use vstd::prelude::*;
use vstd::set_lib::{lemma_int_range, lemma_len_subset, lemma_subset_equality, set_int_range};
use crate::graph::{lemma_push_contains, DiGraph, GraphModel};

verus! {

/// Node ids as mathematical integers.
pub open spec fn as_ids(s: Seq<usize>) -> Seq<int> {
    s.map_values(|x: usize| x as int)
}

/// The predecessors of `w` that are not in `done`.
pub open spec fn unreleased(g: GraphModel, w: int, done: Set<int>) -> Set<int> {
    Set::new(|x: int| g.is_node(x) && g.has_edge(x, w) && !done.contains(x))
}

/// The nodes among the first `head` entries of the order.
pub open spec fn processed(inq: Set<int>, pos: Seq<int>, head: int) -> Set<int> {
    Set::new(|x: int| inq.contains(x) && pos[x] < head)
}

proof fn lemma_unreleased_finite(g: GraphModel, w: int, done: Set<int>)
    ensures
        unreleased(g, w, done).finite(),
        unreleased(g, w, done).len() <= g.n,
{
    lemma_int_range(0, g.n as int);
    lemma_len_subset(unreleased(g, w, done), set_int_range(0, g.n as int));
}

/// A finite set of length zero has no members.
proof fn lemma_len_zero_empty(s: Set<int>, x: int)
    requires
        s.finite(),
        s.len() == 0,
    ensures
        !s.contains(x),
{
    if s.contains(x) {
        assert(s.len() == s.remove(x).len() + 1);
    }
}

/// When no node is left that could be placed, and some topological order exists,
/// then every node has been placed.
proof fn lemma_stuck_means_cycle(g: GraphModel, placed: Seq<bool>, ord: Seq<int>)
    requires
        placed.len() == g.n,
        g.is_topological_order(ord),
        forall|w: int|
            g.is_node(w) && !(#[trigger] placed[w]) ==> exists|u: int|
                g.is_node(u) && g.has_edge(u, w) && !placed[u],
    ensures
        forall|w: int| g.is_node(w) ==> #[trigger] placed[w],
{
    assert forall|k: int| 0 <= k < ord.len() implies #[trigger] placed[ord[k]] by {
        lemma_placed_prefix(g, placed, ord, k);
    }
    assert forall|w: int| g.is_node(w) implies #[trigger] placed[w] by {
        assert(ord.contains(w));
        let k = choose|k: int| 0 <= k < ord.len() && ord[k] == w;
        lemma_placed_prefix(g, placed, ord, k);
    }
}

proof fn lemma_placed_prefix(g: GraphModel, placed: Seq<bool>, ord: Seq<int>, k: int)
    requires
        placed.len() == g.n,
        g.is_topological_order(ord),
        0 <= k < ord.len(),
        forall|w: int|
            g.is_node(w) && !(#[trigger] placed[w]) ==> exists|u: int|
                g.is_node(u) && g.has_edge(u, w) && !placed[u],
    ensures
        forall|j: int| 0 <= j <= k ==> #[trigger] placed[ord[j]],
    decreases k,
{
    if k > 0 {
        lemma_placed_prefix(g, placed, ord, k - 1);
    }
    let w = ord[k];
    assert(g.is_node(w));
    if !placed[w] {
        let u = choose|u: int| g.is_node(u) && g.has_edge(u, w) && !placed[u];
        assert(ord.contains(u));
        let j = choose|j: int| 0 <= j < ord.len() && ord[j] == u;
        assert(g.has_edge(ord[j], ord[k]));
        assert(j < k);
        assert(placed[ord[j]]);
    }
}

/// A topological order of `g`, or `None` exactly when `g` has none (it contains a cycle).
///
/// Kahn's algorithm: a node joins the order once all its predecessors have been taken
/// from the front of the order; each node counts its predecessors not yet taken.
pub fn topological_sort(g: &DiGraph) -> (r: Option<Vec<usize>>)
    requires
        g.wf(),
    ensures
        r is Some <==> g@.is_acyclic(),
        r matches Some(o) ==> g@.is_topological_order(as_ids(o@)),
{
    let n = g.len();
    let ghost gm = g@;
    let mut remaining: Vec<usize> = Vec::new();
    let mut order: Vec<usize> = Vec::new();
    let ghost mut pos: Seq<int> = Seq::new(n as nat, |v: int| 0);
    let ghost mut inq: Set<int> = Set::empty();
    proof {
        lemma_int_range(0, n as int);
    }
    let mut v: usize = 0;
    while v < n
        invariant
            g.wf(),
            gm == g@,
            n == gm.n,
            v <= n,
            remaining@.len() == v,
            pos.len() == n,
            set_int_range(0, n as int).finite(),
            set_int_range(0, n as int).len() == n,
            inq.finite(),
            inq.len() == order@.len(),
            forall|x: int| #[trigger] inq.contains(x) ==> 0 <= x < v,
            forall|w: int|
                0 <= w < v ==> #[trigger] remaining@[w] == unreleased(gm, w, Set::empty()).len(),
            forall|w: int| 0 <= w < v ==> (#[trigger] inq.contains(w) <==> remaining@[w] == 0),
            forall|k: int|
                0 <= k < order@.len() ==> #[trigger] order@[k] < n && pos[order@[k] as int] == k
                    && inq.contains(order@[k] as int),
            forall|x: int|
                #[trigger] inq.contains(x) ==> 0 <= pos[x] < order@.len() && order@[pos[x]] == x,
            forall|k: int, x: int|
                0 <= k < order@.len() && gm.is_node(x) && #[trigger] gm.has_edge(x, order@[k] as int)
                    ==> inq.contains(x) && pos[x] < k,
        decreases n - v,
    {
        let preds = g.predecessors_slice(v);
        let c = preds.len();
        proof {
            let ids = preds@.map_values(|x: usize| x as int);
            assert(ids.no_duplicates()) by {
                assert forall|i: int, j: int| 0 <= i < ids.len() && 0 <= j < ids.len() && i != j implies ids[i] != ids[j] by {
                    assert(preds@[i] != preds@[j]);
                }
            }
            ids.unique_seq_to_set();
            assert forall|x: int| #[trigger] ids.to_set().contains(x) <==> unreleased(gm, v as int, Set::empty()).contains(x) by {
                if ids.to_set().contains(x) {
                    let k = choose|k: int| 0 <= k < ids.len() && ids[k] == x;
                    assert(preds@[k] as int == x);
                    assert(gm.is_node(x));
                    assert(preds@.contains(x as usize));
                }
                if unreleased(gm, v as int, Set::empty()).contains(x) {
                    assert(preds@.contains(x as usize));
                    let k = choose|k: int| 0 <= k < preds@.len() && preds@[k] == x as usize;
                    assert(ids[k] == x);
                    assert(ids.contains(x));
                }
            }
            assert(ids.to_set() =~= unreleased(gm, v as int, Set::empty()));
        }
        remaining.push(c);
        if c == 0 {
            proof {
                assert forall|x: int| gm.is_node(x) implies !gm.has_edge(x, v as int) by {
                    lemma_len_zero_empty(unreleased(gm, v as int, Set::empty()), x);
                }
                assert(!inq.contains(v as int));
                assert(inq.insert(v as int).subset_of(set_int_range(0, n as int)));
                lemma_len_subset(inq.insert(v as int), set_int_range(0, n as int));
                pos = pos.update(v as int, order@.len() as int);
                inq = inq.insert(v as int);
            }
            order.push(v);
        }
        v += 1;
    }

    proof {
        lemma_len_subset(inq, set_int_range(0, n as int));
        assert(processed(inq, pos, 0) =~= Set::<int>::empty());
    }
    let mut head: usize = 0;
    while head < order.len()
        invariant
            g.wf(),
            gm == g@,
            n == gm.n,
            remaining@.len() == n,
            pos.len() == n,
            set_int_range(0, n as int).finite(),
            set_int_range(0, n as int).len() == n,
            inq.finite(),
            inq.len() == order@.len(),
            order@.len() <= n,
            head <= order@.len(),
            forall|x: int| #[trigger] inq.contains(x) ==> 0 <= x < n,
            forall|w: int|
                0 <= w < n ==> #[trigger] remaining@[w] == unreleased(
                    gm,
                    w,
                    processed(inq, pos, head as int),
                ).len(),
            forall|w: int| 0 <= w < n ==> (#[trigger] inq.contains(w) <==> remaining@[w] == 0),
            forall|k: int|
                0 <= k < order@.len() ==> #[trigger] order@[k] < n && pos[order@[k] as int] == k
                    && inq.contains(order@[k] as int),
            forall|x: int|
                #[trigger] inq.contains(x) ==> 0 <= pos[x] < order@.len() && order@[pos[x]] == x,
            forall|k: int, x: int|
                0 <= k < order@.len() && gm.is_node(x) && #[trigger] gm.has_edge(x, order@[k] as int)
                    ==> inq.contains(x) && pos[x] < k,
        decreases n - head,
    {
        let u = order[head];
        let succs = g.successors_slice(u);
        let ghost done = processed(inq, pos, head as int);
        let ghost done1 = done.insert(u as int);
        let mut i: usize = 0;
        while i < succs.len()
            invariant
                g.wf(),
                gm == g@,
                n == gm.n,
                remaining@.len() == n,
                pos.len() == n,
                set_int_range(0, n as int).finite(),
                set_int_range(0, n as int).len() == n,
                inq.finite(),
                inq.len() == order@.len(),
                order@.len() <= n,
                head < order@.len(),
                u == order@[head as int],
                done == processed(inq, pos, head as int),
                done1 == done.insert(u as int),
                !done.contains(u as int),
                forall|k: int| 0 <= k < succs@.len() ==> gm.is_node(#[trigger] succs@[k] as int),
                forall|w: int|
                    gm.is_node(w) ==> (gm.has_edge(u as int, w) <==> #[trigger] succs@.contains(
                        w as usize,
                    )),
                succs@.no_duplicates(),
                i <= succs@.len(),
                forall|x: int| #[trigger] inq.contains(x) ==> 0 <= x < n,
                forall|w: int|
                    0 <= w < n ==> #[trigger] remaining@[w] == unreleased(
                        gm,
                        w,
                        if succs@.subrange(0, i as int).contains(w as usize) {
                            done1
                        } else {
                            done
                        },
                    ).len(),
                forall|w: int| 0 <= w < n ==> (#[trigger] inq.contains(w) <==> remaining@[w] == 0),
                forall|k: int|
                    0 <= k < order@.len() ==> #[trigger] order@[k] < n && pos[order@[k] as int] == k
                        && inq.contains(order@[k] as int),
                forall|x: int|
                    #[trigger] inq.contains(x) ==> 0 <= pos[x] < order@.len() && order@[pos[x]] == x,
                forall|k: int, x: int|
                    0 <= k < order@.len() && gm.is_node(x) && #[trigger] gm.has_edge(
                        x,
                        order@[k] as int,
                    ) ==> inq.contains(x) && pos[x] < k,
            decreases succs@.len() - i,
        {
            let w = succs[i];
            let ghost old_remaining = remaining@;
            let ghost old_order = order@;
            let ghost old_inq = inq;
            proof {
                assert(succs@[i as int] == w);
                assert(gm.is_node(w as int));
                assert(succs@.contains((w as int) as usize));
                assert(gm.has_edge(u as int, w as int));
                if succs@.subrange(0, i as int).contains(w) {
                    let k = choose|k: int| 0 <= k < i && succs@.subrange(0, i as int)[k] == w;
                    assert(succs@[k] == succs@[i as int]);
                }
                assert(unreleased(gm, w as int, done).contains(u as int));
                assert(unreleased(gm, w as int, done1) =~= unreleased(gm, w as int, done).remove(u as int));
                lemma_unreleased_finite(gm, w as int, done);
            }
            let c = remaining[w] - 1;
            remaining.set(w, c);
            if c == 0 {
                proof {
                    assert(!inq.contains(w as int));
                    assert(inq.insert(w as int).subset_of(set_int_range(0, n as int)));
                    lemma_len_subset(inq.insert(w as int), set_int_range(0, n as int));
                    lemma_len_subset(inq, set_int_range(0, n as int));
                    pos = pos.update(w as int, order@.len() as int);
                    inq = inq.insert(w as int);
                    assert(done == processed(inq, pos, head as int)) by {
                        assert(done =~= processed(inq, pos, head as int));
                    }
                }
                order.push(w);
                proof {
                    assert forall|k: int, x: int|
                        0 <= k < order@.len() && gm.is_node(x) && #[trigger] gm.has_edge(
                            x,
                            order@[k] as int,
                        ) implies inq.contains(x) && pos[x] < k by {
                        if k == old_order.len() {
                            lemma_unreleased_finite(gm, w as int, done1);
                            lemma_len_zero_empty(unreleased(gm, w as int, done1), x);
                            if x != u as int {
                                assert(done.contains(x));
                            }
                        } else {
                            assert(old_order[k] == order@[k]);
                        }
                    }
                    assert forall|kk: int| 0 <= kk < order@.len() implies #[trigger] order@[kk] < n
                        && pos[order@[kk] as int] == kk && inq.contains(order@[kk] as int) by {
                        if kk < old_order.len() {
                            assert(old_order[kk] == order@[kk]);
                            assert(old_inq.contains(old_order[kk] as int));
                        }
                    }
                }
            }
            proof {
                assert forall|x: int| 0 <= x < n implies #[trigger] remaining@[x] == unreleased(
                    gm,
                    x,
                    if succs@.subrange(0, i as int + 1).contains(x as usize) {
                        done1
                    } else {
                        done
                    },
                ).len() by {
                    assert(succs@.subrange(0, i as int + 1) =~= succs@.subrange(0, i as int).push(w));
                    lemma_push_contains(succs@.subrange(0, i as int), w, x as usize);
                    if x != w as int {
                    } else {
                        assert(succs@.subrange(0, i as int + 1)[i as int] == w);
                    }
                }
            }
            i += 1;
        }
        proof {
            assert(processed(inq, pos, head as int + 1) =~= done1);
            assert forall|x: int| 0 <= x < n implies #[trigger] remaining@[x] == unreleased(
                gm,
                x,
                processed(inq, pos, head as int + 1),
            ).len() by {
                if !succs@.contains(x as usize) {
                    assert(unreleased(gm, x, done1) =~= unreleased(gm, x, done));
                } else {
                    assert(succs@.subrange(0, i as int) =~= succs@);
                }
            }
        }
        head += 1;
    }
    proof {
        lemma_len_subset(inq, set_int_range(0, n as int));
    }
    if order.len() == n {
        proof {
            lemma_subset_equality(inq, set_int_range(0, n as int));
            let o = as_ids(order@);
            assert forall|w: int| gm.is_node(w) implies #[trigger] o.contains(w) by {
                assert(set_int_range(0, n as int).contains(w));
                assert(inq.contains(w));
                assert(o[pos[w]] == w);
            }
            assert forall|i: int, j: int|
                0 <= i < o.len() && 0 <= j < o.len() && #[trigger] gm.has_edge(o[i], o[j]) implies i < j by {
                assert(inq.contains(order@[i] as int));
            }
            assert(o.no_duplicates());
            assert(gm.is_topological_order(o));
        }
        Some(order)
    } else {
        proof {
            let placed = Seq::new(n as nat, |x: int| inq.contains(x));
            assert(processed(inq, pos, head as int) =~= inq);
            assert forall|w: int|
                gm.is_node(w) && !(#[trigger] placed[w]) implies exists|x: int|
                    gm.is_node(x) && gm.has_edge(x, w) && !placed[x] by {
                let s = unreleased(gm, w, inq);
                lemma_unreleased_finite(gm, w, inq);
                if forall|x: int| !s.contains(x) {
                    assert(s =~= Set::empty());
                }
                let x = choose|x: int| s.contains(x);
                assert(!placed[x]);
            }
            if gm.is_acyclic() {
                let ord = choose|ord: Seq<int>| gm.is_topological_order(ord);
                lemma_stuck_means_cycle(gm, placed, ord);
                assert forall|x: int| #[trigger] set_int_range(0, n as int).contains(x) implies inq.contains(x) by {
                    assert(gm.is_node(x));
                    assert(placed[x]);
                }
                assert(inq =~= set_int_range(0, n as int));
            }
        }
        None
    }
}

} // verus!
