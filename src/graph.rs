//! A directed graph over the dense node ids `0..n`, with unit-length edges.

use vstd::prelude::*;

verus! {

/// The mathematical graph: `n` nodes `0..n` and a set of directed edges `(u, v)`.
pub struct GraphModel {
    pub n: nat,
    pub edges: Set<(int, int)>,
}

impl GraphModel {
    pub open spec fn is_node(self, v: int) -> bool {
        0 <= v < self.n
    }

    pub open spec fn has_edge(self, u: int, v: int) -> bool {
        self.edges.contains((u, v))
    }

    /// A non-empty sequence of nodes, each joined to the next by an edge.
    pub open spec fn is_path(self, p: Seq<int>) -> bool {
        &&& p.len() >= 1
        &&& forall|k: int| 0 <= k < p.len() ==> self.is_node(#[trigger] p[k])
        &&& forall|k: int| 0 <= k < p.len() - 1 ==> self.has_edge(#[trigger] p[k], p[k + 1])
    }

    /// Every node exactly once, and every edge pointing forward.
    pub open spec fn is_topological_order(self, ord: Seq<int>) -> bool {
        &&& ord.len() == self.n
        &&& ord.no_duplicates()
        &&& forall|k: int| 0 <= k < ord.len() ==> self.is_node(#[trigger] ord[k])
        &&& forall|v: int| self.is_node(v) ==> #[trigger] ord.contains(v)
        &&& forall|i: int, j: int|
            0 <= i < ord.len() && 0 <= j < ord.len() && #[trigger] self.has_edge(ord[i], ord[j])
                ==> i < j
    }

    /// A graph is acyclic exactly when it admits a topological order.
    pub open spec fn is_acyclic(self) -> bool {
        exists|ord: Seq<int>| self.is_topological_order(ord)
    }
}

/// A directed graph whose nodes carry names and are numbered `0..n` in order of addition.
pub struct DiGraph {
    names: Vec<String>,
    succ: Vec<Vec<usize>>,
    pred: Vec<Vec<usize>>,
}

impl View for DiGraph {
    type V = GraphModel;

    closed spec fn view(&self) -> GraphModel {
        GraphModel {
            n: self.succ@.len(),
            edges: Set::new(
                |e: (int, int)|
                    0 <= e.0 < self.succ@.len() && 0 <= e.1 < self.succ@.len()
                        && self.succ@[e.0]@.contains(e.1 as usize),
            ),
        }
    }
}

impl DiGraph {
    /// The adjacency lists agree with each other and name only existing nodes.
    pub closed spec fn wf(&self) -> bool {
        &&& self.names@.len() == self.succ@.len()
        &&& self.pred@.len() == self.succ@.len()
        &&& forall|u: int, k: int|
            0 <= u < self.succ@.len() && 0 <= k < self.succ@[u]@.len() ==> (
            #[trigger] self.succ@[u]@[k]) < self.succ@.len()
        &&& forall|v: int, k: int|
            0 <= v < self.pred@.len() && 0 <= k < self.pred@[v]@.len() ==> (
            #[trigger] self.pred@[v]@[k]) < self.pred@.len()
        &&& forall|u: int| 0 <= u < self.succ@.len() ==> (#[trigger] self.succ@[u]@).no_duplicates()
        &&& forall|v: int| 0 <= v < self.pred@.len() ==> (#[trigger] self.pred@[v]@).no_duplicates()
        &&& forall|u: int, v: int|
            0 <= u < self.succ@.len() && 0 <= v < self.succ@.len() ==> (
            #[trigger] self.succ@[u]@.contains(v as usize) <==> #[trigger] self.pred@[v]@.contains(
                u as usize,
            ))
    }

    /// The name that the node `v` was added with.
    pub closed spec fn node_name(&self, v: int) -> Seq<char> {
        self.names@[v]@
    }

    /// The graph with no nodes.
    pub fn new() -> (r: DiGraph)
        ensures
            r.wf(),
            r@.n == 0,
            r@.edges == Set::<(int, int)>::empty(),
    {
        let r = DiGraph { names: Vec::new(), succ: Vec::new(), pred: Vec::new() };
        assert(r@.edges =~= Set::<(int, int)>::empty());
        r
    }

    /// Number of nodes.
    pub fn len(&self) -> (r: usize)
        requires
            self.wf(),
        ensures
            r == self@.n,
    {
        self.succ.len()
    }

    /// Adds a node with the given name and returns its id, which is the old node count.
    pub fn add_node(&mut self, name: &str) -> (r: usize)
        requires
            old(self).wf(),
            old(self)@.n < usize::MAX,
        ensures
            final(self).wf(),
            r == old(self)@.n,
            final(self)@.n == old(self)@.n + 1,
            final(self)@.edges == old(self)@.edges,
            final(self).node_name(r as int) == name@,
            forall|w: int| 0 <= w < old(self)@.n ==> #[trigger] final(self).node_name(w) == old(self).node_name(w),
    {
        let id = self.succ.len();
        self.names.push(name.to_owned());
        self.succ.push(Vec::new());
        self.pred.push(Vec::new());
        assert(self@.edges =~= old(self)@.edges) by {
            assert forall|e: (int, int)| #[trigger] self@.edges.contains(e) implies old(self)@.edges.contains(e) by {
                if e.0 == id as int {
                    assert(self.succ@[e.0]@ =~= Seq::<usize>::empty());
                }
            }
        }
        id
    }

    /// The name of node `v`.
    pub fn name(&self, v: usize) -> (r: &str)
        requires
            self.wf(),
            self@.is_node(v as int),
        ensures
            r@ == self.node_name(v as int),
    {
        self.names[v].as_str()
    }

    /// Whether the edge `u -> v` is present.
    pub fn has_edge(&self, u: usize, v: usize) -> (r: bool)
        requires
            self.wf(),
            self@.is_node(u as int),
            self@.is_node(v as int),
        ensures
            r == self@.has_edge(u as int, v as int),
    {
        let row = &self.succ[u];
        let mut i: usize = 0;
        while i < row.len()
            invariant
                self.wf(),
                self@.is_node(u as int),
                row@ == self.succ@[u as int]@,
                i <= row@.len(),
                forall|k: int| 0 <= k < i ==> row@[k] != v,
            decreases row@.len() - i,
        {
            if row[i] == v {
                proof {
                    assert(row@[i as int] == v);
                    assert(self.succ@[u as int]@.contains(v));
                    assert(self@.edges.contains((u as int, v as int)));
                }
                return true;
            }
            i += 1;
        }
        false
    }

    /// Adds the edge `u -> v`; adding an edge that is already there changes nothing.
    pub fn add_edge(&mut self, u: usize, v: usize)
        requires
            old(self).wf(),
            old(self)@.is_node(u as int),
            old(self)@.is_node(v as int),
        ensures
            final(self).wf(),
            final(self)@.n == old(self)@.n,
            final(self)@.edges == old(self)@.edges.insert((u as int, v as int)),
            forall|w: int| 0 <= w < old(self)@.n ==> #[trigger] final(self).node_name(w) == old(self).node_name(w),
    {
        if self.has_edge(u, v) {
            proof {
                assert(self@.edges =~= old(self)@.edges.insert((u as int, v as int)));
            }
            return;
        }
        proof {
            let vi = v as int;
            assert(self.succ@[u as int]@.contains(vi as usize) <==> self.pred@[vi]@.contains(u as usize));
        }
        self.succ[u].push(v);
        self.pred[v].push(u);
        let n = self.succ.len();
        proof {
            lemma_push_no_duplicates(old(self).succ@[u as int]@, v);
            lemma_push_no_duplicates(old(self).pred@[v as int]@, u);
            assert forall|a: int| 0 <= a < n implies (#[trigger] self.succ@[a]@).no_duplicates() by {
                if a != u {
                    assert(self.succ@[a] == old(self).succ@[a]);
                }
            }
            assert forall|b: int| 0 <= b < n implies (#[trigger] self.pred@[b]@).no_duplicates() by {
                if b != v {
                    assert(self.pred@[b] == old(self).pred@[b]);
                }
            }
            let su = self.succ@[u as int]@;
            let pv = self.pred@[v as int]@;
            assert(su == old(self).succ@[u as int]@.push(v));
            assert(pv == old(self).pred@[v as int]@.push(u));
            assert(su[su.len() - 1] == v);
            assert(pv[pv.len() - 1] == u);
            assert forall|a: int, b: int| 0 <= a < n && 0 <= b < n implies (
            #[trigger] self.succ@[a]@.contains(b as usize) <==> #[trigger] self.pred@[b]@.contains(
                a as usize,
            )) by {
                assert(old(self).succ@[a]@.contains(b as usize) <==> old(self).pred@[b]@.contains(
                    a as usize,
                ));
                if a == u {
                    lemma_push_contains(old(self).succ@[a]@, v, b as usize);
                } else {
                    assert(self.succ@[a] == old(self).succ@[a]);
                }
                if b == v {
                    lemma_push_contains(old(self).pred@[b]@, u, a as usize);
                } else {
                    assert(self.pred@[b] == old(self).pred@[b]);
                }
            }
            assert forall|e: (int, int)| #[trigger] self@.edges.contains(e) <==> old(
                self,
            )@.edges.insert((u as int, v as int)).contains(e) by {
                if 0 <= e.0 < n && 0 <= e.1 < n {
                    if e.0 == u {
                        lemma_push_contains(old(self).succ@[e.0]@, v, e.1 as usize);
                    } else {
                        assert(self.succ@[e.0] == old(self).succ@[e.0]);
                    }
                }
            }
            assert(self@.edges =~= old(self)@.edges.insert((u as int, v as int)));
        }
    }

    /// The nodes with an edge into `v`.
    pub fn predecessors_slice(&self, v: usize) -> (r: &[usize])
        requires
            self.wf(),
            self@.is_node(v as int),
        ensures
            forall|k: int| 0 <= k < r@.len() ==> self@.is_node(#[trigger] r@[k] as int),
            forall|u: int| self@.is_node(u) ==> (self@.has_edge(u, v as int) <==> #[trigger] r@.contains(u as usize)),
            r@.no_duplicates(),
    {
        let r = self.pred[v].as_slice();
        proof {
            assert forall|u: int| self@.is_node(u) implies (self@.has_edge(u, v as int)
                <==> #[trigger] r@.contains(u as usize)) by {
                let vi = v as int;
                assert(self.succ@[u]@.contains(vi as usize) <==> self.pred@[vi]@.contains(u as usize));
            }
        }
        r
    }

    /// The nodes with an edge from `u`.
    pub fn successors_slice(&self, u: usize) -> (r: &[usize])
        requires
            self.wf(),
            self@.is_node(u as int),
        ensures
            forall|k: int| 0 <= k < r@.len() ==> self@.is_node(#[trigger] r@[k] as int),
            forall|v: int| self@.is_node(v) ==> (self@.has_edge(u as int, v) <==> #[trigger] r@.contains(v as usize)),
            r@.no_duplicates(),
    {
        self.succ[u].as_slice()
    }
}

/// Pushing a value that is not yet present keeps a sequence free of duplicates.
proof fn lemma_push_no_duplicates(s: Seq<usize>, x: usize)
    requires
        s.no_duplicates(),
        !s.contains(x),
    ensures
        s.push(x).no_duplicates(),
{
    let t = s.push(x);
    assert forall|i: int, j: int| 0 <= i < t.len() && 0 <= j < t.len() && i != j implies t[i] != t[j] by {
        if i < s.len() && j < s.len() {
            assert(t[i] == s[i] && t[j] == s[j]);
        } else if i < s.len() {
            assert(t[i] == s[i]);
        } else if j < s.len() {
            assert(t[j] == s[j]);
        }
    }
}

/// Membership after a push: the old members and the pushed value.
pub(crate) proof fn lemma_push_contains(s: Seq<usize>, x: usize, y: usize)
    ensures
        s.push(x).contains(y) <==> (s.contains(y) || y == x),
{
    if s.contains(y) {
        let k = choose|k: int| 0 <= k < s.len() && s[k] == y;
        assert(s.push(x)[k] == y);
    }
    if y == x {
        assert(s.push(x)[s.len() as int] == y);
    }
    if s.push(x).contains(y) && y != x {
        let k = choose|k: int| 0 <= k < s.push(x).len() && s.push(x)[k] == y;
        assert(s[k] == y);
    }
}

} // verus!
