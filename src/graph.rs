use vstd::prelude::*;

verus! {

/// Each element of `s` is smaller than the next: sorted, without repeats.
pub open spec fn strictly_increasing(s: Seq<u32>) -> bool {
    forall|i: int, j: int| 0 <= i < j < s.len() ==> s[i] < s[j]
}

/// Two distinct masks that share no letter.
pub open spec fn compatible(a: u32, b: u32) -> bool {
    a & b == 0 && a != b
}

/// The compatibility graph: its nodes are distinct letter masks in ascending
/// order, and `adj[i]` lists the neighbours of `nodes[i]` in ascending order.
/// `build_graph` stores every edge at both of its ends.
pub struct Graph {
    pub nodes: Vec<u32>,
    pub adj: Vec<Vec<u32>>,
}

impl Graph {
    /// Nodes and neighbour lists are sorted and free of repeats.
    pub open spec fn wf(&self) -> bool {
        &&& strictly_increasing(self.nodes@)
        &&& self.adj@.len() == self.nodes@.len()
        &&& forall|i: int| 0 <= i < self.adj@.len() ==> strictly_increasing(#[trigger] self.adj@[i]@)
    }

    /// Whether `m` is a node.
    pub open spec fn is_node(&self, m: u32) -> bool {
        self.nodes@.contains(m)
    }

    /// The neighbours stored for `m`; none when `m` is not a node.
    pub open spec fn neighbors(&self, m: u32) -> Seq<u32> {
        if self.is_node(m) {
            self.adj@[self.nodes@.index_of(m)]@
        } else {
            Seq::empty()
        }
    }

    /// Whether `b` is stored as a neighbour of `a`.
    pub open spec fn has_edge(&self, a: u32, b: u32) -> bool {
        self.neighbors(a).contains(b)
    }

    /// `self` is the compatibility graph of the mask set `masks`: its nodes
    /// are the masks, and `b` neighbours `a` exactly when they are compatible.
    pub open spec fn is_compatibility_graph_of(&self, masks: Seq<u32>) -> bool {
        &&& self.wf()
        &&& self.nodes@ == masks
        &&& forall|i: int, m: u32|
            0 <= i < masks.len() ==> (#[trigger] self.adj@[i]@.contains(m) <==> masks.contains(m)
                && compatible(m, masks[i]))
    }

    /// A graph without nodes.
    pub fn new() -> (g: Graph)
        ensures
            g.wf(),
            g.nodes@.len() == 0,
    {
        Graph { nodes: Vec::new(), adj: Vec::new() }
    }

    /// Adds a node with its neighbours, as read from a persisted graph.
    ///
    /// Lines may come in any order and a neighbour list in any order, with
    /// repeats; the graph keeps its nodes and each list sorted and free of
    /// repeats. A node that is already present is refused and leaves the
    /// graph as it was.
    pub fn add_node(&mut self, mask: u32, neighbors: Vec<u32>) -> (accepted: bool)
        requires
            old(self).wf(),
        ensures
            final(self).wf(),
            accepted <==> !old(self).is_node(mask),
            accepted ==> forall|m: u32|
                #[trigger] final(self).is_node(m) <==> old(self).is_node(m) || m == mask,
            accepted ==> forall|m: u32|
                #[trigger] final(self).neighbors(mask).contains(m) <==> neighbors@.contains(m),
            accepted ==> forall|m: u32|
                old(self).is_node(m) ==> #[trigger] final(self).neighbors(m) == old(self).neighbors(m),
            !accepted ==> *final(self) == *old(self),
    {
        let p = sorted_position(&self.nodes, mask);
        if p < self.nodes.len() && self.nodes[p] == mask {
            return false;
        }
        proof {
            if self.is_node(mask) {
                let k = self.nodes@.index_of(mask);
                if k < p {
                } else if k > p {
                }
            }
        }
        let row = sorted_set(&neighbors);
        let ghost old_nodes = self.nodes@;
        let ghost old_adj = self.adj@;
        self.nodes.insert(p, mask);
        self.adj.insert(p, row);
        proof {
            assert forall|a: int, b: int| 0 <= a < b < self.nodes@.len() implies self.nodes@[a]
                < self.nodes@[b] by {
                if b < p {
                    assert(self.nodes@[a] == old_nodes[a] && self.nodes@[b] == old_nodes[b]);
                } else if b == p {
                    assert(self.nodes@[a] == old_nodes[a]);
                } else if a == p {
                    assert(self.nodes@[b] == old_nodes[b - 1]);
                } else if a < p {
                    assert(self.nodes@[a] == old_nodes[a] && self.nodes@[b] == old_nodes[b - 1]);
                } else {
                    assert(self.nodes@[a] == old_nodes[a - 1] && self.nodes@[b] == old_nodes[b - 1]);
                }
            }
            assert forall|q: int| 0 <= q < self.adj@.len() implies strictly_increasing(
                #[trigger] self.adj@[q]@,
            ) by {
                if q < p {
                    assert(self.adj@[q] == old_adj[q]);
                } else if q > p {
                    assert(self.adj@[q] == old_adj[q - 1]);
                }
            }
            assert forall|m: u32| #[trigger] self.is_node(m) <==> old_nodes.contains(m) || m == mask by {
                if self.nodes@.contains(m) {
                    let k = self.nodes@.index_of(m);
                    if k < p {
                        assert(old_nodes[k] == m);
                    } else if k > p {
                        assert(old_nodes[k - 1] == m);
                    }
                }
                if old_nodes.contains(m) {
                    let k = old_nodes.index_of(m);
                    if k < p {
                        assert(self.nodes@[k] == m);
                    } else {
                        assert(self.nodes@[k + 1] == m);
                    }
                }
                if m == mask {
                    assert(self.nodes@[p as int] == m);
                }
            }
            lemma_index_of_unique(self.nodes@, p as int);
            assert(self.neighbors(mask) == row@);
            assert forall|m: u32| old_nodes.contains(m) implies #[trigger] self.neighbors(m) == old(
                self,
            ).neighbors(m) by {
                let k = old_nodes.index_of(m);
                lemma_index_of_unique(old_nodes, k);
                if k < p {
                    lemma_index_of_unique(self.nodes@, k);
                    assert(self.adj@[k] == old_adj[k]);
                } else {
                    assert(self.nodes@[k + 1] == m);
                    lemma_index_of_unique(self.nodes@, k + 1);
                    assert(self.adj@[k + 1] == old_adj[k]);
                }
            }
        }
        true
    }

    /// The position of `m` among the nodes, found by binary search.
    pub fn node_index(&self, m: u32) -> (r: Option<usize>)
        requires
            self.wf(),
        ensures
            r is Some <==> self.is_node(m),
            r matches Some(i) ==> i < self.nodes@.len() && self.nodes@[i as int] == m,
    {
        let mut lo: usize = 0;
        let mut hi: usize = self.nodes.len();
        while lo < hi
            invariant
                self.wf(),
                lo <= hi <= self.nodes@.len(),
                forall|k: int| 0 <= k < lo ==> self.nodes@[k] < m,
                forall|k: int| hi <= k < self.nodes@.len() ==> self.nodes@[k] > m,
            decreases hi - lo,
        {
            let mid = lo + (hi - lo) / 2;
            let v = self.nodes[mid];
            if v == m {
                return Some(mid);
            } else if v < m {
                lo = mid + 1;
            } else {
                hi = mid;
            }
        }
        proof {
            if self.is_node(m) {
                let k = choose|k: int| 0 <= k < self.nodes@.len() && self.nodes@[k] == m;
            }
        }
        None
    }
}

/// The place of `x` in the ascending sequence `v`: every element before it
/// is smaller, every element after it is larger.
fn sorted_position(v: &Vec<u32>, x: u32) -> (r: usize)
    requires
        strictly_increasing(v@),
    ensures
        r <= v@.len(),
        forall|k: int| 0 <= k < r ==> v@[k] < x,
        forall|k: int| r < k < v@.len() ==> v@[k] > x,
        r < v@.len() ==> v@[r as int] >= x,
{
    let mut lo: usize = 0;
    let mut hi: usize = v.len();
    while lo < hi
        invariant
            strictly_increasing(v@),
            lo <= hi <= v@.len(),
            forall|k: int| 0 <= k < lo ==> v@[k] < x,
            forall|k: int| hi <= k < v@.len() ==> v@[k] >= x,
        decreases hi - lo,
    {
        let mid = lo + (hi - lo) / 2;
        if v[mid] < x {
            lo = mid + 1;
        } else {
            hi = mid;
        }
    }
    proof {
        assert forall|k: int| lo < k < v@.len() implies v@[k] > x by {
            assert(v@[lo as int] < v@[k]);
        }
    }
    lo
}

/// The distinct elements of `v` in ascending order.
pub fn sorted_set(v: &Vec<u32>) -> (r: Vec<u32>)
    ensures
        strictly_increasing(r@),
        forall|x: u32| #[trigger] r@.contains(x) <==> v@.contains(x),
{
    let mut r: Vec<u32> = Vec::new();
    let mut i: usize = 0;
    while i < v.len()
        invariant
            i <= v@.len(),
            strictly_increasing(r@),
            forall|x: u32| #[trigger] r@.contains(x) <==> v@.take(i as int).contains(x),
        decreases v@.len() - i,
    {
        let x = v[i];
        let ghost before = r@;
        let ghost vt = v@.take(i as int + 1);
        assert(vt =~= v@.take(i as int).push(x));
        let p = sorted_position(&r, x);
        if p < r.len() && r[p] == x {
            proof {
                assert forall|y: u32| #[trigger] r@.contains(y) <==> vt.contains(y) by {
                    if vt.contains(y) && y != x {
                        let k = choose|k: int| 0 <= k < vt.len() && vt[k] == y;
                        assert(v@.take(i as int)[k] == y);
                    }
                    if y == x {
                        assert(vt[i as int] == x);
                    }
                }
            }
        } else {
            r.insert(p, x);
            proof {
                assert forall|a: int, b: int| 0 <= a < b < r@.len() implies r@[a] < r@[b] by {
                    if b < p {
                        assert(r@[a] == before[a] && r@[b] == before[b]);
                    } else if b == p {
                        assert(r@[a] == before[a]);
                    } else if a == p {
                        assert(r@[b] == before[b - 1]);
                    } else if a < p {
                        assert(r@[a] == before[a] && r@[b] == before[b - 1]);
                    } else {
                        assert(r@[a] == before[a - 1] && r@[b] == before[b - 1]);
                    }
                }
                assert forall|y: u32| #[trigger] r@.contains(y) <==> vt.contains(y) by {
                    if r@.contains(y) {
                        let k = choose|k: int| 0 <= k < r@.len() && r@[k] == y;
                        if k < p {
                            assert(before[k] == y);
                        } else if k > p {
                            assert(before[k - 1] == y);
                        } else {
                            assert(vt[i as int] == x);
                        }
                        if y != x {
                            assert(before.contains(y));
                            let j = choose|j: int| 0 <= j < v@.take(i as int).len() && v@.take(i as int)[j] == y;
                            assert(vt[j] == y);
                        }
                    }
                    if vt.contains(y) {
                        let k = choose|k: int| 0 <= k < vt.len() && vt[k] == y;
                        if k < i {
                            assert(v@.take(i as int)[k] == y);
                            assert(before.contains(y));
                            let j = choose|j: int| 0 <= j < before.len() && before[j] == y;
                            if j < p {
                                assert(r@[j] == y);
                            } else {
                                assert(r@[j + 1] == y);
                            }
                        } else {
                            assert(r@[p as int] == x);
                        }
                    }
                }
            }
        }
        i = i + 1;
    }
    assert(v@.take(i as int) =~= v@);
    r
}

/// In a sorted sequence without repeats, `index_of` finds the one position
/// that holds the value.
pub proof fn lemma_index_of_unique(s: Seq<u32>, i: int)
    requires
        strictly_increasing(s),
        0 <= i < s.len(),
    ensures
        s.index_of(s[i]) == i,
{
    let k = s.index_of(s[i]);
    assert(s.contains(s[i]));
    if k != i {
        assert(s[k] == s[i]);
    }
}

/// Builds the compatibility graph of a set of masks, given in ascending order.
///
/// Every pair of distinct masks with no common bit becomes an edge, stored at
/// both ends; no mask is its own neighbour.
pub fn build_graph(masks: &Vec<u32>) -> (g: Graph)
    requires
        strictly_increasing(masks@),
    ensures
        g.is_compatibility_graph_of(masks@),
{
    let n = masks.len();
    let mut nodes: Vec<u32> = Vec::new();
    let mut adj: Vec<Vec<u32>> = Vec::new();
    let mut i: usize = 0;
    while i < n
        invariant
            n == masks@.len(),
            strictly_increasing(masks@),
            i <= n,
            nodes@ == masks@.take(i as int),
            adj@.len() == i,
            forall|q: int| 0 <= q < i ==> strictly_increasing(#[trigger] adj@[q]@),
            forall|q: int, m: u32|
                0 <= q < i ==> (#[trigger] adj@[q]@.contains(m) <==> masks@.contains(m)
                    && compatible(m, masks@[q])),
        decreases n - i,
    {
        let a = masks[i];
        let mut row: Vec<u32> = Vec::new();
        let mut j: usize = 0;
        while j < n
            invariant
                n == masks@.len(),
                strictly_increasing(masks@),
                i < n,
                a == masks@[i as int],
                j <= n,
                strictly_increasing(row@),
                forall|m: u32|
                    #[trigger] row@.contains(m) <==> exists|q: int|
                        0 <= q < j && masks@[q] == m && compatible(m, a),
            decreases n - j,
        {
            let b = masks[j];
            let ghost old_row = row@;
            if b & a == 0 && b != a {
                proof {
                    if row@.len() > 0 {
                        assert(old_row.contains(old_row.last()));
                    }
                }
                row.push(b);
                proof {
                    assert forall|x: int, y: int| 0 <= x < y < row@.len() implies row@[x]
                        < row@[y] by {
                        if y == row@.len() - 1 && x < y {
                            assert(old_row.contains(old_row[x]));
                        }
                    }
                }
            }
            proof {
                assert forall|m: u32|
                    #[trigger] row@.contains(m) <==> exists|q: int|
                        0 <= q < j + 1 && masks@[q] == m && compatible(m, a) by {
                    if row@.contains(m) && !old_row.contains(m) {
                        let r = choose|r: int| 0 <= r < row@.len() && row@[r] == m;
                        assert(r == old_row.len());
                    }
                    if exists|q: int| 0 <= q < j + 1 && masks@[q] == m && compatible(m, a) {
                        let q = choose|q: int| 0 <= q < j + 1 && masks@[q] == m && compatible(m, a);
                        if q == j {
                            assert(row@[row@.len() - 1] == m);
                        } else {
                            assert(old_row.contains(m));
                            let r = choose|r: int| 0 <= r < old_row.len() && old_row[r] == m;
                            assert(row@[r] == m);
                        }
                    }
                }
            }
            j = j + 1;
        }
        proof {
            assert forall|m: u32| #[trigger] row@.contains(m) <==> masks@.contains(m) && compatible(m, a) by {
                if masks@.contains(m) && compatible(m, a) {
                    let q = choose|q: int| 0 <= q < n && masks@[q] == m;
                }
            }
        }
        let ghost old_adj = adj@;
        nodes.push(a);
        adj.push(row);
        proof {
            assert(nodes@ =~= masks@.take(i as int + 1));
            assert forall|q: int, m: u32|
                0 <= q < i + 1 implies (#[trigger] adj@[q]@.contains(m) <==> masks@.contains(m)
                && compatible(m, masks@[q])) by {
                if q < i {
                    assert(adj@[q] == old_adj[q]);
                }
            }
        }
        i = i + 1;
    }
    assert(nodes@ =~= masks@);
    Graph { nodes, adj }
}

proof fn lemma_and_comm(a: u32, b: u32)
    by (bit_vector)
    ensures
        a & b == b & a,
{
}

/// In the compatibility graph of a mask set, `b` is a neighbour of `a` exactly
/// when both belong to the set, differ, and share no bit; and `b` is a
/// neighbour of `a` exactly when `a` is a neighbour of `b`.
pub proof fn lemma_compatibility_edges(g: Graph, masks: Seq<u32>, a: u32, b: u32)
    requires
        g.is_compatibility_graph_of(masks),
    ensures
        g.has_edge(a, b) <==> masks.contains(a) && masks.contains(b) && a & b == 0 && a != b,
        g.has_edge(a, b) <==> g.has_edge(b, a),
{
    lemma_and_comm(a, b);
    if masks.contains(a) {
        let i = masks.index_of(a);
        assert(g.adj@[i]@.contains(b) <==> masks.contains(b) && compatible(b, masks[i]));
    }
    if masks.contains(b) {
        let j = masks.index_of(b);
        assert(g.adj@[j]@.contains(a) <==> masks.contains(a) && compatible(a, masks[j]));
    }
}

} // verus!
