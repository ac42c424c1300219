use vstd::prelude::*;
use crate::codec::{popcount, lemma_popcount_disjoint_union, lemma_popcount_zero};
use crate::graph::{Graph, strictly_increasing, lemma_index_of_unique, lemma_compatibility_edges};
use crate::words::holds;

verus! {

/// The union of the masks of `s`.
pub open spec fn union_of(s: Seq<u32>) -> u32
    decreases s.len(),
{
    if s.len() == 0 {
        0
    } else {
        union_of(s.drop_last()) | s.last()
    }
}

/// The sum of the population counts of the masks of `s`.
pub open spec fn popcount_sum(s: Seq<u32>) -> nat
    decreases s.len(),
{
    if s.len() == 0 {
        0
    } else {
        popcount_sum(s.drop_last()) + popcount(s.last())
    }
}

/// No two masks of `s` share a bit.
pub open spec fn pairwise_disjoint(s: Seq<u32>) -> bool {
    forall|i: int, j: int| 0 <= i < j < s.len() ==> s[i] & s[j] == 0
}

/// A path that the search walks: it starts at a node, climbs to a larger
/// neighbour at each step, and its masks are pairwise disjoint.
pub open spec fn is_search_path(g: Graph, s: Seq<u32>) -> bool {
    &&& s.len() >= 1
    &&& g.is_node(s[0])
    &&& forall|k: int| 0 <= k < s.len() - 1 ==> #[trigger] s[k] < s[k + 1] && g.has_edge(s[k], s[k + 1])
    &&& pairwise_disjoint(s)
}

/// `s` is a search path of `size` masks that begins with `p`.
pub open spec fn completes(g: Graph, size: nat, p: Seq<u32>, s: Seq<u32>) -> bool {
    &&& s.len() == size
    &&& is_search_path(g, s)
    &&& s.take(p.len() as int) == p
}

/// `r` lists each search path of `size` masks once, and nothing else.
pub open spec fn is_clique_listing(g: Graph, size: nat, r: Seq<Vec<u32>>) -> bool {
    &&& forall|s: Seq<u32>| #[trigger] holds(r, s) <==> s.len() == size && is_search_path(g, s)
    &&& forall|i: int, j: int| 0 <= i < j < r.len() ==> r[i]@ != r[j]@
}

proof fn lemma_and_or_zero(c: u32, a: u32, b: u32)
    by (bit_vector)
    ensures
        (c & (a | b) == 0) <==> (c & a == 0 && c & b == 0),
        c & a == a & c,
        0u32 | c == c,
        c & 0u32 == 0,
{
}

/// A mask shares no bit with the union of `s` exactly when it shares no bit
/// with any mask of `s`.
pub proof fn lemma_disjoint_from_union(s: Seq<u32>, c: u32)
    ensures
        c & union_of(s) == 0 <==> forall|k: int| 0 <= k < s.len() ==> #[trigger] s[k] & c == 0,
    decreases s.len(),
{
    lemma_and_or_zero(c, 0, 0);
    if s.len() > 0 {
        let p = s.drop_last();
        lemma_disjoint_from_union(p, c);
        lemma_and_or_zero(c, union_of(p), s.last());
        assert forall|k: int| 0 <= k < p.len() implies #[trigger] s[k] & c == p[k] & c by {}
        lemma_and_or_zero(s.last(), c, 0);
        if c & union_of(s) == 0 {
            assert forall|k: int| 0 <= k < s.len() implies #[trigger] s[k] & c == 0 by {
                if k < p.len() {
                    assert(p[k] & c == 0);
                }
            }
        }
        if forall|k: int| 0 <= k < s.len() ==> #[trigger] s[k] & c == 0 {
            assert forall|k: int| 0 <= k < p.len() implies #[trigger] p[k] & c == 0 by {
                assert(s[k] & c == 0);
            }
            assert(s[s.len() - 1] & c == 0);
        }
    }
}

/// The masks of a pairwise-disjoint sequence overlap nowhere: the population
/// count of their union is the sum of their population counts.
pub proof fn lemma_union_popcount(s: Seq<u32>)
    requires
        pairwise_disjoint(s),
    ensures
        popcount(union_of(s)) == popcount_sum(s),
    decreases s.len(),
{
    if s.len() == 0 {
        lemma_popcount_zero();
    } else {
        let p = s.drop_last();
        assert(pairwise_disjoint(p)) by {
            assert forall|i: int, j: int| 0 <= i < j < p.len() implies p[i] & p[j] == 0 by {
                assert(s[i] & s[j] == 0);
            }
        }
        lemma_union_popcount(p);
        lemma_disjoint_from_union(p, s.last());
        assert forall|k: int| 0 <= k < p.len() implies #[trigger] p[k] & s.last() == 0 by {
            assert(s[k] & s[s.len() - 1] == 0);
        }
        lemma_and_or_zero(s.last(), union_of(p), 0);
        lemma_popcount_disjoint_union(union_of(p), s.last());
    }
}

/// Every clique that the search returns is valid: its masks are pairwise
/// disjoint and the population count of their union is the sum of theirs.
pub proof fn lemma_clique_valid(g: Graph, size: nat, r: Seq<Vec<u32>>, i: int)
    requires
        is_clique_listing(g, size, r),
        0 <= i < r.len(),
    ensures
        r[i]@.len() == size,
        pairwise_disjoint(r[i]@),
        popcount(union_of(r[i]@)) == popcount_sum(r[i]@),
{
    assert(holds(r, r[i]@));
    lemma_union_popcount(r[i]@);
}

/// Two listings of the cliques of one graph hold the same cliques, and
/// neither holds one twice.
pub proof fn lemma_listing_determined(g: Graph, size: nat, r1: Seq<Vec<u32>>, r2: Seq<Vec<u32>>)
    requires
        is_clique_listing(g, size, r1),
        is_clique_listing(g, size, r2),
    ensures
        forall|s: Seq<u32>| #[trigger] holds(r1, s) <==> holds(r2, s),
        forall|i: int, j: int| 0 <= i < j < r1.len() ==> r1[i]@ != r1[j]@,
{
}

proof fn lemma_chain_increasing(s: Seq<u32>, i: int, j: int)
    requires
        forall|k: int| 0 <= k < s.len() - 1 ==> #[trigger] s[k] < s[k + 1],
        0 <= i < j < s.len(),
    ensures
        s[i] < s[j],
    decreases j - i,
{
    if j > i + 1 {
        lemma_chain_increasing(s, i, j - 1);
        assert(s[j - 1] < s[j]);
    } else {
        assert(s[i] < s[i + 1]);
    }
}

/// In the compatibility graph of a mask set, the search paths are exactly the
/// non-empty ascending sequences of masks of the set that are pairwise
/// disjoint: the search finds every clique and nothing else.
pub proof fn lemma_search_paths_are_cliques(g: Graph, masks: Seq<u32>, s: Seq<u32>)
    requires
        g.is_compatibility_graph_of(masks),
    ensures
        is_search_path(g, s) <==> s.len() >= 1 && strictly_increasing(s) && pairwise_disjoint(s)
            && forall|k: int| 0 <= k < s.len() ==> masks.contains(#[trigger] s[k]),
{
    if is_search_path(g, s) {
        assert forall|a: int, b: int| 0 <= a < b < s.len() implies s[a] < s[b] by {
            lemma_chain_increasing(s, a, b);
        }
        assert forall|k: int| 0 <= k < s.len() implies masks.contains(#[trigger] s[k]) by {
            if k > 0 {
                assert(s[k - 1] < s[k]);
                lemma_compatibility_edges(g, masks, s[k - 1], s[k]);
            }
        }
    }
    if s.len() >= 1 && strictly_increasing(s) && pairwise_disjoint(s) && forall|k: int|
        0 <= k < s.len() ==> masks.contains(#[trigger] s[k]) {
        assert(masks.contains(s[0]));
        assert forall|k: int| 0 <= k < s.len() - 1 implies #[trigger] s[k] < s[k + 1] && g.has_edge(
            s[k],
            s[k + 1],
        ) by {
            assert(masks.contains(s[k]) && masks.contains(s[k + 1]));
            assert(s[k] & s[k + 1] == 0);
            lemma_compatibility_edges(g, masks, s[k], s[k + 1]);
        }
    }
}

fn copy_path(p: &Vec<u32>) -> (r: Vec<u32>)
    ensures
        r@ == p@,
{
    let mut r: Vec<u32> = Vec::new();
    let mut i: usize = 0;
    while i < p.len()
        invariant
            i <= p@.len(),
            r@ == p@.take(i as int),
        decreases p@.len() - i,
    {
        r.push(p[i]);
        assert(p@.take(i as int + 1) =~= p@.take(i as int).push(p@[i as int]));
        i = i + 1;
    }
    assert(p@.take(i as int) =~= p@);
    r
}

proof fn lemma_extend_path(g: Graph, p: Seq<u32>, c: u32)
    requires
        is_search_path(g, p),
        c & union_of(p) == 0,
        p.last() < c,
        g.has_edge(p.last(), c),
    ensures
        is_search_path(g, p.push(c)),
        union_of(p.push(c)) == union_of(p) | c,
{
    let q = p.push(c);
    assert(q.drop_last() =~= p);
    lemma_disjoint_from_union(p, c);
    assert forall|i: int, j: int| 0 <= i < j < q.len() implies q[i] & q[j] == 0 by {
        if j < p.len() {
            assert(p[i] & p[j] == 0);
        } else {
            assert(p[i] & c == 0);
        }
    }
    assert forall|k: int| 0 <= k < q.len() - 1 implies #[trigger] q[k] < q[k + 1] && g.has_edge(
        q[k],
        q[k + 1],
    ) by {
        if k < p.len() - 1 {
            assert(p[k] < p[k + 1]);
        }
    }
}

/// `out` is `out0` followed by each search path of `size` masks that begins
/// with `p`, each once.
pub open spec fn grown_by(g: Graph, size: nat, p: Seq<u32>, out0: Seq<Vec<u32>>, out: Seq<Vec<u32>>) -> bool {
    &&& out.len() >= out0.len()
    &&& out.take(out0.len() as int) == out0
    &&& forall|i: int| out0.len() <= i < out.len() ==> completes(g, size, p, #[trigger] out[i]@)
    &&& forall|s: Seq<u32>|
        #[trigger] completes(g, size, p, s) ==> exists|i: int| out0.len() <= i < out.len() && out[i]@ == s
    &&& forall|i: int, j: int| out0.len() <= i < j < out.len() ==> out[i]@ != out[j]@
}

/// As `grown_by`, for the paths whose mask after `p` is in `next`.
pub open spec fn grown_via(
    g: Graph,
    size: nat,
    p: Seq<u32>,
    next: Seq<u32>,
    out0: Seq<Vec<u32>>,
    out: Seq<Vec<u32>>,
) -> bool {
    &&& out.len() >= out0.len()
    &&& out.take(out0.len() as int) == out0
    &&& forall|i: int|
        out0.len() <= i < out.len() ==> completes(g, size, p, #[trigger] out[i]@) && next.contains(
            out[i]@[p.len() as int],
        )
    &&& forall|s: Seq<u32>|
        #[trigger] completes(g, size, p, s) && next.contains(s[p.len() as int]) ==> exists|i: int|
            out0.len() <= i < out.len() && out[i]@ == s
    &&& forall|i: int, j: int| out0.len() <= i < j < out.len() ==> out[i]@ != out[j]@
}

proof fn lemma_grown_take(out0: Seq<Vec<u32>>, out1: Seq<Vec<u32>>, out2: Seq<Vec<u32>>, k: int)
    requires
        out1.len() >= out0.len(),
        out1.take(out0.len() as int) == out0,
        out2.len() >= out1.len(),
        out2.take(out1.len() as int) == out1,
        0 <= k < out1.len(),
    ensures
        out2[k] == out1[k],
        k < out0.len() ==> out2[k] == out0[k],
{
    assert(out2.take(out1.len() as int)[k] == out2[k]);
    if k < out0.len() {
        assert(out1.take(out0.len() as int)[k] == out1[k]);
    }
}

proof fn lemma_branch_taken(
    g: Graph,
    size: nat,
    p0: Seq<u32>,
    row: Seq<u32>,
    t: int,
    out0: Seq<Vec<u32>>,
    out1: Seq<Vec<u32>>,
    out2: Seq<Vec<u32>>,
)
    requires
        p0.len() < size,
        strictly_increasing(row),
        0 <= t < row.len(),
        grown_via(g, size, p0, row.take(t), out0, out1),
        grown_by(g, size, p0.push(row[t]), out1, out2),
    ensures
        grown_via(g, size, p0, row.take(t + 1), out0, out2),
{
    let plen = p0.len() as int;
    let c = row[t];
    let p1 = p0.push(c);
    let before = row.take(t);
    let upto = row.take(t + 1);
    assert(upto =~= before.push(c));
    assert(p1.take(plen) =~= p0);
    assert(out2.take(out0.len() as int) =~= out0) by {
        assert forall|k: int| 0 <= k < out0.len() implies out2[k] == out0[k] by {
            lemma_grown_take(out0, out1, out2, k);
        }
    }
    assert forall|i: int| out0.len() <= i < out2.len() implies completes(
        g,
        size,
        p0,
        #[trigger] out2[i]@,
    ) && upto.contains(out2[i]@[plen]) by {
        if i < out1.len() {
            lemma_grown_take(out0, out1, out2, i);
            let m = choose|m: int| 0 <= m < before.len() && before[m] == out1[i]@[plen];
            assert(upto[m] == before[m]);
        } else {
            let s = out2[i]@;
            assert(completes(g, size, p1, s));
            assert(s.take(plen) =~= s.take(plen + 1).take(plen));
            assert(s[plen] == p1[plen]);
            assert(upto[t] == c);
        }
    }
    assert forall|s: Seq<u32>| #[trigger] completes(g, size, p0, s) && upto.contains(s[plen]) implies exists|i: int|
        out0.len() <= i < out2.len() && out2[i]@ == s by {
        if before.contains(s[plen]) {
            let i = choose|i: int| out0.len() <= i < out1.len() && out1[i]@ == s;
            lemma_grown_take(out0, out1, out2, i);
        } else {
            assert(s[plen] == c);
            assert(s.take(plen + 1) =~= p1);
            assert(completes(g, size, p1, s));
        }
    }
    assert forall|i: int, j: int| out0.len() <= i < j < out2.len() implies out2[i]@ != out2[j]@ by {
        if j < out1.len() {
            lemma_grown_take(out0, out1, out2, i);
            lemma_grown_take(out0, out1, out2, j);
        } else if i < out1.len() {
            lemma_grown_take(out0, out1, out2, i);
            let m = choose|m: int| 0 <= m < before.len() && before[m] == out1[i]@[plen];
            assert(row[m] < row[t]);
            assert(completes(g, size, p1, out2[j]@));
            assert(out2[j]@.take(plen + 1)[plen] == c);
        }
    }
}

proof fn lemma_branch_skipped(
    g: Graph,
    size: nat,
    p0: Seq<u32>,
    row: Seq<u32>,
    t: int,
    out0: Seq<Vec<u32>>,
    out1: Seq<Vec<u32>>,
)
    requires
        1 <= p0.len() < size,
        0 <= t < row.len(),
        !(row[t] > p0.last() && row[t] & union_of(p0) == 0),
        grown_via(g, size, p0, row.take(t), out0, out1),
    ensures
        grown_via(g, size, p0, row.take(t + 1), out0, out1),
{
    let plen = p0.len() as int;
    let c = row[t];
    let before = row.take(t);
    let upto = row.take(t + 1);
    assert(upto =~= before.push(c));
    assert forall|s: Seq<u32>| #[trigger] completes(g, size, p0, s) && upto.contains(s[plen]) implies exists|i: int|
        out0.len() <= i < out1.len() && out1[i]@ == s by {
        if !before.contains(s[plen]) {
            assert(s[plen] == c);
            assert(s.take(plen)[plen - 1] == s[plen - 1]);
            assert(s[plen - 1] < s[plen]);
            lemma_disjoint_from_union(p0, c);
            assert forall|k: int| 0 <= k < p0.len() implies #[trigger] p0[k] & c == 0 by {
                assert(s.take(plen)[k] == s[k]);
                assert(s[k] & s[plen] == 0);
            }
        }
    }
    assert forall|i: int| out0.len() <= i < out1.len() implies completes(
        g,
        size,
        p0,
        #[trigger] out1[i]@,
    ) && upto.contains(out1[i]@[plen]) by {
        let m = choose|m: int| 0 <= m < before.len() && before[m] == out1[i]@[plen];
        assert(upto[m] == before[m]);
    }
}

/// Collects into `out` every search path of `size` masks that begins with
/// `path`; `union` is the union of `path`.
fn extend(
    g: &Graph,
    path: &mut Vec<u32>,
    union: u32,
    size: usize,
    left: usize,
    out: &mut Vec<Vec<u32>>,
)
    requires
        g.wf(),
        left == size - old(path)@.len(),
        is_search_path(*g, old(path)@),
        old(path)@.len() <= size,
        union == union_of(old(path)@),
    ensures
        final(path)@ == old(path)@,
        grown_by(*g, size as nat, old(path)@, old(out)@, final(out)@),
    decreases left,
{
    let ghost p0 = path@;
    let ghost out0 = out@;
    let plen = path.len();
    if plen == size {
        let found = copy_path(path);
        out.push(found);
        proof {
            assert(out@.take(out0.len() as int) =~= out0);
            assert(p0.take(p0.len() as int) =~= p0);
            assert forall|s: Seq<u32>| #[trigger] completes(*g, size as nat, p0, s) implies exists|i: int|
                out0.len() <= i < out@.len() && out@[i]@ == s by {
                assert(s =~= p0);
                assert(out@[out0.len() as int]@ == s);
            }
        }
        return;
    }
    let current = path[plen - 1];
    let found = g.node_index(current);
    let idx = match found {
        Some(idx) => idx,
        None => {
            proof {
                assert(out@.take(out0.len() as int) =~= out0);
                assert forall|s: Seq<u32>| #[trigger] completes(*g, size as nat, p0, s) implies false by {
                    assert(s.take(plen as int)[plen - 1] == s[plen - 1]);
                    assert(s[plen - 1] < s[plen as int] && g.has_edge(s[plen - 1], s[plen as int]));
                }
            }
            return;
        },
    };
    proof {
        lemma_index_of_unique(g.nodes@, idx as int);
    }
    let row = &g.adj[idx];
    assert(row@ == g.neighbors(current));
    assert(out@.take(out0.len() as int) =~= out0);
    let mut t: usize = 0;
    while t < row.len()
        invariant
            g.wf(),
            is_search_path(*g, p0),
            p0.len() == plen,
            plen < size,
            plen >= 1,
            current == p0[plen - 1],
            union == union_of(p0),
            row@ == g.neighbors(current),
            strictly_increasing(row@),
            path@ == p0,
            t <= row@.len(),
            left == size - plen,
            grown_via(*g, size as nat, p0, row@.take(t as int), out0, out@),
        decreases row@.len() - t,
    {
        let c = row[t];
        let ghost out1 = out@;
        if c > current && c & union == 0 {
            proof {
                lemma_extend_path(*g, p0, c);
            }
            path.push(c);
            assert(path@.len() == plen + 1);
            extend(g, path, union | c, size, left - 1, out);
            let _ = path.pop();
            proof {
                assert(path@ =~= p0);
                lemma_branch_taken(*g, size as nat, p0, row@, t as int, out0, out1, out@);
            }
        } else {
            proof {
                lemma_branch_skipped(*g, size as nat, p0, row@, t as int, out0, out1);
            }
        }
        t = t + 1;
    }
    proof {
        assert(row@.take(t as int) =~= row@);
        assert forall|s: Seq<u32>| #[trigger] completes(*g, size as nat, p0, s) implies row@.contains(
            s[plen as int],
        ) by {
            assert(s.take(plen as int)[plen - 1] == s[plen - 1]);
            assert(s[plen - 1] < s[plen as int] && g.has_edge(s[plen - 1], s[plen as int]));
        }
    }
}

/// Finds every clique of exactly `size` masks in the graph.
///
/// Each clique is returned once, as its masks in ascending order; a size
/// larger than any clique gives an empty result.
pub fn find_all_cliques(g: &Graph, size: usize) -> (r: Vec<Vec<u32>>)
    requires
        g.wf(),
    ensures
        is_clique_listing(*g, size as nat, r@),
{
    let mut out: Vec<Vec<u32>> = Vec::new();
    if size == 0 {
        return out;
    }
    let n = g.nodes.len();
    let mut i: usize = 0;
    while i < n
        invariant
            g.wf(),
            n == g.nodes@.len(),
            size >= 1,
            i <= n,
            forall|k: int|
                0 <= k < out@.len() ==> (#[trigger] out@[k]@).len() == size && is_search_path(
                    *g,
                    out@[k]@,
                ) && g.nodes@.take(i as int).contains(out@[k]@[0]),
            forall|s: Seq<u32>|
                s.len() == size && is_search_path(*g, s) && g.nodes@.take(i as int).contains(s[0])
                    ==> #[trigger] holds(out@, s),
            forall|a: int, b: int| 0 <= a < b < out@.len() ==> out@[a]@ != out@[b]@,
        decreases n - i,
    {
        let v = g.nodes[i];
        let ghost out1 = out@;
        let ghost before = g.nodes@.take(i as int);
        let ghost upto = g.nodes@.take(i as int + 1);
        assert(upto =~= before.push(v));
        let mut path: Vec<u32> = Vec::new();
        path.push(v);
        proof {
            lemma_and_or_zero(v, 0, 0);
            assert(path@.drop_last() =~= Seq::<u32>::empty());
            assert(union_of(path@) == union_of(path@.drop_last()) | path@.last());
            assert(g.nodes@.contains(v));
        }
        extend(g, &mut path, v, size, size - 1, &mut out);
        proof {
            assert forall|k: int| 0 <= k < out@.len() implies (#[trigger] out@[k]@).len() == size
                && is_search_path(*g, out@[k]@) && upto.contains(out@[k]@[0]) by {
                if k < out1.len() {
                    assert(out@[k] == out1[k]) by {
                        assert(out@.take(out1.len() as int)[k] == out@[k]);
                    }
                    let m = choose|m: int| 0 <= m < before.len() && before[m] == out1[k]@[0];
                    assert(upto[m] == before[m]);
                } else {
                    assert(completes(*g, size as nat, seq![v], out@[k]@));
                    assert(out@[k]@.take(1)[0] == v);
                    assert(upto[i as int] == v);
                }
            }
            assert forall|s: Seq<u32>|
                s.len() == size && is_search_path(*g, s) && upto.contains(s[0]) implies #[trigger] holds(
                out@,
                s,
            ) by {
                if before.contains(s[0]) {
                    assert(holds(out1, s));
                    let k = choose|k: int| 0 <= k < out1.len() && (#[trigger] out1[k])@ == s;
                    assert(out@.take(out1.len() as int)[k] == out@[k]);
                    assert(out@[k]@ == s);
                } else {
                    assert(s[0] == v);
                    assert(s.take(1) =~= seq![v]);
                    assert(completes(*g, size as nat, seq![v], s));
                    let k = choose|k: int| out1.len() <= k < out@.len() && out@[k]@ == s;
                    assert(out@[k]@ == s);
                }
            }
            assert forall|a: int, b: int| 0 <= a < b < out@.len() implies out@[a]@ != out@[b]@ by {
                if b < out1.len() {
                    assert(out@.take(out1.len() as int)[a] == out@[a]);
                    assert(out@.take(out1.len() as int)[b] == out@[b]);
                } else if a < out1.len() {
                    assert(out@.take(out1.len() as int)[a] == out@[a]);
                    let m = choose|m: int| 0 <= m < before.len() && before[m] == out1[a]@[0];
                    assert(g.nodes@[m] < g.nodes@[i as int]);
                    assert(completes(*g, size as nat, seq![v], out@[b]@));
                    assert(out@[b]@.take(1)[0] == v);
                }
            }
        }
        i = i + 1;
    }
    proof {
        assert(g.nodes@.take(n as int) =~= g.nodes@);
        assert forall|s: Seq<u32>| #[trigger] holds(out@, s) implies s.len() == size && is_search_path(
            *g,
            s,
        ) by {
            let k = choose|k: int| 0 <= k < out@.len() && (#[trigger] out@[k])@ == s;
        }
    }
    out
}

} // verus!
