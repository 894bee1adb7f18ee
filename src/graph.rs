//! Edges, adjacency, walks and reachability over nodes numbered `0..n`.

use std::collections::HashMap;
use crate::network::{NetworkError};
use vstd::prelude::*;

verus! {

broadcast use vstd::std_specs::hash::group_hash_axioms;

/// A pipe between two nodes, oriented from `src` to `tgt` (the positive flow direction).
#[derive(Debug, Clone, Copy, PartialEq, Eq, Structural)]
pub struct Edge {
    pub src: usize,
    pub tgt: usize,
}

impl Edge {
    /// Whether `node` is one of the endpoints.
    pub open spec fn touches(self, node: int) -> bool {
        self.src == node || self.tgt == node
    }

    /// The endpoint opposite to `node` (the source is checked first).
    pub open spec fn other(self, node: int) -> int {
        if self.src == node {
            self.tgt as int
        } else {
            self.src as int
        }
    }

    pub fn get_other_node(&self, some_node: usize) -> (r: Result<usize, NetworkError>)
        ensures
            self.touches(some_node as int) ==> r == Ok::<usize, NetworkError>(
                self.other(some_node as int) as usize,
            ),
            !self.touches(some_node as int) ==> r == Err::<usize, NetworkError>(
                NetworkError::NotIncident { node: some_node },
            ),
    {
        if self.src == some_node {
            Ok(self.tgt)
        } else if self.tgt == some_node {
            Ok(self.src)
        } else {
            Err(NetworkError::NotIncident { node: some_node })
        }
    }
}

/// Every edge has both endpoints below `n`.
pub open spec fn edges_within(edges: Seq<Edge>, n: int) -> bool {
    forall|e: int| 0 <= e < edges.len() ==> (edges[e].src as int) < n && (edges[e].tgt as int) < n
}

/// The indices below `k` of the edges that touch `node`, ascending.
pub open spec fn incident_edges(edges: Seq<Edge>, node: int, k: int) -> Seq<usize>
    decreases k,
{
    if k <= 0 {
        Seq::empty()
    } else {
        let rest = incident_edges(edges, node, k - 1);
        if edges[k - 1].touches(node) {
            rest.push((k - 1) as usize)
        } else {
            rest
        }
    }
}

/// The adjacency map lists, for every node below `n` and no other key, its incident edges.
pub open spec fn adjacency_of(adj: Map<usize, Vec<usize>>, edges: Seq<Edge>, n: int) -> bool {
    &&& forall|v: usize| #[trigger] adj.contains_key(v) <==> (v as int) < n
    &&& forall|v: usize|
        (v as int) < n ==> #[trigger] adj[v]@ == incident_edges(edges, v as int, edges.len() as int)
}

/// Some edge leads from `a` to `b`.
pub open spec fn joined(edges: Seq<Edge>, a: usize, b: usize) -> bool {
    exists|e: int|
        0 <= e < edges.len() && #[trigger] edges[e].touches(a as int) && edges[e].other(a as int)
            == b as int
}

/// `p` is a walk: consecutive nodes are joined by an edge.
pub open spec fn is_walk(edges: Seq<Edge>, p: Seq<usize>) -> bool {
    &&& p.len() >= 1
    &&& forall|i: int| 0 <= i < p.len() - 1 ==> #[trigger] joined(edges, p[i], p[i + 1])
}

/// Some walk leads from `start` to `v`.
pub open spec fn reachable(edges: Seq<Edge>, start: usize, v: usize) -> bool {
    exists|p: Seq<usize>| is_walk(edges, p) && p[0] == start && p.last() == v
}

/// Every edge at `u` is in `fedges` and leads to a node of `fnodes`.
pub open spec fn explored(edges: Seq<Edge>, u: usize, fnodes: Set<usize>, fedges: Set<usize>) -> bool {
    forall|e: int|
        0 <= e < edges.len() && #[trigger] edges[e].touches(u as int) ==> fedges.contains(e as usize)
            && fnodes.contains(edges[e].other(u as int) as usize)
}

/// The nodes reachable from `start`.
pub open spec fn feed_nodes_of(edges: Seq<Edge>, start: usize) -> Set<usize> {
    Set::new(|v: usize| reachable(edges, start, v))
}

/// The edges whose endpoints are reachable from `start`.
pub open spec fn feed_edges_of(edges: Seq<Edge>, start: usize) -> Set<usize> {
    Set::new(|e: usize| (e as int) < edges.len() && reachable(edges, start, edges[e as int].src))
}

pub(crate) proof fn lemma_incident_edges(edges: Seq<Edge>, node: int, k: int)
    requires
        0 <= k <= edges.len(),
        k <= usize::MAX,
    ensures
        incident_edges(edges, node, k).len() <= k,
        incident_edges(edges, node, k).no_duplicates(),
        forall|x: usize|
            #[trigger] incident_edges(edges, node, k).contains(x) <==> ((x as int) < k
                && edges[x as int].touches(node)),
    decreases k,
{
    if k > 0 {
        lemma_incident_edges(edges, node, k - 1);
        let rest = incident_edges(edges, node, k - 1);
        if edges[k - 1].touches(node) {
            let a = (k - 1) as usize;
            let full = rest.push(a);
            assert(full[rest.len() as int] == a);
            assert(!rest.contains(a));
            assert forall|x: usize| #[trigger] full.contains(x) <==> rest.contains(x) || x == a by {
                if full.contains(x) {
                    let j = choose|j: int| 0 <= j < full.len() && #[trigger] full[j] == x;
                    if j < rest.len() {
                        assert(rest[j] == x);
                    }
                }
                if rest.contains(x) {
                    let j = choose|j: int| 0 <= j < rest.len() && #[trigger] rest[j] == x;
                    assert(full[j] == x);
                }
            }
            assert forall|i: int, j: int| 0 <= i < full.len() && 0 <= j < full.len() && i != j implies full[i]
                != full[j] by {
                if i < rest.len() && j < rest.len() {
                    assert(full[i] == rest[i] && full[j] == rest[j]);
                } else if i < rest.len() {
                    assert(rest.contains(full[i]));
                } else if j < rest.len() {
                    assert(rest.contains(full[j]));
                }
            }
        }
    }
}

/// A set of indices below `n` is finite and has at most `n` elements.
pub(crate) proof fn lemma_bounded_set(s: Set<usize>, n: usize)
    requires
        forall|x: usize| s.contains(x) ==> x < n,
    ensures
        s.finite(),
        s.len() <= n,
    decreases n,
{
    if n == 0 {
        assert(s =~= Set::empty());
    } else {
        let k = (n - 1) as usize;
        let t = s.remove(k);
        lemma_bounded_set(t, k);
        if s.contains(k) {
            assert(s =~= t.insert(k));
        } else {
            assert(s =~= t);
        }
    }
}

pub(crate) proof fn lemma_explored_grows(
    edges: Seq<Edge>,
    u: usize,
    f1: Set<usize>,
    e1: Set<usize>,
    f2: Set<usize>,
    e2: Set<usize>,
)
    requires
        explored(edges, u, f1, e1),
        f1.subset_of(f2),
        e1.subset_of(e2),
    ensures
        explored(edges, u, f2, e2),
{
}

/// Extending a walk to `start` by one edge gives a walk to its far end.
pub(crate) proof fn lemma_reachable_step(edges: Seq<Edge>, start: usize, a: usize, b: usize)
    requires
        reachable(edges, start, a),
        joined(edges, a, b),
    ensures
        reachable(edges, start, b),
{
    let p = choose|p: Seq<usize>| is_walk(edges, p) && p[0] == start && p.last() == a;
    let q = p.push(b);
    assert forall|i: int| 0 <= i < q.len() - 1 implies #[trigger] joined(edges, q[i], q[i + 1]) by {
        if i < p.len() - 1 {
            assert(q[i] == p[i] && q[i + 1] == p[i + 1]);
        }
    }
    assert(is_walk(edges, q) && q[0] == start && q.last() == b);
}

pub(crate) proof fn lemma_start_reachable(edges: Seq<Edge>, start: usize)
    ensures
        reachable(edges, start, start),
{
    let p = seq![start];
    assert(is_walk(edges, p) && p[0] == start && p.last() == start);
}

/// A node set that holds `p[0]` and in which every node is explored holds the whole walk.
pub(crate) proof fn lemma_walk_stays(edges: Seq<Edge>, p: Seq<usize>, fnodes: Set<usize>, fedges: Set<usize>)
    requires
        is_walk(edges, p),
        fnodes.contains(p[0]),
        forall|u: usize| fnodes.contains(u) ==> explored(edges, u, fnodes, fedges),
    ensures
        fnodes.contains(p.last()),
    decreases p.len(),
{
    if p.len() > 1 {
        let q = p.drop_last();
        assert forall|i: int| 0 <= i < q.len() - 1 implies #[trigger] joined(edges, q[i], q[i + 1]) by {
            assert(joined(edges, p[i], p[i + 1]));
        }
        lemma_walk_stays(edges, q, fnodes, fedges);
        let i = p.len() - 2;
        let a = p[i];
        assert(joined(edges, p[i], p[i + 1]));
        let e = choose|e: int|
            0 <= e < edges.len() && #[trigger] edges[e].touches(a as int) && edges[e].other(a as int)
                == p.last() as int;
        assert(explored(edges, a, fnodes, fedges));
    }
}

/// Builds the map from every node below `num_nodes` to the indices of its incident edges.
pub fn get_adjacent_edges(num_nodes: usize, edges: &[Edge]) -> (r: HashMap<usize, Vec<usize>>)
    ensures
        adjacency_of(r@, edges@, num_nodes as int),
{
    let mut adjacent: HashMap<usize, Vec<usize>> = HashMap::new();
    let m = edges.len();
    let mut node: usize = 0;
    while node < num_nodes
        invariant
            node <= num_nodes,
            m == edges@.len(),
            forall|v: usize| #[trigger] adjacent@.contains_key(v) <==> v < node,
            forall|v: usize|
                v < node ==> #[trigger] adjacent@[v]@ == incident_edges(edges@, v as int, m as int),
        decreases num_nodes - node,
    {
        let mut list: Vec<usize> = Vec::new();
        let mut e: usize = 0;
        while e < m
            invariant
                e <= m,
                m == edges@.len(),
                list@ == incident_edges(edges@, node as int, e as int),
            decreases m - e,
        {
            if edges[e].src == node || edges[e].tgt == node {
                list.push(e);
            }
            e = e + 1;
        }
        adjacent.insert(node, list);
        node = node + 1;
    }
    adjacent
}

/// Rejects an edge list with an endpoint at or above `num_nodes`, naming the first such edge.
pub(crate) fn check_edges_within(edges: &[Edge], num_nodes: usize) -> (r: Result<(), NetworkError>)
    ensures
        r is Ok <==> edges_within(edges@, num_nodes as int),
        r is Err ==> r matches Err(NetworkError::DanglingEdge { .. }),
{
    let mut e: usize = 0;
    while e < edges.len()
        invariant
            e <= edges@.len(),
            forall|i: int|
                0 <= i < e ==> (edges@[i].src as int) < num_nodes && (edges@[i].tgt as int) < num_nodes,
        decreases edges@.len() - e,
    {
        if edges[e].src >= num_nodes || edges[e].tgt >= num_nodes {
            return Err(NetworkError::DanglingEdge { edge: e });
        }
        e = e + 1;
    }
    Ok(())
}

/// The indices below `n`.
pub open spec fn index_range(n: int) -> Set<usize> {
    Set::new(|i: usize| (i as int) < n)
}

pub(crate) proof fn lemma_index_range(n: usize)
    ensures
        index_range(n as int).finite(),
        index_range(n as int).len() == n,
    decreases n,
{
    if n == 0 {
        assert(index_range(0) =~= Set::empty());
    } else {
        let k = (n - 1) as usize;
        lemma_index_range(k);
        assert(index_range(n as int) =~= index_range(k as int).insert(k));
    }
}

/// A set of `n` indices below `n` holds them all.
pub(crate) proof fn lemma_full_set(s: Set<usize>, n: usize)
    requires
        forall|x: usize| s.contains(x) ==> x < n,
        s.finite(),
        s.len() == n,
    ensures
        forall|x: usize| x < n ==> s.contains(x),
{
    assert forall|x: usize| x < n implies s.contains(x) by {
        if !s.contains(x) {
            lemma_index_range(n);
            let t = index_range(n as int).remove(x);
            assert(s.subset_of(t));
            vstd::set_lib::lemma_len_subset(s, t);
        }
    }
}

/// The reachable set is finite and below the node count.
pub(crate) proof fn lemma_feed_finite(edges: Seq<Edge>, root: usize, n: usize)
    requires
        edges_within(edges, n as int),
        root < n,
        edges.len() <= usize::MAX,
    ensures
        feed_nodes_of(edges, root).finite(),
        forall|x: usize| feed_nodes_of(edges, root).contains(x) ==> x < n,
        feed_edges_of(edges, root).finite(),
{
    assert forall|x: usize| feed_nodes_of(edges, root).contains(x) implies x < n by {
        let p = choose|p: Seq<usize>| is_walk(edges, p) && p[0] == root && p.last() == x;
        if p.len() > 1 {
            let i = p.len() - 2;
            assert(joined(edges, p[i], p[i + 1]));
            let e = choose|e: int|
                0 <= e < edges.len() && #[trigger] edges[e].touches(p[i] as int) && edges[e].other(
                    p[i] as int,
                ) == p[i + 1] as int;
        } else {
            assert(p.last() == p[0]);
        }
    }
    lemma_bounded_set(feed_nodes_of(edges, root), n);
    lemma_bounded_set(feed_edges_of(edges, root), edges.len() as usize);
}

/// Reachability carries over to another edge list into which every edge used from a
/// reachable node is carried by `f`.
pub(crate) proof fn lemma_reach_transfer(
    edges: Seq<Edge>,
    start: usize,
    v: usize,
    other: Seq<Edge>,
    f: spec_fn(usize) -> usize,
)
    requires
        reachable(edges, start, v),
        forall|a: usize, b: usize|
            reachable(edges, start, a) && #[trigger] joined(edges, a, b) ==> joined(other, f(a), f(b)),
    ensures
        reachable(other, f(start), f(v)),
{
    let p = choose|p: Seq<usize>| is_walk(edges, p) && p[0] == start && p.last() == v;
    lemma_walk_transfer(edges, start, p, other, f, p.len() - 1);
}

pub(crate) proof fn lemma_walk_transfer(
    edges: Seq<Edge>,
    start: usize,
    p: Seq<usize>,
    other: Seq<Edge>,
    f: spec_fn(usize) -> usize,
    i: int,
)
    requires
        is_walk(edges, p),
        p[0] == start,
        0 <= i < p.len(),
        forall|a: usize, b: usize|
            reachable(edges, start, a) && #[trigger] joined(edges, a, b) ==> joined(other, f(a), f(b)),
    ensures
        reachable(edges, start, p[i]),
        reachable(other, f(start), f(p[i])),
    decreases i,
{
    if i == 0 {
        lemma_start_reachable(edges, start);
        lemma_start_reachable(other, f(start));
    } else {
        lemma_walk_transfer(edges, start, p, other, f, i - 1);
        assert(joined(edges, p[i - 1], p[(i - 1) + 1]));
        lemma_reachable_step(edges, start, p[i - 1], p[i]);
        lemma_reachable_step(other, f(start), f(p[i - 1]), f(p[i]));
    }
}

} // verus!
