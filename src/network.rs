//! Nodes, feed extraction, node partition and the resolved network.

use std::collections::{HashMap, HashSet};
use crate::graph::{Edge, adjacency_of, check_edges_within, edges_within, explored, feed_edges_of, feed_nodes_of, get_adjacent_edges, incident_edges, index_range, is_walk, joined, lemma_bounded_set, lemma_explored_grows, lemma_feed_finite, lemma_full_set, lemma_incident_edges, lemma_index_range, lemma_reach_transfer, lemma_reachable_step, lemma_start_reachable, lemma_walk_stays, reachable};
use crate::select::{lemma_joined_renumber, lemma_rank_block, lemma_rank_bound, lemma_rank_card, lemma_rank_complement, lemma_rank_injective, lemma_rank_mono, lemma_rank_onto, lemma_select_block, lemma_select_congruent, lemma_select_index, lemma_select_len, lemma_select_within, node_kept, partition_owned, rank, renumber, renumber_all, select, select_prefix};
use crate::spanning::{walk_from, find_spanning_tree, lemma_root_unique, reaches_root, root_from, root_index, spanning_tree_of, tree_joined};
use vstd::prelude::*;

verus! {

broadcast use vstd::std_specs::hash::group_hash_axioms;

/// A node of the network. `S` is the boundary signal type and `P` the position type.
#[derive(Debug, PartialEq, Clone)]
pub enum Node<S, P> {
    /// The source: fixes pressure and temperature.
    Pressure { name: String, pressure: S, temperature: S, position: P },
    /// A consumer drawing a demand rate.
    Demand { name: String, demand: S, position: P },
    /// A junction without boundary condition.
    Zero { name: String, position: P },
}

impl<S, P> Node<S, P> {
    /// Where the node is placed.
    pub open spec fn position_view(&self) -> P {
        match self {
            Node::Pressure { position, .. } => *position,
            Node::Demand { position, .. } => *position,
            Node::Zero { position, .. } => *position,
        }
    }

    pub fn get_position(&self) -> (r: &P)
        ensures
            *r == self.position_view(),
    {
        match self {
            Node::Pressure { position, .. } => position,
            Node::Demand { position, .. } => position,
            Node::Zero { position, .. } => position,
        }
    }

    /// Whether this is the pressure (source) node.
    pub fn is_pressure(&self) -> (r: bool)
        ensures
            r == (self is Pressure),
    {
        match self {
            Node::Pressure { .. } => true,
            _ => false,
        }
    }
}

/// Failures while resolving a network topology.
#[derive(Debug, Clone, PartialEq, Eq)]
pub enum NetworkError {
    /// The edge does not touch the node it was asked about.
    NotIncident { node: usize },
    /// The node index is not below the number of nodes.
    UnknownNode { node: usize },
    /// The edge has an endpoint that is not below the number of nodes.
    DanglingEdge { edge: usize },
    /// There is not one parameter record per edge.
    ParameterCount { edges: usize, parameters: usize },
    /// Some node cannot be reached from the root.
    Disconnected { reached: usize, nodes: usize },
    /// The edge index is not below the number of edges.
    UnknownEdge { edge: usize },
    /// The network has no pressure (source) node.
    NoSource,
    /// The network has more than one pressure node, which is not supported.
    MultipleSources { count: usize },
    /// No edge joins the two nodes.
    NoEdgeBetween { a: usize, b: usize },
    /// The node was visited more often than the limit allows.
    RevisitLimit { node: usize, limit: usize },
}

/// Depth-first walk from `current_node`: adds it, every node reachable from it that is not
/// yet in `feed_nodes`, and every edge at those nodes.
fn collect_feed(
    feed_nodes: &mut HashSet<usize>,
    feed_edges: &mut HashSet<usize>,
    current_node: usize,
    adjacent_edges: &HashMap<usize, Vec<usize>>,
    edges: &[Edge],
    num_nodes: usize,
    Ghost(start): Ghost<usize>,
)
    requires
        current_node < num_nodes,
        edges_within(edges@, num_nodes as int),
        adjacency_of(adjacent_edges@, edges@, num_nodes as int),
        reachable(edges@, start, current_node),
        forall|u: usize| old(feed_nodes)@.contains(u) ==> u < num_nodes && reachable(edges@, start, u),
        forall|e: usize|
            old(feed_edges)@.contains(e) ==> (e as int) < edges@.len() && (old(feed_nodes)@.contains(
                edges@[e as int].src,
            ) || old(feed_nodes)@.contains(edges@[e as int].tgt)),
    ensures
        old(feed_nodes)@.subset_of(final(feed_nodes)@),
        old(feed_edges)@.subset_of(final(feed_edges)@),
        final(feed_nodes)@.contains(current_node),
        forall|u: usize|
            final(feed_nodes)@.contains(u) ==> u < num_nodes && reachable(edges@, start, u),
        forall|e: usize|
            final(feed_edges)@.contains(e) ==> (e as int) < edges@.len()
                && (final(feed_nodes)@.contains(edges@[e as int].src)
                || final(feed_nodes)@.contains(edges@[e as int].tgt)),
        forall|u: usize|
            final(feed_nodes)@.contains(u) && !old(feed_nodes)@.contains(u) ==> explored(
                edges@,
                u,
                final(feed_nodes)@,
                final(feed_edges)@,
            ),
    decreases num_nodes - old(feed_nodes)@.len(),
{
    proof {
        lemma_bounded_set(feed_nodes@, num_nodes);
    }
    if feed_nodes.contains(&current_node) {
        return;
    }
    let ghost nodes0 = feed_nodes@;
    feed_nodes.insert(current_node);
    let num_edges = edges.len();
    assert(nodes0.insert(current_node).len() == nodes0.len() + 1);

    let walkable_edges = adjacent_edges.get(&current_node).unwrap();
    proof {
        lemma_incident_edges(edges@, current_node as int, edges@.len() as int);
    }
    let mut j: usize = 0;
    while j < walkable_edges.len()
        invariant
            current_node < num_nodes,
            edges_within(edges@, num_nodes as int),
            adjacency_of(adjacent_edges@, edges@, num_nodes as int),
            walkable_edges@ == incident_edges(edges@, current_node as int, edges@.len() as int),
            num_edges == edges@.len(),
            nodes0.finite(),
            forall|x: usize|
                #[trigger] walkable_edges@.contains(x) <==> ((x as int) < edges@.len()
                    && edges@[x as int].touches(current_node as int)),
            !nodes0.contains(current_node),
            nodes0.insert(current_node).subset_of(feed_nodes@),
            old(feed_edges)@.subset_of(feed_edges@),
            old(feed_nodes)@ == nodes0,
            j <= walkable_edges.len(),
            forall|u: usize| feed_nodes@.contains(u) ==> u < num_nodes && reachable(edges@, start, u),
            forall|e: usize|
                feed_edges@.contains(e) ==> (e as int) < edges@.len() && (feed_nodes@.contains(
                    edges@[e as int].src,
                ) || feed_nodes@.contains(edges@[e as int].tgt)),
            forall|u: usize|
                feed_nodes@.contains(u) && !nodes0.contains(u) && u != current_node ==> explored(
                    edges@,
                    u,
                    feed_nodes@,
                    feed_edges@,
                ),
            forall|k: int|
                0 <= k < j ==> feed_edges@.contains(#[trigger] walkable_edges@[k]) && feed_nodes@.contains(
                    edges@[walkable_edges@[k] as int].other(current_node as int) as usize,
                ),
        decreases walkable_edges.len() - j,
    {
        let edge_idx = walkable_edges[j];
        assert(walkable_edges@.contains(edge_idx));
        let edge = &edges[edge_idx];
        let next_node = edge.get_other_node(current_node).unwrap();
        assert(joined(edges@, current_node, next_node));
        proof {
            lemma_reachable_step(edges@, start, current_node, next_node);
        }
        feed_edges.insert(edge_idx);
        let ghost f1 = feed_nodes@;
        let ghost e1 = feed_edges@;
        proof {
            lemma_bounded_set(feed_nodes@, num_nodes);
            vstd::set_lib::lemma_len_subset(nodes0.insert(current_node), feed_nodes@);
        }
        collect_feed(feed_nodes, feed_edges, next_node, adjacent_edges, edges, num_nodes, Ghost(start));
        proof {
            assert forall|u: usize|
                feed_nodes@.contains(u) && !nodes0.contains(u) && u != current_node implies explored(
                edges@,
                u,
                feed_nodes@,
                feed_edges@,
            ) by {
                if f1.contains(u) {
                    lemma_explored_grows(edges@, u, f1, e1, feed_nodes@, feed_edges@);
                }
            }
        }
        j = j + 1;
    }
    proof {
        assert forall|e: int|
            0 <= e < edges@.len() && #[trigger] edges@[e].touches(current_node as int) implies feed_edges@.contains(
            e as usize,
        ) && feed_nodes@.contains(edges@[e].other(current_node as int) as usize) by {
            assert(walkable_edges@.contains(e as usize));
            let k = choose|k: int| 0 <= k < walkable_edges@.len() && walkable_edges@[k] == e as usize;
            assert(feed_edges@.contains(walkable_edges@[k]));
        }
    }
}

/// The nodes reachable from `start_node` and the edges at them.
pub fn find_feed<S, P>(nodes: &[Node<S, P>], edges: &[Edge], start_node: usize) -> (r: Result<
    (HashSet<usize>, HashSet<usize>),
    NetworkError,
>)
    ensures
        start_node >= nodes@.len() ==> r == Err::<(HashSet<usize>, HashSet<usize>), NetworkError>(
            NetworkError::UnknownNode { node: start_node },
        ),
        start_node < nodes@.len() && !edges_within(edges@, nodes@.len() as int) ==> r matches Err(
            NetworkError::DanglingEdge { .. },
        ),
        start_node < nodes@.len() && edges_within(edges@, nodes@.len() as int) ==> (r matches Ok(
            (fnodes, fedges),
        ) && fnodes@ == feed_nodes_of(edges@, start_node) && fedges@ == feed_edges_of(
            edges@,
            start_node,
        )),
{
    let num_nodes = nodes.len();
    if start_node >= num_nodes {
        return Err(NetworkError::UnknownNode { node: start_node });
    }
    check_edges_within(edges, num_nodes)?;
    let adjacent_edges = get_adjacent_edges(num_nodes, edges);

    let mut feed_nodes: HashSet<usize> = HashSet::new();
    let mut feed_edges: HashSet<usize> = HashSet::new();
    proof {
        lemma_start_reachable(edges@, start_node);
    }
    collect_feed(
        &mut feed_nodes,
        &mut feed_edges,
        start_node,
        &adjacent_edges,
        edges,
        num_nodes,
        Ghost(start_node),
    );
    proof {
        let f = feed_nodes@;
        let fe = feed_edges@;
        assert forall|v: usize| f.contains(v) <==> reachable(edges@, start_node, v) by {
            if reachable(edges@, start_node, v) {
                let p = choose|p: Seq<usize>| is_walk(edges@, p) && p[0] == start_node && p.last() == v;
                lemma_walk_stays(edges@, p, f, fe);
            }
        }
        assert(f =~= feed_nodes_of(edges@, start_node));
        assert forall|e: usize| fe.contains(e) <==> feed_edges_of(edges@, start_node).contains(e) by {
            if fe.contains(e) {
                let ed = edges@[e as int];
                if !f.contains(ed.src) {
                    assert(ed.touches(ed.tgt as int));
                    assert(explored(edges@, ed.tgt, f, fe));
                    assert(f.contains(ed.other(ed.tgt as int) as usize));
                }
            }
            if feed_edges_of(edges@, start_node).contains(e) {
                let ed = edges@[e as int];
                assert(f.contains(ed.src));
                assert(ed.touches(ed.src as int));
                assert(explored(edges@, ed.src, f, fe));
            }
        }
        assert(fe =~= feed_edges_of(edges@, start_node));
    }
    Ok((feed_nodes, feed_edges))
}

/// Every kept edge has both endpoints among the kept nodes.
pub open spec fn kept_edges_closed(
    edges: Seq<Edge>,
    n: int,
    nodes_to_keep: Set<usize>,
    edges_to_keep: Set<usize>,
) -> bool {
    forall|e: int|
        0 <= e < edges.len() && #[trigger] edges_to_keep.contains(e as usize) ==> node_kept(
            nodes_to_keep,
            n,
            edges[e].src,
        ) && node_kept(nodes_to_keep, n, edges[e].tgt)
}

/// Keeps the nodes and edges whose indices are listed, in their order, and renumbers
/// the kept edges' endpoints contiguously.
pub fn filter_network<S, P, T>(
    nodes: Vec<Node<S, P>>,
    edges: Vec<Edge>,
    edge_parameters: Vec<T>,
    nodes_to_keep: HashSet<usize>,
    edges_to_keep: HashSet<usize>,
) -> (r: Result<(Vec<Node<S, P>>, Vec<Edge>, Vec<T>), NetworkError>)
    ensures
        r is Ok <==> kept_edges_closed(
            edges@,
            nodes@.len() as int,
            nodes_to_keep@,
            edges_to_keep@,
        ),
        r is Err ==> r matches Err(NetworkError::UnknownNode { .. }),
        r matches Ok((kept_nodes, kept_edges, kept_parameters)) ==> {
            &&& kept_nodes@ == select(nodes@, nodes_to_keep@)
            &&& kept_edges@ == renumber_all(
                select(edges@, edges_to_keep@),
                |v: int| rank(nodes_to_keep@, v) as int,
            )
            &&& kept_parameters@ == select(edge_parameters@, edges_to_keep@)
        },
{
    let num_nodes = nodes.len();
    let ghost keep_n = nodes_to_keep@;
    let ghost keep_e = edges_to_keep@;
    let ghost index = |v: int| rank(keep_n, v) as int;

    let mut new_index: Vec<usize> = Vec::new();
    let mut count: usize = 0;
    let mut i: usize = 0;
    while i < num_nodes
        invariant
            i <= num_nodes,
            num_nodes == nodes@.len(),
            keep_n == nodes_to_keep@,
            count == rank(keep_n, i as int),
            count <= i,
            new_index@.len() == i,
            forall|j: int| 0 <= j < i ==> new_index@[j] == rank(keep_n, j),
        decreases num_nodes - i,
    {
        new_index.push(count);
        if nodes_to_keep.contains(&i) {
            count = count + 1;
        }
        i = i + 1;
    }

    let mut kept_edges: Vec<Edge> = Vec::new();
    let mut e: usize = 0;
    while e < edges.len()
        invariant
            e <= edges@.len(),
            num_nodes == nodes@.len(),
            new_index@.len() == num_nodes,
            forall|j: int| 0 <= j < num_nodes ==> new_index@[j] == rank(keep_n, j),
            keep_n == nodes_to_keep@,
            keep_e == edges_to_keep@,
            index == (|v: int| rank(keep_n, v) as int),
            kept_edges@ == renumber_all(select_prefix(edges@, keep_e, e as int), index),
            forall|f: int|
                0 <= f < e && #[trigger] keep_e.contains(f as usize) ==> node_kept(
                    keep_n,
                    num_nodes as int,
                    edges@[f].src,
                ) && node_kept(keep_n, num_nodes as int, edges@[f].tgt),
        decreases edges@.len() - e,
    {
        if edges_to_keep.contains(&e) {
            let edge = edges[e];
            if !(edge.src < num_nodes && nodes_to_keep.contains(&edge.src)) {
                proof {
                    assert(keep_e.contains(e as usize));
                    assert(!node_kept(keep_n, num_nodes as int, edges@[e as int].src));
                }
                return Err(NetworkError::UnknownNode { node: edge.src });
            }
            if !(edge.tgt < num_nodes && nodes_to_keep.contains(&edge.tgt)) {
                proof {
                    assert(keep_e.contains(e as usize));
                    assert(!node_kept(keep_n, num_nodes as int, edges@[e as int].tgt));
                }
                return Err(NetworkError::UnknownNode { node: edge.tgt });
            }
            let ghost before = select_prefix(edges@, keep_e, e as int);
            kept_edges.push(Edge { src: new_index[edge.src], tgt: new_index[edge.tgt] });
            proof {
                assert(renumber_all(before.push(edge), index) =~= renumber_all(before, index).push(
                    renumber(edge, index),
                ));
            }
        }
        e = e + 1;
    }
    proof {
        assert(kept_edges_closed(edges@, num_nodes as int, keep_n, keep_e));
    }

    let (kept_nodes, _) = partition_owned(nodes, &nodes_to_keep);
    let (kept_parameters, _) = partition_owned(edge_parameters, &edges_to_keep);
    Ok((kept_nodes, kept_edges, kept_parameters))
}

/// The indices of the pressure nodes.
pub open spec fn pressure_set<S, P>(nodes: Seq<Node<S, P>>) -> Set<usize> {
    Set::new(|i: usize| (i as int) < nodes.len() && nodes[i as int] is Pressure)
}

/// The position of old node `v` once demand and passive nodes come first and pressure
/// nodes after them, each group in its old order.
pub open spec fn partition_index<S, P>(nodes: Seq<Node<S, P>>, v: int) -> int {
    let pressure = pressure_set(nodes);
    if nodes[v] is Pressure {
        (rank(pressure.complement(), nodes.len() as int) + rank(pressure, v)) as int
    } else {
        rank(pressure.complement(), v) as int
    }
}

/// Splits the nodes into the non-pressure block and the pressure block, both in their
/// old order, and renumbers the edges to match.
pub fn split_nodes<S, P>(nodes: Vec<Node<S, P>>, edges: Vec<Edge>) -> (r: (
    Vec<Node<S, P>>,
    Vec<Node<S, P>>,
    Vec<Edge>,
))
    requires
        edges_within(edges@, nodes@.len() as int),
    ensures
        r.0@ == select(nodes@, pressure_set(nodes@).complement()),
        r.1@ == select(nodes@, pressure_set(nodes@)),
        r.2@ == renumber_all(edges@, |v: int| partition_index(nodes@, v)),
{
    let n = nodes.len();
    let ghost pressure = pressure_set(nodes@);
    let ghost index = |v: int| partition_index(nodes@, v);
    let mut pressure_indices: HashSet<usize> = HashSet::new();
    let mut num_demand: usize = 0;
    let mut i: usize = 0;
    while i < n
        invariant
            i <= n,
            n == nodes@.len(),
            pressure == pressure_set(nodes@),
            pressure_indices@ == Set::new(|j: usize| j < i && nodes@[j as int] is Pressure),
            num_demand == rank(pressure.complement(), i as int),
        decreases n - i,
    {
        proof {
            lemma_rank_complement(pressure, i as int);
        }
        if nodes[i].is_pressure() {
            pressure_indices.insert(i);
        } else {
            num_demand = num_demand + 1;
        }
        proof {
            assert(pressure.contains(i) == nodes@[i as int] is Pressure);
        }
        i = i + 1;
        proof {
            assert(pressure_indices@ =~= Set::new(|j: usize| j < i && nodes@[j as int] is Pressure));
        }
    }

    let mut new_index: Vec<usize> = Vec::new();
    let mut demand_count: usize = 0;
    let mut pressure_count: usize = 0;
    let mut i: usize = 0;
    while i < n
        invariant
            i <= n,
            n == nodes@.len(),
            pressure == pressure_set(nodes@),
            pressure_indices@ == Set::new(|j: usize| j < n && nodes@[j as int] is Pressure),
            num_demand == rank(pressure.complement(), n as int),
            demand_count == rank(pressure.complement(), i as int),
            pressure_count == rank(pressure, i as int),
            new_index@.len() == i,
            forall|j: int| 0 <= j < i ==> new_index@[j] == partition_index(nodes@, j),
        decreases n - i,
    {
        proof {
            lemma_rank_complement(pressure, i as int);
            lemma_rank_complement(pressure, n as int);
            lemma_rank_mono(pressure, i as int, n as int);
            assert(pressure.contains(i) == nodes@[i as int] is Pressure);
        }
        if pressure_indices.contains(&i) {
            new_index.push(num_demand + pressure_count);
            pressure_count = pressure_count + 1;
        } else {
            new_index.push(demand_count);
            demand_count = demand_count + 1;
        }
        i = i + 1;
    }

    let mut new_edges: Vec<Edge> = Vec::new();
    let mut e: usize = 0;
    while e < edges.len()
        invariant
            e <= edges@.len(),
            n == nodes@.len(),
            edges_within(edges@, n as int),
            new_index@.len() == n,
            forall|j: int| 0 <= j < n ==> new_index@[j] == partition_index(nodes@, j),
            index == (|v: int| partition_index(nodes@, v)),
            new_edges@ == renumber_all(edges@.subrange(0, e as int), index),
        decreases edges@.len() - e,
    {
        let edge = edges[e];
        new_edges.push(Edge { src: new_index[edge.src], tgt: new_index[edge.tgt] });
        proof {
            assert(edges@.subrange(0, e + 1) =~= edges@.subrange(0, e as int).push(edge));
            assert(renumber_all(edges@.subrange(0, e + 1), index) =~= renumber_all(
                edges@.subrange(0, e as int),
                index,
            ).push(renumber(edge, index)));
        }
        e = e + 1;
    }
    assert(edges@.subrange(0, edges@.len() as int) =~= edges@);
    assert(pressure_indices@ =~= pressure);

    let (pressure_nodes, demand_nodes) = partition_owned(nodes, &pressure_indices);
    (demand_nodes, pressure_nodes, new_edges)
}

pub(crate) proof fn lemma_partition_index_bound<S, P>(nodes: Seq<Node<S, P>>, v: int)
    requires
        0 <= v < nodes.len(),
        nodes.len() <= usize::MAX,
    ensures
        0 <= partition_index(nodes, v) < nodes.len(),
{
    let pressure = pressure_set(nodes);
    let n = nodes.len() as int;
    lemma_rank_bound(pressure.complement(), v);
    if nodes[v] is Pressure {
        lemma_rank_complement(pressure, n);
        lemma_rank_mono(pressure, v + 1, n);
        assert(pressure.contains(v as usize));
    }
}

/// The nodes after the partition: non-pressure block, then pressure block.
pub open spec fn partitioned_nodes<S, P>(nodes: Seq<Node<S, P>>) -> Seq<Node<S, P>> {
    select(nodes, pressure_set(nodes).complement()) + select(nodes, pressure_set(nodes))
}

/// The edges renumbered to follow the partition of the nodes.
pub open spec fn partitioned_edges<S, P>(nodes: Seq<Node<S, P>>, edges: Seq<Edge>) -> Seq<Edge> {
    renumber_all(edges, |v: int| partition_index(nodes, v))
}

/// Every node below `n` is reachable from `root`.
pub open spec fn connected_from(edges: Seq<Edge>, root: usize, n: int) -> bool {
    forall|v: usize| (v as int) < n ==> #[trigger] reachable(edges, root, v)
}

/// What `split_edges` and `try_from_feed` return for the nodes `nodes` and edges `edges`:
/// the spanning tree, cycle edges and predecessors of the breadth-first walk from `root`,
/// the tree edges and the cycle edges each in their old relative order, and the
/// parameters reordered to match.
pub open spec fn tree_split<S, P, T>(
    nodes: Seq<Node<S, P>>,
    edges: Seq<Edge>,
    parameters: Seq<T>,
    root: usize,
    tree_edges: Seq<Edge>,
    cycle_edges: Seq<Edge>,
    pred: Map<usize, usize>,
    reordered: Seq<T>,
) -> bool {
    let walk = walk_from(edges, root, nodes.len());
    &&& spanning_tree_of(edges, root, walk.2, walk.3, pred)
    &&& pred == walk.4
    &&& tree_edges == select(edges, walk.2)
    &&& cycle_edges == select(edges, walk.3)
    &&& reordered == select(parameters, walk.2) + select(parameters, walk.3)
}

/// Splits the edges into spanning-tree and cycle edges (see `find_spanning_tree`), keeping
/// their relative order, and reorders the parameters to match.
fn split_edges<S, P, T>(nodes: &Vec<Node<S, P>>, edges: Vec<Edge>, edge_parameters: Vec<T>) -> (r:
    Result<(usize, Vec<Edge>, Vec<Edge>, HashMap<usize, usize>, Vec<T>), NetworkError>)
    requires
        nodes@.len() > 0,
        edges_within(edges@, nodes@.len() as int),
        edge_parameters@.len() == edges@.len(),
    ensures
        r is Ok <==> connected_from(edges@, root_index(nodes@) as usize, nodes@.len() as int),
        r is Err ==> r matches Err(NetworkError::Disconnected { .. }),
        r matches Ok((root, tree_edges, cycle_edges, pred, reordered)) ==> {
            &&& root as int == root_index(nodes@)
            &&& (root as int) < nodes@.len()
            &&& tree_split(
                nodes@,
                edges@,
                edge_parameters@,
                root,
                tree_edges@,
                cycle_edges@,
                pred@,
                reordered@,
            )
            &&& tree_edges@.len() + 1 == nodes@.len()
            &&& tree_edges@.len() + cycle_edges@.len() == edges@.len()
        },
{
    let num_nodes = nodes.len();
    let num_edges = edges.len();
    let (root_node_index, spanning_tree, cycle_set, pred_nodes) = match find_spanning_tree(
        nodes.as_slice(),
        edges.as_slice(),
    ) {
        Ok(found) => found,
        Err(_) => {
            return Err(NetworkError::Disconnected { reached: 0, nodes: num_nodes });
        },
    };
    let ghost feed = feed_nodes_of(edges@, root_node_index);
    proof {
        lemma_start_reachable(edges@, root_node_index);
        assert(feed.contains(root_node_index));
        assert(pred_nodes@.dom().len() == feed.len() - 1);
        assert forall|x: usize| feed.contains(x) implies x < num_nodes by {
            let p = choose|p: Seq<usize>| is_walk(edges@, p) && p[0] == root_node_index && p.last() == x;
            if p.len() > 1 {
                let i = p.len() - 2;
                assert(joined(edges@, p[i], p[i + 1]));
                let e = choose|e: int|
                    0 <= e < edges@.len() && #[trigger] edges@[e].touches(p[i] as int) && edges@[e].other(
                        p[i] as int,
                    ) == p[i + 1] as int;
            } else {
                assert(p.last() == p[0]);
            }
        }
        lemma_bounded_set(feed, num_nodes);
    }
    let reached = pred_nodes.len();
    if reached + 1 != num_nodes {
        proof {
            if connected_from(edges@, root_node_index, num_nodes as int) {
                assert(feed =~= index_range(num_nodes as int));
                lemma_index_range(num_nodes);
            }
        }
        return Err(NetworkError::Disconnected { reached: reached + 1, nodes: num_nodes });
    }
    proof {
        lemma_full_set(feed, num_nodes);
        assert forall|v: usize| (v as int) < num_nodes implies #[trigger] reachable(
            edges@,
            root_node_index,
            v,
        ) by {
            assert(feed.contains(v));
        }
        assert forall|i: usize| (i as int) < num_edges implies (spanning_tree@.complement().contains(i)
            <==> cycle_set@.contains(i)) by {
            assert(feed.contains(edges@[i as int].src));
            assert(feed_edges_of(edges@, root_node_index).contains(i));
            assert((spanning_tree@ + cycle_set@).contains(i));
        }
        lemma_select_congruent(edges@, spanning_tree@.complement(), cycle_set@, num_edges as int);
        lemma_select_congruent(
            edge_parameters@,
            spanning_tree@.complement(),
            cycle_set@,
            num_edges as int,
        );
        lemma_select_len(edges@, spanning_tree@, num_edges as int);
        lemma_select_len(edges@, spanning_tree@.complement(), num_edges as int);
        lemma_rank_complement(spanning_tree@, num_edges as int);
        lemma_rank_card(spanning_tree@, num_edges);
        assert(spanning_tree@.intersect(index_range(num_edges as int)) =~= spanning_tree@) by {
            assert forall|e: usize| spanning_tree@.contains(e) implies (e as int) < num_edges by {
                assert((spanning_tree@ + cycle_set@).contains(e));
            }
        }
    }
    let (spanning_tree_edges, cycle_edges) = partition_owned(edges, &spanning_tree);
    let (mut reordered, mut cycle_parameters) = partition_owned(edge_parameters, &spanning_tree);
    reordered.append(&mut cycle_parameters);
    proof {
        assert(spanning_tree_of(edges@, root_node_index, spanning_tree@, cycle_set@, pred_nodes@));
    }
    Ok((root_node_index, spanning_tree_edges, cycle_edges, pred_nodes, reordered))
}

/// A resolved network: nodes numbered demand block first, then pressure block; edges
/// numbered spanning tree first, then cycle edges; one parameter record per edge in
/// that order.
#[derive(Debug, PartialEq, Clone)]
pub struct Network<S, P, T> {
    pub demand_nodes: Vec<Node<S, P>>,
    pub pressure_nodes: Vec<Node<S, P>>,
    pub root_node_index: usize,
    pub spanning_tree_edges: Vec<Edge>,
    pub cycle_edges: Vec<Edge>,
    /// The predecessor of every node besides the root along the spanning tree.
    pub pred_nodes: HashMap<usize, usize>,
    /// The incident edge indices of every node.
    pub adjacent_edges: HashMap<usize, Vec<usize>>,
    pub edge_parameters: Vec<T>,
}

/// The entry for the ordered pair `(a, b)` among the first `k` edges: the last edge that
/// joins them, with `true` when it is stored as `(b, a)`.
pub open spec fn pair_entry(edges: Seq<Edge>, a: usize, b: usize, k: int) -> Option<(usize, bool)>
    decreases k,
{
    if k <= 0 {
        None
    } else {
        let e = edges[k - 1];
        if e.src == b && e.tgt == a {
            Some(((k - 1) as usize, true))
        } else if e.src == a && e.tgt == b {
            Some(((k - 1) as usize, false))
        } else {
            pair_entry(edges, a, b, k - 1)
        }
    }
}

/// The concatenation of two edge lists.
fn concat_edges(a: &Vec<Edge>, b: &Vec<Edge>) -> (r: Vec<Edge>)
    requires
        a@.len() + b@.len() <= usize::MAX,
    ensures
        r@ == a@ + b@,
{
    let mut r: Vec<Edge> = Vec::new();
    let mut i: usize = 0;
    while i < a.len()
        invariant
            i <= a@.len(),
            r@ == a@.subrange(0, i as int),
        decreases a@.len() - i,
    {
        r.push(a[i]);
        i = i + 1;
        assert(r@ =~= a@.subrange(0, i as int));
    }
    let mut j: usize = 0;
    while j < b.len()
        invariant
            j <= b@.len(),
            r@ == a@ + b@.subrange(0, j as int),
        decreases b@.len() - j,
    {
        r.push(b[j]);
        j = j + 1;
        assert(r@ =~= a@ + b@.subrange(0, j as int));
    }
    assert(b@.subrange(0, b@.len() as int) =~= b@);
    r
}

/// `net` is the network that `try_from_feed` builds from `nodes`, `edges` and `parameters`:
/// the nodes split into the non-pressure block and the pressure block, the edges split by
/// the breadth-first walk from the first pressure node into tree edges and cycle edges,
/// the parameters reordered to match, and the adjacency of the final edge order.
pub open spec fn resolved_from<S, P, T>(
    nodes: Seq<Node<S, P>>,
    edges: Seq<Edge>,
    parameters: Seq<T>,
    net: Network<S, P, T>,
) -> bool {
    &&& net.demand_nodes@ == select(nodes, pressure_set(nodes).complement())
    &&& net.pressure_nodes@ == select(nodes, pressure_set(nodes))
    &&& net.root_node_index as int == root_index(partitioned_nodes(nodes))
    &&& tree_split(
        partitioned_nodes(nodes),
        partitioned_edges(nodes, edges),
        parameters,
        net.root_node_index,
        net.spanning_tree_edges@,
        net.cycle_edges@,
        net.pred_nodes@,
        net.edge_parameters@,
    )
    &&& net.spanning_tree_edges@.len() + net.cycle_edges@.len() == edges.len()
    &&& net.spanning_tree_edges@.len() + 1 == nodes.len()
    &&& net.nodes_view().len() == nodes.len()
    &&& edges_within(edges, nodes.len() as int)
    &&& adjacency_of(net.adjacent_edges@, net.edges_view(), nodes.len() as int)
    &&& net.wf()
}

impl<S, P, T> Network<S, P, T> {
    /// All nodes: demand block then pressure block.
    pub open spec fn nodes_view(&self) -> Seq<Node<S, P>> {
        self.demand_nodes@ + self.pressure_nodes@
    }

    /// All edges: spanning tree edges then cycle edges.
    pub open spec fn edges_view(&self) -> Seq<Edge> {
        self.spanning_tree_edges@ + self.cycle_edges@
    }

    /// What every resolved network satisfies: edges join existing nodes, the root is a
    /// node, the adjacency map matches the edges, there is one parameter record per edge,
    /// and the spanning tree has one edge fewer than there are nodes.
    pub open spec fn wf(&self) -> bool {
        let n = self.nodes_view().len() as int;
        &&& self.sized()
        &&& edges_within(self.edges_view(), n)
        &&& (self.root_node_index as int) < n
        &&& adjacency_of(self.adjacent_edges@, self.edges_view(), n)
        &&& self.edge_parameters@.len() == self.edges_view().len()
        &&& self.spanning_tree_edges@.len() + 1 == n
    }

    /// The node and edge counts fit in `usize`.
    pub open spec fn sized(&self) -> bool {
        &&& self.demand_nodes@.len() + self.pressure_nodes@.len() <= usize::MAX
        &&& self.spanning_tree_edges@.len() + self.cycle_edges@.len() <= usize::MAX
    }

    /// Builds the network from the nodes, edges and per-edge parameters of a feed: nodes
    /// are split into the demand block and the pressure block, edges into spanning tree
    /// edges and cycle edges, and the parameters are reordered to match.
    pub fn try_from_feed(nodes: Vec<Node<S, P>>, edges: Vec<Edge>, edge_parameters: Vec<T>) -> (r:
        Result<Self, NetworkError>)
        ensures
            !edges_within(edges@, nodes@.len() as int) ==> r matches Err(
                NetworkError::DanglingEdge { .. },
            ),
            edges_within(edges@, nodes@.len() as int) && nodes@.len() == 0 ==> r is Err && r->Err_0
                == (NetworkError::UnknownNode { node: 0 }),
            edges_within(edges@, nodes@.len() as int) && nodes@.len() > 0 && edge_parameters@.len()
                != edges@.len() ==> r is Err && r->Err_0 == (NetworkError::ParameterCount {
                edges: edges@.len() as usize,
                parameters: edge_parameters@.len() as usize,
            }),
            edges_within(edges@, nodes@.len() as int) && nodes@.len() > 0 && edge_parameters@.len()
                == edges@.len() ==> (r is Ok <==> connected_from(
                partitioned_edges(nodes@, edges@),
                root_index(partitioned_nodes(nodes@)) as usize,
                nodes@.len() as int,
            )),
            edges_within(edges@, nodes@.len() as int) && nodes@.len() > 0 && edge_parameters@.len()
                == edges@.len() && r is Err ==> r matches Err(NetworkError::Disconnected { .. }),
            r matches Ok(net) ==> resolved_from(nodes@, edges@, edge_parameters@, net),
    {
        let num_nodes = nodes.len();
        let num_edges = edges.len();
        check_edges_within(&edges, num_nodes)?;
        if num_nodes == 0 {
            return Err(NetworkError::UnknownNode { node: 0 });
        }
        if edge_parameters.len() != num_edges {
            return Err(NetworkError::ParameterCount { edges: num_edges, parameters: edge_parameters.len() });
        }
        let ghost pressure = pressure_set(nodes@);
        let ghost old_nodes = nodes@;
        let ghost old_edges = edges@;
        let ghost old_params = edge_parameters@;
        let (mut all_nodes, mut pressure_nodes, edges) = split_nodes(nodes, edges);
        proof {
            lemma_select_len(old_nodes, pressure.complement(), num_nodes as int);
            lemma_select_len(old_nodes, pressure, num_nodes as int);
            lemma_rank_complement(pressure, num_nodes as int);
            assert forall|e: int| 0 <= e < edges@.len() implies (edges@[e].src as int) < num_nodes
                && (edges@[e].tgt as int) < num_nodes by {
                lemma_partition_index_bound(old_nodes, old_edges[e].src as int);
                lemma_partition_index_bound(old_nodes, old_edges[e].tgt as int);
            }
        }
        let num_demand = all_nodes.len();
        all_nodes.append(&mut pressure_nodes);
        assert(all_nodes@ == partitioned_nodes(old_nodes));

        let (root_node_index, spanning_tree_edges, cycle_edges, pred_nodes, edge_parameters) =
            split_edges(&all_nodes, edges, edge_parameters)?;

        let demand_nodes_part = all_nodes.split_off(0);
        let mut demand_nodes = demand_nodes_part;
        let pressure_nodes = demand_nodes.split_off(num_demand);
        proof {
            assert(demand_nodes@ =~= select(old_nodes, pressure.complement()));
            assert(pressure_nodes@ =~= select(old_nodes, pressure));
        }

        let all_edges = concat_edges(&spanning_tree_edges, &cycle_edges);
        let adjacent_edges = get_adjacent_edges(num_nodes, all_edges.as_slice());
        proof {
            let ghost tree_edges = spanning_tree_edges@;
            let ghost cyc = cycle_edges@;
            let ghost e2 = partitioned_edges(old_nodes, old_edges);
            let walk = walk_from(e2, root_node_index, num_nodes as nat);
            let tree = walk.2;
            let cycles = walk.3;
            lemma_select_within(e2, tree, num_nodes as int, e2.len() as int);
            lemma_select_within(e2, cycles, num_nodes as int, e2.len() as int);
            lemma_select_len(e2, tree, num_edges as int);
            lemma_select_len(e2, cycles, num_edges as int);
            lemma_select_len(old_params, tree, num_edges as int);
            lemma_select_len(old_params, cycles, num_edges as int);
        }
        Ok(Network {
            demand_nodes,
            pressure_nodes,
            root_node_index,
            spanning_tree_edges,
            cycle_edges,
            pred_nodes,
            adjacent_edges,
            edge_parameters,
        })
    }

    /// Resolves a whole network: requires exactly one pressure node, keeps the part
    /// reachable from it (see `extract_feed`) and builds the network from that feed.
    pub fn try_from_topology(nodes: Vec<Node<S, P>>, edges: Vec<Edge>, edge_parameters: Vec<T>) -> (r:
        Result<Self, NetworkError>)
        ensures
            rank(pressure_set(nodes@), nodes@.len() as int) == 0 ==> r is Err && r->Err_0
                == NetworkError::NoSource,
            rank(pressure_set(nodes@), nodes@.len() as int) > 1 ==> r is Err && r->Err_0
                == (NetworkError::MultipleSources {
                count: rank(pressure_set(nodes@), nodes@.len() as int) as usize,
            }),
            rank(pressure_set(nodes@), nodes@.len() as int) == 1 && edge_parameters@.len()
                != edges@.len() ==> r is Err && r->Err_0 == (NetworkError::ParameterCount {
                edges: edges@.len() as usize,
                parameters: edge_parameters@.len() as usize,
            }),
            rank(pressure_set(nodes@), nodes@.len() as int) == 1 && edge_parameters@.len()
                == edges@.len() && !edges_within(edges@, nodes@.len() as int) ==> r matches Err(
                NetworkError::DanglingEdge { .. },
            ),
            rank(pressure_set(nodes@), nodes@.len() as int) == 1 && edge_parameters@.len()
                == edges@.len() && edges_within(edges@, nodes@.len() as int) ==> r is Ok,
            r matches Ok(net) ==> {
                let root = root_index(nodes@) as usize;
                let fnodes = feed_nodes_of(edges@, root);
                let fedges = feed_edges_of(edges@, root);
                &&& resolved_from(
                    select(nodes@, fnodes),
                    renumber_all(select(edges@, fedges), |v: int| rank(fnodes, v) as int),
                    select(edge_parameters@, fedges),
                    net,
                )
                &&& net.nodes_view().len() == fnodes.len()
                &&& net.spanning_tree_edges@.len() + net.cycle_edges@.len() == fedges.len()
            },
    {
        let num_sources = count_sources(&nodes);
        if num_sources == 0 {
            return Err(NetworkError::NoSource);
        } else if num_sources > 1 {
            return Err(NetworkError::MultipleSources { count: num_sources });
        }
        if edge_parameters.len() != edges.len() {
            return Err(NetworkError::ParameterCount { edges: edges.len(), parameters: edge_parameters.len() });
        }
        let ghost old_edges = edges@;
        let ghost old_params = edge_parameters@;
        let ghost old_nodes = nodes@;
        let ghost root = root_index(nodes@) as usize;
        let num_nodes = nodes.len();
        let num_edges = edges.len();
        let (nodes, edges, edge_parameters) = extract_feed(nodes, edges, edge_parameters)?;
        proof {
            let fnodes = feed_nodes_of(old_edges, root);
            let fedges = feed_edges_of(old_edges, root);
            lemma_feed_finite(old_edges, root, num_nodes);
            lemma_select_len(old_nodes, fnodes, old_nodes.len() as int);
            lemma_select_len(old_edges, fedges, old_edges.len() as int);
            lemma_rank_card(fnodes, num_nodes);
            lemma_rank_card(fedges, num_edges);
            assert(fnodes.intersect(index_range(old_nodes.len() as int)) =~= fnodes);
            assert(fedges.intersect(index_range(old_edges.len() as int)) =~= fedges);
            lemma_single_source_resolves(old_nodes, old_edges, old_params, root);
        }
        Self::try_from_feed(nodes, edges, edge_parameters)
    }

    /// The number of nodes.
    pub fn num_nodes(&self) -> (r: usize)
        requires
            self.sized(),
        ensures
            r == self.nodes_view().len(),
    {
        self.demand_nodes.len() + self.pressure_nodes.len()
    }

    /// The number of edges.
    pub fn num_edges(&self) -> (r: usize)
        requires
            self.sized(),
        ensures
            r == self.edges_view().len(),
    {
        self.spanning_tree_edges.len() + self.cycle_edges.len()
    }

    /// The number of cycle edges, one per independent loop.
    pub fn num_cycles(&self) -> (r: usize)
        ensures
            r == self.cycle_edges@.len(),
    {
        self.cycle_edges.len()
    }

    /// The node with index `i` in the demand-then-pressure numbering.
    pub fn get_node(&self, i: usize) -> (r: Result<&Node<S, P>, NetworkError>)
        ensures
            (i as int) < self.nodes_view().len() ==> (r matches Ok(node) && *node == self.nodes_view()[i as int]),
            (i as int) >= self.nodes_view().len() ==> r is Err && r->Err_0 == (NetworkError::UnknownNode { node: i }),
    {
        let num_demand_nodes = self.demand_nodes.len();
        if i < num_demand_nodes {
            Ok(&self.demand_nodes[i])
        } else if i - num_demand_nodes < self.pressure_nodes.len() {
            Ok(&self.pressure_nodes[i - num_demand_nodes])
        } else {
            Err(NetworkError::UnknownNode { node: i })
        }
    }

    /// The edge with index `i` in the tree-then-cycle numbering.
    pub fn get_edge(&self, i: usize) -> (r: Result<&Edge, NetworkError>)
        ensures
            (i as int) < self.edges_view().len() ==> (r matches Ok(edge) && *edge == self.edges_view()[i as int]),
            (i as int) >= self.edges_view().len() ==> r is Err && r->Err_0 == (NetworkError::UnknownEdge { edge: i }),
    {
        let num_tree_edges = self.spanning_tree_edges.len();
        if i < num_tree_edges {
            Ok(&self.spanning_tree_edges[i])
        } else if i - num_tree_edges < self.cycle_edges.len() {
            Ok(&self.cycle_edges[i - num_tree_edges])
        } else {
            Err(NetworkError::UnknownEdge { edge: i })
        }
    }

    /// The parameters of edge `i`.
    pub fn get_edge_parameters(&self, i: usize) -> (r: Result<&T, NetworkError>)
        ensures
            i < self.edge_parameters@.len() ==> (r matches Ok(p) && *p == self.edge_parameters@[i as int]),
            i >= self.edge_parameters@.len() ==> r is Err && r->Err_0 == (NetworkError::UnknownEdge { edge: i }),
    {
        if i < self.edge_parameters.len() {
            Ok(&self.edge_parameters[i])
        } else {
            Err(NetworkError::UnknownEdge { edge: i })
        }
    }

    /// All nodes, demand block first.
    pub fn nodes(&self) -> (r: Vec<&Node<S, P>>)
        requires
            self.sized(),
        ensures
            r@.len() == self.nodes_view().len(),
            forall|i: int| 0 <= i < r@.len() ==> *(#[trigger] r@[i]) == self.nodes_view()[i],
    {
        let mut r: Vec<&Node<S, P>> = Vec::new();
        let mut i: usize = 0;
        while i < self.demand_nodes.len()
            invariant
                i <= self.demand_nodes@.len(),
                r@.len() == i,
                forall|k: int| 0 <= k < i ==> *(#[trigger] r@[k]) == self.demand_nodes@[k],
            decreases self.demand_nodes@.len() - i,
        {
            r.push(&self.demand_nodes[i]);
            i = i + 1;
        }
        let mut j: usize = 0;
        while j < self.pressure_nodes.len()
            invariant
                self.sized(),
                j <= self.pressure_nodes@.len(),
                r@.len() == self.demand_nodes@.len() + j,
                forall|k: int| 0 <= k < r@.len() ==> *(#[trigger] r@[k]) == self.nodes_view()[k],
            decreases self.pressure_nodes@.len() - j,
        {
            r.push(&self.pressure_nodes[j]);
            j = j + 1;
        }
        r
    }

    /// All edges, spanning tree edges first.
    pub fn edges(&self) -> (r: Vec<Edge>)
        requires
            self.sized(),
        ensures
            r@ == self.edges_view(),
    {
        concat_edges(&self.spanning_tree_edges, &self.cycle_edges)
    }

    /// The parameters, one per edge in edge order.
    pub fn edge_parameters(&self) -> (r: &[T])
        ensures
            r@ == self.edge_parameters@,
    {
        self.edge_parameters.as_slice()
    }

    /// The index of the last spanning tree edge joining `a` and `b`, with `true` when it
    /// is stored as `(b, a)`; `None` when no tree edge joins them. Tree edges come first in
    /// the edge numbering, so the index is also the edge's index in the network.
    pub fn tree_edge_between(&self, a: usize, b: usize) -> (r: Option<(usize, bool)>)
        ensures
            r == pair_entry(self.spanning_tree_edges@, a, b, self.spanning_tree_edges@.len() as int),
    {
        let mut i = self.spanning_tree_edges.len();
        while i > 0
            invariant
                i <= self.spanning_tree_edges@.len(),
                pair_entry(
                    self.spanning_tree_edges@,
                    a,
                    b,
                    self.spanning_tree_edges@.len() as int,
                ) == pair_entry(self.spanning_tree_edges@, a, b, i as int),
            decreases i,
        {
            i = i - 1;
            let edge = self.spanning_tree_edges[i];
            if edge.src == b && edge.tgt == a {
                return Some((i, true));
            } else if edge.src == a && edge.tgt == b {
                return Some((i, false));
            }
        }
        None
    }

    /// The index of the last edge joining `a` and `b`, with `true` when it is stored as
    /// `(b, a)`; `None` when no edge joins them.
    pub fn edge_between(&self, a: usize, b: usize) -> (r: Option<(usize, bool)>)
        requires
            self.sized(),
        ensures
            r == pair_entry(self.edges_view(), a, b, self.edges_view().len() as int),
    {
        let num_tree_edges = self.spanning_tree_edges.len();
        let mut i = self.num_edges();
        while i > 0
            invariant
                i <= self.edges_view().len(),
                num_tree_edges == self.spanning_tree_edges@.len(),
                pair_entry(self.edges_view(), a, b, self.edges_view().len() as int) == pair_entry(
                    self.edges_view(),
                    a,
                    b,
                    i as int,
                ),
            decreases i,
        {
            i = i - 1;
            let edge = if i < num_tree_edges {
                self.spanning_tree_edges[i]
            } else {
                self.cycle_edges[i - num_tree_edges]
            };
            assert(edge == self.edges_view()[i as int]);
            if edge.src == b && edge.tgt == a {
                return Some((i, true));
            } else if edge.src == a && edge.tgt == b {
                return Some((i, false));
            }
        }
        None
    }
}

/// The number of pressure nodes.
fn count_sources<S, P>(nodes: &Vec<Node<S, P>>) -> (r: usize)
    ensures
        r == rank(pressure_set(nodes@), nodes@.len() as int),
{
    let mut count: usize = 0;
    let mut i: usize = 0;
    while i < nodes.len()
        invariant
            i <= nodes@.len(),
            count == rank(pressure_set(nodes@), i as int),
        decreases nodes@.len() - i,
    {
        proof {
            lemma_rank_bound(pressure_set(nodes@), i as int);
        }
        if nodes[i].is_pressure() {
            count = count + 1;
        }
        i = i + 1;
    }
    count
}

/// The first pressure node, if any.
fn find_source<S, P>(nodes: &Vec<Node<S, P>>) -> (r: Option<usize>)
    ensures
        r is None <==> rank(pressure_set(nodes@), nodes@.len() as int) == 0,
        r matches Some(i) ==> i as int == root_index(nodes@) && (i as int) < nodes@.len()
            && nodes@[i as int] is Pressure,
{
    let mut i: usize = 0;
    while i < nodes.len()
        invariant
            i <= nodes@.len(),
            root_from(nodes@, 0) == root_from(nodes@, i as int),
            rank(pressure_set(nodes@), i as int) == 0,
        decreases nodes@.len() - i,
    {
        if nodes[i].is_pressure() {
            proof {
                lemma_rank_mono(pressure_set(nodes@), i as int + 1, nodes@.len() as int);
            }
            return Some(i);
        }
        i = i + 1;
    }
    None
}

/// Keeps what is reachable from the first pressure node: those nodes, the edges at them
/// and their parameters, renumbered contiguously in their old order.
pub fn extract_feed<S, P, T>(nodes: Vec<Node<S, P>>, edges: Vec<Edge>, edge_parameters: Vec<T>) -> (r:
    Result<(Vec<Node<S, P>>, Vec<Edge>, Vec<T>), NetworkError>)
    ensures
        rank(pressure_set(nodes@), nodes@.len() as int) == 0 ==> r is Err && r->Err_0
            == NetworkError::NoSource,
        rank(pressure_set(nodes@), nodes@.len() as int) > 0 && !edges_within(
            edges@,
            nodes@.len() as int,
        ) ==> r matches Err(NetworkError::DanglingEdge { .. }),
        rank(pressure_set(nodes@), nodes@.len() as int) > 0 && edges_within(
            edges@,
            nodes@.len() as int,
        ) ==> r is Ok,
        r matches Ok((feed_nodes, feed_edges, feed_parameters)) ==> {
            let root = root_index(nodes@) as usize;
            let fnodes = feed_nodes_of(edges@, root);
            let fedges = feed_edges_of(edges@, root);
            &&& (root as int) < nodes@.len()
            &&& nodes@[root as int] is Pressure
            &&& edges_within(edges@, nodes@.len() as int)
            &&& feed_nodes@ == select(nodes@, fnodes)
            &&& feed_edges@ == renumber_all(select(edges@, fedges), |v: int| rank(fnodes, v) as int)
            &&& feed_parameters@ == select(edge_parameters@, fedges)
        },
{
    let start_node = match find_source(&nodes) {
        Some(i) => i,
        None => {
            return Err(NetworkError::NoSource);
        },
    };
    let num_nodes = nodes.len();
    let num_edges = edges.len();
    let (nodes_to_keep, edges_to_keep) = find_feed(nodes.as_slice(), edges.as_slice(), start_node)?;
    proof {
        let fnodes = nodes_to_keep@;
        let n = nodes@.len() as int;
        lemma_feed_finite(edges@, start_node, num_nodes);
        assert forall|e: int|
            0 <= e < edges@.len() && #[trigger] edges_to_keep@.contains(e as usize) implies node_kept(
            fnodes,
            n,
            edges@[e].src,
        ) && node_kept(fnodes, n, edges@[e].tgt) by {
            let ed = edges@[e];
            assert(ed.touches(ed.src as int));
            assert(joined(edges@, ed.src, ed.tgt));
            lemma_reachable_step(edges@, start_node, ed.src, ed.tgt);
        }
    }
    filter_network(nodes, edges, edge_parameters, nodes_to_keep, edges_to_keep)
}

proof fn lemma_select_kind<S, P>(nodes: Seq<Node<S, P>>, keep: Set<usize>, k: int, pressure: bool)
    requires
        0 <= k <= nodes.len(),
        forall|i: int| 0 <= i < k && keep.contains(i as usize) ==> (nodes[i] is Pressure) == pressure,
    ensures
        forall|j: int|
            0 <= j < select_prefix(nodes, keep, k).len() ==> (select_prefix(nodes, keep, k)[j] is Pressure)
                == pressure,
    decreases k,
{
    if k > 0 {
        lemma_select_kind(nodes, keep, k - 1, pressure);
    }
}

/// Partitioning nodes that are already partitioned changes nothing: both blocks stay as
/// they are, every node keeps its index, and edges among them keep their endpoints.
pub proof fn lemma_partition_idempotent<S, P>(nodes: Seq<Node<S, P>>, edges: Seq<Edge>)
    requires
        nodes.len() <= usize::MAX,
        edges_within(edges, nodes.len() as int),
    ensures
        partitioned_edges(partitioned_nodes(nodes), edges) == edges,
        select(partitioned_nodes(nodes), pressure_set(partitioned_nodes(nodes)).complement())
            == select(nodes, pressure_set(nodes).complement()),
        select(partitioned_nodes(nodes), pressure_set(partitioned_nodes(nodes))) == select(
            nodes,
            pressure_set(nodes),
        ),
        partitioned_nodes(partitioned_nodes(nodes)) == partitioned_nodes(nodes),
        forall|v: int|
            0 <= v < nodes.len() ==> #[trigger] partition_index(partitioned_nodes(nodes), v) == v,
{
    let n = nodes.len() as int;
    let pressure = pressure_set(nodes);
    let demand = select(nodes, pressure.complement());
    let sources = select(nodes, pressure);
    let q = partitioned_nodes(nodes);
    let d = demand.len() as int;
    lemma_select_len(nodes, pressure.complement(), n);
    lemma_select_len(nodes, pressure, n);
    lemma_rank_complement(pressure, n);
    lemma_select_kind(nodes, pressure.complement(), n, false);
    lemma_select_kind(nodes, pressure, n, true);
    assert(q.len() == n);
    let qp = pressure_set(q);
    assert forall|i: int| 0 <= i < n implies (#[trigger] qp.contains(i as usize) <==> d <= i < n) by {
        if i < d {
            assert(q[i] == demand[i]);
        } else {
            assert(q[i] == sources[i - d]);
        }
    }
    assert forall|i: int| 0 <= i < n implies (#[trigger] qp.complement().contains(i as usize) <==> 0 <= i < d) by {}
    lemma_select_block(q, qp, d, n, n);
    lemma_select_block(q, qp.complement(), 0, d, n);
    assert(q.subrange(0, d) =~= demand);
    assert(q.subrange(d, n) =~= sources);
    assert forall|v: int| 0 <= v < n implies #[trigger] partition_index(q, v) == v by {
        lemma_rank_block(qp.complement(), 0, d, v);
        lemma_rank_block(qp.complement(), 0, d, n);
        lemma_rank_block(qp, d, n, v);
    }
    assert forall|e: int| 0 <= e < edges.len() implies #[trigger] partitioned_edges(q, edges)[e] == edges[e] by {
        assert(partition_index(q, edges[e].src as int) == edges[e].src as int);
        assert(partition_index(q, edges[e].tgt as int) == edges[e].tgt as int);
    }
    assert(partitioned_edges(q, edges) =~= edges);
}

/// A network with one pressure node and one parameter record per edge always resolves:
/// the part reachable from the source stays connected through both renumberings.
proof fn lemma_single_source_resolves<S, P, T>(
    nodes: Seq<Node<S, P>>,
    edges: Seq<Edge>,
    parameters: Seq<T>,
    s: usize,
)
    requires
        nodes.len() <= usize::MAX,
        edges.len() <= usize::MAX,
        parameters.len() == edges.len(),
        edges_within(edges, nodes.len() as int),
        rank(pressure_set(nodes), nodes.len() as int) == 1,
        (s as int) < nodes.len(),
        nodes[s as int] is Pressure,
    ensures
        ({
            let fnodes = feed_nodes_of(edges, s);
            let fedges = feed_edges_of(edges, s);
            let n1 = select(nodes, fnodes);
            let e1 = renumber_all(select(edges, fedges), |v: int| rank(fnodes, v) as int);
            let p1 = select(parameters, fedges);
            &&& n1.len() > 0
            &&& edges_within(e1, n1.len() as int)
            &&& p1.len() == e1.len()
            &&& connected_from(
                partitioned_edges(n1, e1),
                root_index(partitioned_nodes(n1)) as usize,
                n1.len() as int,
            )
        }),
{
    let n = nodes.len() as int;
    let m = edges.len() as int;
    let fnodes = feed_nodes_of(edges, s);
    let fedges = feed_edges_of(edges, s);
    let pressure = pressure_set(nodes);
    let sel = select(edges, fedges);
    let rank_f = |v: int| rank(fnodes, v) as int;
    let n1 = select(nodes, fnodes);
    let e1 = renumber_all(sel, rank_f);
    lemma_feed_finite(edges, s, nodes.len() as usize);
    lemma_start_reachable(edges, s);
    lemma_select_len(nodes, fnodes, n);
    lemma_select_len(edges, fedges, m);
    lemma_select_len(parameters, fedges, m);
    lemma_select_index(nodes, fnodes, n, s as int);
    lemma_rank_bound(fnodes, n);
    let n1len = n1.len() as int;
    // the only pressure node is s
    assert forall|j: int| 0 <= j < n && j != s implies !(#[trigger] nodes[j] is Pressure) by {
        if nodes[j] is Pressure {
            let lo = if j < s { j } else { s as int };
            let hi = if j < s { s as int } else { j };
            assert(pressure.contains(lo as usize) && pressure.contains(hi as usize));
            lemma_rank_injective(pressure, lo, hi);
            lemma_rank_injective(pressure, hi, n);
            lemma_rank_mono(pressure, 0, lo);
        }
    }
    // the selected edges join feed nodes
    lemma_select_within(edges, fedges, n, m);
    assert forall|e: int| 0 <= e < sel.len() implies fnodes.contains(#[trigger] sel[e].src) && fnodes.contains(
        sel[e].tgt,
    ) by {
        lemma_rank_onto(fedges, m, e);
        let i = choose|i: int| 0 <= i < m && #[trigger] fedges.contains(i as usize) && rank(fedges, i) == e;
        lemma_select_index(edges, fedges, m, i);
        let ed = edges[i];
        assert(ed.touches(ed.src as int));
        assert(joined(edges, ed.src, ed.tgt));
        lemma_reachable_step(edges, s, ed.src, ed.tgt);
    }
    assert forall|e: int|
        0 <= e < sel.len() implies 0 <= rank_f(#[trigger] sel[e].src as int) <= usize::MAX && 0 <= rank_f(
        sel[e].tgt as int,
    ) <= usize::MAX by {
        lemma_rank_bound(fnodes, sel[e].src as int);
        lemma_rank_bound(fnodes, sel[e].tgt as int);
    }
    assert forall|e: int| 0 <= e < e1.len() implies (e1[e].src as int) < n1len && (e1[e].tgt as int)
        < n1len by {
        assert(e1[e] == renumber(sel[e], rank_f));
        assert(fnodes.contains(sel[e].src));
        lemma_rank_injective(fnodes, sel[e].src as int, n);
        lemma_rank_injective(fnodes, sel[e].tgt as int, n);
        lemma_rank_bound(fnodes, sel[e].src as int);
        lemma_rank_bound(fnodes, sel[e].tgt as int);
    }
    assert(edges_within(e1, n1len));
    // stage one: edges from reachable nodes carry over into the extracted graph
    let f1 = |v: usize| rank(fnodes, v as int) as usize;
    assert forall|a: usize, b: usize| reachable(edges, s, a) && #[trigger] joined(edges, a, b) implies joined(
        e1,
        f1(a),
        f1(b),
    ) by {
        let e = choose|e: int|
            0 <= e < edges.len() && #[trigger] edges[e].touches(a as int) && edges[e].other(a as int)
                == b as int;
        let ed = edges[e];
        if ed.src != a {
            assert(ed.touches(a as int));
            assert(joined(edges, a, ed.src));
            lemma_reachable_step(edges, s, a, ed.src);
        }
        assert(fedges.contains(e as usize));
        lemma_select_index(edges, fedges, m, e);
        let k = rank(fedges, e) as int;
        assert(sel[k] == ed);
        assert(sel[k].touches(a as int));
        assert(joined(sel, a, b));
        lemma_joined_renumber(sel, rank_f, a, b);
    }
    // the extracted graph has exactly one pressure node, at r1
    let r1 = rank(fnodes, s as int) as int;
    assert(n1[r1] == nodes[s as int]);
    assert forall|j: int| 0 <= j < n1len && j != r1 implies !(#[trigger] n1[j] is Pressure) by {
        lemma_rank_onto(fnodes, n, j);
        let i = choose|i: int| 0 <= i < n && #[trigger] fnodes.contains(i as usize) && rank(fnodes, i) == j;
        lemma_select_index(nodes, fnodes, n, i);
        if i < s {
            lemma_rank_injective(fnodes, i, s as int);
        } else if i > s {
            lemma_rank_injective(fnodes, s as int, i);
        }
    }
    // stage two: the partition renumbering
    let pi = |v: int| partition_index(n1, v);
    let e2 = partitioned_edges(n1, e1);
    let q = partitioned_nodes(n1);
    let p1set = pressure_set(n1);
    assert forall|x: int| 0 <= x < n1len implies (#[trigger] p1set.contains(x as usize) <==> r1 <= x < r1 + 1) by {}
    assert forall|x: int| 0 <= x < n1len implies (#[trigger] p1set.complement().contains(x as usize) <==> (0 <= x
        < r1 || r1 + 1 <= x < n1len)) by {}
    lemma_rank_block(p1set, r1, r1 + 1, n1len);
    lemma_rank_block(p1set, r1, r1 + 1, r1);
    lemma_rank_complement(p1set, n1len);
    lemma_select_kind(n1, p1set.complement(), n1len, false);
    lemma_select_len(n1, p1set.complement(), n1len);
    lemma_select_len(n1, p1set, n1len);
    let d = n1len - 1;
    lemma_select_index(n1, p1set, n1len, r1);
    assert(q[d] == select(n1, p1set)[0]);
    assert forall|j: int| 0 <= j < n1len && j != d implies !(#[trigger] q[j] is Pressure) by {
        assert(q[j] == select(n1, p1set.complement())[j]);
    }
    lemma_root_unique(q, d, 0);
    assert(pi(r1) == d);
    assert forall|e: int|
        0 <= e < e1.len() implies 0 <= pi(#[trigger] e1[e].src as int) <= usize::MAX && 0 <= pi(
        e1[e].tgt as int,
    ) <= usize::MAX by {
        lemma_partition_index_bound(n1, e1[e].src as int);
        lemma_partition_index_bound(n1, e1[e].tgt as int);
    }
    let f2 = |v: usize| pi(v as int) as usize;
    assert forall|a: usize, b: usize| reachable(e1, r1 as usize, a) && #[trigger] joined(e1, a, b) implies joined(
        e2,
        f2(a),
        f2(b),
    ) by {
        lemma_joined_renumber(e1, pi, a, b);
    }
    assert forall|w: usize| (w as int) < n1len implies #[trigger] reachable(e2, d as usize, w) by {
        let v: int = if (w as int) < d {
            lemma_rank_onto(p1set.complement(), n1len, w as int);
            choose|i: int| 0 <= i < n1len && #[trigger] p1set.complement().contains(i as usize) && rank(
                p1set.complement(),
                i,
            ) == w as int
        } else {
            r1
        };
        assert(pi(v) == w as int);
        lemma_rank_onto(fnodes, n, v);
        let i = choose|i: int| 0 <= i < n && #[trigger] fnodes.contains(i as usize) && rank(fnodes, i) == v;
        lemma_reach_transfer(edges, s, i as usize, e1, f1);
        lemma_reach_transfer(e1, r1 as usize, v as usize, e2, f2);
    }
}

/// `e` joins `a` and `b`, in either orientation.
pub open spec fn joins(e: Edge, a: usize, b: usize) -> bool {
    (e.src == a && e.tgt == b) || (e.src == b && e.tgt == a)
}

/// `e` joins some node to its predecessor.
pub open spec fn links_node(pred: Map<usize, usize>, e: Edge) -> bool {
    exists|v: usize| #[trigger] pred.contains_key(v) && joins(e, pred[v], v)
}

/// Some edge of `edges` joins `a` and `b`.
pub open spec fn has_edge(edges: Seq<Edge>, a: usize, b: usize) -> bool {
    exists|k: int| 0 <= k < edges.len() && joins(#[trigger] edges[k], a, b)
}

/// The spanning tree of a network that `try_from_feed` builds spans every node once: every
/// node but the root has a predecessor, following predecessors reaches the root in fewer
/// steps than there are nodes, and the tree edges are exactly the edges between a node and
/// its predecessor.
pub proof fn lemma_resolved_tree<S, P, T>(
    nodes: Seq<Node<S, P>>,
    edges: Seq<Edge>,
    parameters: Seq<T>,
    net: Network<S, P, T>,
)
    requires
        resolved_from(nodes, edges, parameters, net),
    ensures
        forall|v: usize|
            #[trigger] net.pred_nodes@.contains_key(v) <==> (v as int) < net.nodes_view().len() && v
                != net.root_node_index,
        forall|v: usize|
            (v as int) < net.nodes_view().len() ==> #[trigger] reaches_root(
                net.pred_nodes@,
                net.root_node_index,
                v,
                (net.nodes_view().len() - 1) as nat,
            ),
        forall|k: int|
            0 <= k < net.spanning_tree_edges@.len() ==> #[trigger] links_node(
                net.pred_nodes@,
                net.spanning_tree_edges@[k],
            ),
        forall|v: usize|
            #[trigger] net.pred_nodes@.contains_key(v) ==> has_edge(
                net.spanning_tree_edges@,
                net.pred_nodes@[v],
                v,
            ),
{
    let n = nodes.len();
    let m = edges.len() as int;
    let e2 = partitioned_edges(nodes, edges);
    let root = net.root_node_index;
    let walk = walk_from(e2, root, partitioned_nodes(nodes).len());
    assert(spanning_tree_of(e2, root, walk.2, walk.3, net.pred_nodes@));
    assert forall|x: int| 0 <= x < m implies (e2[x].src as int) < n && (e2[x].tgt as int) < n by {
        lemma_partition_index_bound(nodes, edges[x].src as int);
        lemma_partition_index_bound(nodes, edges[x].tgt as int);
    }
    lemma_tree_spans(e2, root, walk.2, walk.3, net.pred_nodes@, net.spanning_tree_edges@, n as usize);
    lemma_tree_pairs(e2, root, walk.2, walk.3, net.pred_nodes@, net.spanning_tree_edges@);
}

proof fn lemma_tree_spans(
    e2: Seq<Edge>,
    root: usize,
    tree_set: Set<usize>,
    cycle_set: Set<usize>,
    pred: Map<usize, usize>,
    tree: Seq<Edge>,
    n: usize,
)
    requires
        spanning_tree_of(e2, root, tree_set, cycle_set, pred),
        edges_within(e2, n as int),
        e2.len() <= usize::MAX,
        tree == select(e2, tree_set),
        tree.len() + 1 == n,
        root < n,
    ensures
        forall|v: usize| #[trigger] pred.contains_key(v) <==> v < n && v != root,
        forall|v: usize| v < n ==> #[trigger] reaches_root(pred, root, v, (n - 1) as nat),
{
    let m = e2.len() as int;
    let feed = feed_nodes_of(e2, root);
    lemma_start_reachable(e2, root);
    lemma_feed_finite(e2, root, n);
    lemma_rank_card(tree_set, m as usize);
    lemma_select_len(e2, tree_set, m);
    assert(tree_set.intersect(index_range(m)) =~= tree_set) by {
        assert forall|e: usize| tree_set.contains(e) implies (e as int) < m by {
            assert((tree_set + cycle_set).contains(e));
        }
    }
    lemma_full_set(feed, n);
    assert forall|v: usize| #[trigger] pred.contains_key(v) <==> v < n && v != root by {
        assert(pred.dom().contains(v) == feed.remove(root).contains(v));
    }
    assert forall|v: usize| v < n implies #[trigger] reaches_root(pred, root, v, (n - 1) as nat) by {
        assert(feed.contains(v));
    }
}

proof fn lemma_tree_pairs(
    e2: Seq<Edge>,
    root: usize,
    tree_set: Set<usize>,
    cycle_set: Set<usize>,
    pred: Map<usize, usize>,
    tree: Seq<Edge>,
)
    requires
        spanning_tree_of(e2, root, tree_set, cycle_set, pred),
        e2.len() <= usize::MAX,
        tree == select(e2, tree_set),
    ensures
        forall|k: int| 0 <= k < tree.len() ==> #[trigger] links_node(pred, tree[k]),
        forall|v: usize| #[trigger] pred.contains_key(v) ==> has_edge(tree, pred[v], v),
{
    lemma_tree_edges_have_nodes(e2, tree_set, pred, tree);
    lemma_nodes_have_tree_edges(e2, tree_set, pred, tree);
}

proof fn lemma_tree_edges_have_nodes(e2: Seq<Edge>, tree_set: Set<usize>, pred: Map<usize, usize>, tree: Seq<Edge>)
    requires
        forall|e: usize|
            #[trigger] tree_set.contains(e) ==> exists|v: usize|
                #[trigger] pred.dom().contains(v) && (e as int) < e2.len() && e2[e as int].touches(
                    pred[v] as int,
                ) && e2[e as int].other(pred[v] as int) == v as int,
        e2.len() <= usize::MAX,
        tree == select(e2, tree_set),
    ensures
        forall|k: int| 0 <= k < tree.len() ==> #[trigger] links_node(pred, tree[k]),
{
    let m = e2.len() as int;
    lemma_select_len(e2, tree_set, m);
    assert forall|k: int| 0 <= k < tree.len() implies #[trigger] links_node(pred, tree[k]) by {
        lemma_rank_onto(tree_set, m, k);
        let q = choose|q: int| 0 <= q < m && #[trigger] tree_set.contains(q as usize) && rank(tree_set, q) == k;
        lemma_select_index(e2, tree_set, m, q);
        let v = choose|v: usize|
            #[trigger] pred.dom().contains(v) && (q as int) < e2.len() && e2[q].touches(pred[v] as int)
                && e2[q].other(pred[v] as int) == v as int;
        assert(pred.contains_key(v) && joins(tree[k], pred[v], v));
    }
}

proof fn lemma_nodes_have_tree_edges(e2: Seq<Edge>, tree_set: Set<usize>, pred: Map<usize, usize>, tree: Seq<Edge>)
    requires
        forall|v: usize| #[trigger] pred.dom().contains(v) ==> tree_joined(e2, tree_set, pred[v], v),
        e2.len() <= usize::MAX,
        tree == select(e2, tree_set),
    ensures
        forall|v: usize| #[trigger] pred.contains_key(v) ==> has_edge(tree, pred[v], v),
{
    let m = e2.len() as int;
    lemma_select_len(e2, tree_set, m);
    assert forall|v: usize| #[trigger] pred.contains_key(v) implies has_edge(tree, pred[v], v) by {
        assert(pred.dom().contains(v));
        assert(tree_joined(e2, tree_set, pred[v], v));
        let e = choose|e: usize|
            #[trigger] tree_set.contains(e) && (e as int) < e2.len() && e2[e as int].touches(pred[v] as int)
                && e2[e as int].other(pred[v] as int) == v as int;
        lemma_select_index(e2, tree_set, m, e as int);
        let k = rank(tree_set, e as int) as int;
        assert(0 <= k < tree.len() && joins(tree[k], pred[v], v));
    }
}

/// The feeding edges of `node` among the edges listed in `list`, in list order: each pair
/// is an edge and the neighbour across it, kept when the edge's flow runs towards `node`,
/// that is when `negative_flow[e]` equals the reversed flag of the last edge stored from
/// the neighbour to `node`. The errors name an unknown edge, an edge not at `node`, or a
/// pair without an edge.
pub open spec fn upstream_from(
    edges: Seq<Edge>,
    node: usize,
    list: Seq<usize>,
    negative_flow: Seq<bool>,
) -> Result<Seq<(usize, usize)>, NetworkError>
    decreases list.len(),
{
    if list.len() == 0 {
        Ok(Seq::empty())
    } else {
        match upstream_from(edges, node, list.drop_last(), negative_flow) {
            Err(err) => Err(err),
            Ok(prev) => {
                let e = list.last();
                if (e as int) >= edges.len() {
                    Err(NetworkError::UnknownEdge { edge: e })
                } else if !edges[e as int].touches(node as int) {
                    Err(NetworkError::NotIncident { node })
                } else {
                    let next = edges[e as int].other(node as int) as usize;
                    match pair_entry(edges, next, node, edges.len() as int) {
                        None => Err(NetworkError::NoEdgeBetween { a: next, b: node }),
                        Some((k, reversed)) => if (e as int) >= negative_flow.len() {
                            Err(NetworkError::UnknownEdge { edge: e })
                        } else if negative_flow[e as int] == reversed {
                            Ok(prev.push((e, next)))
                        } else {
                            Ok(prev)
                        },
                    }
                }
            },
        }
    }
}

impl<S, P, T> Network<S, P, T> {
    /// The edges that feed `node` and the neighbours across them, in adjacency order, given
    /// for every edge whether its flow runs against its stored orientation.
    pub fn upstream_neighbours(&self, node: usize, negative_flow: &Vec<bool>) -> (r: Result<
        Vec<(usize, usize)>,
        NetworkError,
    >)
        requires
            self.sized(),
        ensures
            !self.adjacent_edges@.contains_key(node) ==> r == Err::<Vec<(usize, usize)>, NetworkError>(
                NetworkError::UnknownNode { node },
            ),
            self.adjacent_edges@.contains_key(node) ==> {
                let target = upstream_from(
                    self.edges_view(),
                    node,
                    self.adjacent_edges@[node]@,
                    negative_flow@,
                );
                &&& r is Ok <==> target is Ok
                &&& r is Ok ==> target == Ok::<Seq<(usize, usize)>, NetworkError>(r->Ok_0@)
                &&& r is Err ==> target == Err::<Seq<(usize, usize)>, NetworkError>(r->Err_0)
            },
    {
        let list = match self.adjacent_edges.get(&node) {
            Some(list) => list,
            None => {
                return Err(NetworkError::UnknownNode { node });
            },
        };
        let ghost edges = self.edges_view();
        let mut calls: Vec<(usize, usize)> = Vec::new();
        assert(upstream_from(edges, node, list@.subrange(0, 0), negative_flow@) == Ok::<
            Seq<(usize, usize)>,
            NetworkError,
        >(calls@));
        let mut j: usize = 0;
        while j < list.len()
            invariant
                self.sized(),
                edges == self.edges_view(),
                self.adjacent_edges@.contains_key(node),
                list@ == self.adjacent_edges@[node]@,
                j <= list@.len(),
                upstream_from(edges, node, list@.subrange(0, j as int), negative_flow@) == Ok::<
                    Seq<(usize, usize)>,
                    NetworkError,
                >(calls@),
            decreases list@.len() - j,
        {
            let ghost sub = list@.subrange(0, j + 1);
            assert(sub.drop_last() =~= list@.subrange(0, j as int));
            assert(sub.last() == list@[j as int]);
            let edge_index = list[j];
            let edge = match self.get_edge(edge_index) {
                Ok(edge) => *edge,
                Err(err) => {
                    proof {
                        lemma_upstream_err(edges, node, list@, negative_flow@, j + 1);
                    }
                    return Err(err);
                },
            };
            let next = match edge.get_other_node(node) {
                Ok(next) => next,
                Err(err) => {
                    proof {
                        lemma_upstream_err(edges, node, list@, negative_flow@, j + 1);
                    }
                    return Err(err);
                },
            };
            let reverse = match self.edge_between(next, node) {
                Some((_, reverse)) => reverse,
                None => {
                    proof {
                        lemma_upstream_err(edges, node, list@, negative_flow@, j + 1);
                    }
                    return Err(NetworkError::NoEdgeBetween { a: next, b: node });
                },
            };
            if edge_index >= negative_flow.len() {
                proof {
                    lemma_upstream_err(edges, node, list@, negative_flow@, j + 1);
                }
                return Err(NetworkError::UnknownEdge { edge: edge_index });
            }
            if negative_flow[edge_index] == reverse {
                calls.push((edge_index, next));
            }
            j = j + 1;
        }
        assert(list@.subrange(0, list@.len() as int) =~= list@);
        Ok(calls)
    }
}

/// Once a prefix fails, every longer prefix fails the same way.
proof fn lemma_upstream_err(
    edges: Seq<Edge>,
    node: usize,
    list: Seq<usize>,
    negative_flow: Seq<bool>,
    k: int,
)
    requires
        0 <= k <= list.len(),
        upstream_from(edges, node, list.subrange(0, k), negative_flow) is Err,
    ensures
        upstream_from(edges, node, list, negative_flow) == upstream_from(
            edges,
            node,
            list.subrange(0, k),
            negative_flow,
        ),
    decreases list.len() - k,
{
    if k < list.len() {
        let longer = list.subrange(0, k + 1);
        assert(longer.drop_last() =~= list.subrange(0, k));
        lemma_upstream_err(edges, node, list, negative_flow, k + 1);
    } else {
        assert(list.subrange(0, k) =~= list);
    }
}

/// Counts one more visit of `node`, failing once it has been visited more than `limit`
/// times.
pub fn count_visit(visited_counter: &mut Vec<usize>, node: usize, limit: usize) -> (r: Result<
    (),
    NetworkError,
>)
    requires
        limit < usize::MAX,
    ensures
        node >= old(visited_counter)@.len() ==> r == Err::<(), NetworkError>(
            NetworkError::UnknownNode { node },
        ) && final(visited_counter)@ == old(visited_counter)@,
        node < old(visited_counter)@.len() && old(visited_counter)@[node as int] > limit ==> r == Err::<
            (),
            NetworkError,
        >(NetworkError::RevisitLimit { node, limit }) && final(visited_counter)@ == old(
            visited_counter,
        )@,
        node < old(visited_counter)@.len() && old(visited_counter)@[node as int] <= limit ==> r is Ok
            && final(visited_counter)@ == old(visited_counter)@.update(
            node as int,
            (old(visited_counter)@[node as int] + 1) as usize,
        ),
{
    if node >= visited_counter.len() {
        return Err(NetworkError::UnknownNode { node });
    }
    let count = visited_counter[node];
    if count > limit {
        return Err(NetworkError::RevisitLimit { node, limit });
    }
    visited_counter.set(node, count + 1);
    Ok(())
}

} // verus!
