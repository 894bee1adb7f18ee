//! The breadth-first walk that splits the edges into a spanning tree and cycle edges.

use std::collections::{HashMap, HashSet, VecDeque};
use crate::graph::{Edge, adjacency_of, check_edges_within, edges_within, explored, feed_edges_of, feed_nodes_of, get_adjacent_edges, incident_edges, is_walk, joined, lemma_bounded_set, lemma_incident_edges, lemma_reachable_step, lemma_start_reachable, lemma_walk_stays, reachable};
use crate::network::{NetworkError, Node};
use vstd::prelude::*;

verus! {

broadcast use vstd::std_specs::hash::group_hash_axioms;

/// The index of the first pressure node at or after `i`, or 0 when there is none.
pub open spec fn root_from<S, P>(nodes: Seq<Node<S, P>>, i: int) -> int
    decreases nodes.len() - i,
{
    if i < 0 || i >= nodes.len() {
        0
    } else if nodes[i] is Pressure {
        i
    } else {
        root_from(nodes, i + 1)
    }
}

/// The root of the walk: the first pressure node, or node 0 when there is none.
pub open spec fn root_index<S, P>(nodes: Seq<Node<S, P>>) -> int {
    root_from(nodes, 0)
}

/// Some edge of `tree` leads from `a` to `b`.
pub open spec fn tree_joined(edges: Seq<Edge>, tree: Set<usize>, a: usize, b: usize) -> bool {
    exists|e: usize|
        #[trigger] tree.contains(e) && (e as int) < edges.len() && edges[e as int].touches(a as int)
            && edges[e as int].other(a as int) == b as int
}

/// Following `pred` from `v` reaches `root` within `fuel` steps.
pub open spec fn reaches_root(pred: Map<usize, usize>, root: usize, v: usize, fuel: nat) -> bool
    decreases fuel,
{
    v == root || (fuel > 0 && pred.contains_key(v) && reaches_root(pred, root, pred[v], (fuel - 1) as nat))
}

proof fn lemma_reaches_root_more(pred: Map<usize, usize>, root: usize, v: usize, f: nat, g: nat)
    requires
        reaches_root(pred, root, v, f),
        f <= g,
    ensures
        reaches_root(pred, root, v, g),
    decreases f,
{
    if v != root {
        lemma_reaches_root_more(pred, root, pred[v], (f - 1) as nat, (g - 1) as nat);
    }
}

/// A chain through visited nodes is kept when an unvisited node gets a predecessor.
proof fn lemma_reaches_root_insert(
    pred: Map<usize, usize>,
    root: usize,
    v: usize,
    f: nat,
    visited: Set<usize>,
    x: usize,
    y: usize,
)
    requires
        reaches_root(pred, root, v, f),
        visited.contains(v),
        forall|u: usize| #[trigger] pred.contains_key(u) ==> visited.contains(u) && visited.contains(pred[u]),
        !visited.contains(x),
    ensures
        reaches_root(pred.insert(x, y), root, v, f),
    decreases f,
{
    if v != root {
        lemma_reaches_root_insert(pred, root, pred[v], (f - 1) as nat, visited, x, y);
    }
}

/// `depth` numbers the steps from each reachable node to the root: the root has depth 0,
/// every other reachable node one more than its predecessor, and every depth is below the
/// number of reachable nodes.
pub open spec fn pred_depths(
    pred: Map<usize, usize>,
    root: usize,
    feed: Set<usize>,
    depth: Map<usize, nat>,
) -> bool {
    &&& depth.dom() == feed
    &&& depth[root] == 0
    &&& forall|v: usize| #[trigger] pred.contains_key(v) ==> depth[v] == depth[pred[v]] + 1
    &&& forall|v: usize| #[trigger] feed.contains(v) ==> depth[v] < feed.len()
}

/// `tree` and `cycles` split the edges reachable from `root`; `tree` has one edge per
/// reachable node besides the root, and `pred` maps each such node to the node it was
/// reached from, along a tree edge. Following `pred` from any reachable node leads to the
/// root in fewer steps than there are reachable nodes, with depths that drop by one per
/// step, and every tree edge is the edge of some node to its predecessor.
pub open spec fn spanning_tree_of(
    edges: Seq<Edge>,
    root: usize,
    tree: Set<usize>,
    cycles: Set<usize>,
    pred: Map<usize, usize>,
) -> bool {
    let feed = feed_nodes_of(edges, root);
    &&& tree.disjoint(cycles)
    &&& tree + cycles == feed_edges_of(edges, root)
    &&& feed.finite()
    &&& tree.finite()
    &&& tree.len() + 1 == feed.len()
    &&& pred.dom() == feed.remove(root)
    &&& forall|v: usize|
        #[trigger] pred.dom().contains(v) ==> feed.contains(pred[v]) && tree_joined(
            edges,
            tree,
            pred[v],
            v,
        )
    &&& forall|v: usize| #[trigger] feed.contains(v) ==> reaches_root(pred, root, v, (feed.len() - 1) as nat)
    &&& exists|depth: Map<usize, nat>| #[trigger] pred_depths(pred, root, feed, depth)
    &&& forall|e: usize|
        #[trigger] tree.contains(e) ==> exists|v: usize|
            #[trigger] pred.dom().contains(v) && (e as int) < edges.len() && edges[e as int].touches(
                pred[v] as int,
            ) && edges[e as int].other(pred[v] as int) == v as int
}

/// The state of the breadth-first walk: work queue of (node, edge) pairs, visited nodes,
/// tree edges, cycle edges and predecessors.
pub type WalkState = (Seq<(usize, usize)>, Set<usize>, Set<usize>, Set<usize>, Map<usize, usize>);

/// The pairs `(node, e)` for the edges `e` of `list` not in `tree`, in list order.
pub open spec fn enqueue_spec(list: Seq<usize>, tree: Set<usize>, node: usize) -> Seq<(usize, usize)>
    decreases list.len(),
{
    if list.len() == 0 {
        Seq::empty()
    } else {
        let rest = enqueue_spec(list.drop_last(), tree, node);
        if tree.contains(list.last()) {
            rest
        } else {
            rest.push((node, list.last()))
        }
    }
}

/// One step of the walk: take the first pair `(u, e)`; if the far end of `e` is visited,
/// `e` is a cycle edge; else `e` joins the tree, the far end is visited with predecessor
/// `u`, and its edges not in the tree are queued.
pub open spec fn walk_step(edges: Seq<Edge>, st: WalkState) -> WalkState {
    let (queue, visited, tree, cycles, pred) = st;
    let (u, e) = queue[0];
    let rest = queue.subrange(1, queue.len() as int);
    let next = edges[e as int].other(u as int) as usize;
    if visited.contains(next) {
        (rest, visited, tree, cycles.insert(e), pred)
    } else {
        let grown = tree.insert(e);
        (
            rest + enqueue_spec(incident_edges(edges, next as int, edges.len() as int), grown, next),
            visited.insert(next),
            grown,
            cycles,
            pred.insert(next, u),
        )
    }
}

/// Up to `fuel` steps of the walk, stopping when the queue is empty.
pub open spec fn walk_run(edges: Seq<Edge>, st: WalkState, fuel: nat) -> WalkState
    decreases fuel,
{
    if fuel == 0 || st.0.len() == 0 {
        st
    } else {
        walk_run(edges, walk_step(edges, st), (fuel - 1) as nat)
    }
}

/// The walk from `root` over `n` nodes, run until its queue is empty.
pub open spec fn walk_from(edges: Seq<Edge>, root: usize, n: nat) -> WalkState {
    let start: WalkState = (
        enqueue_spec(incident_edges(edges, root as int, edges.len() as int), Set::empty(), root),
        Set::empty().insert(root),
        Set::empty(),
        Set::empty(),
        Map::empty(),
    );
    walk_run(edges, start, (n + 1) * (edges.len() + 1))
}

pub(crate) proof fn lemma_enqueue_len(list: Seq<usize>, tree: Set<usize>, node: usize)
    ensures
        enqueue_spec(list, tree, node).len() <= list.len(),
    decreases list.len(),
{
    if list.len() > 0 {
        lemma_enqueue_len(list.drop_last(), tree, node);
    }
}

/// The first pressure node, or 0.
pub(crate) fn find_root<S, P>(nodes: &[Node<S, P>]) -> (r: usize)
    ensures
        r == root_index(nodes@),
        nodes@.len() > 0 ==> r < nodes@.len(),
{
    let mut i: usize = 0;
    while i < nodes.len()
        invariant
            i <= nodes@.len(),
            root_from(nodes@, 0) == root_from(nodes@, i as int),
            forall|j: int| 0 <= j < i ==> !(nodes@[j] is Pressure),
        decreases nodes@.len() - i,
    {
        if nodes[i].is_pressure() {
            return i;
        }
        i = i + 1;
    }
    0
}

/// Appends `(node_idx, e)` for each edge `e` of `walkable_edges` that is not yet in the tree.
pub(crate) fn enqueue_work_items(
    work: &mut VecDeque<(usize, usize)>,
    spanning_tree: &HashSet<usize>,
    walkable_edges: &Vec<usize>,
    node_idx: usize,
)
    requires
        walkable_edges@.no_duplicates(),
    ensures
        final(work)@.len() >= old(work)@.len(),
        forall|k: int| 0 <= k < old(work)@.len() ==> final(work)@[k] == old(work)@[k],
        forall|k: int|
            old(work)@.len() <= k < final(work)@.len() ==> (#[trigger] final(work)@[k]).0 == node_idx
                && walkable_edges@.contains(final(work)@[k].1) && !spanning_tree@.contains(
                final(work)@[k].1,
            ),
        forall|k1: int, k2: int|
            old(work)@.len() <= k1 < k2 < final(work)@.len() ==> (#[trigger] final(work)@[k1]).1
                != (#[trigger] final(work)@[k2]).1,
        forall|x: usize|
            walkable_edges@.contains(x) && !spanning_tree@.contains(x) ==> final(work)@.contains(
                (node_idx, x),
            ),
        final(work)@ == old(work)@ + enqueue_spec(walkable_edges@, spanning_tree@, node_idx),
{
    let ghost start = work@;
    let mut j: usize = 0;
    assert(start + enqueue_spec(walkable_edges@.subrange(0, 0), spanning_tree@, node_idx) =~= start);
    while j < walkable_edges.len()
        invariant
            j <= walkable_edges@.len(),
            walkable_edges@.no_duplicates(),
            work@.len() >= start.len(),
            forall|k: int| 0 <= k < start.len() ==> work@[k] == start[k],
            forall|k: int|
                start.len() <= k < work@.len() ==> (#[trigger] work@[k]).0 == node_idx
                    && walkable_edges@.subrange(0, j as int).contains(work@[k].1)
                    && !spanning_tree@.contains(work@[k].1),
            forall|k1: int, k2: int|
                start.len() <= k1 < k2 < work@.len() ==> (#[trigger] work@[k1]).1 != (
                #[trigger] work@[k2]).1,
            forall|i: int|
                0 <= i < j && !spanning_tree@.contains(#[trigger] walkable_edges@[i])
                    ==> work@.contains((node_idx, walkable_edges@[i])),
            work@ == start + enqueue_spec(walkable_edges@.subrange(0, j as int), spanning_tree@, node_idx),
        decreases walkable_edges@.len() - j,
    {
        let edge_index = walkable_edges[j];
        let ghost before = work@;
        proof {
            assert forall|k: int| start.len() <= k < before.len() implies before[k].1 != edge_index by {
                let i = choose|i: int| 0 <= i < j && walkable_edges@.subrange(0, j as int)[i] == before[k].1;
                assert(walkable_edges@[i] == before[k].1);
            }
        }
        if !spanning_tree.contains(&edge_index) {
            work.push_back((node_idx, edge_index));
            proof {
                assert(work@[before.len() as int] == (node_idx, edge_index));
                assert forall|i: int|
                    0 <= i < j && !spanning_tree@.contains(#[trigger] walkable_edges@[i])
                        implies work@.contains((node_idx, walkable_edges@[i])) by {
                    let k = choose|k: int| 0 <= k < before.len() && before[k] == (node_idx, walkable_edges@[i]);
                    assert(work@[k] == before[k]);
                }
            }
        }
        proof {
            let sub = walkable_edges@.subrange(0, j + 1);
            assert(sub.drop_last() =~= walkable_edges@.subrange(0, j as int));
            assert(sub.last() == edge_index);
            if !spanning_tree@.contains(edge_index) {
                assert(work@ =~= start + enqueue_spec(sub, spanning_tree@, node_idx));
            } else {
                assert(work@ =~= start + enqueue_spec(sub, spanning_tree@, node_idx));
            }
            assert forall|k: int| start.len() <= k < work@.len() implies walkable_edges@.subrange(
                0,
                j + 1,
            ).contains(#[trigger] work@[k].1) by {
                if k < before.len() {
                    let i = choose|i: int| 0 <= i < j && walkable_edges@.subrange(0, j as int)[i] == before[k].1;
                    assert(walkable_edges@.subrange(0, j + 1)[i] == before[k].1);
                } else {
                    assert(walkable_edges@.subrange(0, j + 1)[j as int] == edge_index);
                }
            }
        }
        j = j + 1;
    }
    proof {
        assert(walkable_edges@.subrange(0, j as int) =~= walkable_edges@);
        assert forall|x: usize|
            walkable_edges@.contains(x) && !spanning_tree@.contains(x) implies work@.contains(
            (node_idx, x),
        ) by {
            let i = choose|i: int| 0 <= i < walkable_edges@.len() && walkable_edges@[i] == x;
            assert(!spanning_tree@.contains(walkable_edges@[i]));
        }
    }
}

/// Breadth-first walk from the root (the first pressure node, or node 0). An edge that
/// first reaches a node joins the spanning tree; an edge whose far end was already
/// visited is a cycle edge. Edges are taken in each node's adjacency order and the work
/// queue is first in, first out. Returns the root, the tree and cycle edge indices, and
/// the predecessor of every reached node besides the root.
pub fn find_spanning_tree<S, P>(nodes: &[Node<S, P>], edges: &[Edge]) -> (r: Result<
    (usize, HashSet<usize>, HashSet<usize>, HashMap<usize, usize>),
    NetworkError,
>)
    ensures
        nodes@.len() == 0 ==> r is Err && r->Err_0 == (NetworkError::UnknownNode { node: 0 }),
        nodes@.len() > 0 && !edges_within(edges@, nodes@.len() as int) ==> r matches Err(
            NetworkError::DanglingEdge { .. },
        ),
        nodes@.len() > 0 && edges_within(edges@, nodes@.len() as int) ==> (r matches Ok(
            (root, tree, cycles, pred),
        ) && root as int == root_index(nodes@) && (root as int) < nodes@.len() && spanning_tree_of(
            edges@,
            root,
            tree@,
            cycles@,
            pred@,
        ) && tree@ == walk_from(edges@, root, nodes@.len()).2 && cycles@ == walk_from(
            edges@,
            root,
            nodes@.len(),
        ).3 && pred@ == walk_from(edges@, root, nodes@.len()).4),
{
    let num_nodes = nodes.len();
    if num_nodes == 0 {
        return Err(NetworkError::UnknownNode { node: 0 });
    }
    check_edges_within(edges, num_nodes)?;
    let num_edges = edges.len();
    let adjacent_edges = get_adjacent_edges(num_nodes, edges);

    let mut spanning_tree: HashSet<usize> = HashSet::new();
    let mut cycle_edges: HashSet<usize> = HashSet::new();
    let mut pred_nodes: HashMap<usize, usize> = HashMap::new();
    let ghost mut pred_edges: Map<usize, usize> = Map::empty();
    let ghost mut depth: Map<usize, nat> = Map::empty();
    let ghost mut owner: Map<usize, usize> = Map::empty();

    let start_node = find_root(nodes);
    let mut work: VecDeque<(usize, usize)> = VecDeque::new();
    proof {
        lemma_incident_edges(edges@, start_node as int, num_edges as int);
        lemma_start_reachable(edges@, start_node);
    }
    enqueue_work_items(&mut work, &spanning_tree, adjacent_edges.get(&start_node).unwrap(), start_node);
    let mut visited_nodes: HashSet<usize> = HashSet::new();
    visited_nodes.insert(start_node);
    let ghost fuel: nat = ((nodes@.len() + 1) * (edges@.len() + 1)) as nat;
    let ghost init: WalkState = (work@, visited_nodes@, spanning_tree@, cycle_edges@, pred_nodes@);
    let ghost mut iters: nat = 0;
    proof {
        depth = depth.insert(start_node, 0);
        assert(depth.dom() =~= visited_nodes@);
        assert(work@.no_duplicates());
        assert(pred_nodes@.dom() =~= visited_nodes@.remove(start_node));
        assert(visited_nodes@.len() == 1);
        assert(work@ =~= enqueue_spec(
            incident_edges(edges@, start_node as int, num_edges as int),
            Set::empty(),
            start_node,
        ));
        assert(spanning_tree@ =~= Set::empty());
        assert(cycle_edges@ =~= Set::empty());
        assert(pred_nodes@ =~= Map::empty());
        assert(visited_nodes@ =~= Set::empty().insert(start_node));
        lemma_enqueue_len(incident_edges(edges@, start_node as int, num_edges as int), Set::empty(), start_node);
        assert(init.0.len() <= 1 * num_edges);
    }

    while work.len() > 0
        invariant
            num_nodes == nodes@.len(),
            num_edges == edges@.len(),
            start_node < num_nodes,
            start_node as int == root_index(nodes@),
            edges_within(edges@, num_nodes as int),
            adjacency_of(adjacent_edges@, edges@, num_nodes as int),
            visited_nodes@.contains(start_node),
            forall|u: usize|
                #[trigger] visited_nodes@.contains(u) ==> u < num_nodes && reachable(
                    edges@,
                    start_node,
                    u,
                ),
            forall|e: usize|
                #[trigger] spanning_tree@.contains(e) ==> e < num_edges && visited_nodes@.contains(
                    edges@[e as int].src,
                ) && visited_nodes@.contains(edges@[e as int].tgt),
            forall|e: usize|
                #[trigger] cycle_edges@.contains(e) ==> e < num_edges && visited_nodes@.contains(
                    edges@[e as int].src,
                ) && visited_nodes@.contains(edges@[e as int].tgt),
            spanning_tree@.disjoint(cycle_edges@),
            visited_nodes@.finite(),
            spanning_tree@.finite(),
            spanning_tree@.len() + 1 == visited_nodes@.len(),
            forall|k: int|
                0 <= k < work@.len() ==> visited_nodes@.contains((#[trigger] work@[k]).0)
                    && work@[k].1 < num_edges && edges@[work@[k].1 as int].touches(work@[k].0 as int)
                    && !spanning_tree@.contains(work@[k].1),
            work@.no_duplicates(),
            forall|u: usize, e: int|
                visited_nodes@.contains(u) && 0 <= e < num_edges && #[trigger] edges@[e].touches(
                    u as int,
                ) ==> spanning_tree@.contains(e as usize) || cycle_edges@.contains(e as usize)
                    || work@.contains((u, e as usize)),
            pred_nodes@.dom() == visited_nodes@.remove(start_node),
            pred_edges.dom() == pred_nodes@.dom(),
            depth.dom() == visited_nodes@,
            forall|u: usize| #[trigger] visited_nodes@.contains(u) ==> depth[u] < visited_nodes@.len()
                && reaches_root(pred_nodes@, start_node, u, depth[u]),
            forall|u: usize| #[trigger] pred_nodes@.contains_key(u) ==> visited_nodes@.contains(u),
            depth[start_node] == 0,
            forall|u: usize| #[trigger] pred_nodes@.contains_key(u) ==> depth[u] == depth[pred_nodes@[u]] + 1,
            owner.dom() == spanning_tree@,
            forall|e: usize| #[trigger] spanning_tree@.contains(e) ==> pred_nodes@.dom().contains(owner[e])
                && pred_edges[owner[e]] == e,
            forall|v: usize|
                #[trigger] pred_nodes@.dom().contains(v) ==> visited_nodes@.contains(pred_nodes@[v])
                    && spanning_tree@.contains(pred_edges[v]) && pred_edges[v] < num_edges
                    && edges@[pred_edges[v] as int].touches(pred_nodes@[v] as int)
                    && edges@[pred_edges[v] as int].other(pred_nodes@[v] as int) == v as int,
            fuel == ((nodes@.len() + 1) * (edges@.len() + 1)) as nat,
            iters + work@.len() <= visited_nodes@.len() * num_edges,
            walk_run(edges@, init, fuel) == walk_run(
                edges@,
                (work@, visited_nodes@, spanning_tree@, cycle_edges@, pred_nodes@),
                (fuel - iters) as nat,
            ),
        decreases num_nodes - visited_nodes@.len(), work@.len(),
    {
        proof {
            lemma_bounded_set(visited_nodes@, num_nodes);
            let vl = visited_nodes@.len();
            assert(vl * num_edges <= num_nodes * num_edges) by (nonlinear_arith)
                requires vl <= num_nodes;
            assert(num_nodes * num_edges < (num_nodes + 1) * (num_edges + 1)) by (nonlinear_arith);
        }
        let ghost st: WalkState = (work@, visited_nodes@, spanning_tree@, cycle_edges@, pred_nodes@);
        let ghost queue = work@;
        let (current_node_idx, edge_idx) = work.pop_front().unwrap();
        assert(queue[0] == (current_node_idx, edge_idx));
        let edge = &edges[edge_idx];
        let next_node_idx = edge.get_other_node(current_node_idx).unwrap();
        assert(joined(edges@, current_node_idx, next_node_idx));
        proof {
            assert forall|x: (usize, usize)| queue.contains(x) && x != queue[0] implies work@.contains(x) by {
                let k = choose|k: int| 0 <= k < queue.len() && queue[k] == x;
                assert(work@[k - 1] == x);
            }
            assert forall|k: int| 0 <= k < work@.len() implies work@[k] == queue[k + 1] && work@[k] != queue[0] by {
            }
        }
        if visited_nodes.contains(&next_node_idx) {
            cycle_edges.insert(edge_idx);
            proof {
                assert(spanning_tree@.disjoint(cycle_edges@));
                assert(walk_step(edges@, st) == (work@, visited_nodes@, spanning_tree@, cycle_edges@, pred_nodes@));
            }
        } else {
            let ghost old_tree = spanning_tree@;
            let ghost old_visited = visited_nodes@;
            let ghost popped = work@;
            spanning_tree.insert(edge_idx);
            visited_nodes.insert(next_node_idx);
            pred_nodes.insert(next_node_idx, current_node_idx);
            proof {
                let old_pred = pred_nodes@.remove(next_node_idx);
                assert(old_pred =~= st.4);
                assert forall|u: usize| #[trigger] visited_nodes@.contains(u) implies depth.insert(
                    next_node_idx,
                    depth[current_node_idx] + 1,
                )[u] < visited_nodes@.len() && reaches_root(
                    pred_nodes@,
                    start_node,
                    u,
                    depth.insert(next_node_idx, depth[current_node_idx] + 1)[u],
                ) by {
                    if u == next_node_idx {
                        lemma_reaches_root_insert(
                            st.4,
                            start_node,
                            current_node_idx,
                            depth[current_node_idx],
                            old_visited,
                            next_node_idx,
                            current_node_idx,
                        );
                        assert(pred_nodes@ == st.4.insert(next_node_idx, current_node_idx));
                    } else {
                        lemma_reaches_root_insert(
                            st.4,
                            start_node,
                            u,
                            depth[u],
                            old_visited,
                            next_node_idx,
                            current_node_idx,
                        );
                    }
                }
                depth = depth.insert(next_node_idx, depth[current_node_idx] + 1);
                owner = owner.insert(edge_idx, next_node_idx);
                assert(depth.dom() =~= visited_nodes@);
                assert(owner.dom() =~= spanning_tree@);
                pred_edges = pred_edges.insert(next_node_idx, edge_idx);
                lemma_reachable_step(edges@, start_node, current_node_idx, next_node_idx);
                lemma_incident_edges(edges@, next_node_idx as int, num_edges as int);
                assert(!old_tree.contains(edge_idx));
                assert forall|k: int| 0 <= k < popped.len() implies !spanning_tree@.contains(
                    (#[trigger] popped[k]).1,
                ) by {
                    if popped[k].1 == edge_idx {
                        assert(popped[k] == queue[k + 1]);
                    }
                }
                assert(pred_nodes@.dom() =~= visited_nodes@.remove(start_node));
                lemma_bounded_set(visited_nodes@, num_nodes);
                assert(visited_nodes@.len() == old_visited.len() + 1);
            }
            enqueue_work_items(
                &mut work,
                &spanning_tree,
                adjacent_edges.get(&next_node_idx).unwrap(),
                next_node_idx,
            );
            proof {
                assert forall|k1: int, k2: int| 0 <= k1 < k2 < work@.len() implies work@[k1] != work@[k2] by {
                    if k2 < popped.len() {
                        assert(work@[k1] == popped[k1] && work@[k2] == popped[k2]);
                    } else if k1 < popped.len() {
                        assert(work@[k1] == popped[k1]);
                        assert(old_visited.contains(popped[k1].0));
                    }
                }
                assert(work@.no_duplicates());
                assert forall|x: (usize, usize)| popped.contains(x) implies work@.contains(x) by {
                    let k = choose|k: int| 0 <= k < popped.len() && popped[k] == x;
                    assert(work@[k] == x);
                }
                assert(walk_step(edges@, st) == (work@, visited_nodes@, spanning_tree@, cycle_edges@, pred_nodes@));
                let added = enqueue_spec(
                    incident_edges(edges@, next_node_idx as int, num_edges as int),
                    spanning_tree@,
                    next_node_idx,
                );
                lemma_enqueue_len(incident_edges(edges@, next_node_idx as int, num_edges as int), spanning_tree@, next_node_idx);
                assert(work@.len() == popped.len() + added.len());
                let vl = old_visited.len();
                assert((vl + 1) * num_edges == vl * num_edges + num_edges) by (nonlinear_arith);
            }
        }
        proof {
            iters = iters + 1;
        }
    }

    proof {
        assert(walk_run(
            edges@,
            (work@, visited_nodes@, spanning_tree@, cycle_edges@, pred_nodes@),
            (fuel - iters) as nat,
        ) == (work@, visited_nodes@, spanning_tree@, cycle_edges@, pred_nodes@));
        let v = visited_nodes@;
        let t = spanning_tree@;
        let c = cycle_edges@;
        let f = t + c;
        assert forall|u: usize| v.contains(u) implies explored(edges@, u, v, f) by {
            assert forall|e: int| 0 <= e < edges@.len() && #[trigger] edges@[e].touches(u as int) implies f.contains(
                e as usize,
            ) && v.contains(edges@[e].other(u as int) as usize) by {
                assert(!work@.contains((u, e as usize)));
            }
        }
        assert forall|x: usize| v.contains(x) <==> reachable(edges@, start_node, x) by {
            if reachable(edges@, start_node, x) {
                let p = choose|p: Seq<usize>| is_walk(edges@, p) && p[0] == start_node && p.last() == x;
                lemma_walk_stays(edges@, p, v, f);
            }
        }
        assert(v =~= feed_nodes_of(edges@, start_node));
        assert forall|e: usize| f.contains(e) <==> feed_edges_of(edges@, start_node).contains(e) by {
            if feed_edges_of(edges@, start_node).contains(e) {
                let ed = edges@[e as int];
                assert(v.contains(ed.src));
                assert(ed.touches(ed.src as int));
                assert(explored(edges@, ed.src, v, f));
            }
        }
        assert(f =~= feed_edges_of(edges@, start_node));
        assert forall|x: usize| #[trigger] pred_nodes@.dom().contains(x) implies tree_joined(
            edges@,
            t,
            pred_nodes@[x],
            x,
        ) by {
            assert(t.contains(pred_edges[x]));
        }
        assert forall|x: usize| #[trigger] v.contains(x) implies reaches_root(
            pred_nodes@,
            start_node,
            x,
            (v.len() - 1) as nat,
        ) by {
            lemma_reaches_root_more(pred_nodes@, start_node, x, depth[x], (v.len() - 1) as nat);
        }
        assert(pred_depths(pred_nodes@, start_node, v, depth));
        assert forall|e: usize| #[trigger] t.contains(e) implies exists|x: usize|
            #[trigger] pred_nodes@.dom().contains(x) && (e as int) < edges@.len() && edges@[e as int].touches(
                pred_nodes@[x] as int,
            ) && edges@[e as int].other(pred_nodes@[x] as int) == x as int by {
            let x = owner[e];
            assert(pred_nodes@.dom().contains(x));
        }
    }
    Ok((start_node, spanning_tree, cycle_edges, pred_nodes))
}

/// With exactly one pressure node, at `r`, the root is `r`.
pub(crate) proof fn lemma_root_unique<S, P>(nodes: Seq<Node<S, P>>, r: int, i: int)
    requires
        0 <= i <= r < nodes.len(),
        nodes[r] is Pressure,
        forall|j: int| 0 <= j < nodes.len() && j != r ==> !(#[trigger] nodes[j] is Pressure),
    ensures
        root_from(nodes, i) == r,
    decreases r - i,
{
    if i < r {
        lemma_root_unique(nodes, r, i + 1);
    }
}

} // verus!
