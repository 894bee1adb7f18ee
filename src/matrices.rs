use crate::graph::{Edge, edges_within, feed_edges_of, feed_nodes_of, joined, lemma_bounded_set, lemma_feed_finite, lemma_reachable_step, lemma_start_reachable, reachable};
use crate::network::{
    Network, Node, lemma_partition_index_bound, pair_entry, partitioned_edges, partitioned_nodes,
    resolved_from,
};
use crate::select::{lemma_rank_onto, lemma_select_index, lemma_select_len, select};
use crate::spanning::{pred_depths, spanning_tree_of, tree_joined, walk_from};
use vstd::prelude::*;

verus! {

broadcast use vstd::std_specs::hash::group_hash_axioms;

/// A dense matrix as a vector of rows.
pub type Matrix = Vec<Vec<i8>>;

/// Failures while assembling the cycle matrix.
#[derive(Debug, Clone, PartialEq, Eq)]
pub enum MatrixError {
    /// The element lies outside the matrix.
    IndexOutOfBounds { i: usize, j: usize },
    /// The node has no predecessor on the way to the root.
    MissingPredecessor(usize),
    /// No edge joins the two nodes.
    MissingEdge(usize, usize),
    /// The walk from the node did not reach the root within one step per node.
    UnterminatedWalk(usize),
    /// Adding a step's value to the element would leave the range of `i8`.
    EntryOverflow { i: usize, j: usize },
}

/// The signed incidence of `node` on `e`: -1 at the source, +1 at the target.
pub open spec fn incidence(e: Edge, node: int) -> int {
    if e.src == node {
        -1
    } else if e.tgt == node {
        1
    } else {
        0
    }
}

/// `m` has `rows` rows of `cols` entries each.
pub open spec fn has_shape(m: Seq<Vec<i8>>, rows: int, cols: int) -> bool {
    &&& m.len() == rows
    &&& forall|i: int| 0 <= i < rows ==> (#[trigger] m[i])@.len() == cols
}

/// Row `r` holds the incidence of each edge on the nodes `offset .. offset + cols`.
pub open spec fn incidence_rows(m: Seq<Vec<i8>>, edges: Seq<Edge>, offset: int, cols: int) -> bool {
    &&& has_shape(m, edges.len() as int, cols)
    &&& forall|r: int, c: int|
        0 <= r < edges.len() && 0 <= c < cols ==> (#[trigger] m[r]@[c]) as int == incidence(
            edges[r],
            offset + c,
        )
}

/// The entry that a walk step writes: -1 where the stored orientation differs from the
/// direction of the walk (`reversed != invert`), +1 otherwise.
pub open spec fn step_value(reversed: bool, invert: bool) -> i8 {
    if reversed != invert {
        -1i8
    } else {
        1i8
    }
}


/// Row `i` after walking from `c` to the root along `pred`, adding at each step from `c`
/// to `p = pred[c]` the step value at the column of the last edge of `tree` (the spanning
/// tree edges, numbered first) joining `p` and `c`.
/// The errors name what stopped the walk that began at `start`: no root within `fuel`
/// steps, a missing predecessor, a missing edge, a column outside the row, or a sum
/// outside `i8`.
pub open spec fn walk_row(
    pred: Map<usize, usize>,
    root: usize,
    tree: Seq<Edge>,
    row: Seq<i8>,
    c: usize,
    invert: bool,
    fuel: nat,
    i: usize,
    start: usize,
) -> Result<Seq<i8>, MatrixError>
    decreases fuel,
{
    if c == root {
        Ok(row)
    } else if fuel == 0 {
        Err(MatrixError::UnterminatedWalk(start))
    } else if !pred.contains_key(c) {
        Err(MatrixError::MissingPredecessor(c))
    } else {
        let p = pred[c];
        match pair_entry(tree, p, c, tree.len() as int) {
            None => Err(MatrixError::MissingEdge(p, c)),
            Some((j, reversed)) => if (j as int) >= row.len() {
                Err(MatrixError::IndexOutOfBounds { i, j })
            } else {
                let sum = row[j as int] as int + step_value(reversed, invert) as int;
                if sum < i8::MIN || sum > i8::MAX {
                    Err(MatrixError::EntryOverflow { i, j })
                } else {
                    walk_row(
                        pred,
                        root,
                        tree,
                        row.update(j as int, sum as i8),
                        p,
                        invert,
                        (fuel - 1) as nat,
                        i,
                        start,
                    )
                }
            },
        }
    }
}

/// Row `i` of the cycle matrix: +1 at the cycle edge's own column, then the walk from its
/// source to the root, then the walk from its target with the signs inverted. Edges that
/// both walks pass cancel.
pub open spec fn cycle_row<S, P, T>(net: Network<S, P, T>, i: int) -> Result<Seq<i8>, MatrixError> {
    let n = net.nodes_view().len();
    let tree = net.spanning_tree_edges@;
    let pred = net.pred_nodes@;
    let root = net.root_node_index;
    let j = net.spanning_tree_edges@.len() + i;
    let e = net.cycle_edges@[i];
    if j >= n {
        Err(MatrixError::IndexOutOfBounds { i: i as usize, j: j as usize })
    } else {
        let start = Seq::new(n, |k: int| 0i8).update(j, 1i8);
        match walk_row(pred, root, tree, start, e.src, false, n, i as usize, e.src) {
            Err(err) => Err(err),
            Ok(row) => walk_row(pred, root, tree, row, e.tgt, true, n, i as usize, e.tgt),
        }
    }
}

/// The first `k` rows of the cycle matrix, or the error of the first row that fails.
pub open spec fn cycle_matrix<S, P, T>(net: Network<S, P, T>, k: int) -> Result<
    Seq<Seq<i8>>,
    MatrixError,
>
    decreases k,
{
    if k <= 0 {
        Ok(Seq::empty())
    } else {
        match cycle_matrix(net, k - 1) {
            Err(err) => Err(err),
            Ok(rows) => match cycle_row(net, k - 1) {
                Err(err) => Err(err),
                Ok(row) => Ok(rows.push(row)),
            },
        }
    }
}

proof fn lemma_cycle_matrix_err<S, P, T>(net: Network<S, P, T>, k: int, l: int)
    requires
        0 <= k <= l,
        cycle_matrix(net, k) is Err,
    ensures
        cycle_matrix(net, l) == cycle_matrix(net, k),
    decreases l - k,
{
    if k < l {
        lemma_cycle_matrix_err(net, k, l - 1);
    }
}

/// A row of `n` zeros.
fn zero_row(n: usize) -> (r: Vec<i8>)
    ensures
        r@ == Seq::new(n as nat, |k: int| 0i8),
{
    let mut r: Vec<i8> = Vec::new();
    let mut k: usize = 0;
    while k < n
        invariant
            k <= n,
            r@ == Seq::new(k as nat, |x: int| 0i8),
        decreases n - k,
    {
        r.push(0);
        k = k + 1;
        assert(r@ =~= Seq::new(k as nat, |x: int| 0i8));
    }
    r
}

/// Signed incidence of each edge on the nodes `offset .. offset + cols`.
fn incidence_block<S, P, T>(network: &Network<S, P, T>, offset: usize, cols: usize) -> (r: Matrix)
    requires
        network.sized(),
        offset + cols <= usize::MAX,
    ensures
        incidence_rows(r@, network.edges_view(), offset as int, cols as int),
{
    let edges = network.edges();
    let mut m: Matrix = Vec::new();
    let mut r: usize = 0;
    while r < edges.len()
        invariant
            edges@ == network.edges_view(),
            offset + cols <= usize::MAX,
            r <= edges@.len(),
            has_shape(m@, r as int, cols as int),
            forall|a: int, c: int|
                0 <= a < r && 0 <= c < cols ==> (#[trigger] m@[a]@[c]) as int == incidence(
                    edges@[a],
                    offset + c,
                ),
        decreases edges@.len() - r,
    {
        let edge = edges[r];
        let mut row: Vec<i8> = Vec::new();
        let mut c: usize = 0;
        while c < cols
            invariant
                offset + cols <= usize::MAX,
                c <= cols,
                row@.len() == c,
                forall|k: int| 0 <= k < c ==> (#[trigger] row@[k]) as int == incidence(edge, offset + k),
            decreases cols - c,
        {
            let node = offset + c;
            let value: i8 = if edge.src == node {
                -1
            } else if edge.tgt == node {
                1
            } else {
                0
            };
            row.push(value);
            c = c + 1;
        }
        m.push(row);
        r = r + 1;
    }
    m
}

/// Incidence of every edge (rows) on the demand nodes (columns).
pub fn ar<S, P, T>(network: &Network<S, P, T>) -> (r: Matrix)
    requires
        network.sized(),
    ensures
        incidence_rows(r@, network.edges_view(), 0, network.demand_nodes@.len() as int),
{
    incidence_block(network, 0, network.demand_nodes.len())
}

/// Incidence of every edge (rows) on the pressure nodes (columns).
pub fn arp<S, P, T>(network: &Network<S, P, T>) -> (r: Matrix)
    requires
        network.sized(),
    ensures
        incidence_rows(
            r@,
            network.edges_view(),
            network.demand_nodes@.len() as int,
            network.pressure_nodes@.len() as int,
        ),
{
    incidence_block(network, network.demand_nodes.len(), network.pressure_nodes.len())
}

/// The full incidence matrix: `ar` and `arp` side by side.
pub fn ai<S, P, T>(network: &Network<S, P, T>) -> (r: Matrix)
    requires
        network.sized(),
    ensures
        incidence_rows(r@, network.edges_view(), 0, network.nodes_view().len() as int),
{
    let left = ar(network);
    let right = arp(network);
    let num_demand = network.demand_nodes.len();
    let ghost cols = network.nodes_view().len() as int;
    let mut m: Matrix = Vec::new();
    let mut r: usize = 0;
    while r < left.len()
        invariant
            incidence_rows(left@, network.edges_view(), 0, num_demand as int),
            incidence_rows(
                right@,
                network.edges_view(),
                num_demand as int,
                network.pressure_nodes@.len() as int,
            ),
            num_demand == network.demand_nodes@.len(),
            cols == num_demand + network.pressure_nodes@.len(),
            r <= left@.len(),
            has_shape(m@, r as int, cols),
            forall|a: int, c: int|
                0 <= a < r && 0 <= c < cols ==> (#[trigger] m@[a]@[c]) as int == incidence(
                    network.edges_view()[a],
                    c,
                ),
        decreases left@.len() - r,
    {
        let mut row: Vec<i8> = Vec::new();
        let mut c: usize = 0;
        while c < left[r].len()
            invariant
                r < left@.len(),
                r < right@.len(),
                incidence_rows(left@, network.edges_view(), 0, num_demand as int),
                c <= left@[r as int]@.len(),
                row@ == left@[r as int]@.subrange(0, c as int),
            decreases left@[r as int]@.len() - c,
        {
            row.push(left[r][c]);
            c = c + 1;
            assert(row@ =~= left@[r as int]@.subrange(0, c as int));
        }
        let mut c: usize = 0;
        while c < right[r].len()
            invariant
                r < left@.len(),
                r < right@.len(),
                c <= right@[r as int]@.len(),
                row@ == left@[r as int]@ + right@[r as int]@.subrange(0, c as int),
            decreases right@[r as int]@.len() - c,
        {
            row.push(right[r][c]);
            c = c + 1;
            assert(row@ =~= left@[r as int]@ + right@[r as int]@.subrange(0, c as int));
        }
        proof {
            assert(left@[r as int]@.subrange(0, left@[r as int]@.len() as int) =~= left@[r as int]@);
            assert(right@[r as int]@.subrange(0, right@[r as int]@.len() as int) =~= right@[r as int]@);
            assert forall|c: int| 0 <= c < cols implies (#[trigger] row@[c]) as int == incidence(
                network.edges_view()[r as int],
                c,
            ) by {
                if c < num_demand {
                    assert(left@[r as int]@[c] as int == incidence(network.edges_view()[r as int], c));
                } else {
                    let k = c - num_demand;
                    assert(right@[r as int]@[k] as int == incidence(
                        network.edges_view()[r as int],
                        num_demand + k,
                    ));
                }
            }
        }
        m.push(row);
        r = r + 1;
    }
    m
}

/// Selects, for each demand node `i`, edge `i`: rows are demand nodes, columns edges.
pub fn at<S, P, T>(network: &Network<S, P, T>) -> (r: Matrix)
    requires
        network.sized(),
    ensures
        has_shape(r@, network.demand_nodes@.len() as int, network.edges_view().len() as int),
        forall|i: int, j: int|
            0 <= i < network.demand_nodes@.len() && 0 <= j < network.edges_view().len() ==> (
            #[trigger] r@[i]@[j]) == if i == j {
                1i8
            } else {
                0i8
            },
{
    let rows = network.demand_nodes.len();
    let cols = network.num_edges();
    let mut m: Matrix = Vec::new();
    let mut i: usize = 0;
    while i < rows
        invariant
            i <= rows,
            has_shape(m@, i as int, cols as int),
            forall|a: int, b: int|
                0 <= a < i && 0 <= b < cols ==> (#[trigger] m@[a]@[b]) == if a == b {
                    1i8
                } else {
                    0i8
                },
        decreases rows - i,
    {
        let mut row: Vec<i8> = Vec::new();
        let mut j: usize = 0;
        while j < cols
            invariant
                j <= cols,
                row@.len() == j,
                forall|b: int| 0 <= b < j ==> (#[trigger] row@[b]) == if i == b {
                    1i8
                } else {
                    0i8
                },
            decreases cols - j,
        {
            row.push(if i == j { 1 } else { 0 });
            j = j + 1;
        }
        m.push(row);
        i = i + 1;
    }
    m
}

/// Walks from `start` to the root, adding each step's value into `row`.
fn walk_cycle<S, P, T>(
    network: &Network<S, P, T>,
    row: &mut Vec<i8>,
    i: usize,
    start: usize,
    invert: bool,
) -> (r: Result<(), MatrixError>)
    requires
        network.sized(),
    ensures
        ({
            let target = walk_row(
                network.pred_nodes@,
                network.root_node_index,
                network.spanning_tree_edges@,
                old(row)@,
                start,
                invert,
                network.nodes_view().len(),
                i,
                start,
            );
            &&& r is Ok <==> target is Ok
            &&& r is Ok ==> target == Ok::<Seq<i8>, MatrixError>(final(row)@)
            &&& r is Err ==> target == Err::<Seq<i8>, MatrixError>(r->Err_0)
        }),
{
    let fuel = network.num_nodes();
    let ghost pred = network.pred_nodes@;
    let ghost root = network.root_node_index;
    let ghost edges = network.spanning_tree_edges@;
    let ghost target = walk_row(pred, root, edges, row@, start, invert, fuel as nat, i, start);
    let mut c = start;
    let mut steps: usize = 0;
    while c != network.root_node_index
        invariant
            network.sized(),
            pred == network.pred_nodes@,
            root == network.root_node_index,
            edges == network.spanning_tree_edges@,
            fuel == network.nodes_view().len(),
            steps <= fuel,
            target == walk_row(pred, root, edges, row@, c, invert, (fuel - steps) as nat, i, start),
            target == walk_row(pred, root, edges, old(row)@, start, invert, fuel as nat, i, start),
        decreases fuel - steps,
    {
        if steps >= fuel {
            assert(target == Err::<Seq<i8>, MatrixError>(MatrixError::UnterminatedWalk(start)));
            return Err(MatrixError::UnterminatedWalk(start));
        }
        let p = match network.pred_nodes.get(&c) {
            Some(p) => *p,
            None => {
                assert(!pred.contains_key(c));
                assert(target == Err::<Seq<i8>, MatrixError>(MatrixError::MissingPredecessor(c)));
                return Err(MatrixError::MissingPredecessor(c));
            },
        };
        let (j, reversed) = match network.tree_edge_between(p, c) {
            Some(found) => found,
            None => {
                assert(target == Err::<Seq<i8>, MatrixError>(MatrixError::MissingEdge(p, c)));
                return Err(MatrixError::MissingEdge(p, c));
            },
        };
        if j >= row.len() {
            assert(target == Err::<Seq<i8>, MatrixError>(MatrixError::IndexOutOfBounds { i, j }));
            return Err(MatrixError::IndexOutOfBounds { i, j });
        }
        let value: i16 = if reversed != invert {
            -1
        } else {
            1
        };
        let sum: i16 = row[j] as i16 + value;
        if sum < -128 || sum > 127 {
            assert(target == Err::<Seq<i8>, MatrixError>(MatrixError::EntryOverflow { i, j }));
            return Err(MatrixError::EntryOverflow { i, j });
        }
        row.set(j, sum as i8);
        c = p;
        steps = steps + 1;
    }
    Ok(())
}

/// The cycle matrix: one row per cycle edge and one column per node. Row `i` holds +1 at
/// the column of cycle edge `i`'s own index, plus the signed tree edges on the walks from
/// its two endpoints to the root (see `cycle_row`). The error is that of the first row
/// that fails.
pub fn ac<S, P, T>(network: &Network<S, P, T>) -> (r: Result<Matrix, MatrixError>)
    requires
        network.sized(),
    ensures
        r is Ok <==> cycle_matrix(*network, network.cycle_edges@.len() as int) is Ok,
        r is Err ==> cycle_matrix(*network, network.cycle_edges@.len() as int) == Err::<
            Seq<Seq<i8>>,
            MatrixError,
        >(r->Err_0),
        r matches Ok(m) ==> m@.len() == network.cycle_edges@.len() && forall|i: int|
            0 <= i < network.cycle_edges@.len() ==> cycle_row(*network, i) == Ok::<
                Seq<i8>,
                MatrixError,
            >((#[trigger] m@[i])@) && cycle_matrix(
                *network,
                network.cycle_edges@.len() as int,
            )->Ok_0[i] == m@[i]@,
{
    let num_nodes = network.num_nodes();
    let num_tree_edges = network.spanning_tree_edges.len();
    let num_cycles = network.cycle_edges.len();
    let mut m: Matrix = Vec::new();
    let mut i: usize = 0;
    while i < num_cycles
        invariant
            network.sized(),
            num_nodes == network.nodes_view().len(),
            num_tree_edges == network.spanning_tree_edges@.len(),
            num_cycles == network.cycle_edges@.len(),
            i <= num_cycles,
            m@.len() == i,
            cycle_matrix(*network, i as int) is Ok,
            cycle_matrix(*network, i as int)->Ok_0.len() == i,
            forall|k: int| 0 <= k < i ==> cycle_row(*network, k) == Ok::<Seq<i8>, MatrixError>((#[trigger] m@[k])@),
            forall|k: int| 0 <= k < i ==> cycle_matrix(*network, i as int)->Ok_0[k] == (#[trigger] m@[k])@,
        decreases num_cycles - i,
    {
        let cycle_edge = network.cycle_edges[i];
        let j = num_tree_edges + i;
        let mut row = zero_row(num_nodes);
        if j >= num_nodes {
            proof {
                lemma_cycle_matrix_err(*network, i as int + 1, num_cycles as int);
            }
            return Err(MatrixError::IndexOutOfBounds { i, j });
        }
        row.set(j, 1);
        assert(row@ == Seq::new(num_nodes as nat, |k: int| 0i8).update(j as int, 1i8));
        match walk_cycle(network, &mut row, i, cycle_edge.src, false) {
            Ok(()) => {},
            Err(err) => {
                proof {
                    lemma_cycle_matrix_err(*network, i as int + 1, num_cycles as int);
                }
                return Err(err);
            },
        }
        match walk_cycle(network, &mut row, i, cycle_edge.tgt, true) {
            Ok(()) => {},
            Err(err) => {
                proof {
                    lemma_cycle_matrix_err(*network, i as int + 1, num_cycles as int);
                }
                return Err(err);
            },
        }
        m.push(row);
        i = i + 1;
    }
    Ok(m)
}

/// The matrices of the hydraulic node and loop equations.
pub struct Matrices {
    /// Incidence matrix of the whole network.
    pub ai: Matrix,
    /// Incidence on the demand nodes.
    pub ar: Matrix,
    /// Incidence on the pressure nodes.
    pub arp: Matrix,
    /// Selection of one edge per demand node.
    pub at: Matrix,
    /// Cycle incidence matrix, with orientation.
    pub ac: Matrix,
}

impl Matrices {
    /// Assembles all five matrices; fails where the cycle matrix does.
    pub fn try_from_network<S, P, T>(network: &Network<S, P, T>) -> (r: Result<Matrices, MatrixError>)
        requires
            network.sized(),
        ensures
            r is Ok <==> cycle_matrix(*network, network.cycle_edges@.len() as int) is Ok,
            r is Err ==> cycle_matrix(*network, network.cycle_edges@.len() as int) == Err::<
                Seq<Seq<i8>>,
                MatrixError,
            >(r->Err_0),
            r matches Ok(ms) ==> {
                &&& incidence_rows(ms.ar@, network.edges_view(), 0, network.demand_nodes@.len() as int)
                &&& incidence_rows(
                    ms.arp@,
                    network.edges_view(),
                    network.demand_nodes@.len() as int,
                    network.pressure_nodes@.len() as int,
                )
                &&& incidence_rows(ms.ai@, network.edges_view(), 0, network.nodes_view().len() as int)
                &&& has_shape(
                    ms.at@,
                    network.demand_nodes@.len() as int,
                    network.edges_view().len() as int,
                )
                &&& forall|i: int, j: int|
                    0 <= i < network.demand_nodes@.len() && 0 <= j < network.edges_view().len() ==> (
                    #[trigger] ms.at@[i]@[j]) == if i == j {
                        1i8
                    } else {
                        0i8
                    }
                &&& ms.ac@.len() == network.cycle_edges@.len()
                &&& forall|i: int|
                    0 <= i < network.cycle_edges@.len() ==> cycle_row(*network, i) == Ok::<
                        Seq<i8>,
                        MatrixError,
                    >((#[trigger] ms.ac@[i])@)
            },
    {
        let ar = ar(network);
        let arp = arp(network);
        let ai = ai(network);
        let at = at(network);
        let ac = ac(network)?;
        Ok(Matrices { ai, ar, arp, at, ac })
    }
}

/// The weighted incidence at `v` of the first `k` columns of `row`: the sum of
/// `row[j] * incidence(edges[j], v)`; columns without an edge count zero.
pub open spec fn balance(row: Seq<i8>, edges: Seq<Edge>, v: int, k: int) -> int
    decreases k,
{
    if k <= 0 {
        0
    } else {
        balance(row, edges, v, k - 1) + if k - 1 < edges.len() {
            weighted_incidence(row[k - 1], edges[k - 1], v)
        } else {
            0
        }
    }
}

/// The entry `x` times the incidence of `v` on `e`.
pub open spec fn weighted_incidence(x: i8, e: Edge, v: int) -> int {
    x as int * incidence(e, v)
}

/// 1 at `x`, 0 elsewhere.
pub open spec fn unit(v: int, x: int) -> int {
    if v == x {
        1
    } else {
        0
    }
}

proof fn lemma_balance_update(row: Seq<i8>, edges: Seq<Edge>, v: int, k: int, j: int, y: i8)
    requires
        0 <= j < row.len(),
        0 <= k <= row.len(),
    ensures
        balance(row.update(j, y), edges, v, k) == balance(row, edges, v, k) + if j < k && j
            < edges.len() {
            weighted_incidence(y, edges[j], v) - weighted_incidence(row[j], edges[j], v)
        } else {
            0
        },
    decreases k,
{
    if k > 0 {
        lemma_balance_update(row, edges, v, k - 1, j, y);
        if k - 1 == j {
            assert(row.update(j, y)[k - 1] == y);
        } else {
            assert(row.update(j, y)[k - 1] == row[k - 1]);
        }
    }
}

/// Adding `x` to an entry adds `x` times the incidence.
proof fn lemma_weighted_add(a: i8, x: i8, y: i8, e: Edge, v: int)
    requires
        y as int == a as int + x as int,
    ensures
        weighted_incidence(y, e, v) - weighted_incidence(a, e, v) == weighted_incidence(x, e, v),
{
    let inc = incidence(e, v);
    if inc == 0 {
    } else if inc == 1 {
    } else {
        assert(inc == -1);
    }
}

/// The term that one walk step adds: the path edge from `c` to `p`, with its sign.
proof fn lemma_step_term(e: Edge, p: usize, c: usize, reversed: bool, invert: bool, v: int)
    requires
        p != c,
        reversed ==> e.src == c && e.tgt == p,
        !reversed ==> e.src == p && e.tgt == c,
    ensures
        weighted_incidence(step_value(reversed, invert), e, v) == if invert {
            unit(v, p as int) - unit(v, c as int)
        } else {
            unit(v, c as int) - unit(v, p as int)
        },
{
    if reversed != invert {
        assert(step_value(reversed, invert) == -1i8);
    } else {
        assert(step_value(reversed, invert) == 1i8);
    }
}

proof fn lemma_balance_zero(n: nat, edges: Seq<Edge>, v: int, k: int)
    requires
        0 <= k <= n,
    ensures
        balance(Seq::new(n, |i: int| 0i8), edges, v, k) == 0,
    decreases k,
{
    if k > 0 {
        lemma_balance_zero(n, edges, v, k - 1);
    }
}

/// A node that is its own predecessor never reaches the root.
proof fn lemma_walk_stuck(
    pred: Map<usize, usize>,
    root: usize,
    tree: Seq<Edge>,
    row: Seq<i8>,
    c: usize,
    invert: bool,
    fuel: nat,
    i: usize,
    start: usize,
)
    requires
        c != root,
        pred.contains_key(c) ==> pred[c] == c,
    ensures
        walk_row(pred, root, tree, row, c, invert, fuel, i, start) is Err,
    decreases fuel,
{
    if fuel > 0 && pred.contains_key(c) {
        match pair_entry(tree, pred[c], c, tree.len() as int) {
            None => {},
            Some((j, reversed)) => {
                if (j as int) < row.len() {
                    let sum = row[j as int] as int + step_value(reversed, invert) as int;
                    if !(sum < i8::MIN || sum > i8::MAX) {
                        lemma_walk_stuck(
                            pred,
                            root,
                            tree,
                            row.update(j as int, sum as i8),
                            c,
                            invert,
                            (fuel - 1) as nat,
                            i,
                            start,
                        );
                    }
                }
            },
        }
    }
}

proof fn lemma_pair_entry(edges: Seq<Edge>, a: usize, b: usize, k: int)
    requires
        0 <= k <= edges.len(),
        edges.len() <= usize::MAX,
    ensures
        pair_entry(edges, a, b, k) matches Some((j, reversed)) ==> (j as int) < k && if reversed {
            edges[j as int].src == b && edges[j as int].tgt == a
        } else {
            edges[j as int].src == a && edges[j as int].tgt == b
        },
    decreases k,
{
    if k > 0 {
        lemma_pair_entry(edges, a, b, k - 1);
    }
}

/// A successful walk adds the incidence of the path from `c` to the root: `+1` at `c` and
/// `-1` at the root, negated when `invert`.
proof fn lemma_walk_balance(
    pred: Map<usize, usize>,
    root: usize,
    tree: Seq<Edge>,
    edges: Seq<Edge>,
    row: Seq<i8>,
    c: usize,
    invert: bool,
    fuel: nat,
    i: usize,
    start: usize,
    v: int,
)
    requires
        tree.len() <= usize::MAX,
        tree.len() <= edges.len(),
        forall|k: int| 0 <= k < tree.len() ==> edges[k] == #[trigger] tree[k],
        walk_row(pred, root, tree, row, c, invert, fuel, i, start) is Ok,
    ensures
        ({
            let after = walk_row(pred, root, tree, row, c, invert, fuel, i, start)->Ok_0;
            &&& after.len() == row.len()
            &&& balance(after, edges, v, row.len() as int) == balance(row, edges, v, row.len() as int)
                + if invert {
                unit(v, root as int) - unit(v, c as int)
            } else {
                unit(v, c as int) - unit(v, root as int)
            }
        }),
    decreases fuel,
{
    if c != root {
        let p = pred[c];
        lemma_pair_entry(tree, p, c, tree.len() as int);
        let (j, reversed) = pair_entry(tree, p, c, tree.len() as int)->Some_0;
        let x = step_value(reversed, invert);
        let sum = row[j as int] as int + x as int;
        let y = sum as i8;
        let row1 = row.update(j as int, y);
        if p == c {
            lemma_walk_stuck(pred, root, tree, row1, c, invert, (fuel - 1) as nat, i, start);
        }
        lemma_walk_balance(pred, root, tree, edges, row1, p, invert, (fuel - 1) as nat, i, start, v);
        lemma_balance_update(row, edges, v, row.len() as int, j as int, y);
        assert(edges[j as int] == tree[j as int]);
        lemma_weighted_add(row[j as int], x, y, edges[j as int], v);
        lemma_step_term(edges[j as int], p, c, reversed, invert, v);
    }
}

/// Each row of the cycle matrix is a closed loop: its weighted incidence at every node is
/// zero, for every cycle edge that joins two distinct nodes.
pub proof fn lemma_cycle_row_balanced<S, P, T>(net: Network<S, P, T>, i: int, v: int)
    requires
        net.sized(),
        0 <= i < net.cycle_edges@.len(),
        cycle_row(net, i) is Ok,
        net.cycle_edges@[i].src != net.cycle_edges@[i].tgt,
    ensures
        balance(cycle_row(net, i)->Ok_0, net.edges_view(), v, net.nodes_view().len() as int) == 0,
{
    let n = net.nodes_view().len();
    let pred = net.pred_nodes@;
    let root = net.root_node_index;
    let edges = net.edges_view();
    let e = net.cycle_edges@[i];
    let j0 = net.spanning_tree_edges@.len() + i;
    let zeros = Seq::new(n, |k: int| 0i8);
    let start = zeros.update(j0, 1i8);
    assert(edges[j0] == e);
    lemma_balance_zero(n, edges, v, n as int);
    lemma_balance_update(zeros, edges, v, n as int, j0, 1i8);
    assert(weighted_incidence(0i8, e, v) == 0);
    assert(weighted_incidence(1i8, e, v) == unit(v, e.tgt as int) - unit(v, e.src as int));
    let tree = net.spanning_tree_edges@;
    lemma_walk_balance(pred, root, tree, edges, start, e.src, false, n, i as usize, e.src, v);
    let row1 = walk_row(pred, root, tree, start, e.src, false, n, i as usize, e.src)->Ok_0;
    lemma_walk_balance(pred, root, tree, edges, row1, e.tgt, true, n, i as usize, e.tgt, v);
}

/// An edge at an index below `k` that joins `a` and `b`, in either orientation, gives an entry.
proof fn lemma_pair_entry_found(edges: Seq<Edge>, a: usize, b: usize, k: int, q: int)
    requires
        0 <= q < k <= edges.len(),
        (edges[q].src == a && edges[q].tgt == b) || (edges[q].src == b && edges[q].tgt == a),
    ensures
        pair_entry(edges, a, b, k) is Some,
    decreases k,
{
    if q < k - 1 {
        lemma_pair_entry_found(edges, a, b, k - 1, q);
    }
}

/// Both endpoints of tree column `k` lie in `feed` no deeper than `d`.
pub open spec fn column_within(tree: Seq<Edge>, feed: Set<usize>, depth: Map<usize, nat>, k: int, d: nat) -> bool {
    &&& 0 <= k < tree.len()
    &&& feed.contains(tree[k].src)
    &&& feed.contains(tree[k].tgt)
    &&& depth[tree[k].src] <= d
    &&& depth[tree[k].tgt] <= d
}

/// On a tree whose depths drop by one per predecessor step, the walk from a node of depth
/// `depth[c]` succeeds and changes each entry by at most one, only at tree columns no
/// deeper than `c`: each such column is passed once.
proof fn lemma_walk_succeeds(
    pred: Map<usize, usize>,
    root: usize,
    tree: Seq<Edge>,
    feed: Set<usize>,
    depth: Map<usize, nat>,
    row: Seq<i8>,
    c: usize,
    invert: bool,
    fuel: nat,
    i: usize,
    start: usize,
)
    requires
        tree.len() <= usize::MAX,
        tree.len() <= row.len(),
        feed.contains(c),
        depth.dom() == feed,
        forall|v: usize|
            #[trigger] feed.contains(v) && v != root ==> pred.contains_key(v) && feed.contains(pred[v])
                && depth[v] == depth[pred[v]] + 1 && pair_entry(tree, pred[v], v, tree.len() as int)
                is Some,
        depth[c] <= fuel,
        forall|k: int| #[trigger] column_within(tree, feed, depth, k, depth[c]) ==> -127 < row[k] < 127,
    ensures
        walk_row(pred, root, tree, row, c, invert, fuel, i, start) is Ok,
        ({
            let after = walk_row(pred, root, tree, row, c, invert, fuel, i, start)->Ok_0;
            &&& after.len() == row.len()
            &&& forall|k: int|
                0 <= k < row.len() ==> #[trigger] after[k] == row[k] || (column_within(
                    tree,
                    feed,
                    depth,
                    k,
                    depth[c],
                ) && (after[k] as int == row[k] as int + 1 || after[k] as int == row[k] as int - 1))
        }),
    decreases fuel,
{
    if c != root {
        let p = pred[c];
        lemma_pair_entry(tree, p, c, tree.len() as int);
        let (j, reversed) = pair_entry(tree, p, c, tree.len() as int)->Some_0;
        assert(column_within(tree, feed, depth, j as int, depth[c]));
        let x = step_value(reversed, invert);
        let sum = row[j as int] as int + x as int;
        let y = sum as i8;
        let row1 = row.update(j as int, y);
        assert forall|k: int| #[trigger] column_within(tree, feed, depth, k, depth[p]) implies -127 < row1[k]
            < 127 by {
            assert(k != j as int);
            assert(column_within(tree, feed, depth, k, depth[c]));
        }
        lemma_walk_succeeds(pred, root, tree, feed, depth, row1, p, invert, (fuel - 1) as nat, i, start);
        let after = walk_row(pred, root, tree, row, c, invert, fuel, i, start)->Ok_0;
        assert forall|k: int| 0 <= k < row.len() implies #[trigger] after[k] == row[k] || (column_within(
            tree,
            feed,
            depth,
            k,
            depth[c],
        ) && (after[k] as int == row[k] as int + 1 || after[k] as int == row[k] as int - 1)) by {
            if k == j as int {
                if !(after[k] == row1[k]) {
                    assert(column_within(tree, feed, depth, k, depth[p]));
                }
            } else if after[k] != row1[k] {
                assert(column_within(tree, feed, depth, k, depth[p]));
            }
        }
    }
}

/// Every row of the cycle matrix succeeds when the first `k` do.
proof fn lemma_cycle_matrix_ok<S, P, T>(net: Network<S, P, T>, k: int)
    requires
        0 <= k,
        forall|i: int| 0 <= i < k ==> #[trigger] cycle_row(net, i) is Ok,
    ensures
        cycle_matrix(net, k) is Ok,
    decreases k,
{
    if k > 0 {
        lemma_cycle_matrix_ok(net, k - 1);
        assert(cycle_row(net, k - 1) is Ok);
    }
}

/// On a network that `try_from_feed` builds from `nodes`, `edges` and `parameters`, with no
/// more edges than nodes, the cycle matrix succeeds.
pub proof fn lemma_cycle_matrix_succeeds<S, P, T>(
    nodes: Seq<Node<S, P>>,
    edges: Seq<Edge>,
    parameters: Seq<T>,
    net: Network<S, P, T>,
)
    requires
        resolved_from(nodes, edges, parameters, net),
        net.edges_view().len() <= net.nodes_view().len(),
    ensures
        cycle_matrix(net, net.cycle_edges@.len() as int) is Ok,
{
    let n = nodes.len();
    let m = edges.len() as int;
    let e2 = partitioned_edges(nodes, edges);
    let root = net.root_node_index;
    let walk = walk_from(e2, root, partitioned_nodes(nodes).len());
    let tree_set = walk.2;
    let cycle_set = walk.3;
    let pred = net.pred_nodes@;
    let feed = feed_nodes_of(e2, root);
    let tree = net.spanning_tree_edges@;
    assert(spanning_tree_of(e2, root, tree_set, cycle_set, pred));
    let depth = choose|d: Map<usize, nat>| #[trigger] pred_depths(pred, root, feed, d);
    assert forall|x: int| 0 <= x < m implies (e2[x].src as int) < n && (e2[x].tgt as int) < n by {
        lemma_partition_index_bound(nodes, edges[x].src as int);
        lemma_partition_index_bound(nodes, edges[x].tgt as int);
    }
    lemma_feed_finite(e2, root, n as usize);
    lemma_bounded_set(feed, n as usize);
    lemma_start_reachable(e2, root);
    assert(feed.contains(root));
    // every reached node has a tree column to its predecessor
    assert forall|v: usize|
        #[trigger] feed.contains(v) && v != root implies pred.contains_key(v) && feed.contains(pred[v])
            && depth[v] == depth[pred[v]] + 1 && pair_entry(tree, pred[v], v, tree.len() as int)
            is Some by {
        assert(pred.dom().contains(v));
        assert(tree_joined(e2, tree_set, pred[v], v));
        let e = choose|e: usize|
            #[trigger] tree_set.contains(e) && (e as int) < e2.len() && e2[e as int].touches(pred[v] as int)
                && e2[e as int].other(pred[v] as int) == v as int;
        lemma_select_index(e2, tree_set, m, e as int);
        lemma_pair_entry_found(tree, pred[v], v, tree.len() as int, rank_of(tree_set, e as int));
    }
    // every row succeeds
    assert forall|i: int| 0 <= i < net.cycle_edges@.len() implies #[trigger] cycle_row(net, i) is Ok by {
        lemma_select_len(e2, cycle_set, m);
        lemma_rank_onto(cycle_set, m, i);
        let q = choose|q: int| 0 <= q < m && #[trigger] cycle_set.contains(q as usize) && crate::select::rank(
            cycle_set,
            q,
        ) == i;
        lemma_select_index(e2, cycle_set, m, q);
        let e = net.cycle_edges@[i];
        assert(e == e2[q]);
        assert(feed_edges_of(e2, root).contains(q as usize));
        assert(feed.contains(e.src));
        assert(e.touches(e.src as int));
        assert(joined(e2, e.src, e.tgt));
        lemma_reachable_step(e2, root, e.src, e.tgt);
        assert(feed.contains(e.tgt));
        let t = tree.len();
        let j0 = t + i;
        let zeros = Seq::new(n, |k: int| 0i8);
        let start = zeros.update(j0, 1i8);
        assert forall|k: int| #[trigger] column_within(tree, feed, depth, k, depth[e.src]) implies -127
            < start[k] < 127 by {}
        lemma_walk_succeeds(pred, root, tree, feed, depth, start, e.src, false, n, i as usize, e.src);
        let row1 = walk_row(pred, root, tree, start, e.src, false, n, i as usize, e.src)->Ok_0;
        assert forall|k: int| #[trigger] column_within(tree, feed, depth, k, depth[e.tgt]) implies -127
            < row1[k] < 127 by {
            assert(start[k] == 0);
        }
        lemma_walk_succeeds(pred, root, tree, feed, depth, row1, e.tgt, true, n, i as usize, e.tgt);
    }
    lemma_cycle_matrix_ok(net, net.cycle_edges@.len() as int);
}

/// The rank of `e` in `keep`.
spec fn rank_of(keep: Set<usize>, e: int) -> int {
    crate::select::rank(keep, e) as int
}

proof fn lemma_cycle_matrix_rows<S, P, T>(net: Network<S, P, T>, k: int)
    requires
        0 <= k,
        cycle_matrix(net, k) is Ok,
    ensures
        cycle_matrix(net, k)->Ok_0.len() == k,
        forall|i: int|
            0 <= i < k ==> cycle_row(net, i) == Ok::<Seq<i8>, MatrixError>(
                #[trigger] cycle_matrix(net, k)->Ok_0[i],
            ),
    decreases k,
{
    if k > 0 {
        lemma_cycle_matrix_rows(net, k - 1);
        let prev = cycle_matrix(net, k - 1)->Ok_0;
        assert forall|i: int| 0 <= i < k implies cycle_row(net, i) == Ok::<Seq<i8>, MatrixError>(
            #[trigger] cycle_matrix(net, k)->Ok_0[i],
        ) by {
            if i < k - 1 {
                assert(cycle_matrix(net, k)->Ok_0[i] == prev[i]);
            }
        }
    }
}

/// On a network that `try_from_feed` builds, with no more edges than nodes, the cycle
/// matrix succeeds and each row whose cycle edge joins two distinct nodes is a closed
/// loop: its weighted incidence is zero at every node.
pub proof fn lemma_cycle_matrix_balanced<S, P, T>(
    nodes: Seq<Node<S, P>>,
    edges: Seq<Edge>,
    parameters: Seq<T>,
    net: Network<S, P, T>,
    i: int,
    v: int,
)
    requires
        resolved_from(nodes, edges, parameters, net),
        net.edges_view().len() <= net.nodes_view().len(),
        0 <= i < net.cycle_edges@.len(),
        net.cycle_edges@[i].src != net.cycle_edges@[i].tgt,
    ensures
        cycle_matrix(net, net.cycle_edges@.len() as int) is Ok,
        balance(
            cycle_matrix(net, net.cycle_edges@.len() as int)->Ok_0[i],
            net.edges_view(),
            v,
            net.nodes_view().len() as int,
        ) == 0,
{
    lemma_cycle_matrix_succeeds(nodes, edges, parameters, net);
    assert(net.sized());
    lemma_rows_balanced(net, i, v);
}

proof fn lemma_rows_balanced<S, P, T>(net: Network<S, P, T>, i: int, v: int)
    requires
        net.sized(),
        cycle_matrix(net, net.cycle_edges@.len() as int) is Ok,
        0 <= i < net.cycle_edges@.len(),
        net.cycle_edges@[i].src != net.cycle_edges@[i].tgt,
    ensures
        balance(
            cycle_matrix(net, net.cycle_edges@.len() as int)->Ok_0[i],
            net.edges_view(),
            v,
            net.nodes_view().len() as int,
        ) == 0,
{
    lemma_cycle_matrix_rows(net, net.cycle_edges@.len() as int);
    assert(cycle_row(net, i) == Ok::<Seq<i8>, MatrixError>(
        cycle_matrix(net, net.cycle_edges@.len() as int)->Ok_0[i],
    ));
    lemma_cycle_row_balanced(net, i, v);
}

} // verus!
