//! Keeping the elements at a set of indices and renumbering what remains.

use std::collections::HashSet;
use crate::graph::{Edge, edges_within, index_range, joined, lemma_bounded_set};
use vstd::prelude::*;

verus! {

broadcast use vstd::std_specs::hash::group_hash_axioms;

/// The elements of `s` whose index below `k` is in `keep`, in order.
pub open spec fn select_prefix<A>(s: Seq<A>, keep: Set<usize>, k: int) -> Seq<A>
    decreases k,
{
    if k <= 0 {
        Seq::empty()
    } else {
        let rest = select_prefix(s, keep, k - 1);
        if keep.contains((k - 1) as usize) {
            rest.push(s[k - 1])
        } else {
            rest
        }
    }
}

/// The elements of `s` whose index is in `keep`, in order.
pub open spec fn select<A>(s: Seq<A>, keep: Set<usize>) -> Seq<A> {
    select_prefix(s, keep, s.len() as int)
}

/// How many indices below `i` are in `keep`: the new index of a kept old index `i`.
pub open spec fn rank(keep: Set<usize>, i: int) -> nat
    decreases i,
{
    if i <= 0 {
        0
    } else {
        rank(keep, i - 1) + if keep.contains((i - 1) as usize) {
            1nat
        } else {
            0nat
        }
    }
}

/// The edge with both endpoints renumbered by `index`.
pub open spec fn renumber(e: Edge, index: spec_fn(int) -> int) -> Edge {
    Edge { src: index(e.src as int) as usize, tgt: index(e.tgt as int) as usize }
}

/// All edges renumbered by `index`.
pub open spec fn renumber_all(edges: Seq<Edge>, index: spec_fn(int) -> int) -> Seq<Edge> {
    edges.map_values(|e: Edge| renumber(e, index))
}

/// `v` is a node below `n` that is kept.
pub open spec fn node_kept(keep: Set<usize>, n: int, v: usize) -> bool {
    (v as int) < n && keep.contains(v)
}

pub(crate) proof fn lemma_rank_bound(keep: Set<usize>, i: int)
    requires
        i >= 0,
    ensures
        rank(keep, i) <= i,
    decreases i,
{
    if i > 0 {
        lemma_rank_bound(keep, i - 1);
    }
}

pub(crate) proof fn lemma_select_len<A>(s: Seq<A>, keep: Set<usize>, k: int)
    requires
        k >= 0,
    ensures
        select_prefix(s, keep, k).len() == rank(keep, k),
    decreases k,
{
    if k > 0 {
        lemma_select_len(s, keep, k - 1);
    }
}

/// Moves the elements out in order: first those whose index is in `keep`, then the others.
pub(crate) fn partition_owned<A>(items: Vec<A>, keep: &HashSet<usize>) -> (r: (Vec<A>, Vec<A>))
    ensures
        r.0@ == select(items@, keep@),
        r.1@ == select(items@, keep@.complement()),
{
    let ghost all = items@;
    let total = items.len();
    let mut reversed: Vec<A> = Vec::new();
    let mut rest = items;
    while rest.len() > 0
        invariant
            rest@ + reversed@.reverse() == all,
        decreases rest@.len(),
    {
        let item = rest.pop().unwrap();
        proof {
            assert(reversed@.push(item).reverse() =~= seq![item] + reversed@.reverse());
            assert(rest@.push(item) + reversed@.reverse() =~= rest@ + reversed@.push(item).reverse());
        }
        reversed.push(item);
    }
    assert(reversed@.reverse() =~= all);
    let mut kept: Vec<A> = Vec::new();
    let mut dropped: Vec<A> = Vec::new();
    let mut i: usize = 0;
    while reversed.len() > 0
        invariant
            i + reversed@.len() == all.len(),
            all.len() == total,
            reversed@.reverse() == all.subrange(i as int, all.len() as int),
            kept@ == select_prefix(all, keep@, i as int),
            dropped@ == select_prefix(all, keep@.complement(), i as int),
        decreases reversed@.len(),
    {
        let ghost before = reversed@;
        let item = reversed.pop().unwrap();
        proof {
            assert(before.reverse()[0] == item);
            assert(reversed@.reverse() =~= before.reverse().subrange(1, before.len() as int));
            assert(all.subrange(i as int, all.len() as int)[0] == all[i as int]);
        }
        if keep.contains(&i) {
            kept.push(item);
        } else {
            dropped.push(item);
        }
        i = i + 1;
    }
    (kept, dropped)
}

pub(crate) proof fn lemma_rank_complement(keep: Set<usize>, i: int)
    requires
        i >= 0,
    ensures
        rank(keep, i) + rank(keep.complement(), i) == i,
    decreases i,
{
    if i > 0 {
        lemma_rank_complement(keep, i - 1);
    }
}

pub(crate) proof fn lemma_rank_mono(keep: Set<usize>, i: int, j: int)
    requires
        0 <= i <= j,
    ensures
        rank(keep, i) <= rank(keep, j),
    decreases j - i,
{
    if i < j {
        lemma_rank_mono(keep, i, j - 1);
    }
}

/// `rank` counts the members below `k`.
pub(crate) proof fn lemma_rank_card(keep: Set<usize>, k: usize)
    ensures
        keep.intersect(index_range(k as int)).finite(),
        rank(keep, k as int) == keep.intersect(index_range(k as int)).len(),
    decreases k,
{
    lemma_bounded_set(keep.intersect(index_range(k as int)), k);
    if k > 0 {
        let j = (k - 1) as usize;
        lemma_rank_card(keep, j);
        let below = keep.intersect(index_range(j as int));
        if keep.contains(j) {
            assert(keep.intersect(index_range(k as int)) =~= below.insert(j));
        } else {
            assert(keep.intersect(index_range(k as int)) =~= below);
        }
    } else {
        assert(keep.intersect(index_range(0)) =~= Set::empty());
    }
}

/// `select_prefix` looks only at membership of the indices below `k`.
pub(crate) proof fn lemma_select_congruent<A>(s: Seq<A>, k1: Set<usize>, k2: Set<usize>, k: int)
    requires
        0 <= k,
        forall|i: usize| (i as int) < k ==> (k1.contains(i) <==> k2.contains(i)),
    ensures
        select_prefix(s, k1, k) == select_prefix(s, k2, k),
    decreases k,
{
    if k > 0 {
        lemma_select_congruent(s, k1, k2, k - 1);
    }
}

/// Selected edges stay within the node range.
pub(crate) proof fn lemma_select_within(edges: Seq<Edge>, keep: Set<usize>, n: int, k: int)
    requires
        edges_within(edges, n),
        0 <= k <= edges.len(),
    ensures
        edges_within(select_prefix(edges, keep, k), n),
    decreases k,
{
    if k > 0 {
        lemma_select_within(edges, keep, n, k - 1);
    }
}

/// Selecting by a set that holds, below `k`, exactly the indices from `lo` on.
pub(crate) proof fn lemma_select_block<A>(s: Seq<A>, keep: Set<usize>, lo: int, hi: int, k: int)
    requires
        0 <= lo <= hi,
        0 <= k <= s.len(),
        k <= usize::MAX,
        forall|i: int| 0 <= i < k ==> (#[trigger] keep.contains(i as usize) <==> lo <= i < hi),
    ensures
        select_prefix(s, keep, k) == if k <= lo {
            Seq::<A>::empty()
        } else if k <= hi {
            s.subrange(lo, k)
        } else {
            s.subrange(lo, hi)
        },
    decreases k,
{
    if k > 0 {
        lemma_select_block(s, keep, lo, hi, k - 1);
        if lo <= k - 1 < hi {
            assert(s.subrange(lo, k - 1).push(s[k - 1]) =~= s.subrange(lo, k));
        }
    } else {
        assert(select_prefix(s, keep, 0) =~= Seq::<A>::empty());
    }
}

pub(crate) proof fn lemma_rank_block(keep: Set<usize>, lo: int, hi: int, k: int)
    requires
        0 <= lo <= hi,
        0 <= k,
        k <= usize::MAX,
        forall|i: int| 0 <= i < k ==> (#[trigger] keep.contains(i as usize) <==> lo <= i < hi),
    ensures
        rank(keep, k) == if k <= lo {
            0
        } else if k <= hi {
            k - lo
        } else {
            hi - lo
        },
    decreases k,
{
    if k > 0 {
        lemma_rank_block(keep, lo, hi, k - 1);
    }
}

/// Renumbering the endpoints keeps edges joined.
pub(crate) proof fn lemma_joined_renumber(edges: Seq<Edge>, index: spec_fn(int) -> int, a: usize, b: usize)
    requires
        joined(edges, a, b),
        forall|e: int|
            0 <= e < edges.len() ==> 0 <= index((#[trigger] edges[e]).src as int) <= usize::MAX && 0
                <= index(edges[e].tgt as int) <= usize::MAX,
    ensures
        joined(renumber_all(edges, index), index(a as int) as usize, index(b as int) as usize),
{
    let e = choose|e: int|
        0 <= e < edges.len() && #[trigger] edges[e].touches(a as int) && edges[e].other(a as int)
            == b as int;
    let r = renumber_all(edges, index);
    assert(r[e] == renumber(edges[e], index));
    assert(r[e].touches(index(a as int) as usize as int));
}

/// The element of `s` at kept index `i` stands at position `rank(keep, i)` of the selection.
pub(crate) proof fn lemma_select_index<A>(s: Seq<A>, keep: Set<usize>, k: int, i: int)
    requires
        0 <= i < k <= s.len(),
        keep.contains(i as usize),
        k <= usize::MAX,
    ensures
        rank(keep, i) < select_prefix(s, keep, k).len(),
        select_prefix(s, keep, k)[rank(keep, i) as int] == s[i],
    decreases k,
{
    lemma_select_len(s, keep, k);
    lemma_select_len(s, keep, k - 1);
    if i < k - 1 {
        lemma_select_index(s, keep, k - 1, i);
        lemma_rank_mono(keep, i + 1, k - 1);
    }
}

/// Every position below `rank(keep, k)` is the rank of a kept index below `k`.
pub(crate) proof fn lemma_rank_onto(keep: Set<usize>, k: int, w: int)
    requires
        0 <= w < rank(keep, k),
        k <= usize::MAX + 1,
    ensures
        exists|i: int| 0 <= i < k && #[trigger] keep.contains(i as usize) && rank(keep, i) == w,
    decreases k,
{
    if k > 0 {
        if w < rank(keep, k - 1) {
            lemma_rank_onto(keep, k - 1, w);
            let i = choose|i: int| 0 <= i < k - 1 && #[trigger] keep.contains(i as usize) && rank(keep, i) == w;
            assert(0 <= i < k && keep.contains(i as usize) && rank(keep, i) == w);
        } else {
            assert(keep.contains((k - 1) as usize));
        }
    }
}

/// Kept indices have distinct ranks.
pub(crate) proof fn lemma_rank_injective(keep: Set<usize>, i: int, j: int)
    requires
        0 <= i < j,
        keep.contains(i as usize),
    ensures
        rank(keep, i) < rank(keep, j),
{
    lemma_rank_mono(keep, i + 1, j);
}

} // verus!
