//! What the transitive reduction keeps: among relations without cycles it
//! leads from a rank to another exactly where the relations do.

use crate::engine::graph::{
    acyclic, is_step, is_walk, lemma_edge_reaches, lemma_reaches_trans, lemma_reaches_within,
    reaches, within, Edge,
};
use crate::engine::ordering::position;
use crate::engine::relations::{
    distinct_edges, is_implied, lemma_distinct_edges, lemma_generated_respects, placed_after,
    reduced, reduced_upto, respects, without_edge,
};
use crate::skeleton::cards::CardValue;
use vstd::prelude::*;

verus! {

/// The relations other than `x` are the relations that differ from `x`.
pub proof fn lemma_without_edge(e: Seq<Edge>, x: Edge)
    ensures
        forall|y: Edge| #[trigger] without_edge(e, x).contains(y) <==> e.contains(y) && y != x,
    decreases e.len(),
{
    if e.len() > 0 {
        let d = e.drop_last();
        lemma_without_edge(d, x);
        let before = without_edge(d, x);
        let out = without_edge(e, x);
        assert forall|y: Edge| #[trigger] out.contains(y) <==> e.contains(y) && y != x by {
            if out.contains(y) {
                let k = choose|k: int| 0 <= k < out.len() && out[k] == y;
                if k < before.len() {
                    assert(before[k] == y);
                    assert(before.contains(y));
                    let j = choose|j: int| 0 <= j < d.len() && d[j] == y;
                    assert(e[j] == y);
                } else {
                    assert(e[e.len() - 1] == y);
                }
            }
            if e.contains(y) && y != x {
                let j = choose|j: int| 0 <= j < e.len() && e[j] == y;
                if j < d.len() {
                    assert(d[j] == y);
                    assert(before.contains(y));
                    let k = choose|k: int| 0 <= k < before.len() && before[k] == y;
                    assert(out[k] == y);
                } else {
                    assert(out[out.len() - 1] == y);
                }
            }
        }
    }
}

/// Of the first `n` relations, the reduction holds those that are not
/// implied, and no others.
pub proof fn lemma_reduced_upto(e: Seq<Edge>, d: Seq<Edge>, n: nat)
    requires
        n <= d.len(),
    ensures
        forall|y: Edge| #[trigger]
            reduced_upto(e, d, n).contains(y) <==> !is_implied(e, y) && d.take(n as int).contains(y),
    decreases n,
{
    let out = reduced_upto(e, d, n);
    let now = d.take(n as int);
    if n > 0 {
        lemma_reduced_upto(e, d, (n - 1) as nat);
        let before = reduced_upto(e, d, (n - 1) as nat);
        let had = d.take(n - 1);
        let x = d[n - 1];
        assert forall|y: Edge| #[trigger] out.contains(y) <==> !is_implied(e, y) && now.contains(y) by {
            if out.contains(y) {
                let k = choose|k: int| 0 <= k < out.len() && out[k] == y;
                if k < before.len() {
                    assert(before[k] == y);
                    assert(before.contains(y));
                    let j = choose|j: int| 0 <= j < had.len() && had[j] == y;
                    assert(now[j] == y);
                } else {
                    assert(now[n - 1] == y);
                }
            }
            if !is_implied(e, y) && now.contains(y) {
                let j = choose|j: int| 0 <= j < now.len() && now[j] == y;
                if j < n - 1 {
                    assert(had[j] == y);
                    assert(before.contains(y));
                    let k = choose|k: int| 0 <= k < before.len() && before[k] == y;
                    assert(out[k] == y);
                } else {
                    assert(out[out.len() - 1] == y);
                }
            }
        }
    } else {
        assert forall|y: Edge| #[trigger] out.contains(y) <==> !is_implied(e, y) && now.contains(y) by {
        }
    }
}

/// The reduction holds the relations that the others do not imply.
pub proof fn lemma_reduced_holds(e: Seq<Edge>)
    ensures
        forall|y: Edge| #[trigger] reduced(e).contains(y) <==> e.contains(y) && !is_implied(e, y),
        within(reduced(e), e),
{
    let d = distinct_edges(e);
    lemma_distinct_edges(e);
    lemma_reduced_upto(e, d, d.len());
    assert(d.take(d.len() as int) =~= d);
    assert forall|i: int| 0 <= i < reduced(e).len() implies e.contains(#[trigger] reduced(e)[i]) by {
        assert(reduced(e).contains(reduced(e)[i]));
    }
}

/// Along a walk the places of the ranks rise in an ordering that respects
/// the relations.
pub proof fn lemma_walk_rises(e: Seq<Edge>, o: Seq<CardValue>, p: Seq<CardValue>, i: int, j: int)
    requires
        respects(e, o),
        is_walk(e, p),
        0 <= i <= j < p.len(),
    ensures
        position(o, p[i]) <= position(o, p[j]),
        i < j ==> position(o, p[i]) < position(o, p[j]),
    decreases j - i,
{
    if i < j {
        lemma_walk_rises(e, o, p, i, j - 1);
        assert(is_step(e, p, j - 1));
        let k = choose|k: int| 0 <= k < e.len() && e[k] == (p[j - 1], p[j]);
        assert(position(o, e[k].0) < position(o, e[k].1));
    }
}

/// The reduction leads from the first rank of every relation to its
/// second.
pub proof fn lemma_edge_kept(e: Seq<Edge>, o: Seq<CardValue>, x: Edge)
    requires
        respects(e, o),
        e.contains(x),
    ensures
        reaches(reduced(e), x.0, x.1),
    decreases position(o, x.1) - position(o, x.0), 1int, 0int,
{
    lemma_reduced_holds(e);
    let k = choose|k: int| 0 <= k < e.len() && e[k] == x;
    assert(position(o, e[k].0) < position(o, e[k].1));
    if !is_implied(e, x) {
        lemma_edge_reaches(reduced(e), x.0, x.1);
    } else {
        let rest = without_edge(e, x);
        let p = choose|p: Seq<CardValue>| #[trigger] is_walk(rest, p) && p[0] == x.0 && p.last() == x.1;
        lemma_without_edge(e, x);
        assert forall|i: int| 0 <= i < p.len() - 1 implies #[trigger] is_step(e, p, i) by {
            assert(is_step(rest, p, i));
            assert(rest.contains((p[i], p[i + 1])));
        }
        if p.len() == 2 {
            assert(is_step(rest, p, 0));
            assert(rest.contains((p[0], p[1])));
        }
        lemma_walk_kept(e, o, x, p, p.len() - 1);
    }
}

/// The reduction leads along a walk of three ranks or more that leads from
/// the first rank of a relation to its second.
pub proof fn lemma_walk_kept(e: Seq<Edge>, o: Seq<CardValue>, x: Edge, p: Seq<CardValue>, k: int)
    requires
        respects(e, o),
        e.contains(x),
        is_walk(e, p),
        p.len() >= 3,
        p[0] == x.0,
        p.last() == x.1,
        1 <= k < p.len(),
    ensures
        reaches(reduced(e), p[0], p[k]),
    decreases position(o, x.1) - position(o, x.0), 0int, k,
{
    lemma_walk_rises(e, o, p, 0, k - 1);
    lemma_walk_rises(e, o, p, k - 1, k);
    lemma_walk_rises(e, o, p, k, p.len() - 1);
    assert(is_step(e, p, k - 1));
    lemma_edge_kept(e, o, (p[k - 1], p[k]));
    if k > 1 {
        lemma_walk_kept(e, o, x, p, k - 1);
        lemma_reaches_trans(reduced(e), p[0], p[k - 1], p[k]);
    }
}

/// The reduction leads along every walk of the relations.
pub proof fn lemma_walk_reduced(e: Seq<Edge>, o: Seq<CardValue>, p: Seq<CardValue>, k: int)
    requires
        respects(e, o),
        is_walk(e, p),
        1 <= k < p.len(),
    ensures
        reaches(reduced(e), p[0], p[k]),
    decreases k,
{
    assert(is_step(e, p, k - 1));
    lemma_edge_kept(e, o, (p[k - 1], p[k]));
    if k > 1 {
        lemma_walk_reduced(e, o, p, k - 1);
        lemma_reaches_trans(reduced(e), p[0], p[k - 1], p[k]);
    }
}

/// Among relations without cycles the transitive reduction leads from a
/// rank to another exactly where the relations do: what it drops it still
/// implies, and it holds no cycle.
pub proof fn lemma_reduced_keeps_reach(e: Seq<Edge>, a: CardValue, b: CardValue)
    requires
        acyclic(e),
    ensures
        reaches(reduced(e), a, b) == reaches(e, a, b),
        acyclic(reduced(e)),
{
    lemma_reduced_holds(e);
    if reaches(reduced(e), a, b) {
        lemma_reaches_within(reduced(e), e, a, b);
    }
    if reaches(e, a, b) {
        let o = placed_after(e, Seq::<usize>::empty(), 13);
        lemma_generated_respects(e, Seq::<usize>::empty());
        let p = choose|p: Seq<CardValue>| #[trigger] is_walk(e, p) && p[0] == a && p.last() == b;
        lemma_walk_reduced(e, o, p, p.len() - 1);
    }
    assert forall|v: CardValue| !#[trigger] reaches(reduced(e), v, v) by {
        if reaches(reduced(e), v, v) {
            lemma_reaches_within(reduced(e), e, v, v);
        }
    }
}

} // verus!
