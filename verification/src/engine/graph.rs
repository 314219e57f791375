//! Relations between ranks as a directed graph: an edge `(a, b)` says that
//! `a` is weaker than `b`. Walks, reachability and freedom from cycles.

use crate::skeleton::cards::CardValue;
use vstd::prelude::*;

verus! {

/// A relation: the first rank is weaker than the second.
pub type Edge = (CardValue, CardValue);

/// The rank at `i` is related to the rank after it.
pub open spec fn is_step(e: Seq<Edge>, p: Seq<CardValue>, i: int) -> bool {
    e.contains((p[i], p[i + 1]))
}

/// A walk is two or more ranks in which each is related to the next.
pub open spec fn is_walk(e: Seq<Edge>, p: Seq<CardValue>) -> bool {
    &&& p.len() >= 2
    &&& forall|i: int| 0 <= i < p.len() - 1 ==> #[trigger] is_step(e, p, i)
}

/// Some walk leads from `a` to `b`.
pub open spec fn reaches(e: Seq<Edge>, a: CardValue, b: CardValue) -> bool {
    exists|p: Seq<CardValue>| #[trigger] is_walk(e, p) && p[0] == a && p.last() == b
}

/// No walk leads from a rank back to itself.
pub open spec fn acyclic(e: Seq<Edge>) -> bool {
    forall|v: CardValue| !#[trigger] reaches(e, v, v)
}

/// Every edge of `e` is an edge of `f`.
pub open spec fn within(e: Seq<Edge>, f: Seq<Edge>) -> bool {
    forall|i: int| 0 <= i < e.len() ==> f.contains(#[trigger] e[i])
}

/// An edge is a walk of one step.
pub proof fn lemma_edge_reaches(e: Seq<Edge>, a: CardValue, b: CardValue)
    requires
        e.contains((a, b)),
    ensures
        reaches(e, a, b),
{
    let p = seq![a, b];
    assert forall|i: int| 0 <= i < p.len() - 1 implies #[trigger] is_step(e, p, i) by {
        assert(p[0] == a && p[1] == b);
    }
    assert(is_walk(e, p));
    assert(p[0] == a && p.last() == b);
}

/// Two walks that meet make one.
pub proof fn lemma_reaches_trans(e: Seq<Edge>, a: CardValue, b: CardValue, c: CardValue)
    requires
        reaches(e, a, b),
        reaches(e, b, c),
    ensures
        reaches(e, a, c),
{
    let p = choose|p: Seq<CardValue>| #[trigger] is_walk(e, p) && p[0] == a && p.last() == b;
    let r = choose|r: Seq<CardValue>| #[trigger] is_walk(e, r) && r[0] == b && r.last() == c;
    let q = p + r.drop_first();
    let n = p.len() as int;
    assert forall|i: int| 0 <= i < q.len() - 1 implies #[trigger] is_step(e, q, i) by {
        if i < n - 1 {
            assert(is_step(e, p, i));
            assert(q[i] == p[i] && q[i + 1] == p[i + 1]);
        } else {
            let j = i - n + 1;
            assert(is_step(e, r, j));
            assert(q[i + 1] == r[j + 1]);
            if i == n - 1 {
                assert(q[i] == p[n - 1]);
            } else {
                assert(q[i] == r[j]);
            }
        }
    }
    assert(is_walk(e, q));
    assert(q[0] == a && q.last() == c);
}

/// A walk goes on along an edge.
pub proof fn lemma_reaches_then_edge(e: Seq<Edge>, a: CardValue, b: CardValue, c: CardValue)
    requires
        reaches(e, a, b),
        e.contains((b, c)),
    ensures
        reaches(e, a, c),
{
    lemma_edge_reaches(e, b, c);
    lemma_reaches_trans(e, a, b, c);
}

/// An edge followed by a walk is a walk.
pub proof fn lemma_edge_then_reaches(e: Seq<Edge>, a: CardValue, b: CardValue, c: CardValue)
    requires
        e.contains((a, b)),
        reaches(e, b, c),
    ensures
        reaches(e, a, c),
{
    lemma_edge_reaches(e, a, b);
    lemma_reaches_trans(e, a, b, c);
}

/// A walk stays a walk when edges are added.
pub proof fn lemma_reaches_within(e: Seq<Edge>, f: Seq<Edge>, a: CardValue, b: CardValue)
    requires
        within(e, f),
        reaches(e, a, b),
    ensures
        reaches(f, a, b),
{
    let p = choose|p: Seq<CardValue>| #[trigger] is_walk(e, p) && p[0] == a && p.last() == b;
    assert forall|i: int| 0 <= i < p.len() - 1 implies #[trigger] is_step(f, p, i) by {
        assert(is_step(e, p, i));
        let k = choose|k: int| 0 <= k < e.len() && e[k] == (p[i], p[i + 1]);
        assert(f.contains(e[k]));
    }
    assert(is_walk(f, p));
}

/// In a graph without cycles every rank of a finite set is a source of the
/// set, or is reached from a source of the set: a rank of the set to which
/// no rank of the set is related.
pub proof fn lemma_source_exists(e: Seq<Edge>, u: Set<CardValue>, x: CardValue) -> (s: CardValue)
    requires
        acyclic(e),
        u.finite(),
        u.contains(x),
    ensures
        u.contains(s),
        forall|a: CardValue| u.contains(a) ==> !e.contains((a, s)),
        s == x || reaches(e, s, x),
    decreases u.len(),
{
    if exists|y: CardValue| u.contains(y) && e.contains((y, x)) {
        let y = choose|y: CardValue| u.contains(y) && e.contains((y, x));
        if y == x {
            lemma_edge_reaches(e, x, x);
            assert(false);
        }
        let u2 = u.remove(x);
        let s = lemma_source_exists(e, u2, y);
        if s == y {
            lemma_edge_reaches(e, s, x);
        } else {
            lemma_reaches_then_edge(e, s, y, x);
        }
        if e.contains((x, s)) {
            lemma_edge_then_reaches(e, x, s, x);
            assert(false);
        }
        assert forall|a: CardValue| u.contains(a) implies !e.contains((a, s)) by {
            if a != x {
                assert(u2.contains(a));
            }
        }
        s
    } else {
        x
    }
}

/// Tells whether `(a, b)` is one of the edges.
pub fn holds_edge(edges: &[Edge], a: CardValue, b: CardValue) -> (found: bool)
    ensures
        found == edges@.contains((a, b)),
{
    let mut i: usize = 0;
    while i < edges.len()
        invariant
            i <= edges.len(),
            forall|j: int| 0 <= j < i ==> edges@[j] != (a, b),
        decreases edges.len() - i,
    {
        if edges[i].0 == a && edges[i].1 == b {
            assert(edges@[i as int] == (a, b));
            return true;
        }
        i += 1;
    }
    false
}

/// How many marks are not set.
pub open spec fn unset(marks: Seq<bool>) -> nat
    decreases marks.len(),
{
    if marks.len() == 0 {
        0
    } else {
        unset(marks.drop_last()) + if marks.last() {
            0nat
        } else {
            1nat
        }
    }
}

/// Setting a mark that was not set leaves one fewer unset.
pub proof fn lemma_unset_update(marks: Seq<bool>, i: int)
    requires
        0 <= i < marks.len(),
        !marks[i],
    ensures
        unset(marks.update(i, true)) + 1 == unset(marks),
    decreases marks.len(),
{
    let after = marks.update(i, true);
    if i == marks.len() - 1 {
        assert(after.drop_last() =~= marks.drop_last());
    } else {
        lemma_unset_update(marks.drop_last(), i);
        assert(after.drop_last() =~= marks.drop_last().update(i, true));
    }
}

/// Whether the mark of a rank is set: the mark at its place in print order.
pub open spec fn marked(marks: Seq<bool>, v: CardValue) -> bool {
    marks[v.index()]
}

/// The marks are closed under the edges: where the first rank of an edge is
/// marked, so is the second.
pub open spec fn closed_marks(e: Seq<Edge>, marks: Seq<bool>) -> bool {
    forall|j: int| 0 <= j < e.len() && marked(marks, (#[trigger] e[j]).0) ==> marked(marks, e[j].1)
}

/// The marks hold every rank one edge away from `from`.
pub open spec fn holds_successors(e: Seq<Edge>, marks: Seq<bool>, from: CardValue, n: int) -> bool {
    forall|j: int| 0 <= j < n && (#[trigger] e[j]).0 == from ==> marked(marks, e[j].1)
}

/// Every marked rank is reached from `from`.
pub open spec fn marks_reached(e: Seq<Edge>, marks: Seq<bool>, from: CardValue) -> bool {
    forall|v: CardValue| #[trigger] marked(marks, v) ==> reaches(e, from, v)
}

/// Marks that hold every rank one edge away from `from` and are closed under
/// the edges hold every rank that `from` reaches.
proof fn lemma_closed_marks_hold(
    e: Seq<Edge>,
    marks: Seq<bool>,
    from: CardValue,
    p: Seq<CardValue>,
    i: int,
)
    requires
        closed_marks(e, marks),
        holds_successors(e, marks, from, e.len() as int),
        is_walk(e, p),
        p[0] == from,
        1 <= i < p.len(),
    ensures
        marked(marks, p[i]),
    decreases i,
{
    assert(is_step(e, p, i - 1));
    let k = choose|k: int| 0 <= k < e.len() && e[k] == (p[i - 1], p[i]);
    if i > 1 {
        lemma_closed_marks_hold(e, marks, from, p, i - 1);
    }
}

/// Setting the mark of a rank changes no other rank's mark.
proof fn lemma_mark_set(marks: Seq<bool>, w: CardValue)
    requires
        marks.len() == 13,
    ensures
        forall|v: CardValue|
            #[trigger] marked(marks.update(w.index(), true), v) == (marked(marks, v) || v == w),
{
}

/// Marks every rank that `from` reaches: the mark at a rank's place in print
/// order is set where some walk leads from `from` to the rank.
pub fn reach_set(edges: &[Edge], from: CardValue) -> (marks: Vec<bool>)
    ensures
        marks.len() == 13,
        forall|v: CardValue| #[trigger] marked(marks@, v) == reaches(edges@, from, v),
{
    let mut marks: Vec<bool> = Vec::new();
    while marks.len() < 13
        invariant
            marks.len() <= 13,
            forall|k: int| 0 <= k < marks.len() ==> !marks@[k],
        decreases 13 - marks.len(),
    {
        marks.push(false);
    }
    let mut i: usize = 0;
    while i < edges.len()
        invariant
            i <= edges.len(),
            marks.len() == 13,
            marks_reached(edges@, marks@, from),
            holds_successors(edges@, marks@, from, i as int),
        decreases edges.len() - i,
    {
        if edges[i].0 == from {
            let k = edges[i].1.canonical_index();
            proof {
                assert(edges@.contains((from, edges@[i as int].1)));
                lemma_edge_reaches(edges@, from, edges@[i as int].1);
                lemma_mark_set(marks@, edges@[i as int].1);
            }
            marks.set(k, true);
        }
        i += 1;
    }
    let mut changed = true;
    while changed
        invariant
            marks.len() == 13,
            marks_reached(edges@, marks@, from),
            holds_successors(edges@, marks@, from, edges.len() as int),
            !changed ==> closed_marks(edges@, marks@),
        decreases
                unset(marks@) + if changed {
                    1nat
                } else {
                    0nat
                },
    {
        changed = false;
        let ghost start = marks@;
        let mut j: usize = 0;
        while j < edges.len()
            invariant
                j <= edges.len(),
                marks.len() == 13,
                marks_reached(edges@, marks@, from),
                holds_successors(edges@, marks@, from, edges.len() as int),
                !changed ==> marks@ == start,
                !changed ==> forall|k: int|
                    0 <= k < j && marked(marks@, (#[trigger] edges@[k]).0) ==> marked(
                        marks@,
                        edges@[k].1,
                    ),
                changed ==> unset(marks@) < unset(start),
                unset(marks@) <= unset(start),
            decreases edges.len() - j,
        {
            let a = edges[j].0.canonical_index();
            let b = edges[j].1.canonical_index();
            if marks[a] && !marks[b] {
                proof {
                    assert(edges@.contains((edges@[j as int].0, edges@[j as int].1)));
                    assert(marked(marks@, edges@[j as int].0));
                    lemma_reaches_then_edge(edges@, from, edges@[j as int].0, edges@[j as int].1);
                    lemma_unset_update(marks@, b as int);
                    lemma_mark_set(marks@, edges@[j as int].1);
                }
                marks.set(b, true);
                changed = true;
            }
            j += 1;
        }
    }
    proof {
        assert forall|v: CardValue| #[trigger] marked(marks@, v) == reaches(edges@, from, v) by {
            if reaches(edges@, from, v) {
                let p = choose|p: Seq<CardValue>| #[trigger]
                    is_walk(edges@, p) && p[0] == from && p.last() == v;
                lemma_closed_marks_hold(edges@, marks@, from, p, p.len() - 1);
            }
        }
    }
    marks
}

/// Tells whether some walk leads from `a` to `b`.
pub fn reachable(edges: &[Edge], a: CardValue, b: CardValue) -> (found: bool)
    ensures
        found == reaches(edges@, a, b),
{
    let marks = reach_set(edges, a);
    assert(marked(marks@, b) == reaches(edges@, a, b));
    marks[b.canonical_index()]
}

/// Tells whether the relations are free of cycles.
pub fn is_acyclic(edges: &[Edge]) -> (ok: bool)
    ensures
        ok == acyclic(edges@),
{
    let mut k: usize = 0;
    while k < 13
        invariant
            k <= 13,
            forall|v: CardValue| v.index() < k ==> !#[trigger] reaches(edges@, v, v),
        decreases 13 - k,
    {
        let v = CardValue::from_canonical_index(k);
        if reachable(edges, v, v) {
            return false;
        }
        k += 1;
    }
    true
}

} // verus!
