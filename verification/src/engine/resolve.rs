//! Breaking cycles: which of the relations that stand on a cycle can be kept
//! without contradiction, the most trusted first.

use crate::engine::cycles::rank_views;
use crate::engine::graph::{
    acyclic, is_step, is_walk, lemma_edge_reaches, lemma_reaches_then_edge, lemma_reaches_trans,
    lemma_reaches_within, marked, reach_set, reachable, reaches, within, Edge,
};
use crate::engine::relations::{distinct_edges, lemma_distinct_edges, remove_redundancies};
use crate::skeleton::cards::{canonical_values, CardValue};
use vstd::prelude::*;

verus! {

/// The relation `x` is the link of the cycle `c` at `i`.
pub open spec fn is_link(c: Seq<CardValue>, i: int, x: Edge) -> bool {
    c[i] == x.0 && c[i + 1] == x.1
}

/// The relation `x` is a link of the cycle `c`.
pub open spec fn on_cycle(c: Seq<CardValue>, x: Edge) -> bool {
    exists|i: int| 0 <= i < c.len() - 1 && #[trigger] is_link(c, i, x)
}

/// The relation `x` is a link of one of the first `n` cycles.
pub open spec fn on_cycle_before(cycles: Seq<Seq<CardValue>>, x: Edge, n: int) -> bool {
    exists|j: int| 0 <= j < n && j < cycles.len() && on_cycle(#[trigger] cycles[j], x)
}

/// The relation `x` is a link of one of the cycles.
pub open spec fn on_some_cycle(cycles: Seq<Seq<CardValue>>, x: Edge) -> bool {
    on_cycle_before(cycles, x, cycles.len() as int)
}

/// Of the first `n` relations of `d`, those that stand on a cycle (`on`) or
/// those that do not (`!on`).
pub open spec fn pick_edges(d: Seq<Edge>, cycles: Seq<Seq<CardValue>>, on: bool, n: nat) -> Seq<Edge>
    decreases n,
{
    if n == 0 {
        Seq::empty()
    } else {
        let before = pick_edges(d, cycles, on, (n - 1) as nat);
        if on_some_cycle(cycles, d[n - 1]) == on {
            before.push(d[n - 1])
        } else {
            before
        }
    }
}

/// The distinct relations that stand on none of the cycles.
pub open spec fn survivors(e: Seq<Edge>, cycles: Seq<Seq<CardValue>>) -> Seq<Edge> {
    pick_edges(distinct_edges(e), cycles, false, distinct_edges(e).len())
}

/// The distinct relations that stand on one of the cycles.
pub open spec fn candidates(e: Seq<Edge>, cycles: Seq<Seq<CardValue>>) -> Seq<Edge> {
    pick_edges(distinct_edges(e), cycles, true, distinct_edges(e).len())
}

/// How many of the first `n` ranks of the print order reach `v`.
pub open spec fn count_before(s: Seq<Edge>, v: CardValue, n: nat) -> nat
    decreases n,
{
    if n == 0 {
        0
    } else {
        count_before(s, v, (n - 1) as nat) + if reaches(s, canonical_values()[n - 1], v) {
            1nat
        } else {
            0nat
        }
    }
}

/// How many of the first `n` ranks of the print order `v` reaches.
pub open spec fn count_after(s: Seq<Edge>, v: CardValue, n: nat) -> nat
    decreases n,
{
    if n == 0 {
        0
    } else {
        count_after(s, v, (n - 1) as nat) + if reaches(s, v, canonical_values()[n - 1]) {
            1nat
        } else {
            0nat
        }
    }
}

/// How firmly the relations `s` place the rank `v`: the number of ranks
/// that they put below it and above it.
pub open spec fn linearity(s: Seq<Edge>, v: CardValue) -> nat {
    count_before(s, v, 13) + count_after(s, v, 13)
}

/// How well the relations `s` agree with placing the two ranks of `x`: one
/// more than the linearity of both.
pub open spec fn agreement(s: Seq<Edge>, x: Edge) -> nat {
    1 + linearity(s, x.0) + linearity(s, x.1)
}

/// The agreement summed over the first `n` links of the cycle `c`.
pub open spec fn cycle_total(s: Seq<Edge>, c: Seq<CardValue>, n: nat) -> nat
    decreases n,
{
    if n == 0 {
        0
    } else {
        cycle_total(s, c, (n - 1) as nat) + agreement(s, (c[n - 1], c[n as int]))
    }
}

/// The first cycle of which `x` is a link.
pub open spec fn first_cycle_with(cycles: Seq<Seq<CardValue>>, x: Edge) -> int {
    choose|j: int|
        0 <= j < cycles.len() && on_cycle(#[trigger] cycles[j], x) && !on_cycle_before(cycles, x, j)
}

/// The trust in a relation that stands on a cycle, in parts per million:
/// its share of the agreement of all the links of the first cycle on which
/// it stands. Under a prior that holds every link of the cycle equally
/// likely to be right, this is the posterior weight of the relation.
pub open spec fn trust(s: Seq<Edge>, cycles: Seq<Seq<CardValue>>, x: Edge) -> int {
    let c = cycles[first_cycle_with(cycles, x)];
    ((agreement(s, x) * 1000000) as int) / (cycle_total(s, c, (c.len() - 1) as nat) as int)
}

/// The trust in each of the relations `xs`.
pub open spec fn trusts(s: Seq<Edge>, cycles: Seq<Seq<CardValue>>, xs: Seq<Edge>) -> Seq<int> {
    Seq::new(xs.len(), |i: int| trust(s, cycles, xs[i]))
}

/// Index `k` holds the greatest key, and no earlier index holds one as
/// great.
pub open spec fn is_first_max(keys: Seq<int>, k: int) -> bool {
    &&& 0 <= k < keys.len()
    &&& forall|j: int| 0 <= j < keys.len() ==> keys[j] <= keys[k]
    &&& forall|j: int| 0 <= j < k ==> keys[j] < keys[k]
}

/// The first index that holds the greatest key.
pub open spec fn first_max(keys: Seq<int>) -> int {
    choose|k: int| is_first_max(keys, k)
}

/// Only one index is the first that holds the greatest key.
pub proof fn lemma_first_max_is(keys: Seq<int>, k: int)
    requires
        is_first_max(keys, k),
    ensures
        first_max(keys) == k,
{
    let m = first_max(keys);
    assert(is_first_max(keys, m));
    if m < k {
        assert(keys[m] < keys[k]);
    } else if k < m {
        assert(keys[k] < keys[m]);
    }
}

/// Keys that are not empty have a first index that holds the greatest.
pub proof fn lemma_first_max_exists(keys: Seq<int>)
    requires
        keys.len() > 0,
    ensures
        is_first_max(keys, first_max(keys)),
    decreases keys.len(),
{
    if keys.len() == 1 {
        assert(is_first_max(keys, 0));
    } else {
        let d = keys.drop_last();
        lemma_first_max_exists(d);
        let m = first_max(d);
        let top = keys.last();
        let end = keys.len() - 1;
        assert forall|j: int| 0 <= j < d.len() implies #[trigger] keys[j] <= d[m] by {
            assert(d[j] <= d[m]);
        }
        assert forall|j: int| 0 <= j < m implies #[trigger] keys[j] < d[m] by {
            assert(d[j] < d[m]);
        }
        assert(keys[m] == d[m]);
        if top > d[m] {
            assert(is_first_max(keys, end));
        } else {
            assert(is_first_max(keys, m));
        }
    }
}

/// The relations `xs` ordered by decreasing key; relations with equal keys
/// keep their order.
pub open spec fn by_decreasing(xs: Seq<Edge>, keys: Seq<int>) -> Seq<Edge>
    decreases xs.len(),
{
    if xs.len() == 0 || keys.len() != xs.len() {
        Seq::empty()
    } else {
        let k = first_max(keys);
        if 0 <= k < xs.len() {
            seq![xs[k]] + by_decreasing(xs.remove(k), keys.remove(k))
        } else {
            Seq::empty()
        }
    }
}

/// Ordering by key keeps distinct relations distinct.
pub proof fn lemma_by_decreasing_distinct(xs: Seq<Edge>, keys: Seq<int>)
    requires
        xs.len() == keys.len(),
        xs.no_duplicates(),
    ensures
        by_decreasing(xs, keys).no_duplicates(),
    decreases xs.len(),
{
    if xs.len() > 0 {
        lemma_first_max_exists(keys);
        let k = first_max(keys);
        let rx = xs.remove(k);
        let rest = by_decreasing(rx, keys.remove(k));
        assert forall|i: int, j: int| 0 <= i < rx.len() && 0 <= j < rx.len() && i != j implies rx[i]
            != rx[j] by {
            let i2 = if i < k {
                i
            } else {
                i + 1
            };
            let j2 = if j < k {
                j
            } else {
                j + 1
            };
            assert(rx[i] == xs[i2] && rx[j] == xs[j2]);
        }
        lemma_by_decreasing_distinct(rx, keys.remove(k));
        lemma_by_decreasing_holds(rx, keys.remove(k));
        let out = by_decreasing(xs, keys);
        assert(out == seq![xs[k]] + rest);
        assert forall|i: int| 0 <= i < rest.len() implies #[trigger] rest[i] != xs[k] by {
            assert(rx.contains(rest[i]));
            let m = choose|m: int| 0 <= m < rx.len() && rx[m] == rest[i];
            let m2 = if m < k {
                m
            } else {
                m + 1
            };
            assert(rx[m] == xs[m2]);
        }
        assert forall|i: int, j: int| 0 <= i < out.len() && 0 <= j < out.len() && i != j implies out[i]
            != out[j] by {
            if i > 0 {
                assert(out[i] == rest[i - 1]);
            }
            if j > 0 {
                assert(out[j] == rest[j - 1]);
            }
        }
    }
}

/// Ordering by key keeps every relation and adds none.
pub proof fn lemma_by_decreasing_holds(xs: Seq<Edge>, keys: Seq<int>)
    requires
        xs.len() == keys.len(),
    ensures
        by_decreasing(xs, keys).len() == xs.len(),
        forall|i: int| 0 <= i < xs.len() ==> by_decreasing(xs, keys).contains(#[trigger] xs[i]),
        forall|i: int|
            0 <= i < by_decreasing(xs, keys).len() ==> xs.contains(
                #[trigger] by_decreasing(xs, keys)[i],
            ),
    decreases xs.len(),
{
    if xs.len() > 0 {
        lemma_first_max_exists(keys);
        let k = first_max(keys);
        let rest = by_decreasing(xs.remove(k), keys.remove(k));
        lemma_by_decreasing_holds(xs.remove(k), keys.remove(k));
        let out = by_decreasing(xs, keys);
        assert(out == seq![xs[k]] + rest);
        assert forall|i: int| 0 <= i < xs.len() implies out.contains(#[trigger] xs[i]) by {
            if i == k {
                assert(out[0] == xs[k]);
            } else {
                let j = if i < k {
                    i
                } else {
                    i - 1
                };
                assert(xs.remove(k)[j] == xs[i]);
                assert(rest.contains(xs.remove(k)[j]));
                let m = choose|m: int| 0 <= m < rest.len() && rest[m] == xs[i];
                assert(out[m + 1] == xs[i]);
            }
        }
        assert forall|i: int| 0 <= i < out.len() implies xs.contains(#[trigger] out[i]) by {
            if i == 0 {
                assert(xs[k] == out[0]);
            } else {
                assert(out[i] == rest[i - 1]);
                assert(xs.remove(k).contains(rest[i - 1]));
                let m = choose|m: int| 0 <= m < xs.remove(k).len() && xs.remove(k)[m] == rest[i - 1];
                let j = if m < k {
                    m
                } else {
                    m + 1
                };
                assert(xs[j] == out[i]);
            }
        }
    }
}

/// A relation can be added where it relates two different ranks and no walk
/// leads back from its second rank to its first.
pub open spec fn can_add(cur: Seq<Edge>, x: Edge) -> bool {
    x.0 != x.1 && !reaches(cur, x.1, x.0)
}

/// The relations with `x` added where it can be.
pub open spec fn with_added(cur: Seq<Edge>, x: Edge) -> Seq<Edge> {
    if can_add(cur, x) {
        cur.push(x)
    } else {
        cur
    }
}

/// The relations with each of `xs` added in turn where it can be.
pub open spec fn with_all_added(cur: Seq<Edge>, xs: Seq<Edge>) -> Seq<Edge>
    decreases xs.len(),
{
    if xs.len() == 0 {
        cur
    } else {
        with_added(with_all_added(cur, xs.drop_last()), xs.last())
    }
}

/// The relations that are kept when the cycles are broken: first the
/// relations that stand on no cycle, then the relations on cycles by
/// decreasing trust, each added only where it closes no cycle with the
/// relations kept before it.
pub open spec fn resolved(e: Seq<Edge>, cycles: Seq<Seq<CardValue>>) -> Seq<Edge> {
    let s = survivors(e, cycles);
    let c = candidates(e, cycles);
    with_all_added(with_all_added(Seq::empty(), s), by_decreasing(c, trusts(s, cycles, c)))
}

/// A walk through relations with one more relation either avoids the new
/// relation or passes it: it leads to the first rank of the new relation and
/// on from the second.
proof fn lemma_walk_with_new_edge(cur: Seq<Edge>, x: Edge, w: Seq<CardValue>)
    requires
        can_add(cur, x),
        is_walk(cur.push(x), w),
    ensures
        reaches(cur, w[0], w.last()) || ((w[0] == x.0 || reaches(cur, w[0], x.0)) && (w.last() == x.1
            || reaches(cur, x.1, w.last()))),
    decreases w.len(),
{
    let f = cur.push(x);
    let n = w.len() as int;
    let a = w[0];
    let m = w[n - 2];
    let y = w[n - 1];
    assert(is_step(f, w, n - 2));
    let k = choose|k: int| 0 <= k < f.len() && f[k] == (m, y);
    let old = k < cur.len();
    if old {
        assert(cur[k] == (m, y));
        assert(cur.contains((m, y)));
    } else {
        assert(x == (m, y));
    }
    if n == 2 {
        if old {
            lemma_edge_reaches(cur, m, y);
        }
    } else {
        let d = w.drop_last();
        assert forall|i: int| 0 <= i < d.len() - 1 implies #[trigger] is_step(f, d, i) by {
            assert(is_step(f, w, i));
            assert(d[i] == w[i] && d[i + 1] == w[i + 1]);
        }
        assert(d[0] == a && d.last() == m);
        lemma_walk_with_new_edge(cur, x, d);
        if reaches(cur, a, m) {
            if old {
                lemma_reaches_then_edge(cur, a, m, y);
            }
        } else {
            if old {
                if m == x.1 {
                    lemma_edge_reaches(cur, m, y);
                } else {
                    lemma_reaches_then_edge(cur, x.1, m, y);
                }
            } else {
                assert(false);
            }
        }
    }
}

/// Adding a relation where it can be added keeps the relations free of
/// cycles.
pub proof fn lemma_added_acyclic(cur: Seq<Edge>, x: Edge)
    requires
        acyclic(cur),
    ensures
        acyclic(with_added(cur, x)),
{
    if can_add(cur, x) {
        let f = cur.push(x);
        assert forall|v: CardValue| !#[trigger] reaches(f, v, v) by {
            if reaches(f, v, v) {
                let w = choose|w: Seq<CardValue>| #[trigger]
                    is_walk(f, w) && w[0] == v && w.last() == v;
                lemma_walk_with_new_edge(cur, x, w);
                if v != x.0 && v != x.1 {
                    lemma_reaches_trans(cur, x.1, v, x.0);
                }
            }
        }
    }
}

/// Relations without edges have no cycles.
pub proof fn lemma_empty_acyclic()
    ensures
        acyclic(Seq::<Edge>::empty()),
{
    let e = Seq::<Edge>::empty();
    assert forall|v: CardValue| !#[trigger] reaches(e, v, v) by {
        if reaches(e, v, v) {
            let w = choose|w: Seq<CardValue>| #[trigger] is_walk(e, w) && w[0] == v && w.last() == v;
            assert(is_step(e, w, 0));
        }
    }
}

/// What adding relations in turn keeps and gives: freedom from cycles, the
/// relations held before, no relation from elsewhere, and for each relation
/// that was tried either the relation itself or the reason why it could not
/// be added.
pub proof fn lemma_all_added(cur: Seq<Edge>, xs: Seq<Edge>, e: Seq<Edge>)
    requires
        acyclic(cur),
        within(cur, e),
        within(xs, e),
    ensures
        acyclic(with_all_added(cur, xs)),
        within(cur, with_all_added(cur, xs)),
        within(with_all_added(cur, xs), e),
        forall|i: int|
            0 <= i < xs.len() ==> with_all_added(cur, xs).contains(#[trigger] xs[i]) || xs[i].0
                == xs[i].1 || reaches(with_all_added(cur, xs), xs[i].1, xs[i].0),
    decreases xs.len(),
{
    let out = with_all_added(cur, xs);
    if xs.len() == 0 {
        assert forall|i: int| 0 <= i < cur.len() implies out.contains(#[trigger] cur[i]) by {}
    } else {
        let d = xs.drop_last();
        let x = xs.last();
        assert(within(d, e)) by {
            assert forall|i: int| 0 <= i < d.len() implies e.contains(#[trigger] d[i]) by {
                assert(d[i] == xs[i]);
            }
        }
        lemma_all_added(cur, d, e);
        let mid = with_all_added(cur, d);
        lemma_added_acyclic(mid, x);
        assert(within(mid, out)) by {
            assert forall|i: int| 0 <= i < mid.len() implies out.contains(#[trigger] mid[i]) by {
                assert(out[i] == mid[i]);
            }
        }
        assert forall|i: int| 0 <= i < cur.len() implies out.contains(#[trigger] cur[i]) by {
            assert(mid.contains(cur[i]));
            let k = choose|k: int| 0 <= k < mid.len() && mid[k] == cur[i];
            assert(out.contains(mid[k]));
        }
        assert forall|i: int| 0 <= i < out.len() implies e.contains(#[trigger] out[i]) by {
            if i < mid.len() {
                assert(out[i] == mid[i]);
            } else {
                assert(out[i] == xs[xs.len() - 1]);
            }
        }
        assert forall|i: int| 0 <= i < xs.len() implies out.contains(#[trigger] xs[i]) || xs[i].0
            == xs[i].1 || reaches(out, xs[i].1, xs[i].0) by {
            if i < d.len() {
                assert(d[i] == xs[i]);
                if mid.contains(d[i]) {
                    let k = choose|k: int| 0 <= k < mid.len() && mid[k] == d[i];
                    assert(out.contains(mid[k]));
                } else if d[i].0 != d[i].1 {
                    lemma_reaches_within(mid, out, d[i].1, d[i].0);
                }
            } else {
                if can_add(mid, x) {
                    assert(out[out.len() - 1] == x);
                }
            }
        }
    }
}

/// The picked relations are relations of `d`, and each relation of `d` of
/// the wanted kind is picked.
pub proof fn lemma_pick_edges(d: Seq<Edge>, cycles: Seq<Seq<CardValue>>, on: bool, n: nat)
    requires
        n <= d.len(),
    ensures
        within(pick_edges(d, cycles, on, n), d),
        forall|i: int|
            0 <= i < n && on_some_cycle(cycles, #[trigger] d[i]) == on ==> pick_edges(
                d,
                cycles,
                on,
                n,
            ).contains(d[i]),
        forall|i: int|
            0 <= i < pick_edges(d, cycles, on, n).len() ==> on_some_cycle(
                cycles,
                #[trigger] pick_edges(d, cycles, on, n)[i],
            ) == on,
    decreases n,
{
    if n > 0 {
        lemma_pick_edges(d, cycles, on, (n - 1) as nat);
        let before = pick_edges(d, cycles, on, (n - 1) as nat);
        let out = pick_edges(d, cycles, on, n);
        assert forall|i: int| 0 <= i < out.len() implies on_some_cycle(cycles, #[trigger] out[i])
            == on by {
            if i < before.len() {
                assert(out[i] == before[i]);
            }
        }
        assert forall|i: int| 0 <= i < out.len() implies d.contains(#[trigger] out[i]) by {
            if i < before.len() {
                assert(out[i] == before[i]);
            }
        }
        assert forall|i: int| 0 <= i < n && on_some_cycle(cycles, #[trigger] d[i]) == on implies out.contains(
            d[i],
        ) by {
            if i < n - 1 {
                assert(before.contains(d[i]));
                let k = choose|k: int| 0 <= k < before.len() && before[k] == d[i];
                assert(out[k] == d[i]);
            } else {
                assert(out[out.len() - 1] == d[i]);
            }
        }
    }
}

/// The relations kept when cycles are broken are free of cycles, they are
/// relations of `e`, and every relation of `e` that is not kept relates a
/// rank to itself or would close a cycle with the relations kept.
pub proof fn lemma_resolved(e: Seq<Edge>, cycles: Seq<Seq<CardValue>>)
    ensures
        acyclic(resolved(e, cycles)),
        within(resolved(e, cycles), e),
        forall|k: int|
            0 <= k < e.len() ==> resolved(e, cycles).contains(#[trigger] e[k]) || e[k].0 == e[k].1
                || reaches(resolved(e, cycles), e[k].1, e[k].0),
{
    let d = distinct_edges(e);
    lemma_distinct_edges(e);
    let s = survivors(e, cycles);
    let c = candidates(e, cycles);
    lemma_pick_edges(d, cycles, false, d.len());
    lemma_pick_edges(d, cycles, true, d.len());
    assert(within(d, e)) by {
        assert forall|i: int| 0 <= i < d.len() implies e.contains(#[trigger] d[i]) by {
            assert(d.contains(d[i]));
        }
    }
    assert(within(s, e)) by {
        assert forall|i: int| 0 <= i < s.len() implies e.contains(#[trigger] s[i]) by {
            assert(d.contains(s[i]));
        }
    }
    assert(within(c, e)) by {
        assert forall|i: int| 0 <= i < c.len() implies e.contains(#[trigger] c[i]) by {
            assert(d.contains(c[i]));
        }
    }
    let keys = trusts(s, cycles, c);
    let ordered = by_decreasing(c, keys);
    lemma_by_decreasing_holds(c, keys);
    assert(within(ordered, e)) by {
        assert forall|i: int| 0 <= i < ordered.len() implies e.contains(#[trigger] ordered[i]) by {
            assert(c.contains(ordered[i]));
            let k = choose|k: int| 0 <= k < c.len() && c[k] == ordered[i];
            assert(e.contains(c[k]));
        }
    }
    lemma_empty_acyclic();
    let empty = Seq::<Edge>::empty();
    lemma_all_added(empty, s, e);
    let kept = with_all_added(empty, s);
    lemma_all_added(kept, ordered, e);
    let out = with_all_added(kept, ordered);
    assert forall|k: int| 0 <= k < e.len() implies out.contains(#[trigger] e[k]) || e[k].0 == e[k].1
        || reaches(out, e[k].1, e[k].0) by {
        let x = e[k];
        assert(e.contains(x));
        assert(d.contains(x));
        let i = choose|i: int| 0 <= i < d.len() && d[i] == x;
        if on_some_cycle(cycles, d[i]) {
            assert(c.contains(d[i]));
            let j = choose|j: int| 0 <= j < c.len() && c[j] == x;
            assert(ordered.contains(c[j]));
            let m = choose|m: int| 0 <= m < ordered.len() && ordered[m] == x;
            assert(out.contains(ordered[m]) || ordered[m].0 == ordered[m].1 || reaches(
                out,
                ordered[m].1,
                ordered[m].0,
            ));
        } else {
            assert(s.contains(d[i]));
            let j = choose|j: int| 0 <= j < s.len() && s[j] == x;
            assert(kept.contains(s[j]) || s[j].0 == s[j].1 || reaches(kept, s[j].1, s[j].0));
            if kept.contains(x) {
                let m = choose|m: int| 0 <= m < kept.len() && kept[m] == x;
                assert(out.contains(kept[m]));
            } else if x.0 != x.1 {
                lemma_reaches_within(kept, out, x.1, x.0);
            }
        }
    }
}


/// Cycle-breaking: the relations that resolution keeps hold no cycle,
/// whatever relations and whatever cycles it was given, so that the search
/// for cycles reports nothing on them.
pub proof fn lemma_resolution_leaves_no_cycle(e: Seq<Edge>, cycles: Seq<Seq<CardValue>>)
    ensures
        acyclic(resolved(e, cycles)),
{
    lemma_resolved(e, cycles);
}

/// The total agreement of a cycle is at least the agreement of each of its
/// links.
proof fn lemma_cycle_total_covers(s: Seq<Edge>, c: Seq<CardValue>, n: nat, i: int)
    requires
        0 <= i < n,
    ensures
        cycle_total(s, c, n) >= agreement(s, (c[i], c[i + 1])),
    decreases n,
{
    if i < n - 1 {
        lemma_cycle_total_covers(s, c, (n - 1) as nat, i);
    }
}

/// The first cycle with `x` is the cycle at `j` where `x` is a link of it
/// and of none before it.
proof fn lemma_first_cycle_is(cycles: Seq<Seq<CardValue>>, x: Edge, j: int)
    requires
        0 <= j < cycles.len(),
        on_cycle(cycles[j], x),
        !on_cycle_before(cycles, x, j),
    ensures
        first_cycle_with(cycles, x) == j,
{
    let f = first_cycle_with(cycles, x);
    assert(0 <= f < cycles.len() && on_cycle(cycles[f], x) && !on_cycle_before(cycles, x, f));
    if f < j {
        assert(on_cycle_before(cycles, x, j));
    } else if j < f {
        assert(on_cycle_before(cycles, x, f));
    }
}

/// Tells whether `x` is a link of the cycle `c`.
pub fn on_cycle_at(c: &[CardValue], x: Edge) -> (found: bool)
    ensures
        found == on_cycle(c@, x),
{
    if c.len() == 0 {
        return false;
    }
    let mut i: usize = 0;
    while i < c.len() - 1
        invariant
            c.len() > 0,
            i <= c.len() - 1,
            forall|j: int| 0 <= j < i ==> !#[trigger] is_link(c@, j, x),
        decreases c.len() - i,
    {
        if c[i] == x.0 && c[i + 1] == x.1 {
            assert(is_link(c@, i as int, x));
            return true;
        }
        i += 1;
    }
    false
}

/// Finds the first cycle of which `x` is a link.
fn first_cycle_index(cycles: &[Vec<CardValue>], x: Edge) -> (r: Option<usize>)
    ensures
        r is None <==> !on_some_cycle(rank_views(cycles@), x),
        r matches Some(j) ==> j < cycles.len() && first_cycle_with(rank_views(cycles@), x) == j
            && on_cycle(cycles@[j as int]@, x),
{
    let ghost views = rank_views(cycles@);
    let mut j: usize = 0;
    while j < cycles.len()
        invariant
            j <= cycles.len(),
            views == rank_views(cycles@),
            !on_cycle_before(views, x, j as int),
        decreases cycles.len() - j,
    {
        if on_cycle_at(cycles[j].as_slice(), x) {
            proof {
                assert(views[j as int] == cycles@[j as int]@);
                lemma_first_cycle_is(views, x, j as int);
                assert(on_cycle_before(views, x, views.len() as int));
            }
            return Some(j);
        }
        proof {
            assert(views[j as int] == cycles@[j as int]@);
            assert forall|k: int| 0 <= k < j + 1 && k < views.len() implies !on_cycle(
                #[trigger] views[k],
                x,
            ) by {
                if k < j {
                    assert(!on_cycle_before(views, x, j as int));
                }
            }
        }
        j += 1;
    }
    None
}

/// The relations of `distinct` that stand on a cycle, or those that do not.
fn pick(distinct: &Vec<Edge>, cycles: &[Vec<CardValue>], on: bool) -> (out: Vec<Edge>)
    ensures
        out@ == pick_edges(distinct@, rank_views(cycles@), on, distinct.len() as nat),
{
    let mut out: Vec<Edge> = Vec::new();
    let mut i: usize = 0;
    while i < distinct.len()
        invariant
            i <= distinct.len(),
            out@ == pick_edges(distinct@, rank_views(cycles@), on, i as nat),
        decreases distinct.len() - i,
    {
        let found = first_cycle_index(cycles, distinct[i]).is_some();
        if found == on {
            out.push(distinct[i]);
        }
        i += 1;
    }
    out
}

/// The table holds for every rank, by its place in print order, the marks of
/// the ranks that it reaches.
pub open spec fn is_closure(s: Seq<Edge>, table: Seq<Vec<bool>>) -> bool {
    &&& table.len() == 13
    &&& forall|u: int| 0 <= u < 13 ==> (#[trigger] table[u]).len() == 13
    &&& forall|u: int, w: CardValue|
        0 <= u < 13 ==> #[trigger] marked(table[u]@, w) == reaches(s, canonical_values()[u], w)
}

/// For every rank the ranks that it reaches.
fn closure_of(relations: &[Edge]) -> (table: Vec<Vec<bool>>)
    ensures
        is_closure(relations@, table@),
{
    let mut table: Vec<Vec<bool>> = Vec::new();
    let mut u: usize = 0;
    while u < 13
        invariant
            u <= 13,
            table.len() == u,
            forall|k: int| 0 <= k < u ==> (#[trigger] table@[k]).len() == 13,
            forall|k: int, w: CardValue|
                0 <= k < u ==> #[trigger] marked(table@[k]@, w) == reaches(
                    relations@,
                    canonical_values()[k],
                    w,
                ),
        decreases 13 - u,
    {
        let row = reach_set(relations, CardValue::from_canonical_index(u));
        table.push(row);
        u += 1;
    }
    table
}

/// How firmly the relations place the rank `v`.
fn linearity_of(table: &Vec<Vec<bool>>, v: CardValue, Ghost(s): Ghost<Seq<Edge>>) -> (n: u64)
    requires
        is_closure(s, table@),
    ensures
        n == linearity(s, v),
        n <= 26,
{
    let at = v.canonical_index();
    let mut before: u64 = 0;
    let mut after: u64 = 0;
    let mut k: usize = 0;
    while k < 13
        invariant
            k <= 13,
            at == v.index(),
            is_closure(s, table@),
            before == count_before(s, v, k as nat),
            after == count_after(s, v, k as nat),
            before <= k,
            after <= k,
        decreases 13 - k,
    {
        proof {
            assert(marked(table@[k as int]@, v) == reaches(s, canonical_values()[k as int], v));
            assert(marked(table@[at as int]@, canonical_values()[k as int]) == reaches(
                s,
                canonical_values()[at as int],
                canonical_values()[k as int],
            ));
        }
        if table[k][at] {
            before += 1;
        }
        if table[at][k] {
            after += 1;
        }
        k += 1;
    }
    before + after
}

/// How well the relations agree with placing the two ranks of `x`.
fn agreement_of(table: &Vec<Vec<bool>>, x: Edge, Ghost(s): Ghost<Seq<Edge>>) -> (n: u64)
    requires
        is_closure(s, table@),
    ensures
        n == agreement(s, x),
        1 <= n <= 53,
{
    1 + linearity_of(table, x.0, Ghost(s)) + linearity_of(table, x.1, Ghost(s))
}

/// The agreement summed over the links of a cycle.
fn cycle_total_of(table: &Vec<Vec<bool>>, c: &[CardValue], Ghost(s): Ghost<Seq<Edge>>) -> (total: u128)
    requires
        is_closure(s, table@),
        c.len() > 0,
    ensures
        total == cycle_total(s, c@, (c.len() - 1) as nat),
{
    let mut total: u128 = 0;
    let mut i: usize = 0;
    while i < c.len() - 1
        invariant
            is_closure(s, table@),
            c.len() > 0,
            i <= c.len() - 1,
            total == cycle_total(s, c@, i as nat),
            total <= 53 * i,
        decreases c.len() - i,
    {
        let a = agreement_of(table, (c[i], c[i + 1]), Ghost(s));
        total = total + a as u128;
        i += 1;
    }
    total
}

/// The keys of a vector as integers.
pub open spec fn key_ints(v: Seq<u64>) -> Seq<int> {
    Seq::new(v.len(), |i: int| v[i] as int)
}

/// Finds the first index that holds the greatest key.
fn first_max_index(keys: &Vec<u64>) -> (k: usize)
    requires
        keys.len() > 0,
    ensures
        k < keys.len(),
        k as int == first_max(key_ints(keys@)),
{
    let mut best: usize = 0;
    let mut i: usize = 1;
    while i < keys.len()
        invariant
            1 <= i <= keys.len(),
            best < i,
            forall|j: int| 0 <= j < i ==> keys@[j] <= keys@[best as int],
            forall|j: int| 0 <= j < best ==> keys@[j] < keys@[best as int],
        decreases keys.len() - i,
    {
        if keys[i] > keys[best] {
            best = i;
        }
        i += 1;
    }
    proof {
        lemma_first_max_is(key_ints(keys@), best as int);
    }
    best
}

/// Orders relations by decreasing key; relations with equal keys keep their
/// order.
pub fn order_by_keys(xs: Vec<Edge>, keys: Vec<u64>) -> (out: Vec<Edge>)
    requires
        xs.len() == keys.len(),
    ensures
        out@ == by_decreasing(xs@, key_ints(keys@)),
{
    let ghost all = by_decreasing(xs@, key_ints(keys@));
    let mut xs = xs;
    let mut keys = keys;
    let mut out: Vec<Edge> = Vec::new();
    assert(out@ + all =~= all);
    while xs.len() > 0
        invariant
            xs.len() == keys.len(),
            out@ + by_decreasing(xs@, key_ints(keys@)) == all,
        decreases xs.len(),
    {
        let k = first_max_index(&keys);
        let ghost had = out@;
        let ghost left = xs@;
        let ghost left_keys = key_ints(keys@);
        let x = xs.remove(k);
        keys.remove(k);
        out.push(x);
        proof {
            assert(key_ints(keys@) =~= left_keys.remove(k as int));
            assert(out@ + by_decreasing(xs@, key_ints(keys@)) =~= had + by_decreasing(
                left,
                left_keys,
            ));
        }
    }
    assert(out@ + Seq::<Edge>::empty() =~= out@);
    out
}

/// Adds each of the relations in turn where it closes no cycle.
fn add_all(cur: Vec<Edge>, xs: &Vec<Edge>) -> (out: Vec<Edge>)
    ensures
        out@ == with_all_added(cur@, xs@),
{
    let mut out = cur;
    let mut i: usize = 0;
    assert(xs@.take(0) =~= Seq::empty());
    while i < xs.len()
        invariant
            i <= xs.len(),
            out@ == with_all_added(cur@, xs@.take(i as int)),
        decreases xs.len() - i,
    {
        assert(xs@.take(i as int + 1).drop_last() =~= xs@.take(i as int));
        let x = xs[i];
        if x.0 != x.1 && !reachable(out.as_slice(), x.1, x.0) {
            out.push(x);
        }
        i += 1;
    }
    assert(xs@.take(xs.len() as int) =~= xs@);
    out
}

/// Breaks the given cycles: keeps as many of the relations as can stand
/// together without a cycle.
///
/// The relations that stand on none of the cycles come first. The relations
/// that are links of a cycle follow by decreasing trust. The trust in a
/// link is its share, in parts per million, of the agreement of all the
/// links of the first cycle on which it stands, and the agreement of a link
/// is one more than the number of ranks that the relations on no cycle put
/// below and above its two ranks. A relation is kept only where it closes no
/// cycle with the relations kept before it, so that the result is always
/// free of cycles, whatever cycles are given.
pub fn resolve_cycles(edges: &[Edge], cycles: &[Vec<CardValue>]) -> (out: Vec<Edge>)
    ensures
        out@ == resolved(edges@, rank_views(cycles@)),
        acyclic(out@),
        within(out@, edges@),
        forall|k: int|
            0 <= k < edges.len() ==> out@.contains(#[trigger] edges@[k]) || edges@[k].0
                == edges@[k].1 || reaches(out@, edges@[k].1, edges@[k].0),
{
    let ghost views = rank_views(cycles@);
    let distinct = remove_redundancies(edges);
    let free = pick(&distinct, cycles, false);
    let bound = pick(&distinct, cycles, true);
    let table = closure_of(free.as_slice());
    let ghost s = free@;
    let mut keys: Vec<u64> = Vec::new();
    let mut i: usize = 0;
    proof {
        lemma_pick_edges(distinct@, views, true, distinct.len() as nat);
    }
    while i < bound.len()
        invariant
            i <= bound.len(),
            keys.len() == i,
            views == rank_views(cycles@),
            s == free@,
            is_closure(s, table@),
            forall|k: int| 0 <= k < bound.len() ==> on_some_cycle(views, #[trigger] bound@[k]),
            forall|k: int| 0 <= k < i ==> keys@[k] as int == trust(s, views, bound@[k]),
        decreases bound.len() - i,
    {
        let x = bound[i];
        let key: u64 = match first_cycle_index(cycles, x) {
            Some(j) => {
                let c = cycles[j].as_slice();
                let a = agreement_of(&table, x, Ghost(s));
                let total = cycle_total_of(&table, c, Ghost(s));
                proof {
                    assert(views[j as int] == c@);
                    let at = choose|at: int| 0 <= at < c@.len() - 1 && #[trigger] is_link(c@, at, x);
                    lemma_cycle_total_covers(s, c@, (c@.len() - 1) as nat, at);
                    assert((c@[at], c@[at + 1]) == x);
                }
                let share: u128 = (a as u128 * 1000000) / total;
                proof {
                    let num: int = a as int * 1000000;
                    let den: int = total as int;
                    assert(num / den <= num) by (nonlinear_arith)
                        requires
                            num >= 0,
                            den >= 1,
                    ;
                }
                share as u64
            },
            None => {
                proof {
                    assert(on_some_cycle(views, bound@[i as int]));
                }
                0
            },
        };
        keys.push(key);
        i += 1;
    }
    proof {
        assert(key_ints(keys@) =~= trusts(s, views, bound@));
    }
    let ordered = order_by_keys(bound, keys);
    let kept = add_all(Vec::new(), &free);
    let out = add_all(kept, &ordered);
    proof {
        lemma_resolved(edges@, views);
    }
    out
}

} // verus!
