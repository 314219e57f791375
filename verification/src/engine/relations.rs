//! Operations on a set of relations between ranks: the ranks around one
//! rank, removal of repeated and of implied relations, a count of the
//! orderings that the relations leave open, and the cycles among them.

use crate::engine::chance::scan_index;
pub use crate::engine::cycles::detect_cycles;
pub use crate::engine::resolve::resolve_cycles;
use crate::engine::graph::{
    acyclic, holds_edge, is_acyclic, lemma_source_exists, marked, reach_set, reaches, within, Edge,
};
use crate::engine::ordering::{
    is_ordering, lemma_canonical_is_ordering, lemma_position_at, position,
};
use crate::skeleton::cards::{canonical_values, CardValue};
use vstd::prelude::*;
use vstd::seq_lib::seq_to_set_is_finite;
use vstd::set_lib::{lemma_len_subset, lemma_subset_equality};

verus! {

/// The ranks that the relations put before `v`, one for each relation that
/// ends in `v`, in the order of the relations.
pub open spec fn predecessors(e: Seq<Edge>, v: CardValue) -> Seq<CardValue>
    decreases e.len(),
{
    if e.len() == 0 {
        Seq::empty()
    } else {
        let before = predecessors(e.drop_last(), v);
        if e.last().1 == v {
            before.push(e.last().0)
        } else {
            before
        }
    }
}

/// The ranks that the relations put after `v`, one for each relation that
/// starts in `v`, in the order of the relations.
pub open spec fn successors(e: Seq<Edge>, v: CardValue) -> Seq<CardValue>
    decreases e.len(),
{
    if e.len() == 0 {
        Seq::empty()
    } else {
        let before = successors(e.drop_last(), v);
        if e.last().0 == v {
            before.push(e.last().1)
        } else {
            before
        }
    }
}

/// The members of `a` that occur in `b`, in the order of `a`.
pub open spec fn shared(a: Seq<CardValue>, b: Seq<CardValue>) -> Seq<CardValue>
    decreases a.len(),
{
    if a.len() == 0 {
        Seq::empty()
    } else {
        let before = shared(a.drop_last(), b);
        if b.contains(a.last()) {
            before.push(a.last())
        } else {
            before
        }
    }
}

/// A rank stands among the predecessors of `v` exactly where a relation
/// leads from it to `v`, and among the successors exactly where a relation
/// leads from `v` to it.
pub proof fn lemma_neighbours(e: Seq<Edge>, v: CardValue)
    ensures
        forall|a: CardValue| #[trigger] predecessors(e, v).contains(a) <==> e.contains((a, v)),
        forall|b: CardValue| #[trigger] successors(e, v).contains(b) <==> e.contains((v, b)),
    decreases e.len(),
{
    if e.len() > 0 {
        let d = e.drop_last();
        lemma_neighbours(d, v);
        let pre = predecessors(e, v);
        let suc = successors(e, v);
        assert forall|a: CardValue| #[trigger] pre.contains(a) <==> e.contains((a, v)) by {
            if pre.contains(a) {
                let k = choose|k: int| 0 <= k < pre.len() && pre[k] == a;
                if k < predecessors(d, v).len() {
                    assert(predecessors(d, v).contains(a));
                    let j = choose|j: int| 0 <= j < d.len() && d[j] == (a, v);
                    assert(e[j] == (a, v));
                } else {
                    assert(e[e.len() - 1] == (a, v));
                }
            }
            if e.contains((a, v)) {
                let j = choose|j: int| 0 <= j < e.len() && e[j] == (a, v);
                if j < d.len() {
                    assert(d[j] == (a, v));
                    assert(predecessors(d, v).contains(a));
                    let k = choose|k: int|
                        0 <= k < predecessors(d, v).len() && predecessors(d, v)[k] == a;
                    assert(pre[k] == a);
                } else {
                    assert(pre[pre.len() - 1] == a);
                }
            }
        }
        assert forall|b: CardValue| #[trigger] suc.contains(b) <==> e.contains((v, b)) by {
            if suc.contains(b) {
                let k = choose|k: int| 0 <= k < suc.len() && suc[k] == b;
                if k < successors(d, v).len() {
                    assert(successors(d, v).contains(b));
                    let j = choose|j: int| 0 <= j < d.len() && d[j] == (v, b);
                    assert(e[j] == (v, b));
                } else {
                    assert(e[e.len() - 1] == (v, b));
                }
            }
            if e.contains((v, b)) {
                let j = choose|j: int| 0 <= j < e.len() && e[j] == (v, b);
                if j < d.len() {
                    assert(d[j] == (v, b));
                    assert(successors(d, v).contains(b));
                    let k = choose|k: int|
                        0 <= k < successors(d, v).len() && successors(d, v)[k] == b;
                    assert(suc[k] == b);
                } else {
                    assert(suc[suc.len() - 1] == b);
                }
            }
        }
    }
}

/// Tells whether a rank occurs among the given ranks.
pub fn holds_value(values: &[CardValue], v: CardValue) -> (found: bool)
    ensures
        found == values@.contains(v),
{
    let mut i: usize = 0;
    while i < values.len()
        invariant
            i <= values.len(),
            forall|j: int| 0 <= j < i ==> values@[j] != v,
        decreases values.len() - i,
    {
        if values[i] == v {
            return true;
        }
        i += 1;
    }
    false
}

/// The ranks around `valuev`: those that the relations put before it, those
/// that they put after it, and the violations, which are the ranks before it
/// that also stand after it.
pub fn relationships(relations: &[Edge], valuev: &CardValue) -> (r: (
    Vec<CardValue>,
    Vec<CardValue>,
    Vec<CardValue>,
))
    ensures
        r.0@ == predecessors(relations@, *valuev),
        r.1@ == successors(relations@, *valuev),
        r.2@ == shared(r.0@, r.1@),
        forall|a: CardValue| #[trigger] r.0@.contains(a) <==> relations@.contains((a, *valuev)),
        forall|b: CardValue| #[trigger] r.1@.contains(b) <==> relations@.contains((*valuev, b)),
{
    proof {
        lemma_neighbours(relations@, *valuev);
    }
    let value = *valuev;
    let mut pre: Vec<CardValue> = Vec::new();
    let mut post: Vec<CardValue> = Vec::new();
    let mut i: usize = 0;
    while i < relations.len()
        invariant
            i <= relations.len(),
            pre@ == predecessors(relations@.take(i as int), value),
            post@ == successors(relations@.take(i as int), value),
        decreases relations.len() - i,
    {
        assert(relations@.take(i as int + 1).drop_last() =~= relations@.take(i as int));
        if relations[i].1 == value {
            pre.push(relations[i].0);
        }
        if relations[i].0 == value {
            post.push(relations[i].1);
        }
        i += 1;
    }
    assert(relations@.take(relations.len() as int) =~= relations@);
    let mut violations: Vec<CardValue> = Vec::new();
    let mut j: usize = 0;
    while j < pre.len()
        invariant
            j <= pre.len(),
            violations@ == shared(pre@.take(j as int), post@),
        decreases pre.len() - j,
    {
        assert(pre@.take(j as int + 1).drop_last() =~= pre@.take(j as int));
        if holds_value(post.as_slice(), pre[j]) {
            violations.push(pre[j]);
        }
        j += 1;
    }
    assert(pre@.take(pre.len() as int) =~= pre@);
    (pre, post, violations)
}

/// The relations without repetitions: each relation stands where it first
/// occurs.
pub open spec fn distinct_edges(e: Seq<Edge>) -> Seq<Edge>
    decreases e.len(),
{
    if e.len() == 0 {
        Seq::empty()
    } else {
        let before = distinct_edges(e.drop_last());
        if before.contains(e.last()) {
            before
        } else {
            before.push(e.last())
        }
    }
}

/// The relations without repetitions hold the same relations, each once.
pub proof fn lemma_distinct_edges(e: Seq<Edge>)
    ensures
        distinct_edges(e).no_duplicates(),
        distinct_edges(e).len() <= e.len(),
        forall|x: Edge| #[trigger] distinct_edges(e).contains(x) <==> e.contains(x),
    decreases e.len(),
{
    if e.len() > 0 {
        let d = e.drop_last();
        lemma_distinct_edges(d);
        let before = distinct_edges(d);
        let out = distinct_edges(e);
        assert forall|x: Edge| #[trigger] out.contains(x) <==> e.contains(x) by {
            if out.contains(x) {
                let k = choose|k: int| 0 <= k < out.len() && out[k] == x;
                if k < before.len() {
                    assert(before.contains(x));
                    let j = choose|j: int| 0 <= j < d.len() && d[j] == x;
                    assert(e[j] == x);
                } else {
                    assert(e[e.len() - 1] == x);
                }
            }
            if e.contains(x) {
                let j = choose|j: int| 0 <= j < e.len() && e[j] == x;
                if j < d.len() {
                    assert(d[j] == x);
                    assert(before.contains(x));
                    let k = choose|k: int| 0 <= k < before.len() && before[k] == x;
                    assert(out[k] == x);
                } else if before.contains(x) {
                    let k = choose|k: int| 0 <= k < before.len() && before[k] == x;
                    assert(out[k] == x);
                } else {
                    assert(out[out.len() - 1] == x);
                }
            }
        }
    }
}

/// Removes repeated relations; each relation stays where it first occurs.
pub fn remove_redundancies(relations: &[Edge]) -> (out: Vec<Edge>)
    ensures
        out@ == distinct_edges(relations@),
{
    let mut out: Vec<Edge> = Vec::new();
    let mut i: usize = 0;
    while i < relations.len()
        invariant
            i <= relations.len(),
            out@ == distinct_edges(relations@.take(i as int)),
        decreases relations.len() - i,
    {
        assert(relations@.take(i as int + 1).drop_last() =~= relations@.take(i as int));
        let item = relations[i];
        if !holds_edge(out.as_slice(), item.0, item.1) {
            out.push(item);
        }
        i += 1;
    }
    assert(relations@.take(relations.len() as int) =~= relations@);
    out
}

/// The relations other than `x`.
pub open spec fn without_edge(e: Seq<Edge>, x: Edge) -> Seq<Edge>
    decreases e.len(),
{
    if e.len() == 0 {
        Seq::empty()
    } else {
        let before = without_edge(e.drop_last(), x);
        if e.last() == x {
            before
        } else {
            before.push(e.last())
        }
    }
}

/// A relation is implied where the other relations lead from its first rank
/// to its second.
pub open spec fn is_implied(e: Seq<Edge>, x: Edge) -> bool {
    reaches(without_edge(e, x), x.0, x.1)
}

/// Of the first `n` of the relations `d`, those that `e` does not imply.
pub open spec fn reduced_upto(e: Seq<Edge>, d: Seq<Edge>, n: nat) -> Seq<Edge>
    decreases n,
{
    if n == 0 {
        Seq::empty()
    } else {
        let before = reduced_upto(e, d, (n - 1) as nat);
        if is_implied(e, d[n - 1]) {
            before
        } else {
            before.push(d[n - 1])
        }
    }
}

/// The transitive reduction: the distinct relations that the other
/// relations do not imply.
pub open spec fn reduced(e: Seq<Edge>) -> Seq<Edge> {
    reduced_upto(e, distinct_edges(e), distinct_edges(e).len())
}

/// Copies out the relations other than `(a, b)`.
fn edges_without(relations: &[Edge], a: CardValue, b: CardValue) -> (out: Vec<Edge>)
    ensures
        out@ == without_edge(relations@, (a, b)),
{
    let mut out: Vec<Edge> = Vec::new();
    let mut i: usize = 0;
    while i < relations.len()
        invariant
            i <= relations.len(),
            out@ == without_edge(relations@.take(i as int), (a, b)),
        decreases relations.len() - i,
    {
        assert(relations@.take(i as int + 1).drop_last() =~= relations@.take(i as int));
        if !(relations[i].0 == a && relations[i].1 == b) {
            out.push(relations[i]);
        }
        i += 1;
    }
    assert(relations@.take(relations.len() as int) =~= relations@);
    out
}

/// Removes repeated relations and then every relation that the others
/// imply: a relation from `a` to `b` is dropped where a walk leads from `a`
/// to `b` along relations other than itself.
pub fn simplify(relations: &[Edge]) -> (out: Vec<Edge>)
    ensures
        out@ == reduced(relations@),
{
    let distinct = remove_redundancies(relations);
    let mut out: Vec<Edge> = Vec::new();
    let mut i: usize = 0;
    while i < distinct.len()
        invariant
            i <= distinct.len(),
            distinct@ == distinct_edges(relations@),
            out@ == reduced_upto(relations@, distinct@, i as nat),
        decreases distinct.len() - i,
    {
        let from = distinct[i].0;
        let goal = distinct[i].1;
        let others = edges_without(relations, from, goal);
        let marks = reach_set(others.as_slice(), from);
        assert(marked(marks@, goal) == reaches(others@, from, goal));
        if !marks[goal.canonical_index()] {
            out.push((from, goal));
        }
        i += 1;
    }
    out
}

/// Whether the rank `v` can still be placed once the first `i` ranks of the
/// print order are taken as placed: every rank before `v` is among them and
/// no rank after `v` is.
pub open spec fn is_open(e: Seq<Edge>, i: int, v: CardValue) -> bool {
    forall|k: int|
        0 <= k < e.len() ==> ((#[trigger] e[k]).1 == v ==> e[k].0.index() < i) && (e[k].0 == v
            ==> e[k].1.index() >= i)
}

/// How many of the first `n` ranks of the print order are open at step `i`.
pub open spec fn count_open(e: Seq<Edge>, i: int, n: nat) -> nat
    decreases n,
{
    if n == 0 {
        0
    } else {
        count_open(e, i, (n - 1) as nat) + if is_open(e, i, canonical_values()[n - 1]) {
            1nat
        } else {
            0nat
        }
    }
}

/// The choices counted at step `i`: the open ranks beyond the `i` taken as
/// placed, and at least one.
pub open spec fn choices(e: Seq<Edge>, i: int) -> nat {
    let open = count_open(e, i, 13);
    if open > i {
        (open - i) as nat
    } else {
        1
    }
}

/// The product of the choices of the first `k` steps.
pub open spec fn orderings_upto(e: Seq<Edge>, k: nat) -> nat
    decreases k,
{
    if k == 0 {
        1
    } else {
        orderings_upto(e, (k - 1) as nat) * choices(e, k - 1)
    }
}

/// The estimate of how many orderings the relations leave open: the product
/// over the thirteen steps of the print order of the choices counted at each
/// step. It is an estimate and no exact count of linear extensions.
pub open spec fn count_orderings(e: Seq<Edge>) -> nat {
    orderings_upto(e, 13)
}

/// The product 13 * 12 * ... of `k` factors.
pub open spec fn falling(k: nat) -> nat
    decreases k,
{
    if k == 0 {
        1
    } else {
        falling((k - 1) as nat) * (14 - k) as nat
    }
}

/// No more than `n` of the first `n` ranks are open.
pub proof fn lemma_count_open_bound(e: Seq<Edge>, i: int, n: nat)
    ensures
        count_open(e, i, n) <= n,
    decreases n,
{
    if n > 0 {
        lemma_count_open_bound(e, i, (n - 1) as nat);
    }
}

/// The product of the first `k` choices is at most 13 * 12 * ... (`k`
/// factors), and at least 1.
pub proof fn lemma_orderings_bound(e: Seq<Edge>, k: nat)
    requires
        k <= 13,
    ensures
        1 <= orderings_upto(e, k) <= falling(k),
    decreases k,
{
    if k > 0 {
        lemma_orderings_bound(e, (k - 1) as nat);
        lemma_count_open_bound(e, k - 1, 13);
        let a = orderings_upto(e, (k - 1) as nat);
        let b = falling((k - 1) as nat);
        let c = choices(e, k - 1);
        let d = (14 - k) as nat;
        assert(1 <= c <= d);
        assert(a * c <= b * d) by (nonlinear_arith)
            requires
                1 <= a <= b,
                1 <= c <= d,
        ;
        assert(1 <= a * c) by (nonlinear_arith)
            requires
                1 <= a,
                1 <= c,
        ;
    }
}

/// The value of 13 * 12 * ... for each number of factors.
pub proof fn lemma_falling_values()
    ensures
        falling(0) == 1,
        falling(1) == 13,
        falling(2) == 156,
        falling(3) == 1716,
        falling(4) == 17160,
        falling(5) == 154440,
        falling(6) == 1235520,
        falling(7) == 8648640,
        falling(8) == 51891840,
        falling(9) == 259459200,
        falling(10) == 1037836800,
        falling(11) == 3113510400,
        falling(12) == 6227020800,
        falling(13) == 6227020800,
{
    assert(falling(0) == 1);
    assert(falling(1) == falling(0) * 13);
    assert(falling(2) == falling(1) * 12);
    assert(falling(3) == falling(2) * 11);
    assert(falling(4) == falling(3) * 10);
    assert(falling(5) == falling(4) * 9);
    assert(falling(6) == falling(5) * 8);
    assert(falling(7) == falling(6) * 7);
    assert(falling(8) == falling(7) * 6);
    assert(falling(9) == falling(8) * 5);
    assert(falling(10) == falling(9) * 4);
    assert(falling(11) == falling(10) * 3);
    assert(falling(12) == falling(11) * 2);
    assert(falling(13) == falling(12) * 1);
}

/// Tells whether the rank `v` is open at step `i`.
fn open_at(relations: &[Edge], i: usize, v: CardValue) -> (open: bool)
    ensures
        open == is_open(relations@, i as int, v),
{
    let mut k: usize = 0;
    while k < relations.len()
        invariant
            k <= relations.len(),
            forall|j: int|
                0 <= j < k ==> ((#[trigger] relations@[j]).1 == v ==> relations@[j].0.index() < i) && (
                relations@[j].0 == v ==> relations@[j].1.index() >= i),
        decreases relations.len() - k,
    {
        if relations[k].1 == v && relations[k].0.canonical_index() >= i {
            return false;
        }
        if relations[k].0 == v && relations[k].1.canonical_index() < i {
            return false;
        }
        k += 1;
    }
    true
}

/// The estimate of how many orderings of the thirteen ranks the relations
/// leave open; 13! where there are no relations.
pub fn possibilities(relations: &[Edge]) -> (count: u64)
    requires
        acyclic(relations@),
    ensures
        count == count_orderings(relations@),
        1 <= count <= 6227020800,
        relations.len() == 0 ==> count == 6227020800,
{
    proof {
        if relations.len() == 0 {
            assert(relations@ =~= Seq::<Edge>::empty());
            lemma_possibilities_empty();
        }
    }
    let mut count: u64 = 1;
    let mut i: usize = 0;
    while i < 13
        invariant
            i <= 13,
            count == orderings_upto(relations@, i as nat),
            1 <= count <= falling(i as nat),
        decreases 13 - i,
    {
        let mut open: usize = 0;
        let mut n: usize = 0;
        while n < 13
            invariant
                n <= 13,
                i < 13,
                open == count_open(relations@, i as int, n as nat),
                open <= n,
            decreases 13 - n,
        {
            if open_at(relations, i, CardValue::from_canonical_index(n)) {
                open += 1;
            }
            n += 1;
        }
        let value: u64 = if open > i {
            (open - i) as u64
        } else {
            1
        };
        proof {
            lemma_orderings_bound(relations@, (i + 1) as nat);
            lemma_falling_values();
            assert(falling((i + 1) as nat) <= 6227020800);
            assert(count * value == orderings_upto(relations@, (i + 1) as nat));
        }
        count = count * value;
        i += 1;
    }
    proof {
        lemma_falling_values();
    }
    count
}

/// An open rank stays open when relations are taken away.
proof fn lemma_open_within(e: Seq<Edge>, f: Seq<Edge>, i: int, v: CardValue)
    requires
        within(e, f),
        is_open(f, i, v),
    ensures
        is_open(e, i, v),
{
    assert forall|k: int| 0 <= k < e.len() implies ((#[trigger] e[k]).1 == v ==> e[k].0.index() < i)
        && (e[k].0 == v ==> e[k].1.index() >= i) by {
        assert(f.contains(e[k]));
        let j = choose|j: int| 0 <= j < f.len() && f[j] == e[k];
        assert(f[j].1 == e[k].1);
    }
}

/// Fewer relations leave at least as many ranks open.
proof fn lemma_count_open_within(e: Seq<Edge>, f: Seq<Edge>, i: int, n: nat)
    requires
        within(e, f),
    ensures
        count_open(f, i, n) <= count_open(e, i, n),
    decreases n,
{
    if n > 0 {
        lemma_count_open_within(e, f, i, (n - 1) as nat);
        if is_open(f, i, canonical_values()[n - 1]) {
            lemma_open_within(e, f, i, canonical_values()[n - 1]);
        }
    }
}

/// Fewer relations leave at least as large a product of choices.
proof fn lemma_orderings_within(e: Seq<Edge>, f: Seq<Edge>, k: nat)
    requires
        within(e, f),
    ensures
        1 <= orderings_upto(f, k) <= orderings_upto(e, k),
    decreases k,
{
    if k > 0 {
        lemma_orderings_within(e, f, (k - 1) as nat);
        lemma_count_open_within(e, f, k - 1, 13);
        let a = orderings_upto(f, (k - 1) as nat);
        let b = orderings_upto(e, (k - 1) as nat);
        let c = choices(f, k - 1);
        let d = choices(e, k - 1);
        assert(a * c <= b * d) by (nonlinear_arith)
            requires
                1 <= a <= b,
                1 <= c <= d,
        ;
        assert(1 <= a * c) by (nonlinear_arith)
            requires
                1 <= a,
                1 <= c,
        ;
    }
}

/// Relations that hold every relation of a smaller set leave no more
/// orderings open than the smaller set does.
pub proof fn lemma_possibilities_within(e: Seq<Edge>, f: Seq<Edge>)
    requires
        within(e, f),
    ensures
        count_orderings(f) <= count_orderings(e),
{
    lemma_orderings_within(e, f, 13);
}

/// Adding a relation never increases the estimate of the orderings left
/// open.
pub proof fn lemma_possibilities_monotone(e: Seq<Edge>, x: Edge)
    ensures
        count_orderings(e.push(x)) <= count_orderings(e),
{
    let f = e.push(x);
    assert forall|i: int| 0 <= i < e.len() implies f.contains(#[trigger] e[i]) by {
        assert(f[i] == e[i]);
    }
    lemma_possibilities_within(e, f);
}

/// Without relations every rank is open at every step.
proof fn lemma_count_open_empty(i: int, n: nat)
    ensures
        count_open(Seq::<Edge>::empty(), i, n) == n,
    decreases n,
{
    if n > 0 {
        lemma_count_open_empty(i, (n - 1) as nat);
    }
}

/// Without relations the product of the first `k` choices is 13 * 12 * ...
/// with `k` factors.
proof fn lemma_orderings_empty(k: nat)
    requires
        k <= 13,
    ensures
        orderings_upto(Seq::<Edge>::empty(), k) == falling(k),
    decreases k,
{
    if k > 0 {
        lemma_orderings_empty((k - 1) as nat);
        lemma_count_open_empty(k - 1, 13);
    }
}

/// Without relations all 13! orderings are left open.
pub proof fn lemma_possibilities_empty()
    ensures
        count_orderings(Seq::<Edge>::empty()) == 6227020800,
{
    lemma_orderings_empty(13);
    lemma_falling_values();
}

/// Whether the rank `v` can be placed next after the ranks `placed`: it is
/// not placed yet, every rank before it is placed and no rank after it is.
pub open spec fn is_eligible(e: Seq<Edge>, placed: Seq<CardValue>, v: CardValue) -> bool {
    &&& !placed.contains(v)
    &&& forall|k: int|
        0 <= k < e.len() ==> ((#[trigger] e[k]).1 == v ==> placed.contains(e[k].0)) && (e[k].0 == v
            ==> !placed.contains(e[k].1))
}

/// The eligible ranks among the first `n` of the print order.
pub open spec fn eligible_upto(e: Seq<Edge>, placed: Seq<CardValue>, n: nat) -> Seq<CardValue>
    decreases n,
{
    if n == 0 {
        Seq::empty()
    } else {
        let before = eligible_upto(e, placed, (n - 1) as nat);
        if is_eligible(e, placed, canonical_values()[n - 1]) {
            before.push(canonical_values()[n - 1])
        } else {
            before
        }
    }
}

/// The ranks that can be placed next, in print order.
pub open spec fn eligible(e: Seq<Edge>, placed: Seq<CardValue>) -> Seq<CardValue> {
    eligible_upto(e, placed, 13)
}

/// The first `k` ranks of the ordering that the draws select: at each step
/// the draw, reduced modulo the number of eligible ranks, picks one of them.
pub open spec fn placed_after(e: Seq<Edge>, draws: Seq<usize>, k: nat) -> Seq<CardValue>
    decreases k,
{
    if k == 0 {
        Seq::empty()
    } else {
        let before = placed_after(e, draws, (k - 1) as nat);
        let choice = eligible(e, before);
        before.push(choice[draws[k - 1] as int % choice.len() as int])
    }
}

/// `a` stands before `b` in `p`.
pub open spec fn comes_before(p: Seq<CardValue>, a: CardValue, b: CardValue) -> bool {
    exists|i: int, j: int| #![trigger p[i], p[j]] 0 <= i < j < p.len() && p[i] == a && p[j] == b
}

/// For every relation whose second rank is placed, the first rank is placed
/// before it.
pub open spec fn respects_so_far(e: Seq<Edge>, p: Seq<CardValue>) -> bool {
    forall|k: int|
        0 <= k < e.len() && p.contains((#[trigger] e[k]).1) ==> comes_before(p, e[k].0, e[k].1)
}

/// The ordering puts the first rank of every relation below the second.
pub open spec fn respects(e: Seq<Edge>, o: Seq<CardValue>) -> bool {
    forall|k: int| 0 <= k < e.len() ==> position(o, (#[trigger] e[k]).0) < position(o, e[k].1)
}

/// Fewer than thirteen distinct ranks leave a rank out.
proof fn lemma_some_rank_missing(p: Seq<CardValue>) -> (x: CardValue)
    requires
        p.no_duplicates(),
        p.len() < 13,
    ensures
        !p.contains(x),
{
    if forall|v: CardValue| p.contains(v) {
        let c = canonical_values();
        lemma_canonical_is_ordering();
        c.unique_seq_to_set();
        p.unique_seq_to_set();
        seq_to_set_is_finite(p);
        assert(c.to_set().subset_of(p.to_set())) by {
            assert forall|v: CardValue| c.to_set().contains(v) implies p.to_set().contains(v) by {
                assert(p.contains(v));
            }
        }
        lemma_len_subset(c.to_set(), p.to_set());
        assert(false);
    }
    choose|v: CardValue| !p.contains(v)
}

/// Thirteen distinct ranks are all the ranks.
proof fn lemma_thirteen_ranks(p: Seq<CardValue>)
    requires
        p.no_duplicates(),
        p.len() == 13,
    ensures
        is_ordering(p),
{
    let c = canonical_values();
    lemma_canonical_is_ordering();
    c.unique_seq_to_set();
    p.unique_seq_to_set();
    seq_to_set_is_finite(p);
    seq_to_set_is_finite(c);
    assert(p.to_set().subset_of(c.to_set())) by {
        assert forall|v: CardValue| p.to_set().contains(v) implies c.to_set().contains(v) by {
            assert(c.contains(v));
        }
    }
    lemma_subset_equality(p.to_set(), c.to_set());
    assert forall|v: CardValue| #[trigger] p.contains(v) by {
        assert(c.contains(v));
        assert(c.to_set().contains(v));
        assert(p.to_set().contains(v));
    }
}

/// The eligible ranks found among the first `n` are eligible, and each
/// eligible rank among the first `n` is found.
proof fn lemma_eligible_upto(e: Seq<Edge>, placed: Seq<CardValue>, n: nat)
    requires
        n <= 13,
    ensures
        forall|k: int|
            0 <= k < eligible_upto(e, placed, n).len() ==> is_eligible(
                e,
                placed,
                #[trigger] eligible_upto(e, placed, n)[k],
            ),
        forall|v: CardValue|
            v.index() < n && is_eligible(e, placed, v) ==> #[trigger] eligible_upto(
                e,
                placed,
                n,
            ).contains(v),
    decreases n,
{
    if n > 0 {
        lemma_eligible_upto(e, placed, (n - 1) as nat);
        let before = eligible_upto(e, placed, (n - 1) as nat);
        let out = eligible_upto(e, placed, n);
        assert forall|v: CardValue| v.index() < n && is_eligible(e, placed, v) implies out.contains(
            v,
        ) by {
            if v.index() < n - 1 {
                assert(before.contains(v));
                let k = choose|k: int| 0 <= k < before.len() && before[k] == v;
                assert(out[k] == v);
            } else {
                assert(canonical_values()[n - 1] == v);
                assert(out[out.len() - 1] == v);
            }
        }
    }
}

/// While ranks are missing from a placement that respects relations without
/// cycles, some rank is eligible.
proof fn lemma_eligible_exists(e: Seq<Edge>, p: Seq<CardValue>)
    requires
        acyclic(e),
        p.no_duplicates(),
        p.len() < 13,
        respects_so_far(e, p),
    ensures
        eligible(e, p).len() > 0,
{
    let x = lemma_some_rank_missing(p);
    let u = Set::new(|v: CardValue| !p.contains(v));
    let c = canonical_values();
    lemma_canonical_is_ordering();
    seq_to_set_is_finite(c);
    assert(u.subset_of(c.to_set())) by {
        assert forall|v: CardValue| u.contains(v) implies c.to_set().contains(v) by {
            assert(c.contains(v));
        }
    }
    lemma_len_subset(u, c.to_set());
    let s = lemma_source_exists(e, u, x);
    assert(is_eligible(e, p, s)) by {
        assert forall|k: int| 0 <= k < e.len() implies ((#[trigger] e[k]).1 == s ==> p.contains(
            e[k].0,
        )) && (e[k].0 == s ==> !p.contains(e[k].1)) by {
            if e[k].1 == s {
                assert(e.contains((e[k].0, s)));
                assert(!u.contains(e[k].0));
            }
            if e[k].0 == s && p.contains(e[k].1) {
                assert(comes_before(p, e[k].0, e[k].1));
            }
        }
    }
    lemma_eligible_upto(e, p, 13);
    assert(eligible_upto(e, p, 13).contains(s));
}

/// What holds of the first `k` ranks that the draws select from relations
/// without cycles: they are `k` distinct ranks, each relation's first rank
/// comes before its second, and while ranks are missing one is eligible.
pub proof fn lemma_placed(e: Seq<Edge>, draws: Seq<usize>, k: nat)
    requires
        acyclic(e),
        k <= 13,
    ensures
        placed_after(e, draws, k).len() == k,
        placed_after(e, draws, k).no_duplicates(),
        respects_so_far(e, placed_after(e, draws, k)),
        k < 13 ==> eligible(e, placed_after(e, draws, k)).len() > 0,
    decreases k,
{
    let p = placed_after(e, draws, k);
    if k > 0 {
        lemma_placed(e, draws, (k - 1) as nat);
        let before = placed_after(e, draws, (k - 1) as nat);
        let choice = eligible(e, before);
        let at = draws[k - 1] as int % choice.len() as int;
        let v = choice[at];
        lemma_eligible_upto(e, before, 13);
        assert(is_eligible(e, before, v));
        assert(p == before.push(v));
        assert(p.no_duplicates()) by {
            assert forall|i: int, j: int| 0 <= i < p.len() && 0 <= j < p.len() && i != j implies p[i]
                != p[j] by {
                if i < before.len() && j < before.len() {
                } else if i < before.len() {
                    assert(before.contains(before[i]));
                } else {
                    assert(before.contains(before[j]));
                }
            }
        }
        assert forall|m: int| 0 <= m < e.len() && p.contains((#[trigger] e[m]).1) implies comes_before(
            p,
            e[m].0,
            e[m].1,
        ) by {
            if before.contains(e[m].1) {
                assert(comes_before(before, e[m].0, e[m].1));
                let (i, j) = choose|i: int, j: int|
                    #![trigger before[i], before[j]]
                    0 <= i < j < before.len() && before[i] == e[m].0 && before[j] == e[m].1;
                assert(p[i] == e[m].0 && p[j] == e[m].1);
            } else {
                let j = choose|j: int| 0 <= j < p.len() && p[j] == e[m].1;
                assert(j == before.len());
                assert(before.contains(e[m].0));
                let i = choose|i: int| 0 <= i < before.len() && before[i] == e[m].0;
                assert(p[i] == e[m].0 && p[j] == e[m].1);
            }
        }
    } else {
        assert(p.len() == 0);
    }
    if k < 13 {
        lemma_eligible_exists(e, p);
    }
}

/// The thirteen ranks that the draws select from relations without cycles
/// are an ordering that respects every relation.
pub proof fn lemma_generated_respects(e: Seq<Edge>, draws: Seq<usize>)
    requires
        acyclic(e),
    ensures
        is_ordering(placed_after(e, draws, 13)),
        respects(e, placed_after(e, draws, 13)),
{
    let o = placed_after(e, draws, 13);
    lemma_placed(e, draws, 13);
    lemma_thirteen_ranks(o);
    assert forall|k: int| 0 <= k < e.len() implies position(o, (#[trigger] e[k]).0) < position(
        o,
        e[k].1,
    ) by {
        assert(o.contains(e[k].1));
        assert(comes_before(o, e[k].0, e[k].1));
        let (i, j) = choose|i: int, j: int|
            #![trigger o[i], o[j]]
            0 <= i < j < o.len() && o[i] == e[k].0 && o[j] == e[k].1;
        lemma_position_at(o, i);
        lemma_position_at(o, j);
    }
}

/// Tells whether the rank `v` can be placed next after the ranks `placed`.
fn eligible_now(relations: &[Edge], placed: &[CardValue], v: CardValue) -> (ok: bool)
    ensures
        ok == is_eligible(relations@, placed@, v),
{
    if holds_value(placed, v) {
        return false;
    }
    let mut k: usize = 0;
    while k < relations.len()
        invariant
            k <= relations.len(),
            forall|j: int|
                0 <= j < k ==> ((#[trigger] relations@[j]).1 == v ==> placed@.contains(
                    relations@[j].0,
                )) && (relations@[j].0 == v ==> !placed@.contains(relations@[j].1)),
        decreases relations.len() - k,
    {
        if relations[k].1 == v && !holds_value(placed, relations[k].0) {
            return false;
        }
        if relations[k].0 == v && holds_value(placed, relations[k].1) {
            return false;
        }
        k += 1;
    }
    true
}

/// The ranks that can be placed next after the ranks `placed`, in print
/// order.
pub fn eligible_ranks(relations: &[Edge], placed: &[CardValue]) -> (out: Vec<CardValue>)
    ensures
        out@ == eligible(relations@, placed@),
{
    let mut out: Vec<CardValue> = Vec::new();
    let mut n: usize = 0;
    while n < 13
        invariant
            n <= 13,
            out@ == eligible_upto(relations@, placed@, n as nat),
        decreases 13 - n,
    {
        let v = CardValue::from_canonical_index(n);
        if eligible_now(relations, placed, v) {
            out.push(v);
        }
        n += 1;
    }
    out
}

/// The ordering that the given draws select from relations without cycles.
///
/// The ordering is built from the weakest rank up. At each of the thirteen
/// steps the ranks that can be placed next are listed in print order, and
/// the step's draw, reduced modulo their number, picks one. The result is
/// an ordering that puts the first rank of every relation below the second.
pub fn generate_ordering_with(relations: &[Edge], draws: &[usize]) -> (out: [CardValue; 13])
    requires
        acyclic(relations@),
        draws.len() >= 13,
    ensures
        out@ == placed_after(relations@, draws@, 13),
        is_ordering(out@),
        respects(relations@, out@),
{
    let mut placed: Vec<CardValue> = Vec::new();
    let mut i: usize = 0;
    while i < 13
        invariant
            i <= 13,
            draws.len() >= 13,
            acyclic(relations@),
            placed@ == placed_after(relations@, draws@, i as nat),
            placed.len() == i,
        decreases 13 - i,
    {
        let valid = eligible_ranks(relations, placed.as_slice());
        proof {
            lemma_placed(relations@, draws@, i as nat);
        }
        let selected = draws[i] % valid.len();
        placed.push(valid[selected]);
        i += 1;
    }
    proof {
        lemma_generated_respects(relations@, draws@);
    }
    thirteen(&placed)
}

/// Thirteen ranks as an array.
fn thirteen(ranks: &Vec<CardValue>) -> (out: [CardValue; 13])
    requires
        ranks.len() == 13,
    ensures
        out@ == ranks@,
{
    let out = [
        ranks[0],
        ranks[1],
        ranks[2],
        ranks[3],
        ranks[4],
        ranks[5],
        ranks[6],
        ranks[7],
        ranks[8],
        ranks[9],
        ranks[10],
        ranks[11],
        ranks[12],
    ];
    assert(out@ =~= ranks@);
    out
}

/// The ranks placed depend on the draws of their steps alone.
proof fn lemma_placed_same(e: Seq<Edge>, a: Seq<usize>, b: Seq<usize>, k: nat)
    requires
        k <= a.len(),
        k <= b.len(),
        forall|i: int| 0 <= i < k ==> a[i] == b[i],
    ensures
        placed_after(e, a, k) == placed_after(e, b, k),
    decreases k,
{
    if k > 0 {
        lemma_placed_same(e, a, b, (k - 1) as nat);
    }
}

/// An ordering drawn at random from those that respect relations without
/// cycles.
///
/// The ordering is built from the weakest rank up. At each step the ranks
/// that can be placed next are scanned in print order, and the scan stops
/// at each with one chance in four; where it runs out, the first of them is
/// taken. So a step that the relations leave open tends to the print order.
/// Whatever is drawn, the result is an ordering that puts the first rank of
/// every relation below the second.
pub fn generate_ordering(relations: &[Edge]) -> (out: [CardValue; 13])
    requires
        acyclic(relations@),
    ensures
        is_ordering(out@),
        respects(relations@, out@),
        exists|draws: Seq<usize>| out@ == #[trigger] placed_after(relations@, draws, 13),
{
    let mut draws: Vec<usize> = Vec::new();
    let mut placed: Vec<CardValue> = Vec::new();
    let mut i: usize = 0;
    while i < 13
        invariant
            i <= 13,
            acyclic(relations@),
            draws.len() == i,
            placed.len() == i,
            placed@ == placed_after(relations@, draws@, i as nat),
        decreases 13 - i,
    {
        let valid = eligible_ranks(relations, placed.as_slice());
        proof {
            lemma_placed(relations@, draws@, i as nat);
        }
        let draw = scan_index(valid.len());
        let ghost had = draws@;
        draws.push(draw);
        placed.push(valid[draw % valid.len()]);
        proof {
            lemma_placed_same(relations@, had, draws@, i as nat);
        }
        i += 1;
    }
    proof {
        lemma_generated_respects(relations@, draws@);
    }
    thirteen(&placed)
}

/// An ordering drawn at random from those that respect the relations, or
/// `None` where the relations hold a cycle.
pub fn try_generate_ordering(relations: &[Edge]) -> (r: Option<[CardValue; 13]>)
    ensures
        r is Some <==> acyclic(relations@),
        r matches Some(out) ==> is_ordering(out@) && respects(relations@, out@),
{
    if is_acyclic(relations) {
        Some(generate_ordering(relations))
    } else {
        None
    }
}

/// The estimate of how many orderings the relations leave open, or `None`
/// where the relations hold a cycle.
pub fn try_possibilities(relations: &[Edge]) -> (r: Option<u64>)
    ensures
        r is Some <==> acyclic(relations@),
        r matches Some(count) ==> count == count_orderings(relations@),
{
    if is_acyclic(relations) {
        Some(possibilities(relations))
    } else {
        None
    }
}

/// The character that prints a rank.
pub open spec fn rank_char(v: CardValue) -> char {
    v.byte() as char
}

/// The characters that print the ranks, one for each.
pub open spec fn ranks_text(vs: Seq<CardValue>) -> Seq<char> {
    Seq::new(vs.len(), |i: int| rank_char(vs[i]))
}

/// The line of one rank: the rank between bars, then in brackets the ranks
/// before it, then in brackets the ranks after it.
pub open spec fn line_text(e: Seq<Edge>, v: CardValue) -> Seq<char> {
    seq!['|', rank_char(v), '|', '['] + ranks_text(predecessors(e, v)) + seq![']', '[']
        + ranks_text(successors(e, v)) + seq![']']
}

/// The lines of the first `n` ranks of the print order, with a line break
/// between two lines.
pub open spec fn lines_upto(e: Seq<Edge>, n: nat) -> Seq<char>
    decreases n,
{
    if n == 0 {
        Seq::empty()
    } else if n == 1 {
        line_text(e, canonical_values()[0])
    } else {
        lines_upto(e, (n - 1) as nat) + seq!['\n'] + line_text(e, canonical_values()[n - 1])
    }
}

/// The relations as text: thirteen lines, one for each rank in print order.
pub open spec fn relations_text(e: Seq<Edge>) -> Seq<char> {
    lines_upto(e, 13)
}

/// Appends a character with `String::push`, which puts the character at the
/// end of the string and changes nothing else.
#[verifier::external_body]
pub(crate) fn push_char(text: &mut String, c: char)
    ensures
        final(text)@ == old(text)@.push(c),
{
    text.push(c)
}

/// Appends the characters that print the ranks.
pub fn push_ranks(text: &mut String, ranks: &Vec<CardValue>)
    ensures
        final(text)@ == old(text)@ + ranks_text(ranks@),
{
    let ghost start = text@;
    let mut i: usize = 0;
    assert(start + ranks_text(ranks@).take(0) =~= start);
    while i < ranks.len()
        invariant
            i <= ranks.len(),
            text@ == start + ranks_text(ranks@).take(i as int),
        decreases ranks.len() - i,
    {
        push_char(text, ranks[i].to_byte() as char);
        assert(ranks_text(ranks@).take(i as int + 1) =~= ranks_text(ranks@).take(i as int).push(
            rank_char(ranks@[i as int]),
        ));
        assert(text@ =~= start + ranks_text(ranks@).take(i as int + 1));
        i += 1;
    }
    assert(ranks_text(ranks@).take(ranks.len() as int) =~= ranks_text(ranks@));
}

/// Writes the relations as text, one line for each rank in print order:
/// `|<rank>|[<ranks before it>][<ranks after it>]`.
pub fn debug_relations(relations: &[Edge]) -> (text: String)
    ensures
        text@ == relations_text(relations@),
{
    let mut text = String::new();
    let mut n: usize = 0;
    while n < 13
        invariant
            n <= 13,
            text@ == lines_upto(relations@, n as nat),
        decreases 13 - n,
    {
        let v = CardValue::from_canonical_index(n);
        let ghost before = text@;
        if n > 0 {
            push_char(&mut text, '\n');
        }
        let ghost head = text@;
        let found = relationships(relations, &v);
        push_char(&mut text, '|');
        push_char(&mut text, v.to_byte() as char);
        push_char(&mut text, '|');
        push_char(&mut text, '[');
        push_ranks(&mut text, &found.0);
        push_char(&mut text, ']');
        push_char(&mut text, '[');
        push_ranks(&mut text, &found.1);
        push_char(&mut text, ']');
        assert(text@ =~= head + line_text(relations@, v));
        n += 1;
    }
    text
}

/// The operations on relations as methods of a slice of relations.
pub trait RelationsExt {
    /// The relations that the value holds.
    spec fn edges(&self) -> Seq<Edge>;

    /// The relations as text, one line for each rank.
    fn debug_relations(&self) -> (text: String)
        ensures
            text@ == relations_text(self.edges()),
    ;

    /// The relations without repetitions.
    fn remove_redundancies(&self) -> (out: Vec<Edge>)
        ensures
            out@ == distinct_edges(self.edges()),
    ;

    /// The distinct relations that the other relations do not imply.
    fn simplify(&self) -> (out: Vec<Edge>)
        ensures
            out@ == reduced(self.edges()),
    ;

    /// The estimate of how many orderings the relations leave open.
    fn possibilities(&self) -> (count: u64)
        requires
            acyclic(self.edges()),
        ensures
            count == count_orderings(self.edges()),
    ;
}

impl RelationsExt for [Edge] {
    open spec fn edges(&self) -> Seq<Edge> {
        self@
    }

    fn debug_relations(&self) -> (text: String) {
        debug_relations(self)
    }

    fn remove_redundancies(&self) -> (out: Vec<Edge>) {
        remove_redundancies(self)
    }

    fn simplify(&self) -> (out: Vec<Edge>) {
        simplify(self)
    }

    fn possibilities(&self) -> (count: u64) {
        possibilities(self)
    }
}

} // verus!
