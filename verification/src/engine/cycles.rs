//! Cycles among the relations: contradictions that must be broken before the
//! relations can give an ordering.

use crate::engine::graph::{acyclic, holds_edge, is_step, is_walk, reaches, Edge};
use crate::engine::ordering::lemma_canonical_is_ordering;
use crate::engine::relations::holds_value;
use crate::skeleton::cards::{canonical_values, CardValue};
use vstd::prelude::*;
use vstd::seq_lib::seq_to_set_is_finite;
use vstd::set_lib::lemma_len_subset;

verus! {

/// A path: one or more distinct ranks in which each is related to the next.
pub open spec fn is_path(e: Seq<Edge>, p: Seq<CardValue>) -> bool {
    &&& p.len() >= 1
    &&& p.no_duplicates()
    &&& forall|i: int| 0 <= i < p.len() - 1 ==> #[trigger] is_step(e, p, i)
}

/// The last rank of the path is related to the first.
pub open spec fn closes(e: Seq<Edge>, p: Seq<CardValue>) -> bool {
    e.contains((p.last(), p[0]))
}

/// A cycle, written as a closed walk: it ends in the rank in which it
/// starts, each rank is related to the next, and but for the end no rank
/// occurs twice.
pub open spec fn is_cycle(e: Seq<Edge>, c: Seq<CardValue>) -> bool {
    &&& c.len() >= 2
    &&& c[0] == c.last()
    &&& is_walk(e, c)
    &&& c.drop_last().no_duplicates()
}

/// A cycle leads from its first rank back to it.
pub proof fn lemma_cycle_reaches(e: Seq<Edge>, c: Seq<CardValue>)
    requires
        is_cycle(e, c),
    ensures
        reaches(e, c[0], c[0]),
        !acyclic(e),
{
    assert(is_walk(e, c) && c[0] == c[0] && c.last() == c[0]);
}

/// A path whose last rank is related to its first gives a cycle.
pub proof fn lemma_closed_path_is_cycle(e: Seq<Edge>, p: Seq<CardValue>)
    requires
        is_path(e, p),
        closes(e, p),
    ensures
        is_cycle(e, p.push(p[0])),
{
    let c = p.push(p[0]);
    assert(c.drop_last() =~= p);
    assert forall|i: int| 0 <= i < c.len() - 1 implies #[trigger] is_step(e, c, i) by {
        if i < p.len() - 1 {
            assert(is_step(e, p, i));
            assert(c[i] == p[i] && c[i + 1] == p[i + 1]);
        } else {
            assert(c[i] == p.last() && c[i + 1] == p[0]);
        }
    }
}

/// A walk that ends where it starts holds a path whose last rank is related
/// to its first.
pub proof fn lemma_simple_cycle(e: Seq<Edge>, w: Seq<CardValue>) -> (p: Seq<CardValue>)
    requires
        is_walk(e, w),
        w[0] == w.last(),
    ensures
        is_path(e, p),
        closes(e, p),
    decreases w.len(),
{
    let m = w.len() - 1;
    let d = w.drop_last();
    if d.no_duplicates() {
        assert forall|i: int| 0 <= i < d.len() - 1 implies #[trigger] is_step(e, d, i) by {
            assert(is_step(e, w, i));
            assert(d[i] == w[i] && d[i + 1] == w[i + 1]);
        }
        assert(is_step(e, w, m - 1));
        assert(d.last() == w[m - 1] && d[0] == w[0]);
        d
    } else {
        let (i, j) = choose|i: int, j: int|
            0 <= i < d.len() && 0 <= j < d.len() && i != j && d[i] == d[j];
        let (lo, hi) = if i < j {
            (i, j)
        } else {
            (j, i)
        };
        let sub = w.subrange(lo, hi + 1);
        assert(sub.len() == hi - lo + 1);
        assert forall|k: int| 0 <= k < sub.len() - 1 implies #[trigger] is_step(e, sub, k) by {
            assert(is_step(e, w, lo + k));
            assert(sub[k] == w[lo + k] && sub[k + 1] == w[lo + k + 1]);
        }
        assert(sub[0] == w[lo] && sub.last() == w[hi]);
        assert(d[lo] == w[lo] && d[hi] == w[hi]);
        lemma_simple_cycle(e, sub)
    }
}

/// Where relations hold a cycle, some path closes.
pub proof fn lemma_cyclic_has_closed_path(e: Seq<Edge>) -> (p: Seq<CardValue>)
    requires
        !acyclic(e),
    ensures
        is_path(e, p),
        closes(e, p),
{
    let v = choose|v: CardValue| reaches(e, v, v);
    let w = choose|w: Seq<CardValue>| #[trigger] is_walk(e, w) && w[0] == v && w.last() == v;
    lemma_simple_cycle(e, w)
}

/// Distinct ranks are thirteen at most.
pub proof fn lemma_distinct_ranks_bound(p: Seq<CardValue>)
    requires
        p.no_duplicates(),
    ensures
        p.len() <= 13,
{
    let c = canonical_values();
    lemma_canonical_is_ordering();
    c.unique_seq_to_set();
    p.unique_seq_to_set();
    seq_to_set_is_finite(c);
    assert(p.to_set().subset_of(c.to_set())) by {
        assert forall|v: CardValue| p.to_set().contains(v) implies c.to_set().contains(v) by {
            assert(c.contains(v));
        }
    }
    lemma_len_subset(p.to_set(), c.to_set());
}

/// The rank sequences that a vector of rank vectors holds.
pub open spec fn rank_views(v: Seq<Vec<CardValue>>) -> Seq<Seq<CardValue>> {
    Seq::new(v.len(), |i: int| v[i]@)
}

/// `a` is the start of `q`.
pub open spec fn is_prefix(a: Seq<CardValue>, q: Seq<CardValue>) -> bool {
    a.len() <= q.len() && q.take(a.len() as int) == a
}

/// Some entry of the stack is the start of `q`.
pub open spec fn has_prefix_on(stack: Seq<Seq<CardValue>>, q: Seq<CardValue>) -> bool {
    exists|j: int| 0 <= j < stack.len() && is_prefix(#[trigger] stack[j], q)
}

/// A path from `v` whose last rank is related to `v`.
pub open spec fn closing_path(e: Seq<Edge>, v: CardValue, q: Seq<CardValue>) -> bool {
    is_path(e, q) && q[0] == v && closes(e, q)
}

/// Every rank of `a` occurs in `b`.
pub open spec fn ranks_within(a: Seq<CardValue>, b: Seq<CardValue>) -> bool {
    forall|i: int| 0 <= i < a.len() ==> b.contains(#[trigger] a[i])
}

/// No entry has all its ranks within another entry.
pub open spec fn none_within_other(cycles: Seq<Seq<CardValue>>) -> bool {
    forall|i: int, j: int|
        0 <= i < cycles.len() && 0 <= j < cycles.len() && i != j ==> !ranks_within(
            #[trigger] cycles[i],
            #[trigger] cycles[j],
        )
}

/// The ranks of `q` all lie within one of the cycles.
pub open spec fn covered(cycles: Seq<Seq<CardValue>>, q: Seq<CardValue>) -> bool {
    exists|i: int| 0 <= i < cycles.len() && ranks_within(q, #[trigger] cycles[i])
}

/// Each of the earlier cycles lies within one of the later cycles.
pub open spec fn covers(later: Seq<Seq<CardValue>>, earlier: Seq<Seq<CardValue>>) -> bool {
    forall|j: int| 0 <= j < earlier.len() ==> covered(later, #[trigger] earlier[j])
}

/// Ranks within ranks that lie within others lie within those.
pub proof fn lemma_within_trans(a: Seq<CardValue>, b: Seq<CardValue>, c: Seq<CardValue>)
    requires
        ranks_within(a, b),
        ranks_within(b, c),
    ensures
        ranks_within(a, c),
{
    assert forall|i: int| 0 <= i < a.len() implies c.contains(#[trigger] a[i]) by {
        assert(b.contains(a[i]));
        let k = choose|k: int| 0 <= k < b.len() && b[k] == a[i];
        assert(c.contains(b[k]));
    }
}

/// What lies within one of the earlier cycles lies within one of the later.
proof fn lemma_covered_grows(later: Seq<Seq<CardValue>>, earlier: Seq<Seq<CardValue>>, q: Seq<CardValue>)
    requires
        covers(later, earlier),
        covered(earlier, q),
    ensures
        covered(later, q),
{
    let i = choose|i: int| 0 <= i < earlier.len() && ranks_within(q, #[trigger] earlier[i]);
    assert(covered(later, earlier[i]));
    let k = choose|k: int| 0 <= k < later.len() && ranks_within(earlier[i], #[trigger] later[k]);
    lemma_within_trans(q, earlier[i], later[k]);
}

/// Cycles cover themselves.
proof fn lemma_covers_itself(cycles: Seq<Seq<CardValue>>)
    ensures
        covers(cycles, cycles),
{
    assert forall|j: int| 0 <= j < cycles.len() implies covered(cycles, #[trigger] cycles[j]) by {
        assert(ranks_within(cycles[j], cycles[j]));
    }
}

/// Every closing path from `v` starts with an entry of the stack or lies
/// within one of the cycles.
pub open spec fn explored(
    e: Seq<Edge>,
    v: CardValue,
    stack: Seq<Seq<CardValue>>,
    cycles: Seq<Seq<CardValue>>,
) -> bool {
    forall|q: Seq<CardValue>| #[trigger]
        closing_path(e, v, q) ==> has_prefix_on(stack, q) || covered(cycles, q)
}

/// Every closing path from one of the first `n` ranks lies within one of
/// the cycles.
pub open spec fn settled(e: Seq<Edge>, vals: Seq<CardValue>, n: int, cycles: Seq<Seq<CardValue>>) -> bool {
    forall|j: int, q: Seq<CardValue>|
        0 <= j < n && #[trigger] closing_path(e, #[trigger] vals[j], q) ==> covered(cycles, q)
}

/// The rank that follows the start `check` on the way round `q`: the next
/// rank of `q`, or the first where `q` ends with `check`.
pub open spec fn next_of(check: Seq<CardValue>, q: Seq<CardValue>) -> CardValue {
    if q.len() == check.len() {
        q[0]
    } else {
        q[check.len() as int]
    }
}

/// `q` starts with `check`, and the rank that follows is yet to be tried:
/// it stands in `vals` at `li` or later.
pub open spec fn pending(check: Seq<CardValue>, q: Seq<CardValue>, vals: Seq<CardValue>, li: int) -> bool {
    is_prefix(check, q) && exists|m: int| li <= m < vals.len() && #[trigger] vals[m] == next_of(check, q)
}

/// Every closing path from `v` starts with an entry of the stack, is pending
/// on `check`, or lies within one of the cycles.
pub open spec fn exploring(
    e: Seq<Edge>,
    v: CardValue,
    stack: Seq<Seq<CardValue>>,
    check: Seq<CardValue>,
    vals: Seq<CardValue>,
    li: int,
    cycles: Seq<Seq<CardValue>>,
) -> bool {
    forall|q: Seq<CardValue>| #[trigger]
        closing_path(e, v, q) ==> has_prefix_on(stack, q) || pending(check, q, vals, li) || covered(
            cycles,
            q,
        )
}

/// The ranks hold both ranks of every relation.
pub open spec fn holds_endpoints(e: Seq<Edge>, vals: Seq<CardValue>) -> bool {
    forall|k: int| 0 <= k < e.len() ==> vals.contains((#[trigger] e[k]).0) && vals.contains(e[k].1)
}

/// What was settled stays settled when the cycles come to cover the cycles
/// before.
proof fn lemma_settled_grows(
    e: Seq<Edge>,
    vals: Seq<CardValue>,
    n: int,
    earlier: Seq<Seq<CardValue>>,
    later: Seq<Seq<CardValue>>,
)
    requires
        settled(e, vals, n, earlier),
        covers(later, earlier),
    ensures
        settled(e, vals, n, later),
{
    assert forall|j: int, q: Seq<CardValue>|
        0 <= j < n && #[trigger] closing_path(e, #[trigger] vals[j], q) implies covered(later, q) by {
        lemma_covered_grows(later, earlier, q);
    }
}

/// Every closing path from `v` starts with `v`.
proof fn lemma_explore_start(e: Seq<Edge>, v: CardValue, cycles: Seq<Seq<CardValue>>)
    ensures
        explored(e, v, seq![seq![v]], cycles),
{
    let stack = seq![seq![v]];
    assert forall|q: Seq<CardValue>| #[trigger] closing_path(e, v, q) implies has_prefix_on(
        stack,
        q,
    ) by {
        assert(q.take(1) =~= seq![v]);
        assert(is_prefix(stack[0], q));
    }
}

/// Taking the top entry off the stack leaves the paths that start with it
/// pending.
proof fn lemma_explore_pop(
    e: Seq<Edge>,
    v: CardValue,
    stack: Seq<Seq<CardValue>>,
    vals: Seq<CardValue>,
    cycles: Seq<Seq<CardValue>>,
)
    requires
        explored(e, v, stack, cycles),
        stack.len() > 0,
        stack.last().len() > 0,
        holds_endpoints(e, vals),
    ensures
        exploring(e, v, stack.drop_last(), stack.last(), vals, 0, cycles),
{
    let rest = stack.drop_last();
    let check = stack.last();
    assert forall|q: Seq<CardValue>| #[trigger] closing_path(e, v, q) implies has_prefix_on(rest, q)
        || pending(check, q, vals, 0) || covered(cycles, q) by {
        if !covered(cycles, q) {
            let j = choose|j: int| 0 <= j < stack.len() && is_prefix(#[trigger] stack[j], q);
            if j < rest.len() {
                assert(rest[j] == stack[j]);
            } else {
                let x = next_of(check, q);
                if q.len() == check.len() {
                    let k = choose|k: int| 0 <= k < e.len() && e[k] == (q.last(), q[0]);
                    assert(vals.contains(e[k].1));
                } else {
                    let n = check.len() as int;
                    assert(is_step(e, q, n - 1));
                    let k = choose|k: int| 0 <= k < e.len() && e[k] == (q[n - 1], q[n]);
                    assert(vals.contains(e[k].1));
                }
                let m = choose|m: int| 0 <= m < vals.len() && vals[m] == x;
                assert(vals[m] == next_of(check, q));
            }
        }
    }
}

/// A rank that gives neither a cycle nor a longer path leaves nothing
/// pending on it.
proof fn lemma_explore_skip(
    e: Seq<Edge>,
    v: CardValue,
    stack: Seq<Seq<CardValue>>,
    check: Seq<CardValue>,
    vals: Seq<CardValue>,
    li: int,
    cycles: Seq<Seq<CardValue>>,
)
    requires
        exploring(e, v, stack, check, vals, li, cycles),
        0 <= li < vals.len(),
        check.len() > 0,
        !e.contains((check.last(), vals[li])) || (vals[li] != check[0] && check.contains(vals[li])),
    ensures
        exploring(e, v, stack, check, vals, li + 1, cycles),
{
    let link = vals[li];
    assert forall|q: Seq<CardValue>| #[trigger] closing_path(e, v, q) implies has_prefix_on(stack, q)
        || pending(check, q, vals, li + 1) || covered(cycles, q) by {
        if !has_prefix_on(stack, q) && !covered(cycles, q) {
            let m = choose|m: int| li <= m < vals.len() && #[trigger] vals[m] == next_of(check, q);
            let n = check.len() as int;
            assert(q.take(n) == check);
            assert(q[n - 1] == q.take(n)[n - 1]);
            assert(q[0] == q.take(n)[0]);
            if m == li {
                if q.len() == n {
                    assert(q.take(n) =~= q);
                    assert(false);
                } else {
                    assert(is_step(e, q, n - 1));
                    let i = choose|i: int| 0 <= i < check.len() && check[i] == link;
                    assert(q[i] == q.take(n)[i]);
                    assert(false);
                }
            }
            assert(vals[m] == next_of(check, q));
        }
    }
}

/// A longer path put on the stack covers the paths that were pending on its
/// last rank.
proof fn lemma_explore_push(
    e: Seq<Edge>,
    v: CardValue,
    stack: Seq<Seq<CardValue>>,
    check: Seq<CardValue>,
    vals: Seq<CardValue>,
    li: int,
    cycles: Seq<Seq<CardValue>>,
)
    requires
        exploring(e, v, stack, check, vals, li, cycles),
        0 <= li < vals.len(),
        check.len() > 0,
        vals[li] != check[0],
    ensures
        exploring(e, v, stack.push(check.push(vals[li])), check, vals, li + 1, cycles),
{
    let link = vals[li];
    let longer = check.push(link);
    let after = stack.push(longer);
    assert forall|q: Seq<CardValue>| #[trigger] closing_path(e, v, q) implies has_prefix_on(after, q)
        || pending(check, q, vals, li + 1) || covered(cycles, q) by {
        if has_prefix_on(stack, q) {
            let j = choose|j: int| 0 <= j < stack.len() && is_prefix(#[trigger] stack[j], q);
            assert(after[j] == stack[j]);
        } else if !covered(cycles, q) {
            let m = choose|m: int| li <= m < vals.len() && #[trigger] vals[m] == next_of(check, q);
            let n = check.len() as int;
            assert(q.take(n) == check);
            assert(q[0] == q.take(n)[0]);
            if m == li {
                assert(q.len() > n);
                assert(q.take(n + 1) =~= longer) by {
                    assert forall|i: int| 0 <= i < n + 1 implies q.take(n + 1)[i] == longer[i] by {
                        if i < n {
                            assert(q[i] == q.take(n)[i]);
                        }
                    }
                }
                assert(is_prefix(after[stack.len() as int], q));
            } else {
                assert(vals[m] == next_of(check, q));
            }
        }
    }
}

/// A cycle found on the first rank leaves nothing pending on that rank,
/// once the cycles cover the path that closed and the cycles before.
proof fn lemma_explore_found(
    e: Seq<Edge>,
    v: CardValue,
    stack: Seq<Seq<CardValue>>,
    check: Seq<CardValue>,
    vals: Seq<CardValue>,
    li: int,
    earlier: Seq<Seq<CardValue>>,
    later: Seq<Seq<CardValue>>,
)
    requires
        exploring(e, v, stack, check, vals, li, earlier),
        0 <= li < vals.len(),
        check.len() > 0,
        vals[li] == check[0],
        covers(later, earlier),
        covered(later, check),
    ensures
        exploring(e, v, stack, check, vals, li + 1, later),
{
    assert forall|q: Seq<CardValue>| #[trigger] closing_path(e, v, q) implies has_prefix_on(stack, q)
        || pending(check, q, vals, li + 1) || covered(later, q) by {
        if has_prefix_on(stack, q) {
        } else if covered(earlier, q) {
            lemma_covered_grows(later, earlier, q);
        } else {
            let m = choose|m: int| li <= m < vals.len() && #[trigger] vals[m] == next_of(check, q);
            let n = check.len() as int;
            assert(q.take(n) == check);
            assert(q[0] == q.take(n)[0]);
            if m == li {
                if q.len() == n {
                    assert(q.take(n) =~= q);
                } else {
                    assert(q[n] == q[0]);
                    assert(false);
                }
            } else {
                assert(vals[m] == next_of(check, q));
            }
        }
    }
}

/// When every rank was tried, nothing is pending.
proof fn lemma_explore_done(
    e: Seq<Edge>,
    v: CardValue,
    stack: Seq<Seq<CardValue>>,
    check: Seq<CardValue>,
    vals: Seq<CardValue>,
    cycles: Seq<Seq<CardValue>>,
)
    requires
        exploring(e, v, stack, check, vals, vals.len() as int, cycles),
    ensures
        explored(e, v, stack, cycles),
{
}

/// `(n + 1)` to the power `d`.
pub open spec fn weight(n: nat, d: nat) -> nat
    decreases d,
{
    if d == 0 {
        1
    } else {
        (n + 1) * weight(n, (d - 1) as nat)
    }
}

/// The work that a stack of paths stands for, where each path can grow by
/// one of `n` ranks until it holds thirteen.
pub open spec fn stack_weight(n: nat, stack: Seq<Seq<CardValue>>) -> nat
    decreases stack.len(),
{
    if stack.len() == 0 {
        0
    } else {
        stack_weight(n, stack.drop_last()) + weight(n, (13 - stack.last().len()) as nat)
    }
}

proof fn lemma_weight_positive(n: nat, d: nat)
    ensures
        weight(n, d) >= 1,
    decreases d,
{
    if d > 0 {
        lemma_weight_positive(n, (d - 1) as nat);
        assert((n + 1) * weight(n, (d - 1) as nat) >= 1) by (nonlinear_arith)
            requires
                weight(n, (d - 1) as nat) >= 1,
        ;
    }
}

/// Copies a slice of ranks into a vector.
pub fn copy_ranks(src: &[CardValue]) -> (out: Vec<CardValue>)
    ensures
        out@ == src@,
{
    let mut out: Vec<CardValue> = Vec::new();
    let mut i: usize = 0;
    while i < src.len()
        invariant
            i <= src.len(),
            out@ == src@.take(i as int),
        decreases src.len() - i,
    {
        out.push(src[i]);
        assert(src@.take(i as int + 1) =~= src@.take(i as int).push(src@[i as int]));
        i += 1;
    }
    assert(src@.take(src.len() as int) =~= src@);
    out
}

/// Tells whether every rank of `a` occurs in `b`.
pub fn all_within(a: &[CardValue], b: &[CardValue]) -> (ok: bool)
    ensures
        ok == ranks_within(a@, b@),
{
    let mut i: usize = 0;
    while i < a.len()
        invariant
            i <= a.len(),
            forall|j: int| 0 <= j < i ==> b@.contains(#[trigger] a@[j]),
        decreases a.len() - i,
    {
        if !holds_value(b, a[i]) {
            return false;
        }
        i += 1;
    }
    true
}

/// The ranks that occur in the relations, each once, in the order in which
/// they first occur.
fn endpoints(relations: &[Edge]) -> (vals: Vec<CardValue>)
    ensures
        holds_endpoints(relations@, vals@),
        vals@.no_duplicates(),
{
    let mut vals: Vec<CardValue> = Vec::new();
    let mut i: usize = 0;
    while i < relations.len()
        invariant
            i <= relations.len(),
            vals@.no_duplicates(),
            forall|k: int|
                0 <= k < i ==> vals@.contains((#[trigger] relations@[k]).0) && vals@.contains(
                    relations@[k].1,
                ),
        decreases relations.len() - i,
    {
        let a = relations[i].0;
        let b = relations[i].1;
        if !holds_value(vals.as_slice(), a) {
            let ghost had = vals@;
            vals.push(a);
            assert forall|k: int| 0 <= k < i implies vals@.contains((#[trigger] relations@[k]).0)
                && vals@.contains(relations@[k].1) by {
                let x = choose|x: int| 0 <= x < had.len() && had[x] == relations@[k].0;
                let y = choose|y: int| 0 <= y < had.len() && had[y] == relations@[k].1;
                assert(vals@[x] == had[x] && vals@[y] == had[y]);
            }
            assert(vals@[vals.len() - 1] == a);
        }
        if !holds_value(vals.as_slice(), b) {
            let ghost had = vals@;
            vals.push(b);
            assert forall|k: int| 0 <= k < i implies vals@.contains((#[trigger] relations@[k]).0)
                && vals@.contains(relations@[k].1) by {
                let x = choose|x: int| 0 <= x < had.len() && had[x] == relations@[k].0;
                let y = choose|y: int| 0 <= y < had.len() && had[y] == relations@[k].1;
                assert(vals@[x] == had[x] && vals@[y] == had[y]);
            }
            proof {
                let x = choose|x: int| 0 <= x < had.len() && had[x] == a;
                assert(vals@[x] == a);
            }
            assert(vals@[vals.len() - 1] == b);
        }
        i += 1;
    }
    vals
}

/// Tells whether some cycle holds exactly the ranks of `check`.
fn known_cycle(cycles: &Vec<Vec<CardValue>>, check: &[CardValue]) -> (found: bool)
    ensures
        found == exists|i: int|
            0 <= i < cycles.len() && ranks_within((#[trigger] cycles@[i])@, check@) && ranks_within(
                check@,
                cycles@[i]@,
            ),
{
    let mut i: usize = 0;
    while i < cycles.len()
        invariant
            i <= cycles.len(),
            forall|j: int|
                0 <= j < i ==> !(ranks_within((#[trigger] cycles@[j])@, check@) && ranks_within(
                    check@,
                    cycles@[j]@,
                )),
        decreases cycles.len() - i,
    {
        if all_within(cycles[i].as_slice(), check) && all_within(check, cycles[i].as_slice()) {
            return true;
        }
        i += 1;
    }
    false
}

/// Tells whether the ranks of `cycle` all lie within one of the candidates.
fn within_some(candidates: &Vec<Vec<CardValue>>, cycle: &[CardValue]) -> (found: bool)
    ensures
        found == covered(rank_views(candidates@), cycle@),
{
    let mut i: usize = 0;
    while i < candidates.len()
        invariant
            i <= candidates.len(),
            forall|j: int| 0 <= j < i ==> !ranks_within(cycle@, #[trigger] rank_views(candidates@)[j]),
        decreases candidates.len() - i,
    {
        assert(rank_views(candidates@)[i as int] == candidates@[i as int]@);
        if all_within(cycle, candidates[i].as_slice()) {
            return true;
        }
        i += 1;
    }
    false
}

/// The ranks `x` are the ranks of some entry.
pub open spec fn occurs_in(src: Seq<Vec<CardValue>>, x: Seq<CardValue>) -> bool {
    exists|j: int| 0 <= j < src.len() && (#[trigger] src[j])@ == x
}

/// Every entry of `out` has the ranks of some entry of `src`.
pub open spec fn taken_from(out: Seq<Vec<CardValue>>, src: Seq<Vec<CardValue>>) -> bool {
    forall|k: int| 0 <= k < out.len() ==> occurs_in(src, (#[trigger] out[k])@)
}

/// Goes through the cycles in order and keeps, of cycles whose ranks lie
/// within those of another, the one that holds the others: a cycle whose
/// ranks lie within a cycle kept so far is passed over, and the cycles kept
/// so far whose ranks lie within a new cycle give way to it.
fn keep_longest(cycles: Vec<Vec<CardValue>>) -> (out: Vec<Vec<CardValue>>)
    ensures
        taken_from(out@, cycles@),
        none_within_other(rank_views(out@)),
        covers(rank_views(out@), rank_views(cycles@)),
{
    let mut candidates: Vec<Vec<CardValue>> = Vec::new();
    let mut i: usize = 0;
    while i < cycles.len()
        invariant
            i <= cycles.len(),
            taken_from(candidates@, cycles@),
            none_within_other(rank_views(candidates@)),
            forall|j: int| 0 <= j < i ==> covered(rank_views(candidates@), (#[trigger] cycles@[j])@),
        decreases cycles.len() - i,
    {
        let ghost cycle = cycles@[i as int]@;
        let ghost old_views = rank_views(candidates@);
        if !within_some(&candidates, cycles[i].as_slice()) {
            let mut kept: Vec<Vec<CardValue>> = Vec::new();
            let mut c: usize = 0;
            while c < candidates.len()
                invariant
                    c <= candidates.len(),
                    i < cycles.len(),
                    cycle == cycles@[i as int]@,
                    old_views == rank_views(candidates@),
                    !covered(old_views, cycle),
                    taken_from(candidates@, cycles@),
                    taken_from(kept@, cycles@),
                    none_within_other(old_views),
                    none_within_other(rank_views(kept@)),
                    forall|k: int|
                        0 <= k < kept.len() ==> !ranks_within((#[trigger] kept@[k])@, cycle)
                            && !ranks_within(cycle, kept@[k]@),
                    forall|k: int, m: int|
                        0 <= k < kept.len() && c <= m < old_views.len() ==> !ranks_within(
                            (#[trigger] kept@[k])@,
                            #[trigger] old_views[m],
                        ) && !ranks_within(old_views[m], kept@[k]@),
                    forall|m: int|
                        0 <= m < c ==> ranks_within(#[trigger] old_views[m], cycle) || occurs_in(
                            kept@,
                            old_views[m],
                        ),
                decreases candidates.len() - c,
            {
                if !all_within(candidates[c].as_slice(), cycles[i].as_slice()) {
                    let copy = copy_ranks(candidates[c].as_slice());
                    let ghost had = kept@;
                    kept.push(copy);
                    proof {
                        assert(copy@ == old_views[c as int]);
                        assert forall|k: int| 0 <= k < kept.len() implies occurs_in(
                            cycles@,
                            (#[trigger] kept@[k])@,
                        ) by {
                            if k < had.len() {
                                assert(kept@[k] == had[k]);
                            } else {
                                assert(occurs_in(cycles@, candidates@[c as int]@));
                            }
                        }
                        assert forall|k: int| 0 <= k < kept.len() implies !ranks_within(
                            (#[trigger] kept@[k])@,
                            cycle,
                        ) && !ranks_within(cycle, kept@[k]@) by {
                            if k < had.len() {
                                assert(kept@[k] == had[k]);
                            } else {
                                assert(!ranks_within(cycle, old_views[c as int]));
                            }
                        }
                        assert forall|k: int, m: int|
                            0 <= k < kept.len() && c + 1 <= m < old_views.len() implies !ranks_within(
                            (#[trigger] kept@[k])@,
                            #[trigger] old_views[m],
                        ) && !ranks_within(old_views[m], kept@[k]@) by {
                            if k < had.len() {
                                assert(kept@[k] == had[k]);
                            } else {
                                assert(!ranks_within(old_views[c as int], old_views[m]));
                                assert(!ranks_within(old_views[m], old_views[c as int]));
                            }
                        }
                        let views = rank_views(kept@);
                        assert forall|x: int, y: int|
                            0 <= x < views.len() && 0 <= y < views.len() && x != y implies !ranks_within(
                            #[trigger] views[x],
                            #[trigger] views[y],
                        ) by {
                            if x < had.len() && y < had.len() {
                                assert(views[x] == rank_views(had)[x]);
                                assert(views[y] == rank_views(had)[y]);
                            } else if x < had.len() {
                                assert(kept@[x] == had[x]);
                                assert(views[y] == old_views[c as int]);
                                assert(!ranks_within(had[x]@, old_views[c as int]));
                            } else {
                                assert(kept@[y] == had[y]);
                                assert(views[x] == old_views[c as int]);
                                assert(!ranks_within(old_views[c as int], had[y]@));
                            }
                        }
                        assert forall|m: int| 0 <= m < c + 1 implies ranks_within(
                            #[trigger] old_views[m],
                            cycle,
                        ) || occurs_in(kept@, old_views[m]) by {
                            if m < c {
                                if occurs_in(had, old_views[m]) {
                                    let j = choose|j: int|
                                        0 <= j < had.len() && (#[trigger] had[j])@ == old_views[m];
                                    assert(kept@[j]@ == old_views[m]);
                                }
                            } else {
                                assert(kept@[had.len() as int]@ == old_views[m]);
                            }
                        }
                    }
                }
                c += 1;
            }
            let copy = copy_ranks(cycles[i].as_slice());
            let ghost had = kept@;
            kept.push(copy);
            proof {
                assert forall|k: int| 0 <= k < kept.len() implies occurs_in(
                    cycles@,
                    (#[trigger] kept@[k])@,
                ) by {
                    if k < had.len() {
                        assert(kept@[k] == had[k]);
                    } else {
                        assert(cycles@[i as int]@ == kept@[k]@);
                    }
                }
                let views = rank_views(kept@);
                let last = had.len() as int;
                assert(views[last] == cycle);
                assert forall|x: int, y: int|
                    0 <= x < views.len() && 0 <= y < views.len() && x != y implies !ranks_within(
                    #[trigger] views[x],
                    #[trigger] views[y],
                ) by {
                    if x < had.len() && y < had.len() {
                        assert(views[x] == rank_views(had)[x]);
                        assert(views[y] == rank_views(had)[y]);
                    } else if x < had.len() {
                        assert(kept@[x] == had[x]);
                    } else {
                        assert(kept@[y] == had[y]);
                    }
                }
                assert forall|j: int| 0 <= j < i + 1 implies covered(
                    views,
                    (#[trigger] cycles@[j])@,
                ) by {
                    if j == i {
                        assert(ranks_within(cycle, views[last]));
                    } else {
                        let k = choose|k: int|
                            0 <= k < old_views.len() && ranks_within(
                                cycles@[j]@,
                                #[trigger] old_views[k],
                            );
                        if ranks_within(old_views[k], cycle) {
                            lemma_within_trans(cycles@[j]@, old_views[k], cycle);
                            assert(ranks_within(cycles@[j]@, views[last]));
                        } else {
                            assert(occurs_in(had, old_views[k]));
                            let m = choose|m: int|
                                0 <= m < had.len() && (#[trigger] had[m])@ == old_views[k];
                            assert(views[m] == old_views[k]);
                        }
                    }
                }
            }
            candidates = kept;
        }
        i += 1;
    }
    proof {
        assert forall|j: int| 0 <= j < cycles.len() implies covered(
            rank_views(candidates@),
            #[trigger] rank_views(cycles@)[j],
        ) by {
            assert(covered(rank_views(candidates@), cycles@[j]@));
        }
    }
    candidates
}

/// Every entry is a path from `v`.
pub open spec fn paths_from(e: Seq<Edge>, v: CardValue, stack: Seq<Seq<CardValue>>) -> bool {
    forall|j: int| 0 <= j < stack.len() ==> is_path(e, #[trigger] stack[j]) && stack[j][0] == v
}

/// Every entry is a cycle.
pub open spec fn all_cycles(e: Seq<Edge>, cycles: Seq<Seq<CardValue>>) -> bool {
    forall|j: int| 0 <= j < cycles.len() ==> is_cycle(e, #[trigger] cycles[j])
}

/// What holds of the cycles found among relations: each is a cycle of the
/// relations; every path of the relations whose last rank is related to its
/// first lies, as far as its ranks go, within one of them; there is none
/// exactly where the relations hold no cycle; and none has all its ranks
/// within another.
pub open spec fn cycles_found(e: Seq<Edge>, cycles: Seq<Seq<CardValue>>) -> bool {
    &&& all_cycles(e, cycles)
    &&& forall|q: Seq<CardValue>| is_path(e, q) && #[trigger] closes(e, q) ==> covered(cycles, q)
    &&& cycles.len() == 0 <==> acyclic(e)
    &&& none_within_other(cycles)
}

/// Finds the cycles among the relations.
///
/// From each rank that occurs in the relations, in the order in which the
/// ranks first occur, every path is followed depth first. A path whose last
/// rank is related to its first is a cycle, and it is recorded unless its
/// ranks all lie within those of a recorded cycle. Whenever a cycle is
/// recorded, the recorded cycles whose ranks all lie within its ranks are
/// dropped. Each cycle is reported as a closed walk that ends in the rank in
/// which it starts.
///
/// Every cycle of the relations lies within a cycle that is reported, as far
/// as its ranks go; so no cycle is reported exactly where the relations are
/// free of cycles. No cycle is reported whose ranks all lie within those of
/// another reported cycle: of such cycles only the largest is left, and no
/// two reported cycles hold the same ranks.
pub fn detect_cycles(relations: &[Edge]) -> (cycles: Vec<Vec<CardValue>>)
    ensures
        cycles_found(relations@, rank_views(cycles@)),
{
    let values = endpoints(relations);
    let ghost e = relations@;
    let ghost n = values.len() as nat;
    let mut cycles: Vec<Vec<CardValue>> = Vec::new();
    let mut vi: usize = 0;
    while vi < values.len()
        invariant
            vi <= values.len(),
            e == relations@,
            n == values.len(),
            holds_endpoints(e, values@),
            all_cycles(e, rank_views(cycles@)),
            none_within_other(rank_views(cycles@)),
            settled(e, values@, vi as int, rank_views(cycles@)),
        decreases values.len() - vi,
    {
        let v = values[vi];
        let mut potential: Vec<Vec<CardValue>> = Vec::new();
        let mut start: Vec<CardValue> = Vec::new();
        start.push(v);
        potential.push(start);
        proof {
            lemma_explore_start(e, v, rank_views(cycles@));
            assert(rank_views(potential@) =~= seq![seq![v]]);
        }
        while potential.len() > 0
            invariant
                vi < values.len(),
                v == values@[vi as int],
                e == relations@,
                n == values.len(),
                holds_endpoints(e, values@),
                all_cycles(e, rank_views(cycles@)),
                none_within_other(rank_views(cycles@)),
                paths_from(e, v, rank_views(potential@)),
                explored(e, v, rank_views(potential@), rank_views(cycles@)),
                settled(e, values@, vi as int, rank_views(cycles@)),
            decreases stack_weight(n, rank_views(potential@)),
        {
            let ghost before = rank_views(potential@);
            let check = potential.pop().unwrap();
            let ghost rest = rank_views(potential@);
            proof {
                assert(rest =~= before.drop_last());
                assert(before.last() == check@);
                assert(is_path(e, before[before.len() - 1]));
                lemma_distinct_ranks_bound(check@);
                lemma_explore_pop(e, v, before, values@, rank_views(cycles@));
                assert forall|j: int| 0 <= j < rest.len() implies is_path(e, #[trigger] rest[j])
                    && rest[j][0] == v by {
                    assert(rest[j] == before[j]);
                }
            }
            let first = check[0];
            let last = check[check.len() - 1];
            let ghost room = (13 - check.len()) as nat;
            let ghost grow: nat = if room > 0 {
                weight(n, (room - 1) as nat)
            } else {
                0
            };
            proof {
                lemma_weight_positive(n, room);
                if room > 0 {
                    lemma_weight_positive(n, (room - 1) as nat);
                    assert(weight(n, room) == (n + 1) * grow);
                    assert(n * grow + grow == (n + 1) * grow) by (nonlinear_arith);
                }
                assert(stack_weight(n, rest) + n * grow < stack_weight(n, before)) by {
                    if room == 0 {
                        assert(n * grow == 0) by (nonlinear_arith)
                            requires
                                grow == 0,
                        ;
                    }
                }
            }
            let mut li: usize = 0;
            while li < values.len()
                invariant
                    li <= values.len(),
                    vi < values.len(),
                    v == values@[vi as int],
                    e == relations@,
                    n == values.len(),
                    holds_endpoints(e, values@),
                    all_cycles(e, rank_views(cycles@)),
                    none_within_other(rank_views(cycles@)),
                    paths_from(e, v, rank_views(potential@)),
                    is_path(e, check@),
                    check@[0] == v,
                    check.len() <= 13,
                    first == check@[0],
                    last == check@.last(),
                    room == (13 - check.len()) as nat,
                    grow == if room > 0 {
                        weight(n, (room - 1) as nat)
                    } else {
                        0
                    },
                    stack_weight(n, rank_views(potential@)) + (n - li) * grow < stack_weight(
                        n,
                        before,
                    ),
                    exploring(
                        e,
                        v,
                        rank_views(potential@),
                        check@,
                        values@,
                        li as int,
                        rank_views(cycles@),
                    ),
                    settled(e, values@, vi as int, rank_views(cycles@)),
                decreases values.len() - li,
            {
                let link = values[li];
                let ghost stack = rank_views(potential@);
                let ghost known = rank_views(cycles@);
                proof {
                    assert((n - li) * grow == (n - li - 1) * grow + grow) by (nonlinear_arith);
                    assert((n - li - 1) * grow >= 0) by (nonlinear_arith)
                        requires
                            n - li - 1 >= 0,
                            grow >= 0,
                    ;
                }
                if holds_edge(relations, last, link) {
                    if link == first {
                        if !known_cycle(&cycles, check.as_slice()) {
                            let mut chain = copy_ranks(check.as_slice());
                            chain.push(first);
                            proof {
                                lemma_closed_path_is_cycle(e, check@);
                            }
                            let ghost had = cycles@;
                            cycles.push(chain);
                            let ghost full = cycles@;
                            proof {
                                assert forall|j: int| 0 <= j < full.len() implies is_cycle(
                                    e,
                                    #[trigger] rank_views(full)[j],
                                ) by {
                                    if j < had.len() {
                                        assert(rank_views(full)[j] == rank_views(had)[j]);
                                    }
                                }
                            }
                            cycles = keep_longest(cycles);
                            proof {
                                let later = rank_views(cycles@);
                                assert forall|k: int| 0 <= k < cycles.len() implies is_cycle(
                                    e,
                                    #[trigger] later[k],
                                ) by {
                                    assert(occurs_in(full, cycles@[k]@));
                                    let j = choose|j: int|
                                        0 <= j < full.len() && (#[trigger] full[j])@
                                            == cycles@[k]@;
                                    assert(rank_views(full)[j] == full[j]@);
                                }
                                assert(covers(later, known)) by {
                                    assert forall|j: int| 0 <= j < known.len() implies covered(
                                        later,
                                        #[trigger] known[j],
                                    ) by {
                                        assert(rank_views(full)[j] == known[j]);
                                    }
                                }
                                assert(covered(later, check@)) by {
                                    let end = full.len() - 1;
                                    assert(rank_views(full)[end] == chain@);
                                    assert(covered(later, rank_views(full)[end]));
                                    let k = choose|k: int|
                                        0 <= k < later.len() && ranks_within(
                                            chain@,
                                            #[trigger] later[k],
                                        );
                                    assert(ranks_within(check@, chain@)) by {
                                        assert forall|i: int| 0 <= i < check.len() implies chain@.contains(
                                            #[trigger] check@[i],
                                        ) by {
                                            assert(chain@[i] == check@[i]);
                                        }
                                    }
                                    lemma_within_trans(check@, chain@, later[k]);
                                }
                                lemma_explore_found(
                                    e,
                                    v,
                                    stack,
                                    check@,
                                    values@,
                                    li as int,
                                    known,
                                    later,
                                );
                                lemma_settled_grows(e, values@, vi as int, known, later);
                            }
                        } else {
                            proof {
                                lemma_covers_itself(known);
                                let i = choose|i: int|
                                    0 <= i < cycles.len() && ranks_within(
                                        (#[trigger] cycles@[i])@,
                                        check@,
                                    ) && ranks_within(check@, cycles@[i]@);
                                assert(ranks_within(check@, known[i]));
                                lemma_explore_found(
                                    e,
                                    v,
                                    stack,
                                    check@,
                                    values@,
                                    li as int,
                                    known,
                                    known,
                                );
                            }
                        }
                    } else if !holds_value(check.as_slice(), link) {
                        let mut chain = copy_ranks(check.as_slice());
                        chain.push(link);
                        proof {
                            assert(chain@ == check@.push(link));
                            assert(chain@.no_duplicates()) by {
                                assert forall|a: int, b: int|
                                    0 <= a < chain.len() && 0 <= b < chain.len() && a
                                        != b implies chain@[a] != chain@[b] by {
                                    if a < check.len() && b < check.len() {
                                    } else if a < check.len() {
                                        assert(check@.contains(check@[a]));
                                    } else {
                                        assert(check@.contains(check@[b]));
                                    }
                                }
                            }
                            lemma_distinct_ranks_bound(chain@);
                            assert forall|i: int| 0 <= i < chain.len() - 1 implies #[trigger] is_step(
                                e,
                                chain@,
                                i,
                            ) by {
                                if i < check.len() - 1 {
                                    assert(is_step(e, check@, i));
                                    assert(chain@[i] == check@[i] && chain@[i + 1] == check@[i + 1]);
                                }
                            }
                            assert(is_path(e, chain@));
                            lemma_explore_push(e, v, stack, check@, values@, li as int, known);
                        }
                        potential.push(chain);
                        proof {
                            assert(rank_views(potential@) =~= stack.push(check@.push(link)));
                            assert(rank_views(potential@).drop_last() =~= stack);
                            assert(room > 0);
                            assert((13 - chain.len()) as nat == (room - 1) as nat);
                            assert forall|j: int|
                                0 <= j < potential.len() implies is_path(
                                e,
                                #[trigger] rank_views(potential@)[j],
                            ) && rank_views(potential@)[j][0] == v by {
                                if j < stack.len() {
                                    assert(rank_views(potential@)[j] == stack[j]);
                                }
                            }
                        }
                    } else {
                        proof {
                            lemma_explore_skip(e, v, stack, check@, values@, li as int, known);
                        }
                    }
                } else {
                    proof {
                        lemma_explore_skip(e, v, stack, check@, values@, li as int, known);
                    }
                }
                li += 1;
            }
            proof {
                lemma_explore_done(
                    e,
                    v,
                    rank_views(potential@),
                    check@,
                    values@,
                    rank_views(cycles@),
                );
            }
        }
        proof {
            let known = rank_views(cycles@);
            assert forall|j: int, q: Seq<CardValue>|
                0 <= j < vi + 1 && #[trigger] closing_path(e, #[trigger] values@[j], q) implies covered(
                known,
                q,
            ) by {
                if j == vi {
                    assert(!has_prefix_on(rank_views(potential@), q));
                }
            }
        }
        vi += 1;
    }
    proof {
        let known = rank_views(cycles@);
        assert forall|q: Seq<CardValue>| is_path(e, q) && #[trigger] closes(e, q) implies covered(
            known,
            q,
        ) by {
            let k = choose|k: int| 0 <= k < e.len() && e[k] == (q.last(), q[0]);
            assert(values@.contains(e[k].1));
            let j = choose|j: int| 0 <= j < values.len() && values@[j] == q[0];
            assert(closing_path(e, values@[j], q));
        }
        if cycles.len() > 0 {
            lemma_cycle_reaches(e, known[0]);
        } else if !acyclic(e) {
            let p = lemma_cyclic_has_closed_path(e);
            assert(covered(known, p));
        }
    }
    cycles
}

} // verus!
