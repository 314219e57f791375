//! Orderings of the thirteen ranks: permutations in which index 0 is the
//! weakest rank and index 12 the strongest.

use crate::skeleton::cards::{canonical_values, CardValue};
use vstd::prelude::*;

verus! {

/// A sequence is an ordering when it holds each of the thirteen ranks once.
pub open spec fn is_ordering(o: Seq<CardValue>) -> bool {
    &&& o.len() == 13
    &&& forall|v: CardValue| #[trigger] o.contains(v)
    &&& o.no_duplicates()
}

/// The place of a rank in an ordering.
pub open spec fn position(o: Seq<CardValue>, v: CardValue) -> int {
    o.index_of(v)
}

/// In an ordering every rank has a place, and the rank stands at its place.
pub proof fn lemma_position(o: Seq<CardValue>, v: CardValue)
    requires
        is_ordering(o),
    ensures
        0 <= position(o, v) < 13,
        o[position(o, v)] == v,
{
    assert(o.contains(v));
}

/// The place of the rank at index `i` is `i`.
pub proof fn lemma_position_at(o: Seq<CardValue>, i: int)
    requires
        is_ordering(o),
        0 <= i < 13,
    ensures
        position(o, o[i]) == i,
{
    lemma_position(o, o[i]);
}

/// Two ranks at the same place are the same rank.
pub proof fn lemma_position_injective(o: Seq<CardValue>, a: CardValue, b: CardValue)
    requires
        is_ordering(o),
        position(o, a) == position(o, b),
    ensures
        a == b,
{
    lemma_position(o, a);
    lemma_position(o, b);
}

/// The print order is an ordering.
pub proof fn lemma_canonical_is_ordering()
    ensures
        is_ordering(canonical_values()),
{
    let o = canonical_values();
    assert forall|v: CardValue| #[trigger] o.contains(v) by {
        assert(o[v.index()] == v);
    }
}

/// The ranks in print order, `Two` first and `Ace` last.
pub fn canonical_ordering() -> (o: [CardValue; 13])
    ensures
        o@ == canonical_values(),
        is_ordering(o@),
{
    let o = [
        CardValue::Two,
        CardValue::Three,
        CardValue::Four,
        CardValue::Five,
        CardValue::Six,
        CardValue::Seven,
        CardValue::Eight,
        CardValue::Nine,
        CardValue::Ten,
        CardValue::Jack,
        CardValue::Queen,
        CardValue::King,
        CardValue::Ace,
    ];
    proof {
        assert(o@ =~= canonical_values());
        lemma_canonical_is_ordering();
    }
    o
}

/// Whether `v` occurs among the first `n` entries of `o`.
fn occurs_before(o: &[CardValue; 13], n: usize, v: CardValue) -> (b: bool)
    requires
        n <= 13,
    ensures
        b == o@.take(n as int).contains(v),
{
    let mut i: usize = 0;
    while i < n
        invariant
            i <= n <= 13,
            forall|j: int| 0 <= j < i ==> o@[j] != v,
        decreases n - i,
    {
        if o[i] == v {
            assert(o@.take(n as int)[i as int] == v);
            return true;
        }
        i += 1;
    }
    false
}

/// Tells whether an array of ranks is an ordering.
pub fn is_valid_ordering(o: &[CardValue; 13]) -> (b: bool)
    ensures
        b == is_ordering(o@),
{
    let mut k: usize = 0;
    while k < 13
        invariant
            k <= 13,
            forall|v: CardValue| v.index() < k ==> #[trigger] o@.contains(v),
        decreases 13 - k,
    {
        let v = CardValue::from_canonical_index(k);
        if !occurs_before(o, 13, v) {
            assert(o@.take(13) =~= o@);
            return false;
        }
        assert(o@.take(13) =~= o@);
        k += 1;
    }
    let mut i: usize = 1;
    while i < 13
        invariant
            1 <= i <= 13,
            o@.take(i as int).no_duplicates(),
        decreases 13 - i,
    {
        if occurs_before(o, i, o[i]) {
            let ghost j = choose|j: int| 0 <= j < i && o@.take(i as int)[j] == o@[i as int];
            assert(o@[j] == o@[i as int]);
            return false;
        }
        assert(o@.take(i as int + 1).no_duplicates()) by {
            let t = o@.take(i as int + 1);
            assert forall|a: int, b: int| 0 <= a < t.len() && 0 <= b < t.len() && a != b implies t[a]
                != t[b] by {
                if a < i && b < i {
                    assert(o@.take(i as int)[a] == t[a]);
                    assert(o@.take(i as int)[b] == t[b]);
                } else if a == i {
                    assert(o@.take(i as int)[b] == t[b]);
                } else {
                    assert(o@.take(i as int)[a] == t[a]);
                }
            }
        }
        i += 1;
    }
    assert(o@.take(13) =~= o@);
    true
}

/// Finds the place of a rank in an ordering.
pub fn position_in(o: &[CardValue; 13], v: CardValue) -> (p: usize)
    requires
        is_ordering(o@),
    ensures
        p == position(o@, v),
        p < 13,
{
    let mut i: usize = 0;
    while i < 13
        invariant
            i <= 13,
            is_ordering(o@),
            forall|j: int| 0 <= j < i ==> o@[j] != v,
        decreases 13 - i,
    {
        if o[i] == v {
            proof {
                lemma_position_at(o@, i as int);
            }
            return i;
        }
        i += 1;
    }
    proof {
        lemma_position(o@, v);
    }
    0
}

} // verus!
