//! Picking cards out of a hand: by suit, by rank, by strength.

use crate::engine::ordering::{is_ordering, position, position_in};
use crate::skeleton::cards::{Card, CardSuit, CardValue};
use vstd::prelude::*;

verus! {

/// A rule that accepts some cards and refuses the others.
pub enum Pick {
    /// The cards of one suit.
    Suit(CardSuit),
    /// The cards of one rank.
    Value(CardValue),
    /// The cards of every rank but one.
    NotValue(CardValue),
    /// The cards that occur in a given sequence.
    Among(Seq<Card>),
}

impl Pick {
    pub open spec fn accepts(self, c: Card) -> bool {
        match self {
            Pick::Suit(suit) => c.suit == suit,
            Pick::Value(value) => c.value == value,
            Pick::NotValue(value) => c.value != value,
            Pick::Among(cards) => cards.contains(c),
        }
    }
}

/// The cards of `s` that `p` accepts, in the order in which they stand in `s`.
pub open spec fn select(s: Seq<Card>, p: Pick) -> Seq<Card>
    decreases s.len(),
{
    if s.len() == 0 {
        Seq::empty()
    } else {
        let rest = select(s.drop_last(), p);
        if p.accepts(s.last()) {
            rest.push(s.last())
        } else {
            rest
        }
    }
}

/// Selecting from one more card keeps the selection and adds the card if it
/// is accepted.
pub proof fn lemma_select_step(s: Seq<Card>, p: Pick, i: int)
    requires
        0 <= i < s.len(),
    ensures
        select(s.take(i + 1), p) == if p.accepts(s[i]) {
            select(s.take(i), p).push(s[i])
        } else {
            select(s.take(i), p)
        },
{
    assert(s.take(i + 1).drop_last() =~= s.take(i));
}

/// What a selection holds: only accepted cards of `s`, each accepted card of
/// `s`, and no card twice unless `s` holds one twice.
pub proof fn lemma_select_holds(s: Seq<Card>, p: Pick)
    ensures
        select(s, p).len() <= s.len(),
        forall|k: int|
            0 <= k < select(s, p).len() ==> p.accepts(#[trigger] select(s, p)[k]) && s.contains(
                select(s, p)[k],
            ),
        forall|i: int| 0 <= i < s.len() && p.accepts(s[i]) ==> select(s, p).contains(#[trigger] s[i]),
        s.no_duplicates() ==> select(s, p).no_duplicates(),
    decreases s.len(),
{
    if s.len() > 0 {
        let d = s.drop_last();
        lemma_select_holds(d, p);
        let rest = select(d, p);
        let out = select(s, p);
        assert forall|k: int| 0 <= k < out.len() implies p.accepts(#[trigger] out[k]) && s.contains(
            out[k],
        ) by {
            if k < rest.len() {
                assert(out[k] == rest[k]);
                let j = choose|j: int| 0 <= j < d.len() && d[j] == rest[k];
                assert(s[j] == out[k]);
            } else {
                assert(out[k] == s.last());
                assert(s[s.len() - 1] == out[k]);
            }
        }
        assert forall|i: int| 0 <= i < s.len() && p.accepts(s[i]) implies out.contains(
            #[trigger] s[i],
        ) by {
            if i < d.len() {
                assert(d[i] == s[i]);
                assert(rest.contains(d[i]));
                let k = choose|k: int| 0 <= k < rest.len() && rest[k] == d[i];
                assert(out[k] == s[i]);
            } else {
                assert(out[out.len() - 1] == s[i]);
            }
        }
        if s.no_duplicates() {
            assert(d.no_duplicates());
            assert forall|a: int, b: int|
                0 <= a < out.len() && 0 <= b < out.len() && a != b implies out[a] != out[b] by {
                if a < rest.len() && b < rest.len() {
                    assert(rest[a] != rest[b]);
                } else {
                    let k = if a < rest.len() {
                        a
                    } else {
                        b
                    };
                    assert(d.contains(rest[k]));
                    let j = choose|j: int| 0 <= j < d.len() && d[j] == rest[k];
                    assert(s[j] != s[s.len() - 1]);
                }
            }
        }
    }
}

/// The cards of one rank and the cards of the other ranks make up the hand.
pub proof fn lemma_select_value_split(s: Seq<Card>, v: CardValue)
    ensures
        select(s, Pick::Value(v)).len() + select(s, Pick::NotValue(v)).len() == s.len(),
    decreases s.len(),
{
    if s.len() > 0 {
        lemma_select_value_split(s.drop_last(), v);
    }
}

/// Copies out the cards that have the given suit.
pub fn cards_of_suit(hand: &[Card], suit: CardSuit) -> (out: Vec<Card>)
    ensures
        out@ == select(hand@, Pick::Suit(suit)),
{
    let mut out: Vec<Card> = Vec::new();
    let mut i: usize = 0;
    while i < hand.len()
        invariant
            i <= hand.len(),
            out@ == select(hand@.take(i as int), Pick::Suit(suit)),
        decreases hand.len() - i,
    {
        proof {
            lemma_select_step(hand@, Pick::Suit(suit), i as int);
        }
        if hand[i].suit == suit {
            out.push(hand[i]);
        }
        i += 1;
    }
    assert(hand@.take(hand.len() as int) =~= hand@);
    out
}

/// Copies out the cards that have the given rank.
pub fn cards_of_value(hand: &[Card], value: CardValue) -> (out: Vec<Card>)
    ensures
        out@ == select(hand@, Pick::Value(value)),
{
    let mut out: Vec<Card> = Vec::new();
    let mut i: usize = 0;
    while i < hand.len()
        invariant
            i <= hand.len(),
            out@ == select(hand@.take(i as int), Pick::Value(value)),
        decreases hand.len() - i,
    {
        proof {
            lemma_select_step(hand@, Pick::Value(value), i as int);
        }
        if hand[i].value == value {
            out.push(hand[i]);
        }
        i += 1;
    }
    assert(hand@.take(hand.len() as int) =~= hand@);
    out
}

/// Copies out the cards that do not have the given rank.
pub fn cards_not_of_value(hand: &[Card], value: CardValue) -> (out: Vec<Card>)
    ensures
        out@ == select(hand@, Pick::NotValue(value)),
{
    let mut out: Vec<Card> = Vec::new();
    let mut i: usize = 0;
    while i < hand.len()
        invariant
            i <= hand.len(),
            out@ == select(hand@.take(i as int), Pick::NotValue(value)),
        decreases hand.len() - i,
    {
        proof {
            lemma_select_step(hand@, Pick::NotValue(value), i as int);
        }
        if hand[i].value != value {
            out.push(hand[i]);
        }
        i += 1;
    }
    assert(hand@.take(hand.len() as int) =~= hand@);
    out
}

/// Whether a card occurs among the given cards.
pub fn holds_card(cards: &[Card], c: Card) -> (b: bool)
    ensures
        b == cards@.contains(c),
{
    let mut i: usize = 0;
    while i < cards.len()
        invariant
            i <= cards.len(),
            forall|j: int| 0 <= j < i ==> cards@[j] != c,
        decreases cards.len() - i,
    {
        if cards[i] == c {
            return true;
        }
        i += 1;
    }
    false
}

/// Copies out the cards of `hand` that occur in `among`.
pub fn cards_among(hand: &[Card], among: &[Card]) -> (out: Vec<Card>)
    ensures
        out@ == select(hand@, Pick::Among(among@)),
{
    let mut out: Vec<Card> = Vec::new();
    let mut i: usize = 0;
    while i < hand.len()
        invariant
            i <= hand.len(),
            out@ == select(hand@.take(i as int), Pick::Among(among@)),
        decreases hand.len() - i,
    {
        proof {
            lemma_select_step(hand@, Pick::Among(among@), i as int);
        }
        if holds_card(among, hand[i]) {
            out.push(hand[i]);
        }
        i += 1;
    }
    assert(hand@.take(hand.len() as int) =~= hand@);
    out
}

/// Index `k` holds the greatest key, and no later index holds one as great.
pub open spec fn is_last_max(keys: Seq<int>, k: int) -> bool {
    &&& 0 <= k < keys.len()
    &&& forall|j: int| 0 <= j < keys.len() ==> keys[j] <= keys[k]
    &&& forall|j: int| k < j < keys.len() ==> keys[j] < keys[k]
}

/// The last index that holds the greatest key.
pub open spec fn last_max(keys: Seq<int>) -> int {
    choose|k: int| is_last_max(keys, k)
}

/// Only one index is the last that holds the greatest key.
pub proof fn lemma_last_max_is(keys: Seq<int>, k: int)
    requires
        is_last_max(keys, k),
    ensures
        last_max(keys) == k,
{
    let m = last_max(keys);
    assert(is_last_max(keys, m));
    if m < k {
        assert(keys[k] < keys[m]);
    } else if k < m {
        assert(keys[m] < keys[k]);
    }
}

/// The keys of a vector as integers.
pub open spec fn as_keys(v: Seq<usize>) -> Seq<int> {
    Seq::new(v.len(), |i: int| v[i] as int)
}

/// Finds the last index that holds the greatest key.
pub fn last_max_index(keys: &Vec<usize>) -> (k: usize)
    requires
        keys.len() > 0,
    ensures
        is_last_max(as_keys(keys@), k as int),
        k as int == last_max(as_keys(keys@)),
{
    let mut best: usize = 0;
    let mut i: usize = 1;
    while i < keys.len()
        invariant
            1 <= i <= keys.len(),
            best < i,
            forall|j: int| 0 <= j < i ==> keys@[j] <= keys@[best as int],
            forall|j: int| best < j < i ==> keys@[j] < keys@[best as int],
        decreases keys.len() - i,
    {
        if keys[i] >= keys[best] {
            best = i;
        }
        i += 1;
    }
    proof {
        lemma_last_max_is(as_keys(keys@), best as int);
    }
    best
}

/// The strength of each card of `s` under the ordering `o`.
pub open spec fn strengths(o: Seq<CardValue>, s: Seq<Card>) -> Seq<int> {
    Seq::new(s.len(), |i: int| position(o, s[i].value))
}

/// The index of the strongest card of `s`; of several equally strong cards,
/// the last.
pub open spec fn highest_index(o: Seq<CardValue>, s: Seq<Card>) -> int {
    last_max(strengths(o, s))
}

/// The strongest card of `s`; of several equally strong cards, the last.
pub open spec fn highest(o: Seq<CardValue>, s: Seq<Card>) -> Card {
    s[highest_index(o, s)]
}

/// The strength of the strongest card of each candidate.
pub open spec fn candidate_keys(o: Seq<CardValue>, cands: Seq<Seq<Card>>) -> Seq<int> {
    Seq::new(cands.len(), |i: int| position(o, highest(o, cands[i]).value))
}

/// The candidate whose strongest card is strongest; of several such, the
/// last.
pub open spec fn best_candidate(o: Seq<CardValue>, cands: Seq<Seq<Card>>) -> Seq<Card> {
    cands[last_max(candidate_keys(o, cands))]
}

/// Up to `n` cards of `s`, strongest first.
pub open spec fn top_cards(o: Seq<CardValue>, s: Seq<Card>, n: nat) -> Seq<Card>
    decreases n,
{
    if n == 0 || s.len() == 0 {
        Seq::empty()
    } else {
        seq![highest(o, s)] + top_cards(o, s.remove(highest_index(o, s)), (n - 1) as nat)
    }
}

/// Finds the index of the strongest card; of several equally strong, the last.
pub fn highest_card_index(o: &[CardValue; 13], hand: &[Card]) -> (k: usize)
    requires
        is_ordering(o@),
        hand.len() > 0,
    ensures
        k as int == highest_index(o@, hand@),
        is_last_max(strengths(o@, hand@), k as int),
        k < hand.len(),
{
    let mut keys: Vec<usize> = Vec::new();
    let mut i: usize = 0;
    while i < hand.len()
        invariant
            i <= hand.len(),
            is_ordering(o@),
            keys.len() == i,
            forall|j: int| 0 <= j < i ==> keys@[j] as int == position(o@, hand@[j].value),
        decreases hand.len() - i,
    {
        keys.push(position_in(o, hand[i].value));
        i += 1;
    }
    assert(as_keys(keys@) =~= strengths(o@, hand@));
    last_max_index(&keys)
}

} // verus!
