//! What the evaluator computes, as mathematics: the candidate flushes and
//! straights of a hand, its groups of equal ranks, and the classification
//! that follows from them.

use crate::engine::ordering::position;
use crate::engine::selection::{best_candidate, highest, select, top_cards, Pick};
use crate::engine::showdown::{HandCategory, HandView};
use crate::skeleton::cards::{Card, CardValue};
use vstd::prelude::*;

verus! {

/// A hand that the evaluator accepts: two to seven cards, no card twice.
pub open spec fn valid_hand(s: Seq<Card>) -> bool {
    2 <= s.len() <= 7 && s.no_duplicates()
}

/// Whether some card of `cards` has the rank `v`.
pub open spec fn holds_value(cards: Seq<Card>, v: CardValue) -> bool {
    exists|i: int| 0 <= i < cards.len() && (#[trigger] cards[i]).value == v
}

/// No earlier card of `s` has the suit of the card at `i`.
pub open spec fn first_of_suit(s: Seq<Card>, i: int) -> bool {
    forall|j: int| 0 <= j < i ==> (#[trigger] s[j]).suit != s[i].suit
}

/// The flush candidates found among the suits of the first `n` cards: for
/// each suit with five or more cards in `s`, all the cards of that suit, the
/// suits taken in the order in which they first appear.
pub open spec fn flushes_upto(s: Seq<Card>, n: nat) -> Seq<Seq<Card>>
    decreases n,
{
    if n == 0 {
        Seq::empty()
    } else {
        let before = flushes_upto(s, (n - 1) as nat);
        let group = select(s, Pick::Suit(s[n - 1].suit));
        if first_of_suit(s, n - 1) && group.len() >= 5 {
            before.push(group)
        } else {
            before
        }
    }
}

/// The flush candidates of a hand.
pub open spec fn flushes(s: Seq<Card>) -> Seq<Seq<Card>> {
    flushes_upto(s, s.len())
}

/// The rank that fills bin `b` of the fourteen: bin 0 repeats the strongest
/// rank below the weakest, and bin `b` for `b >= 1` is the rank at place
/// `b - 1`.
pub open spec fn bin_value(o: Seq<CardValue>, b: int) -> CardValue {
    if b == 0 {
        o[12]
    } else {
        o[b - 1]
    }
}

/// The cards of `s` that fall into bin `b`.
pub open spec fn bin(o: Seq<CardValue>, s: Seq<Card>, b: int) -> Seq<Card> {
    select(s, Pick::Value(bin_value(o, b)))
}

/// `prefix` followed by each of the first `n` cards of `cards` in turn.
pub open spec fn appended(prefix: Seq<Card>, cards: Seq<Card>, n: int) -> Seq<Seq<Card>> {
    Seq::new(n as nat, |k: int| prefix.push(cards[k]))
}

/// Every prefix followed by every card, the prefixes in order and for each
/// prefix the cards in order.
pub open spec fn extend(prefixes: Seq<Seq<Card>>, cards: Seq<Card>) -> Seq<Seq<Card>>
    decreases prefixes.len(),
{
    if prefixes.len() == 0 {
        Seq::empty()
    } else {
        extend(prefixes.drop_last(), cards) + appended(prefixes.last(), cards, cards.len() as int)
    }
}

/// The straight candidates of the window of five bins that starts at bin
/// `w`: every way to take one card from each of the five bins.
pub open spec fn window_straights(o: Seq<CardValue>, s: Seq<Card>, w: int) -> Seq<Seq<Card>> {
    extend(
        extend(
            extend(
                extend(extend(seq![Seq::<Card>::empty()], bin(o, s, w)), bin(o, s, w + 1)),
                bin(o, s, w + 2),
            ),
            bin(o, s, w + 3),
        ),
        bin(o, s, w + 4),
    )
}

/// The straight candidates of the first `n` windows.
pub open spec fn straights_upto(o: Seq<CardValue>, s: Seq<Card>, n: nat) -> Seq<Seq<Card>>
    decreases n,
{
    if n == 0 {
        Seq::empty()
    } else {
        straights_upto(o, s, (n - 1) as nat) + window_straights(o, s, n - 1)
    }
}

/// The straight candidates of a hand, over the ten windows of five bins.
pub open spec fn straights(o: Seq<CardValue>, s: Seq<Card>) -> Seq<Seq<Card>> {
    straights_upto(o, s, 10)
}

/// The straight-flush candidates that the flush `f` gives with the first `n`
/// straights: the cards that `f` shares with a straight, where they are five
/// or more.
pub open spec fn straight_flush_row(f: Seq<Card>, ps: Seq<Seq<Card>>, n: nat) -> Seq<Seq<Card>>
    decreases n,
{
    if n == 0 {
        Seq::empty()
    } else {
        let before = straight_flush_row(f, ps, (n - 1) as nat);
        let shared = select(f, Pick::Among(ps[n - 1]));
        if shared.len() >= 5 {
            before.push(shared)
        } else {
            before
        }
    }
}

/// The straight-flush candidates that the first `m` flushes give with the
/// straights.
pub open spec fn straight_flushes_upto(
    pf: Seq<Seq<Card>>,
    ps: Seq<Seq<Card>>,
    m: nat,
) -> Seq<Seq<Card>>
    decreases m,
{
    if m == 0 {
        Seq::empty()
    } else {
        straight_flushes_upto(pf, ps, (m - 1) as nat) + straight_flush_row(pf[m - 1], ps, ps.len())
    }
}

/// The straight-flush candidates of given flushes and straights.
pub open spec fn straight_flushes(pf: Seq<Seq<Card>>, ps: Seq<Seq<Card>>) -> Seq<Seq<Card>> {
    straight_flushes_upto(pf, ps, pf.len())
}

/// The hand holds exactly `n` cards of the rank `v`, and `n` is not zero.
pub open spec fn is_kind_value(s: Seq<Card>, n: int, v: CardValue) -> bool {
    n > 0 && select(s, Pick::Value(v)).len() == n
}

/// Some rank has exactly `n` cards in the hand.
pub open spec fn has_kind(s: Seq<Card>, n: int) -> bool {
    exists|v: CardValue| is_kind_value(s, n, v)
}

/// `v` is the strongest of the ranks that have exactly `n` cards in the hand.
pub open spec fn is_best_kind_value(o: Seq<CardValue>, s: Seq<Card>, n: int, v: CardValue) -> bool {
    &&& is_kind_value(s, n, v)
    &&& forall|w: CardValue| is_kind_value(s, n, w) ==> position(o, w) <= position(o, v)
}

/// The strongest of the ranks that have exactly `n` cards in the hand.
pub open spec fn best_kind_value(o: Seq<CardValue>, s: Seq<Card>, n: int) -> CardValue {
    choose|v: CardValue| is_best_kind_value(o, s, n, v)
}

/// The classification by groups of equal ranks alone: four of a kind, else
/// three of a kind with or without a pair beside it, else a pair with or
/// without a second pair beside it, else the highest card.
pub open spec fn classify_groups(o: Seq<CardValue>, s: Seq<Card>) -> HandView {
    if has_kind(s, 4) {
        HandView {
            category: HandCategory::FourOfAKind,
            cards: select(s, Pick::Value(best_kind_value(o, s, 4))),
        }
    } else if has_kind(s, 3) {
        let v = best_kind_value(o, s, 3);
        let triple = select(s, Pick::Value(v));
        let rest = select(s, Pick::NotValue(v));
        if has_kind(rest, 2) {
            HandView {
                category: HandCategory::FullHouse,
                cards: triple + select(rest, Pick::Value(best_kind_value(o, rest, 2))),
            }
        } else {
            HandView { category: HandCategory::ThreeOfAKind, cards: triple }
        }
    } else if has_kind(s, 2) {
        let v = best_kind_value(o, s, 2);
        let pair = select(s, Pick::Value(v));
        let rest = select(s, Pick::NotValue(v));
        if has_kind(rest, 2) {
            HandView {
                category: HandCategory::TwoPair,
                cards: pair + select(rest, Pick::Value(best_kind_value(o, rest, 2))),
            }
        } else {
            HandView { category: HandCategory::Pair, cards: pair }
        }
    } else {
        HandView { category: HandCategory::HighCard, cards: seq![highest(o, s)] }
    }
}

/// The classification that ignores straights: a flush if a suit has five
/// cards, else the classification by groups.
pub open spec fn classify_no_straight(o: Seq<CardValue>, s: Seq<Card>) -> HandView {
    let pf = flushes(s);
    if pf.len() > 0 {
        HandView { category: HandCategory::Flush, cards: top_cards(o, best_candidate(o, pf), 5) }
    } else {
        classify_groups(o, s)
    }
}

/// The classification of a hand.
///
/// A straight flush comes first, and it is royal when it holds the ranks at
/// places 8 and 12; then a flush; then a straight; then the classification
/// by groups. Of several candidates the one whose strongest card is
/// strongest is taken (the last of them, if they tie), and of its cards the
/// five strongest, strongest first.
pub open spec fn classify(o: Seq<CardValue>, s: Seq<Card>) -> HandView {
    let pf = flushes(s);
    let ps = straights(o, s);
    let fs = straight_flushes(pf, ps);
    if fs.len() > 0 {
        let best = best_candidate(o, fs);
        if holds_value(best, o[8]) && holds_value(best, o[12]) {
            HandView { category: HandCategory::RoyalFlush, cards: top_cards(o, best, 5) }
        } else {
            HandView { category: HandCategory::StraightFlush, cards: top_cards(o, best, 5) }
        }
    } else if pf.len() > 0 {
        HandView { category: HandCategory::Flush, cards: top_cards(o, best_candidate(o, pf), 5) }
    } else if ps.len() > 0 {
        HandView { category: HandCategory::Straight, cards: top_cards(o, best_candidate(o, ps), 5) }
    } else {
        classify_groups(o, s)
    }
}

/// The strength of a hand's strongest card, or -1 for a hand without cards.
pub open spec fn hand_strength(o: Seq<CardValue>, cards: Seq<Card>) -> int {
    if cards.len() == 0 {
        -1
    } else {
        position(o, highest(o, cards).value)
    }
}

/// The number by which hands are compared: the category first, and within a
/// category the strength of the strongest card.
pub open spec fn score(o: Seq<CardValue>, h: HandView) -> int {
    h.category.rank() * 14 + hand_strength(o, h.cards) + 1
}

} // verus!
