//! The hand evaluator: it classifies two to seven cards into a poker category
//! under any ordering of the ranks, and compares classified hands.

use crate::engine::classify::{
    appended, bin, classify, classify_groups, classify_no_straight, extend, first_of_suit, flushes,
    flushes_upto, has_kind, holds_value, is_best_kind_value, is_kind_value, best_kind_value, score,
    straight_flush_row, straight_flushes, straight_flushes_upto, straights, straights_upto,
    valid_hand, window_straights,
};
use crate::engine::ordering::{
    is_ordering, is_valid_ordering, lemma_position, lemma_position_at,
    lemma_position_injective, position, position_in,
};
use crate::engine::selection::{
    as_keys, best_candidate, candidate_keys, cards_among, cards_not_of_value, cards_of_suit,
    cards_of_value, highest, highest_card_index, last_max_index, lemma_select_holds, select,
    top_cards, Pick,
};
use crate::engine::soundness::{
    formed_from, lemma_classify_groups_sound, lemma_classify_no_straight_sound,
    lemma_classify_sound,
};
use crate::skeleton::cards::{Card, CardValue};
use std::cmp::Ordering;
use vstd::prelude::*;
use vstd::std_specs::cmp::{PartialEqSpecImpl, PartialOrdSpecImpl};

verus! {

pub const MAX_CARDS: usize = 7;

pub const MIN_CARDS: usize = 2;

/// The ten categories of hands.
#[derive(Debug, Copy, Clone, PartialEq, Eq, Structural)]
pub enum HandCategory {
    HighCard,
    Pair,
    TwoPair,
    ThreeOfAKind,
    Straight,
    Flush,
    FullHouse,
    FourOfAKind,
    StraightFlush,
    RoyalFlush,
}

impl HandCategory {
    /// The rank of a category: 0 for the weakest, `HighCard`, up to 9 for
    /// `RoyalFlush`.
    pub open spec fn rank(self) -> int {
        match self {
            HandCategory::HighCard => 0,
            HandCategory::Pair => 1,
            HandCategory::TwoPair => 2,
            HandCategory::ThreeOfAKind => 3,
            HandCategory::Straight => 4,
            HandCategory::Flush => 5,
            HandCategory::FullHouse => 6,
            HandCategory::FourOfAKind => 7,
            HandCategory::StraightFlush => 8,
            HandCategory::RoyalFlush => 9,
        }
    }

    /// The rank of a category among the ten.
    pub fn strength(&self) -> (r: usize)
        ensures
            r == self.rank(),
            r <= 9,
    {
        match self {
            HandCategory::HighCard => 0,
            HandCategory::Pair => 1,
            HandCategory::TwoPair => 2,
            HandCategory::ThreeOfAKind => 3,
            HandCategory::Straight => 4,
            HandCategory::Flush => 5,
            HandCategory::FullHouse => 6,
            HandCategory::FourOfAKind => 7,
            HandCategory::StraightFlush => 8,
            HandCategory::RoyalFlush => 9,
        }
    }
}

/// A classified hand: its category and the cards that make it up.
#[derive(Debug, Clone)]
pub enum ShowdownHand {
    RoyalFlush(Vec<Card>),
    StraightFlush(Vec<Card>),
    FourOfAKind(Vec<Card>),
    FullHouse(Vec<Card>),
    Flush(Vec<Card>),
    Straight(Vec<Card>),
    ThreeOfAKind(Vec<Card>),
    TwoPair(Vec<Card>),
    Pair(Vec<Card>),
    HighCard(Card),
}

/// What a classified hand is: a category and a sequence of cards.
pub struct HandView {
    pub category: HandCategory,
    pub cards: Seq<Card>,
}

impl View for ShowdownHand {
    type V = HandView;

    open spec fn view(&self) -> HandView {
        match self {
            ShowdownHand::RoyalFlush(a) => HandView {
                category: HandCategory::RoyalFlush,
                cards: a@,
            },
            ShowdownHand::StraightFlush(a) => HandView {
                category: HandCategory::StraightFlush,
                cards: a@,
            },
            ShowdownHand::FourOfAKind(a) => HandView {
                category: HandCategory::FourOfAKind,
                cards: a@,
            },
            ShowdownHand::FullHouse(a) => HandView {
                category: HandCategory::FullHouse,
                cards: a@,
            },
            ShowdownHand::Flush(a) => HandView { category: HandCategory::Flush, cards: a@ },
            ShowdownHand::Straight(a) => HandView { category: HandCategory::Straight, cards: a@ },
            ShowdownHand::ThreeOfAKind(a) => HandView {
                category: HandCategory::ThreeOfAKind,
                cards: a@,
            },
            ShowdownHand::TwoPair(a) => HandView { category: HandCategory::TwoPair, cards: a@ },
            ShowdownHand::Pair(a) => HandView { category: HandCategory::Pair, cards: a@ },
            ShowdownHand::HighCard(c) => HandView {
                category: HandCategory::HighCard,
                cards: seq![*c],
            },
        }
    }
}

/// Copies a slice of cards into a vector.
pub fn copy_cards(src: &[Card]) -> (out: Vec<Card>)
    ensures
        out@ == src@,
{
    let mut out: Vec<Card> = Vec::new();
    let mut i: usize = 0;
    while i < src.len()
        invariant
            i <= src.len(),
            out@ == src@.take(i as int),
        decreases src.len() - i,
    {
        out.push(src[i]);
        assert(src@.take(i as int + 1) =~= src@.take(i as int).push(src@[i as int]));
        i += 1;
    }
    assert(src@.take(src.len() as int) =~= src@);
    out
}

impl ShowdownHand {
    /// The category of this hand.
    pub fn category(&self) -> (c: HandCategory)
        ensures
            c == self@.category,
    {
        match self {
            ShowdownHand::RoyalFlush(..) => HandCategory::RoyalFlush,
            ShowdownHand::StraightFlush(..) => HandCategory::StraightFlush,
            ShowdownHand::FourOfAKind(..) => HandCategory::FourOfAKind,
            ShowdownHand::FullHouse(..) => HandCategory::FullHouse,
            ShowdownHand::Flush(..) => HandCategory::Flush,
            ShowdownHand::Straight(..) => HandCategory::Straight,
            ShowdownHand::ThreeOfAKind(..) => HandCategory::ThreeOfAKind,
            ShowdownHand::TwoPair(..) => HandCategory::TwoPair,
            ShowdownHand::Pair(..) => HandCategory::Pair,
            ShowdownHand::HighCard(..) => HandCategory::HighCard,
        }
    }

    /// The cards that make up this hand.
    pub fn cards(&self) -> (out: Vec<Card>)
        ensures
            out@ == self@.cards,
    {
        match self {
            ShowdownHand::RoyalFlush(a) => copy_cards(a.as_slice()),
            ShowdownHand::StraightFlush(a) => copy_cards(a.as_slice()),
            ShowdownHand::FourOfAKind(a) => copy_cards(a.as_slice()),
            ShowdownHand::FullHouse(a) => copy_cards(a.as_slice()),
            ShowdownHand::Flush(a) => copy_cards(a.as_slice()),
            ShowdownHand::Straight(a) => copy_cards(a.as_slice()),
            ShowdownHand::ThreeOfAKind(a) => copy_cards(a.as_slice()),
            ShowdownHand::TwoPair(a) => copy_cards(a.as_slice()),
            ShowdownHand::Pair(a) => copy_cards(a.as_slice()),
            ShowdownHand::HighCard(c) => {
                let mut out: Vec<Card> = Vec::new();
                out.push(*c);
                out
            },
        }
    }

    pub fn is_royal_flush(&self) -> (b: bool)
        ensures
            b == (self@.category == HandCategory::RoyalFlush),
    {
        match self {
            ShowdownHand::RoyalFlush(..) => true,
            _ => false,
        }
    }

    /// Whether the hand is a run of five: a straight, a straight flush or a
    /// royal flush.
    pub fn is_straight(&self) -> (b: bool)
        ensures
            b == (self@.category == HandCategory::RoyalFlush || self@.category
                == HandCategory::StraightFlush || self@.category == HandCategory::Straight),
    {
        match self {
            ShowdownHand::RoyalFlush(..) => true,
            ShowdownHand::StraightFlush(..) => true,
            ShowdownHand::Straight(..) => true,
            _ => false,
        }
    }

    /// Whether the hand is five cards of one suit: a flush, a straight flush
    /// or a royal flush.
    pub fn is_flush(&self) -> (b: bool)
        ensures
            b == (self@.category == HandCategory::RoyalFlush || self@.category
                == HandCategory::StraightFlush || self@.category == HandCategory::Flush),
    {
        match self {
            ShowdownHand::RoyalFlush(..) => true,
            ShowdownHand::StraightFlush(..) => true,
            ShowdownHand::Flush(..) => true,
            _ => false,
        }
    }

    /// Whether the hand is a single group of equal ranks: four, three or two.
    pub fn is_of_a_kind(&self) -> (b: bool)
        ensures
            b == (self@.category == HandCategory::FourOfAKind || self@.category
                == HandCategory::ThreeOfAKind || self@.category == HandCategory::Pair),
    {
        match self {
            ShowdownHand::FourOfAKind(..) => true,
            ShowdownHand::ThreeOfAKind(..) => true,
            ShowdownHand::Pair(..) => true,
            _ => false,
        }
    }

    /// The size of the group of a hand that is a single group of equal ranks.
    pub fn kind_count(&self) -> (n: Option<usize>)
        ensures
            self@.category == HandCategory::FourOfAKind ==> n == Some(4usize),
            self@.category == HandCategory::ThreeOfAKind ==> n == Some(3usize),
            self@.category == HandCategory::Pair ==> n == Some(2usize),
            n is None <==> !(self@.category == HandCategory::FourOfAKind || self@.category
                == HandCategory::ThreeOfAKind || self@.category == HandCategory::Pair),
    {
        match self {
            ShowdownHand::FourOfAKind(..) => Some(4),
            ShowdownHand::ThreeOfAKind(..) => Some(3),
            ShowdownHand::Pair(..) => Some(2),
            _ => None,
        }
    }

    pub fn is_two_pair(&self) -> (b: bool)
        ensures
            b == (self@.category == HandCategory::TwoPair),
    {
        match self {
            ShowdownHand::TwoPair(..) => true,
            _ => false,
        }
    }

    pub fn is_full_house(&self) -> (b: bool)
        ensures
            b == (self@.category == HandCategory::FullHouse),
    {
        match self {
            ShowdownHand::FullHouse(..) => true,
            _ => false,
        }
    }

    pub fn is_high_card(&self) -> (b: bool)
        ensures
            b == (self@.category == HandCategory::HighCard),
    {
        match self {
            ShowdownHand::HighCard(..) => true,
            _ => false,
        }
    }

    /// Whether two hands have the same category.
    pub fn is_same_type(&self, o: &ShowdownHand) -> (b: bool)
        ensures
            b == (self@.category == o@.category),
    {
        self.category() == o.category()
    }
}

/// The card sequences that a vector of card vectors holds.
pub open spec fn views(v: Seq<Vec<Card>>) -> Seq<Seq<Card>> {
    Seq::new(v.len(), |i: int| v[i]@)
}

/// Tells whether no card occurs twice.
pub fn no_repeats(hand: &[Card]) -> (b: bool)
    ensures
        b == hand@.no_duplicates(),
{
    let mut i: usize = 0;
    while i < hand.len()
        invariant
            i <= hand.len(),
            forall|a: int, b: int| 0 <= a < b < i ==> hand@[a] != hand@[b],
        decreases hand.len() - i,
    {
        let mut j: usize = 0;
        while j < i
            invariant
                j <= i < hand.len(),
                forall|a: int| 0 <= a < j ==> hand@[a] != hand@[i as int],
            decreases i - j,
        {
            if hand[j] == hand[i] {
                return false;
            }
            j += 1;
        }
        i += 1;
    }
    true
}

/// Every prefix followed by every card, where each prefix has `n` cards.
fn extend_with(prefixes: &Vec<Vec<Card>>, cards: &Vec<Card>, n: usize) -> (out: Vec<Vec<Card>>)
    requires
        n < 5,
        forall|i: int| 0 <= i < prefixes.len() ==> (#[trigger] prefixes@[i]).len() == n,
    ensures
        views(out@) == extend(views(prefixes@), cards@),
        forall|k: int| 0 <= k < out.len() ==> (#[trigger] out@[k]).len() == n + 1,
{
    let mut out: Vec<Vec<Card>> = Vec::new();
    let mut i: usize = 0;
    assert(views(prefixes@).take(0) =~= Seq::empty());
    while i < prefixes.len()
        invariant
            i <= prefixes.len(),
            n < 5,
            forall|i: int| 0 <= i < prefixes.len() ==> (#[trigger] prefixes@[i]).len() == n,
            views(out@) == extend(views(prefixes@).take(i as int), cards@),
            forall|k: int| 0 <= k < out.len() ==> (#[trigger] out@[k]).len() == n + 1,
        decreases prefixes.len() - i,
    {
        let ghost before = views(out@);
        let mut j: usize = 0;
        assert(appended(prefixes@[i as int]@, cards@, 0) =~= Seq::empty());
        assert(before + Seq::<Seq<Card>>::empty() =~= before);
        while j < cards.len()
            invariant
                i < prefixes.len(),
                j <= cards.len(),
                n < 5,
                prefixes@[i as int].len() == n,
                views(out@) == before + appended(prefixes@[i as int]@, cards@, j as int),
                forall|k: int| 0 <= k < out.len() ==> (#[trigger] out@[k]).len() == n + 1,
            decreases cards.len() - j,
        {
            let ghost old_out = out@;
            let mut c = copy_cards(prefixes[i].as_slice());
            c.push(cards[j]);
            out.push(c);
            assert(views(out@) =~= views(old_out).push(c@));
            assert(appended(prefixes@[i as int]@, cards@, j as int + 1) =~= appended(
                prefixes@[i as int]@,
                cards@,
                j as int,
            ).push(c@));
            assert(views(out@) =~= before + appended(prefixes@[i as int]@, cards@, j as int + 1));
            j += 1;
        }
        proof {
            let t = views(prefixes@).take(i as int + 1);
            assert(t.drop_last() =~= views(prefixes@).take(i as int));
            assert(t.last() == prefixes@[i as int]@);
        }
        i += 1;
    }
    assert(views(prefixes@).take(prefixes.len() as int) =~= views(prefixes@));
    out
}

/// An evaluator of hands under one ordering of the ranks.
#[derive(Debug, Clone, Copy, PartialEq, Eq)]
pub struct ShowdownEngine {
    ordering: [CardValue; 13],
}

impl ShowdownEngine {
    /// The ordering of the ranks that this evaluator uses, weakest first.
    pub closed spec fn ordering(&self) -> Seq<CardValue> {
        self.ordering@
    }

    #[verifier::type_invariant]
    spec fn well_formed(&self) -> bool {
        is_ordering(self.ordering@)
    }

    /// An evaluator for the given ordering, weakest rank first.
    pub fn new(ordering: [CardValue; 13]) -> (e: ShowdownEngine)
        requires
            is_ordering(ordering@),
        ensures
            e.ordering() == ordering@,
    {
        ShowdownEngine { ordering }
    }

    /// An evaluator for the given ranks if they are an ordering, that is if
    /// each of the thirteen ranks occurs among them.
    pub fn try_new(ordering: [CardValue; 13]) -> (r: Option<ShowdownEngine>)
        ensures
            r is Some <==> is_ordering(ordering@),
            r is Some ==> r->0.ordering() == ordering@,
    {
        if is_valid_ordering(&ordering) {
            Some(ShowdownEngine { ordering })
        } else {
            None
        }
    }

    /// The ranks of this evaluator's ordering, weakest first.
    pub fn ranks(&self) -> (o: [CardValue; 13])
        ensures
            o@ == self.ordering(),
            is_ordering(o@),
    {
        proof {
            use_type_invariant(self);
        }
        self.ordering
    }

    /// Tells whether the cards are a hand that can be classified: two to
    /// seven cards, none of them twice.
    pub fn verify_hand(hand: &[Card]) -> (b: bool)
        ensures
            b == valid_hand(hand@),
    {
        hand.len() >= MIN_CARDS && hand.len() <= MAX_CARDS && no_repeats(hand)
    }

    /// The place of a rank in this evaluator's ordering.
    pub fn place(&self, v: CardValue) -> (p: usize)
        ensures
            p == position(self.ordering(), v),
            p < 13,
    {
        proof {
            use_type_invariant(self);
        }
        position_in(&self.ordering, v)
    }

    /// The strongest card of the hand. Of several cards of the strongest
    /// rank it is the last.
    pub fn highest_card(&self, hand: &[Card]) -> (c: Card)
        requires
            hand.len() > 0,
        ensures
            c == highest(self.ordering(), hand@),
            hand@.contains(c),
    {
        proof {
            use_type_invariant(self);
        }
        let k = highest_card_index(&self.ordering, hand);
        hand[k]
    }

    /// The index of the candidate whose strongest card is strongest; of
    /// several such candidates, the last.
    fn best_of(&self, cands: &Vec<Vec<Card>>) -> (k: usize)
        requires
            cands.len() > 0,
            forall|i: int| 0 <= i < cands.len() ==> (#[trigger] cands@[i]).len() > 0,
        ensures
            k < cands.len(),
            cands@[k as int]@ == best_candidate(self.ordering(), views(cands@)),
    {
        let mut keys: Vec<usize> = Vec::new();
        let mut i: usize = 0;
        while i < cands.len()
            invariant
                i <= cands.len(),
                keys.len() == i,
                forall|i: int| 0 <= i < cands.len() ==> (#[trigger] cands@[i]).len() > 0,
                forall|j: int|
                    0 <= j < i ==> keys@[j] as int == position(
                        self.ordering(),
                        highest(self.ordering(), cands@[j]@).value,
                    ),
            decreases cands.len() - i,
        {
            let c = self.highest_card(cands[i].as_slice());
            keys.push(self.place(c.value));
            i += 1;
        }
        assert(as_keys(keys@) =~= candidate_keys(self.ordering(), views(cands@)));
        last_max_index(&keys)
    }

    /// Up to five cards of the hand, the strongest first.
    pub fn best_hand(&self, hand: &[Card]) -> (out: Vec<Card>)
        ensures
            out@ == top_cards(self.ordering(), hand@, 5),
    {
        proof {
            use_type_invariant(self);
        }
        let mut rest = copy_cards(hand);
        let mut out: Vec<Card> = Vec::new();
        while out.len() < 5 && rest.len() > 0
            invariant
                is_ordering(self.ordering@),
                out.len() <= 5,
                out@ + top_cards(self.ordering(), rest@, (5 - out.len()) as nat) == top_cards(
                    self.ordering(),
                    hand@,
                    5,
                ),
            decreases rest.len(),
        {
            let k = highest_card_index(&self.ordering, rest.as_slice());
            let ghost before = rest@;
            let ghost had = out@;
            let c = rest.remove(k);
            out.push(c);
            assert(out@ + top_cards(self.ordering(), rest@, (5 - out.len()) as nat) =~= had
                + top_cards(self.ordering(), before, (5 - had.len()) as nat));
        }
        assert(top_cards(self.ordering(), rest@, (5 - out.len()) as nat) =~= Seq::empty());
        assert(out@ + Seq::<Card>::empty() =~= out@);
        out
    }

    /// The flush candidates of a hand: for each suit with five or more
    /// cards, all the cards of that suit.
    pub fn detect_flushes(&self, hand: &[Card]) -> (out: Vec<Vec<Card>>)
        ensures
            views(out@) == flushes(hand@),
            forall|i: int| 0 <= i < out.len() ==> (#[trigger] out@[i]).len() >= 5,
    {
        let mut out: Vec<Vec<Card>> = Vec::new();
        let mut i: usize = 0;
        assert(views(out@) =~= flushes_upto(hand@, 0));
        while i < hand.len()
            invariant
                i <= hand.len(),
                views(out@) == flushes_upto(hand@, i as nat),
                forall|i: int| 0 <= i < out.len() ==> (#[trigger] out@[i]).len() >= 5,
            decreases hand.len() - i,
        {
            let suit = hand[i].suit;
            let mut seen = false;
            let mut j: usize = 0;
            while j < i
                invariant
                    j <= i < hand.len(),
                    suit == hand@[i as int].suit,
                    seen == exists|a: int| 0 <= a < j && (#[trigger] hand@[a]).suit == suit,
                decreases i - j,
            {
                if hand[j].suit == suit {
                    seen = true;
                }
                j += 1;
            }
            assert(seen == !first_of_suit(hand@, i as int));
            if !seen {
                let group = cards_of_suit(hand, suit);
                if group.len() >= 5 {
                    let ghost had = out@;
                    out.push(group);
                    assert(views(out@) =~= views(had).push(group@));
                }
            }
            i += 1;
        }
        out
    }

    /// The straight candidates of a hand: for each window of five
    /// neighbouring bins, every way to take one card from each bin.
    pub fn detect_straights(&self, hand: &[Card]) -> (out: Vec<Vec<Card>>)
        ensures
            views(out@) == straights(self.ordering(), hand@),
            forall|i: int| 0 <= i < out.len() ==> (#[trigger] out@[i]).len() == 5,
    {
        proof {
            use_type_invariant(self);
        }
        let mut bins: Vec<Vec<Card>> = Vec::new();
        bins.push(cards_of_value(hand, self.ordering[12]));
        let mut b: usize = 1;
        while b < 14
            invariant
                1 <= b <= 14,
                bins.len() == b,
                forall|k: int|
                    0 <= k < b ==> (#[trigger] bins@[k])@ == bin(self.ordering(), hand@, k),
            decreases 14 - b,
        {
            bins.push(cards_of_value(hand, self.ordering[b - 1]));
            b += 1;
        }
        let mut out: Vec<Vec<Card>> = Vec::new();
        let mut w: usize = 0;
        assert(views(out@) =~= straights_upto(self.ordering(), hand@, 0));
        while w < 10
            invariant
                w <= 10,
                bins.len() == 14,
                forall|k: int|
                    0 <= k < 14 ==> (#[trigger] bins@[k])@ == bin(self.ordering(), hand@, k),
                views(out@) == straights_upto(self.ordering(), hand@, w as nat),
                forall|i: int| 0 <= i < out.len() ==> (#[trigger] out@[i]).len() == 5,
            decreases 10 - w,
        {
            let mut start: Vec<Vec<Card>> = Vec::new();
            start.push(Vec::new());
            assert(views(start@) =~= seq![Seq::<Card>::empty()]);
            let c1 = extend_with(&start, &bins[w], 0);
            let c2 = extend_with(&c1, &bins[w + 1], 1);
            let c3 = extend_with(&c2, &bins[w + 2], 2);
            let c4 = extend_with(&c3, &bins[w + 3], 3);
            let mut c5 = extend_with(&c4, &bins[w + 4], 4);
            assert(views(c5@) == window_straights(self.ordering(), hand@, w as int));
            let ghost had = out@;
            let ghost added = c5@;
            out.append(&mut c5);
            assert(views(out@) =~= views(had) + views(added));
            w += 1;
        }
        out
    }

    /// The cards of the strongest rank that has exactly `number` cards in
    /// the hand, or `None` where no rank has that many.
    pub fn detect_of_a_kind(&self, hand: &[Card], number: usize) -> (r: Option<Vec<Card>>)
        ensures
            r is Some <==> has_kind(hand@, number as int),
            r matches Some(g) ==> {
                &&& g@ == select(
                    hand@,
                    Pick::Value(best_kind_value(self.ordering(), hand@, number as int)),
                )
                &&& g.len() == number
                &&& is_best_kind_value(
                    self.ordering(),
                    hand@,
                    number as int,
                    best_kind_value(self.ordering(), hand@, number as int),
                )
            },
    {
        proof {
            use_type_invariant(self);
        }
        if number == 0 {
            return None;
        }
        let ghost o = self.ordering();
        let ghost n = number as int;
        let mut p: usize = 13;
        while p > 0
            invariant
                p <= 13,
                o == self.ordering(),
                n == number as int,
                n > 0,
                is_ordering(o),
                forall|q: int| p <= q < 13 ==> select(hand@, Pick::Value(#[trigger] o[q])).len() != n,
            decreases p,
        {
            p -= 1;
            let group = cards_of_value(hand, self.ordering[p]);
            if group.len() == number {
                proof {
                    let v = o[p as int];
                    assert(is_kind_value(hand@, n, v));
                    assert forall|w: CardValue| is_kind_value(hand@, n, w) implies position(o, w)
                        <= position(o, v) by {
                        lemma_position(o, w);
                        lemma_position_at(o, p as int);
                    }
                    assert(is_best_kind_value(o, hand@, n, v));
                    let b = best_kind_value(o, hand@, n);
                    assert(is_best_kind_value(o, hand@, n, b));
                    lemma_position_injective(o, b, v);
                }
                return Some(group);
            }
        }
        proof {
            assert forall|v: CardValue| !is_kind_value(hand@, n, v) by {
                lemma_position(o, v);
            }
        }
        None
    }

    /// Classifies a hand by its groups of equal ranks alone.
    ///
    /// Four of a kind comes first. Three of a kind is a full house where the
    /// other cards hold a rank with exactly two cards, the triple standing
    /// first. A pair is two pair where the other cards hold a second rank
    /// with exactly two cards. Where there is no group the strongest card
    /// is the hand.
    pub fn process_hand_no_straight_flush(&self, hand: &[Card]) -> (r: ShowdownHand)
        requires
            hand.len() > 0,
        ensures
            r@ == classify_groups(self.ordering(), hand@),
            hand@.no_duplicates() ==> formed_from(self.ordering(), r@, hand@),
    {
        let ghost o = self.ordering();
        proof {
            use_type_invariant(self);
            if hand@.no_duplicates() {
                lemma_classify_groups_sound(o, hand@);
            }
        }
        if let Some(foak) = self.detect_of_a_kind(hand, 4) {
            return ShowdownHand::FourOfAKind(foak);
        }
        if let Some(toak) = self.detect_of_a_kind(hand, 3) {
            let value = toak[0].value;
            proof {
                lemma_select_holds(hand@, Pick::Value(best_kind_value(o, hand@, 3)));
            }
            let rest = cards_not_of_value(hand, value);
            if let Some(pair) = self.detect_of_a_kind(rest.as_slice(), 2) {
                let mut total = toak;
                let mut pair = pair;
                total.append(&mut pair);
                return ShowdownHand::FullHouse(total);
            } else {
                return ShowdownHand::ThreeOfAKind(toak);
            }
        }
        if let Some(pair) = self.detect_of_a_kind(hand, 2) {
            let value = pair[0].value;
            proof {
                lemma_select_holds(hand@, Pick::Value(best_kind_value(o, hand@, 2)));
            }
            let rest = cards_not_of_value(hand, value);
            if let Some(second) = self.detect_of_a_kind(rest.as_slice(), 2) {
                let mut total = pair;
                let mut second = second;
                total.append(&mut second);
                return ShowdownHand::TwoPair(total);
            } else {
                return ShowdownHand::Pair(pair);
            }
        }
        ShowdownHand::HighCard(self.highest_card(hand))
    }

    /// Classifies a hand without looking for straights: a flush where a
    /// suit has five cards, else the classification by groups.
    pub fn process_hand_no_straight(&self, hand: &[Card]) -> (r: ShowdownHand)
        requires
            valid_hand(hand@),
        ensures
            r@ == classify_no_straight(self.ordering(), hand@),
            formed_from(self.ordering(), r@, hand@),
    {
        proof {
            use_type_invariant(self);
            lemma_classify_no_straight_sound(self.ordering(), hand@);
        }
        let pf = self.detect_flushes(hand);
        if pf.len() > 0 {
            let k = self.best_of(&pf);
            return ShowdownHand::Flush(self.best_hand(pf[k].as_slice()));
        }
        self.process_hand_no_straight_flush(hand)
    }

    /// Classifies a hand of two to seven distinct cards.
    pub fn process_hand(&self, hand: &[Card]) -> (r: ShowdownHand)
        requires
            valid_hand(hand@),
        ensures
            r@ == classify(self.ordering(), hand@),
            formed_from(self.ordering(), r@, hand@),
    {
        proof {
            use_type_invariant(self);
            lemma_classify_sound(self.ordering(), hand@);
        }
        let pf = self.detect_flushes(hand);
        let ps = self.detect_straights(hand);
        let fs = straight_flush_candidates(&pf, &ps);
        if fs.len() > 0 {
            let k = self.best_of(&fs);
            let best = fs[k].as_slice();
            if holds_rank(best, self.ordering[8]) && holds_rank(best, self.ordering[12]) {
                return ShowdownHand::RoyalFlush(self.best_hand(best));
            } else {
                return ShowdownHand::StraightFlush(self.best_hand(best));
            }
        }
        if pf.len() > 0 {
            let k = self.best_of(&pf);
            return ShowdownHand::Flush(self.best_hand(pf[k].as_slice()));
        }
        if ps.len() > 0 {
            let k = self.best_of(&ps);
            return ShowdownHand::Straight(self.best_hand(ps[k].as_slice()));
        }
        self.process_hand_no_straight_flush(hand)
    }

    /// The number by which this evaluator compares hands.
    pub fn hand_score(&self, h: &ShowdownHand) -> (n: usize)
        ensures
            n == score(self.ordering(), h@),
            n < 140,
    {
        let rank = h.category().strength();
        let cards = h.cards();
        if cards.len() == 0 {
            rank * 14
        } else {
            let c = self.highest_card(cards.as_slice());
            rank * 14 + self.place(c.value) + 1
        }
    }

    /// Compares two hands: by category first, and within a category by the
    /// strength of each hand's strongest card. Nothing else is compared.
    pub fn compare_hands(&self, a: &ShowdownHand, b: &ShowdownHand) -> (r: Ordering)
        ensures
            r is Less <==> score(self.ordering(), a@) < score(self.ordering(), b@),
            r is Equal <==> score(self.ordering(), a@) == score(self.ordering(), b@),
            r is Greater <==> score(self.ordering(), a@) > score(self.ordering(), b@),
    {
        let x = self.hand_score(a);
        let y = self.hand_score(b);
        if x < y {
            Ordering::Less
        } else if x == y {
            Ordering::Equal
        } else {
            Ordering::Greater
        }
    }

    /// Whether two evaluators use the same ordering.
    pub fn same_ordering(&self, other: &ShowdownEngine) -> (b: bool)
        ensures
            b == (self.ordering() == other.ordering()),
    {
        let mut i: usize = 0;
        while i < 13
            invariant
                i <= 13,
                forall|j: int| 0 <= j < i ==> self.ordering@[j] == other.ordering@[j],
            decreases 13 - i,
        {
            if self.ordering[i] != other.ordering[i] {
                return false;
            }
            i += 1;
        }
        assert(self.ordering@ =~= other.ordering@);
        true
    }
}

/// Whether some card has the given rank.
pub fn holds_rank(cards: &[Card], v: CardValue) -> (b: bool)
    ensures
        b == holds_value(cards@, v),
{
    let mut i: usize = 0;
    while i < cards.len()
        invariant
            i <= cards.len(),
            forall|j: int| 0 <= j < i ==> (#[trigger] cards@[j]).value != v,
        decreases cards.len() - i,
    {
        if cards[i].value == v {
            return true;
        }
        i += 1;
    }
    false
}

/// The straight-flush candidates: for each flush and each straight, the
/// cards of the flush that the straight holds, where they are five or more.
fn straight_flush_candidates(pf: &Vec<Vec<Card>>, ps: &Vec<Vec<Card>>) -> (out: Vec<Vec<Card>>)
    ensures
        views(out@) == straight_flushes(views(pf@), views(ps@)),
        forall|i: int| 0 <= i < out.len() ==> (#[trigger] out@[i]).len() >= 5,
{
    let mut out: Vec<Vec<Card>> = Vec::new();
    let mut i: usize = 0;
    assert(views(out@) =~= straight_flushes_upto(views(pf@), views(ps@), 0));
    while i < pf.len()
        invariant
            i <= pf.len(),
            views(out@) == straight_flushes_upto(views(pf@), views(ps@), i as nat),
            forall|i: int| 0 <= i < out.len() ==> (#[trigger] out@[i]).len() >= 5,
        decreases pf.len() - i,
    {
        let ghost before = views(out@);
        let mut j: usize = 0;
        assert(before + straight_flush_row(pf@[i as int]@, views(ps@), 0) =~= before);
        while j < ps.len()
            invariant
                i < pf.len(),
                j <= ps.len(),
                views(out@) == before + straight_flush_row(pf@[i as int]@, views(ps@), j as nat),
                forall|i: int| 0 <= i < out.len() ==> (#[trigger] out@[i]).len() >= 5,
            decreases ps.len() - j,
        {
            let shared = cards_among(pf[i].as_slice(), ps[j].as_slice());
            if shared.len() >= 5 {
                let ghost had = out@;
                out.push(shared);
                assert(views(out@) =~= views(had).push(shared@));
                assert(views(out@) =~= before + straight_flush_row(
                    pf@[i as int]@,
                    views(ps@),
                    j as nat + 1,
                ));
            }
            j += 1;
        }
        i += 1;
    }
    out
}

/// A hand together with the evaluator that classified it, so that hands can
/// be compared with `==` and `<`. Hands of evaluators with different
/// orderings are neither equal nor ordered.
#[derive(Debug, Clone)]
pub struct ShowdownSet(pub ShowdownEngine, pub ShowdownHand);

impl PartialEq for ShowdownSet {
    fn eq(&self, o: &ShowdownSet) -> (b: bool) {
        if o.0.same_ordering(&self.0) {
            o.0.hand_score(&self.1) == o.0.hand_score(&o.1)
        } else {
            false
        }
    }
}

impl PartialEqSpecImpl for ShowdownSet {
    open spec fn obeys_eq_spec() -> bool {
        true
    }

    open spec fn eq_spec(&self, o: &ShowdownSet) -> bool {
        self.0.ordering() == o.0.ordering() && score(o.0.ordering(), self.1@) == score(
            o.0.ordering(),
            o.1@,
        )
    }
}

impl Eq for ShowdownSet {

}

impl PartialOrd for ShowdownSet {
    fn partial_cmp(&self, o: &ShowdownSet) -> (r: Option<Ordering>) {
        if o.0.same_ordering(&self.0) {
            Some(o.0.compare_hands(&self.1, &o.1))
        } else {
            None
        }
    }
}

impl PartialOrdSpecImpl for ShowdownSet {
    open spec fn obeys_partial_cmp_spec() -> bool {
        true
    }

    open spec fn partial_cmp_spec(&self, o: &ShowdownSet) -> Option<Ordering> {
        if self.0.ordering() == o.0.ordering() {
            if score(o.0.ordering(), self.1@) < score(o.0.ordering(), o.1@) {
                Some(Ordering::Less)
            } else if score(o.0.ordering(), self.1@) == score(o.0.ordering(), o.1@) {
                Some(Ordering::Equal)
            } else {
                Some(Ordering::Greater)
            }
        } else {
            None
        }
    }
}

} // verus!
