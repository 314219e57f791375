//! The classification against an exhaustive search: the category that the
//! evaluator reports is the best category that any cards of the hand make.

use crate::engine::classify::{
    appended, best_kind_value, bin, bin_value, classify, classify_groups, extend, first_of_suit,
    flushes, flushes_upto, holds_value, is_kind_value, straight_flush_row, straight_flushes,
    straight_flushes_upto, straights, straights_upto, valid_hand, window_straights,
};
use crate::engine::ordering::{is_ordering, lemma_position, lemma_position_at, position};
use crate::engine::selection::{
    best_candidate, candidate_keys, highest, last_max, lemma_select_holds,
    lemma_select_value_split, select, Pick,
};
use crate::engine::showdown::{HandCategory, HandView};
use crate::engine::soundness::{
    bin_place, drawn_from, fills_window, fits, formed_from, has_shape, lemma_best_kind_exists,
    lemma_classify_sound, lemma_distinct_within, lemma_flushes, lemma_highest,
    lemma_last_max_exists, lemma_straight_flushes, lemma_straights_fit, same_suit,
};
use crate::skeleton::cards::{Card, CardSuit, CardValue};
use vstd::prelude::*;

verus! {

/// Some distinct cards of the hand have the form of the category.
pub open spec fn achievable(o: Seq<CardValue>, s: Seq<Card>, cat: HandCategory) -> bool {
    exists|cards: Seq<Card>| #[trigger] formed_from(o, (HandView { category: cat, cards }), s)
}

/// Two different ranks have exactly three cards each in the hand.
pub open spec fn two_triples(s: Seq<Card>) -> bool {
    exists|a: CardValue, b: CardValue|
        a != b && #[trigger] select(s, Pick::Value(a)).len() == 3 && #[trigger] select(
            s,
            Pick::Value(b),
        ).len() == 3
}

/// How many cards of the rank the hand holds.
pub open spec fn count_of(s: Seq<Card>, v: CardValue) -> nat {
    select(s, Pick::Value(v)).len()
}

/// Distinct cards of the hand that a rule accepts are no more than the cards
/// that the rule selects from the hand, and they are among those.
proof fn lemma_count_at_least(s: Seq<Card>, p: Pick, cards: Seq<Card>)
    requires
        drawn_from(cards, s),
        forall|k: int| 0 <= k < cards.len() ==> p.accepts(#[trigger] cards[k]),
    ensures
        select(s, p).len() >= cards.len(),
        forall|k: int| 0 <= k < cards.len() ==> select(s, p).contains(#[trigger] cards[k]),
{
    lemma_select_holds(s, p);
    assert forall|k: int| 0 <= k < cards.len() implies select(s, p).contains(#[trigger] cards[k]) by {
        let j = choose|j: int| 0 <= j < s.len() && s[j] == cards[k];
        assert(select(s, p).contains(s[j]));
    }
    lemma_distinct_within(cards, select(s, p));
}

/// Two groups of distinct cards of the hand that share no card are together
/// no more than the hand.
proof fn lemma_parts(s: Seq<Card>, a: Seq<Card>, b: Seq<Card>)
    requires
        drawn_from(a, s),
        drawn_from(b, s),
        forall|i: int, j: int| 0 <= i < a.len() && 0 <= j < b.len() ==> a[i] != b[j],
    ensures
        drawn_from(a + b, s),
        a.len() + b.len() <= s.len(),
{
    let all = a + b;
    assert forall|k: int| 0 <= k < all.len() implies s.contains(#[trigger] all[k]) by {
        if k < a.len() {
            assert(all[k] == a[k]);
        } else {
            assert(all[k] == b[k - a.len()]);
        }
    }
    assert forall|x: int, y: int| 0 <= x < all.len() && 0 <= y < all.len() && x != y implies all[x]
        != all[y] by {
        if x < a.len() && y < a.len() {
        } else if x >= a.len() && y >= a.len() {
            assert(b[x - a.len()] != b[y - a.len()]);
        } else if x < a.len() {
            assert(a[x] != b[y - a.len()]);
        } else {
            assert(a[y] != b[x - a.len()]);
        }
    }
    lemma_distinct_within(all, s);
}

/// A part of distinct cards of the hand is distinct cards of the hand.
proof fn lemma_drawn_part(cards: Seq<Card>, s: Seq<Card>, lo: int, hi: int)
    requires
        drawn_from(cards, s),
        0 <= lo <= hi <= cards.len(),
    ensures
        drawn_from(cards.subrange(lo, hi), s),
{
    let part = cards.subrange(lo, hi);
    assert forall|k: int| 0 <= k < part.len() implies s.contains(#[trigger] part[k]) by {
        assert(part[k] == cards[lo + k]);
    }
    assert forall|x: int, y: int| 0 <= x < part.len() && 0 <= y < part.len() && x != y implies part[x]
        != part[y] by {
        assert(part[x] == cards[lo + x] && part[y] == cards[lo + y]);
    }
}

/// What a rule selects from distinct cards of the hand is distinct cards of
/// the hand.
proof fn lemma_drawn_select(pool: Seq<Card>, s: Seq<Card>, p: Pick)
    requires
        drawn_from(pool, s),
    ensures
        drawn_from(select(pool, p), s),
        forall|k: int| 0 <= k < select(pool, p).len() ==> p.accepts(#[trigger] select(pool, p)[k]),
{
    lemma_select_holds(pool, p);
    let g = select(pool, p);
    assert forall|k: int| 0 <= k < g.len() implies s.contains(#[trigger] g[k]) by {
        assert(pool.contains(g[k]));
        let j = choose|j: int| 0 <= j < pool.len() && pool[j] == g[k];
        assert(s.contains(pool[j]));
    }
}

/// Selecting a rank among the cards of the other ranks but `t` is selecting
/// it among all the cards.
proof fn lemma_select_rest(s: Seq<Card>, t: CardValue, v: CardValue)
    requires
        v != t,
    ensures
        select(select(s, Pick::NotValue(t)), Pick::Value(v)) == select(s, Pick::Value(v)),
    decreases s.len(),
{
    if s.len() > 0 {
        lemma_select_rest(s.drop_last(), t, v);
        let d = s.drop_last();
        let rest_d = select(d, Pick::NotValue(t));
        if s.last().value != t {
            let rest = select(s, Pick::NotValue(t));
            assert(rest == rest_d.push(s.last()));
            assert(rest.drop_last() =~= rest_d);
        }
    }
}

/// A hand without repeated cards holds at most four cards of a rank.
proof fn lemma_at_most_four(s: Seq<Card>, v: CardValue)
    requires
        s.no_duplicates(),
    ensures
        count_of(s, v) <= 4,
{
    let g = select(s, Pick::Value(v));
    lemma_select_holds(s, Pick::Value(v));
    if g.len() >= 5 {
        assert(Pick::Value(v).accepts(g[0]));
        assert(Pick::Value(v).accepts(g[1]));
        assert(Pick::Value(v).accepts(g[2]));
        assert(Pick::Value(v).accepts(g[3]));
        assert(Pick::Value(v).accepts(g[4]));
        assert(g[0] != g[1] && g[0] != g[2] && g[0] != g[3] && g[0] != g[4]);
        assert(g[1] != g[2] && g[1] != g[3] && g[1] != g[4]);
        assert(g[2] != g[3] && g[2] != g[4]);
        assert(g[3] != g[4]);
        assert(g[0].suit != g[1].suit && g[0].suit != g[2].suit && g[0].suit != g[3].suit
            && g[0].suit != g[4].suit);
        assert(g[1].suit != g[2].suit && g[1].suit != g[3].suit && g[1].suit != g[4].suit);
        assert(g[2].suit != g[3].suit && g[2].suit != g[4].suit);
        assert(g[3].suit != g[4].suit);
        assert(false);
    }
}

/// Each rank occurs at most once among the cards.
pub open spec fn one_of_each(pool: Seq<Card>) -> bool {
    forall|v: CardValue| #[trigger] count_of(pool, v) <= 1
}

/// Distinct cards of one suit hold each rank at most once.
proof fn lemma_suit_one_of_each(pool: Seq<Card>)
    requires
        pool.no_duplicates(),
        same_suit(pool),
    ensures
        one_of_each(pool),
{
    assert forall|v: CardValue| #[trigger] count_of(pool, v) <= 1 by {
        let g = select(pool, Pick::Value(v));
        lemma_select_holds(pool, Pick::Value(v));
        if g.len() >= 2 {
            assert(Pick::Value(v).accepts(g[0]));
            assert(Pick::Value(v).accepts(g[1]));
            assert(pool.contains(g[0]) && pool.contains(g[1]));
            let a = choose|a: int| 0 <= a < pool.len() && pool[a] == g[0];
            let b = choose|b: int| 0 <= b < pool.len() && pool[b] == g[1];
            assert(pool[a].suit == pool[b].suit);
            assert(g[0] != g[1]);
            assert(false);
        }
    }
}

/// Cards of pairwise different ranks hold each rank at most once.
proof fn lemma_ranks_one_of_each(pool: Seq<Card>)
    requires
        forall|a: int, b: int|
            0 <= a < pool.len() && 0 <= b < pool.len() && a != b ==> (#[trigger] pool[a]).value != (
            #[trigger] pool[b]).value,
    ensures
        one_of_each(pool),
        pool.no_duplicates(),
{
    assert(pool.no_duplicates()) by {
        assert forall|a: int, b: int|
            0 <= a < pool.len() && 0 <= b < pool.len() && a != b implies pool[a] != pool[b] by {
            assert(pool[a].value != pool[b].value);
        }
    }
    assert forall|v: CardValue| #[trigger] count_of(pool, v) <= 1 by {
        let g = select(pool, Pick::Value(v));
        lemma_select_holds(pool, Pick::Value(v));
        if g.len() >= 2 {
            assert(Pick::Value(v).accepts(g[0]));
            assert(Pick::Value(v).accepts(g[1]));
            assert(pool.contains(g[0]) && pool.contains(g[1]));
            let a = choose|a: int| 0 <= a < pool.len() && pool[a] == g[0];
            let b = choose|b: int| 0 <= b < pool.len() && pool[b] == g[1];
            assert(g[0] != g[1]);
            assert(pool[a].value != pool[b].value);
            assert(false);
        }
    }
}

/// A hand that holds cards with each rank at most once and, beside them,
/// the cards of one rank holds them all: the cards of the rank and all but
/// one of the others are no more than the hand.
proof fn lemma_pool_and_group(s: Seq<Card>, pool: Seq<Card>, v: CardValue)
    requires
        s.no_duplicates(),
        drawn_from(pool, s),
        one_of_each(pool),
    ensures
        count_of(s, v) + pool.len() - 1 <= s.len(),
{
    let g = select(s, Pick::Value(v));
    let others = select(pool, Pick::NotValue(v));
    lemma_select_value_split(pool, v);
    assert(count_of(pool, v) <= 1);
    lemma_select_holds(s, Pick::Value(v));
    lemma_drawn_select(pool, s, Pick::NotValue(v));
    assert(drawn_from(g, s));
    assert forall|i: int, j: int| 0 <= i < g.len() && 0 <= j < others.len() implies g[i]
        != others[j] by {
        assert(Pick::Value(v).accepts(g[i]));
        assert(Pick::NotValue(v).accepts(others[j]));
    }
    lemma_parts(s, g, others);
}

/// The same with the cards of two ranks beside the cards that hold each
/// rank at most once.
proof fn lemma_pool_and_two_groups(s: Seq<Card>, pool: Seq<Card>, v: CardValue, w: CardValue)
    requires
        s.no_duplicates(),
        drawn_from(pool, s),
        one_of_each(pool),
        v != w,
    ensures
        count_of(s, v) + count_of(s, w) + pool.len() - 2 <= s.len(),
{
    let g = select(s, Pick::Value(v));
    let h = select(s, Pick::Value(w));
    let rest = select(pool, Pick::NotValue(v));
    let left = select(rest, Pick::NotValue(w));
    lemma_select_value_split(pool, v);
    lemma_select_value_split(rest, w);
    lemma_select_rest(pool, v, w);
    assert(count_of(pool, v) <= 1);
    assert(count_of(pool, w) <= 1);
    lemma_select_holds(s, Pick::Value(v));
    lemma_select_holds(s, Pick::Value(w));
    lemma_drawn_select(pool, s, Pick::NotValue(v));
    lemma_drawn_select(rest, s, Pick::NotValue(w));
    lemma_select_holds(pool, Pick::NotValue(v));
    assert(drawn_from(g, s));
    assert(drawn_from(h, s));
    assert forall|i: int, j: int| 0 <= i < g.len() && 0 <= j < h.len() implies g[i] != h[j] by {
        assert(Pick::Value(v).accepts(g[i]));
        assert(Pick::Value(w).accepts(h[j]));
    }
    lemma_parts(s, g, h);
    let both = g + h;
    assert forall|i: int, j: int| 0 <= i < both.len() && 0 <= j < left.len() implies both[i]
        != left[j] by {
        assert(Pick::NotValue(w).accepts(left[j]));
        assert(rest.contains(left[j])) by {
            lemma_select_holds(rest, Pick::NotValue(w));
        }
        let m = choose|m: int| 0 <= m < rest.len() && rest[m] == left[j];
        assert(Pick::NotValue(v).accepts(rest[m]));
        if i < g.len() {
            assert(both[i] == g[i]);
            assert(Pick::Value(v).accepts(g[i]));
        } else {
            assert(both[i] == h[i - g.len()]);
            assert(Pick::Value(w).accepts(h[i - g.len()]));
        }
    }
    lemma_parts(s, both, left);
}

/// The first card of a suit: the suit of the card at `m` first occurs at
/// the index returned.
proof fn lemma_first_of_suit(s: Seq<Card>, m: int) -> (j: int)
    requires
        0 <= m < s.len(),
    ensures
        0 <= j <= m,
        s[j].suit == s[m].suit,
        first_of_suit(s, j),
    decreases m,
{
    if first_of_suit(s, m) {
        m
    } else {
        let k = choose|k: int| 0 <= k < m && (#[trigger] s[k]).suit == s[m].suit;
        lemma_first_of_suit(s, k)
    }
}

/// The cards of a suit that first occurs at `j` and has five cards are a
/// flush candidate.
proof fn lemma_flushes_hold(s: Seq<Card>, n: nat, j: int) -> (i: int)
    requires
        0 <= j < n <= s.len(),
        first_of_suit(s, j),
        select(s, Pick::Suit(s[j].suit)).len() >= 5,
    ensures
        0 <= i < flushes_upto(s, n).len(),
        flushes_upto(s, n)[i] == select(s, Pick::Suit(s[j].suit)),
    decreases n,
{
    let before = flushes_upto(s, (n - 1) as nat);
    if j == n - 1 {
        before.len() as int
    } else {
        let i = lemma_flushes_hold(s, (n - 1) as nat, j);
        assert(flushes_upto(s, n)[i] == before[i]);
        i
    }
}

/// A suit with five cards in the hand gives a flush candidate.
proof fn lemma_suit_gives_flush(s: Seq<Card>, suit: CardSuit) -> (i: int)
    requires
        select(s, Pick::Suit(suit)).len() >= 5,
    ensures
        0 <= i < flushes(s).len(),
        flushes(s)[i] == select(s, Pick::Suit(suit)),
{
    let g = select(s, Pick::Suit(suit));
    lemma_select_holds(s, Pick::Suit(suit));
    assert(Pick::Suit(suit).accepts(g[0]));
    assert(s.contains(g[0]));
    let m = choose|m: int| 0 <= m < s.len() && s[m] == g[0];
    let j = lemma_first_of_suit(s, m);
    lemma_flushes_hold(s, s.len(), j)
}

/// A prefix followed by a card is among the prefixes followed by the cards.
proof fn lemma_extend_holds(prefixes: Seq<Seq<Card>>, cards: Seq<Card>, a: int, b: int) -> (i: int)
    requires
        0 <= a < prefixes.len(),
        0 <= b < cards.len(),
    ensures
        0 <= i < extend(prefixes, cards).len(),
        extend(prefixes, cards)[i] == prefixes[a].push(cards[b]),
    decreases prefixes.len(),
{
    let d = prefixes.drop_last();
    let before = extend(d, cards);
    if a == prefixes.len() - 1 {
        let i = before.len() + b;
        assert(extend(prefixes, cards)[i] == appended(prefixes.last(), cards, cards.len() as int)[b]);
        i
    } else {
        let i = lemma_extend_holds(d, cards, a, b);
        assert(d[a] == prefixes[a]);
        assert(extend(prefixes, cards)[i] == before[i]);
        i
    }
}

/// Five cards, one from each bin of a window, are a straight candidate of
/// the window.
proof fn lemma_window_holds(o: Seq<CardValue>, s: Seq<Card>, w: int, c: Seq<Card>) -> (i: int)
    requires
        fits(o, s, w, c, 5),
    ensures
        0 <= i < window_straights(o, s, w).len(),
        window_straights(o, s, w)[i] == c,
{
    let n0 = bin(o, s, w);
    let n1 = bin(o, s, w + 1);
    let n2 = bin(o, s, w + 2);
    let n3 = bin(o, s, w + 3);
    let n4 = bin(o, s, w + 4);
    let c0 = seq![Seq::<Card>::empty()];
    let c1 = extend(c0, n0);
    let c2 = extend(c1, n1);
    let c3 = extend(c2, n2);
    let c4 = extend(c3, n3);
    assert(bin(o, s, w + 0).contains(c[0]));
    assert(bin(o, s, w + 1).contains(c[1]));
    assert(bin(o, s, w + 2).contains(c[2]));
    assert(bin(o, s, w + 3).contains(c[3]));
    assert(bin(o, s, w + 4).contains(c[4]));
    let b0 = choose|b: int| 0 <= b < n0.len() && n0[b] == c[0];
    let b1 = choose|b: int| 0 <= b < n1.len() && n1[b] == c[1];
    let b2 = choose|b: int| 0 <= b < n2.len() && n2[b] == c[2];
    let b3 = choose|b: int| 0 <= b < n3.len() && n3[b] == c[3];
    let b4 = choose|b: int| 0 <= b < n4.len() && n4[b] == c[4];
    let i1 = lemma_extend_holds(c0, n0, 0, b0);
    assert(c1[i1] =~= c.take(1));
    let i2 = lemma_extend_holds(c1, n1, i1, b1);
    assert(c2[i2] =~= c.take(2));
    let i3 = lemma_extend_holds(c2, n2, i2, b2);
    assert(c3[i3] =~= c.take(3));
    let i4 = lemma_extend_holds(c3, n3, i3, b3);
    assert(c4[i4] =~= c.take(4));
    let i5 = lemma_extend_holds(c4, n4, i4, b4);
    assert(window_straights(o, s, w)[i5] =~= c);
    i5
}

/// Five cards, one from each bin of one of the ten windows, are a straight
/// candidate.
proof fn lemma_straights_hold(o: Seq<CardValue>, s: Seq<Card>, n: nat, w: int, c: Seq<Card>) -> (i: int)
    requires
        0 <= w < n,
        fits(o, s, w, c, 5),
    ensures
        0 <= i < straights_upto(o, s, n).len(),
        straights_upto(o, s, n)[i] == c,
    decreases n,
{
    let before = straights_upto(o, s, (n - 1) as nat);
    if w == n - 1 {
        let i = lemma_window_holds(o, s, w, c);
        before.len() + i
    } else {
        let i = lemma_straights_hold(o, s, (n - 1) as nat, w, c);
        assert(straights_upto(o, s, n)[i] == before[i]);
        i
    }
}

/// What a flush shares with a straight is a straight-flush candidate of the
/// flush where it is five cards or more.
proof fn lemma_row_holds(f: Seq<Card>, ps: Seq<Seq<Card>>, n: nat, j: int) -> (i: int)
    requires
        0 <= j < n <= ps.len(),
        select(f, Pick::Among(ps[j])).len() >= 5,
    ensures
        0 <= i < straight_flush_row(f, ps, n).len(),
        straight_flush_row(f, ps, n)[i] == select(f, Pick::Among(ps[j])),
    decreases n,
{
    let before = straight_flush_row(f, ps, (n - 1) as nat);
    if j == n - 1 {
        before.len() as int
    } else {
        let i = lemma_row_holds(f, ps, (n - 1) as nat, j);
        assert(straight_flush_row(f, ps, n)[i] == before[i]);
        i
    }
}

/// What one of the flushes shares with one of the straights is a
/// straight-flush candidate where it is five cards or more.
proof fn lemma_straight_flushes_hold(
    pf: Seq<Seq<Card>>,
    ps: Seq<Seq<Card>>,
    m: nat,
    a: int,
    b: int,
) -> (i: int)
    requires
        0 <= a < m <= pf.len(),
        0 <= b < ps.len(),
        select(pf[a], Pick::Among(ps[b])).len() >= 5,
    ensures
        0 <= i < straight_flushes_upto(pf, ps, m).len(),
        straight_flushes_upto(pf, ps, m)[i] == select(pf[a], Pick::Among(ps[b])),
    decreases m,
{
    let before = straight_flushes_upto(pf, ps, (m - 1) as nat);
    if a == m - 1 {
        let i = lemma_row_holds(pf[a], ps, ps.len(), b);
        before.len() + i
    } else {
        let i = lemma_straight_flushes_hold(pf, ps, (m - 1) as nat, a, b);
        assert(straight_flushes_upto(pf, ps, m)[i] == before[i]);
        i
    }
}

/// A card of `cards` that has the rank `v`.
pub open spec fn card_with(cards: Seq<Card>, v: CardValue) -> Card {
    cards[choose|i: int| 0 <= i < cards.len() && (#[trigger] cards[i]).value == v]
}

/// For each bin of the window, a card of `cards` that has the bin's rank.
pub open spec fn run_of(o: Seq<CardValue>, cards: Seq<Card>, w: int) -> Seq<Card> {
    Seq::new(5, |k: int| card_with(cards, bin_value(o, w + k)))
}

/// Cards of the hand that fill a window give five cards of the hand, one
/// from each bin of the window, of pairwise different ranks.
proof fn lemma_run_of(o: Seq<CardValue>, s: Seq<Card>, cards: Seq<Card>, w: int)
    requires
        is_ordering(o),
        0 <= w < 10,
        fills_window(o, cards, w),
        forall|k: int| 0 <= k < cards.len() ==> s.contains(#[trigger] cards[k]),
    ensures
        fits(o, s, w, run_of(o, cards, w), 5),
        drawn_from(run_of(o, cards, w), s),
        one_of_each(run_of(o, cards, w)),
        forall|k: int|
            0 <= k < 5 ==> cards.contains(#[trigger] run_of(o, cards, w)[k]) && run_of(
                o,
                cards,
                w,
            )[k].value == bin_value(o, w + k),
{
    let c = run_of(o, cards, w);
    assert forall|k: int| 0 <= k < 5 implies cards.contains(#[trigger] c[k]) && c[k].value
        == bin_value(o, w + k) && s.contains(c[k]) && bin(o, s, w + k).contains(c[k]) by {
        let v = bin_value(o, w + k);
        assert(holds_value(cards, v));
        let i = choose|i: int| 0 <= i < cards.len() && (#[trigger] cards[i]).value == v;
        assert(c[k] == cards[i]);
        assert(s.contains(cards[i]));
        let j = choose|j: int| 0 <= j < s.len() && s[j] == cards[i];
        lemma_select_holds(s, Pick::Value(v));
        assert(Pick::Value(v).accepts(s[j]));
        assert(select(s, Pick::Value(v)).contains(s[j]));
    }
    assert forall|a: int, b: int| 0 <= a < c.len() && 0 <= b < c.len() && a != b implies (
    #[trigger] c[a]).value != (#[trigger] c[b]).value by {
        assert(c[a].value == o[bin_place(w + a)]);
        assert(c[b].value == o[bin_place(w + b)]);
        assert(bin_place(w + a) != bin_place(w + b));
    }
    lemma_ranks_one_of_each(c);
}

/// A hand of seven cards at most cannot hold five cards with each rank at
/// most once beside four cards of one rank.
proof fn lemma_no_four_beside(s: Seq<Card>, pool: Seq<Card>, v: CardValue)
    requires
        valid_hand(s),
        drawn_from(pool, s),
        one_of_each(pool),
        pool.len() >= 5,
    ensures
        count_of(s, v) < 4,
{
    lemma_pool_and_group(s, pool, v);
}

/// Nor beside three cards of one rank and two of another.
proof fn lemma_no_full_house_beside(s: Seq<Card>, pool: Seq<Card>, v: CardValue, w: CardValue)
    requires
        valid_hand(s),
        drawn_from(pool, s),
        one_of_each(pool),
        pool.len() >= 5,
        v != w,
    ensures
        !(count_of(s, v) >= 3 && count_of(s, w) >= 2),
{
    lemma_pool_and_two_groups(s, pool, v, w);
}

/// The categories whose cards are five of one suit.
pub open spec fn needs_flush(cat: HandCategory) -> bool {
    cat == HandCategory::Flush || cat == HandCategory::StraightFlush || cat
        == HandCategory::RoyalFlush
}

/// The categories whose cards fill a window of five neighbouring bins.
pub open spec fn needs_run(cat: HandCategory) -> bool {
    cat == HandCategory::Straight || cat == HandCategory::StraightFlush || cat
        == HandCategory::RoyalFlush
}

/// Cards of the hand in one suit, five of them, make the suit a flush
/// candidate whose cards are distinct, of one suit, with each rank once.
proof fn lemma_flush_pool(s: Seq<Card>, cards: Seq<Card>) -> (i: int)
    requires
        s.no_duplicates(),
        drawn_from(cards, s),
        same_suit(cards),
        cards.len() == 5,
    ensures
        0 <= i < flushes(s).len(),
        flushes(s)[i] == select(s, Pick::Suit(cards[0].suit)),
        drawn_from(flushes(s)[i], s),
        one_of_each(flushes(s)[i]),
        flushes(s)[i].len() >= 5,
        forall|k: int| 0 <= k < 5 ==> flushes(s)[i].contains(#[trigger] cards[k]),
{
    let suit = cards[0].suit;
    assert forall|k: int| 0 <= k < cards.len() implies Pick::Suit(suit).accepts(#[trigger] cards[k]) by {
        assert(cards[k].suit == cards[0].suit);
    }
    lemma_count_at_least(s, Pick::Suit(suit), cards);
    let i = lemma_suit_gives_flush(s, suit);
    let f = flushes(s)[i];
    lemma_select_holds(s, Pick::Suit(suit));
    assert(same_suit(f)) by {
        assert forall|a: int, b: int| 0 <= a < f.len() && 0 <= b < f.len() implies (#[trigger] f[a]).suit
            == (#[trigger] f[b]).suit by {
            assert(Pick::Suit(suit).accepts(f[a]));
            assert(Pick::Suit(suit).accepts(f[b]));
        }
    }
    lemma_suit_one_of_each(f);
    i
}

/// Where a flush candidate exists, some cards of the hand, five or more,
/// distinct, hold each rank at most once.
proof fn lemma_flush_candidate_pool(s: Seq<Card>) -> (f: Seq<Card>)
    requires
        s.no_duplicates(),
        flushes(s).len() > 0,
    ensures
        drawn_from(f, s),
        one_of_each(f),
        f.len() >= 5,
{
    let j = lemma_flushes(s, s.len(), 0);
    let suit = s[j].suit;
    let f = flushes(s)[0];
    lemma_select_holds(s, Pick::Suit(suit));
    assert(same_suit(f)) by {
        assert forall|a: int, b: int| 0 <= a < f.len() && 0 <= b < f.len() implies (#[trigger] f[a]).suit
            == (#[trigger] f[b]).suit by {
            assert(Pick::Suit(suit).accepts(f[a]));
            assert(Pick::Suit(suit).accepts(f[b]));
        }
    }
    lemma_suit_one_of_each(f);
    f
}

/// Where a straight candidate exists, five cards of the hand hold each rank
/// at most once.
proof fn lemma_straight_candidate_pool(o: Seq<CardValue>, s: Seq<Card>) -> (c: Seq<Card>)
    requires
        is_ordering(o),
        s.no_duplicates(),
        straights(o, s).len() > 0,
    ensures
        drawn_from(c, s),
        one_of_each(c),
        c.len() == 5,
{
    let w = lemma_straights_fit(o, s, 10, 0);
    let c = straights(o, s)[0];
    assert forall|k: int| 0 <= k < 5 implies s.contains(#[trigger] c[k]) && c[k].value == bin_value(
        o,
        w + k,
    ) by {
        lemma_select_holds(s, Pick::Value(bin_value(o, w + k)));
        let b = bin(o, s, w + k);
        assert(b.contains(c[k]));
        let j = choose|j: int| 0 <= j < b.len() && b[j] == c[k];
        assert(Pick::Value(bin_value(o, w + k)).accepts(b[j]));
    }
    assert forall|a: int, b: int| 0 <= a < c.len() && 0 <= b < c.len() && a != b implies (
    #[trigger] c[a]).value != (#[trigger] c[b]).value by {
        assert(c[a].value == o[bin_place(w + a)]);
        assert(c[b].value == o[bin_place(w + b)]);
        assert(bin_place(w + a) != bin_place(w + b));
    }
    lemma_ranks_one_of_each(c);
    c
}

/// Five cards of one suit that fill a window give a straight-flush
/// candidate that holds the five ranks of the window.
proof fn lemma_gives_straight_flush(o: Seq<CardValue>, s: Seq<Card>, cards: Seq<Card>, w: int) -> (i: int)
    requires
        is_ordering(o),
        s.no_duplicates(),
        drawn_from(cards, s),
        same_suit(cards),
        cards.len() == 5,
        0 <= w < 10,
        fills_window(o, cards, w),
    ensures
        0 <= i < straight_flushes(flushes(s), straights(o, s)).len(),
        forall|k: int|
            0 <= k < 5 ==> holds_value(
                straight_flushes(flushes(s), straights(o, s))[i],
                #[trigger] bin_value(o, w + k),
            ),
{
    let pf = flushes(s);
    let ps = straights(o, s);
    let a = lemma_flush_pool(s, cards);
    let f = pf[a];
    lemma_run_of(o, s, cards, w);
    let c = run_of(o, cards, w);
    let b = lemma_straights_hold(o, s, 10, w, c);
    let shared = select(f, Pick::Among(c));
    lemma_select_holds(f, Pick::Among(c));
    assert forall|k: int| 0 <= k < 5 implies shared.contains(#[trigger] c[k]) by {
        assert(cards.contains(c[k]));
        let m = choose|m: int| 0 <= m < cards.len() && cards[m] == c[k];
        assert(f.contains(cards[m]));
        let x = choose|x: int| 0 <= x < f.len() && f[x] == c[k];
        assert(c.contains(c[k]));
        assert(Pick::Among(c).accepts(f[x]));
        assert(shared.contains(f[x]));
    }
    lemma_distinct_within(c, shared);
    let i = lemma_straight_flushes_hold(pf, ps, pf.len(), a, b);
    assert forall|k: int| 0 <= k < 5 implies holds_value(shared, #[trigger] bin_value(o, w + k)) by {
        assert(shared.contains(c[k]));
        let m = choose|m: int| 0 <= m < shared.len() && shared[m] == c[k];
        assert(shared[m].value == bin_value(o, w + k));
    }
    i
}

/// Where the hand has neither flush nor straight, no cards of the hand make
/// a category of groups better than the classification by groups reports.
proof fn lemma_groups_best(o: Seq<CardValue>, s: Seq<Card>, cat: HandCategory)
    requires
        is_ordering(o),
        valid_hand(s),
        !two_triples(s),
        achievable(o, s, cat),
        !needs_flush(cat),
        !needs_run(cat),
    ensures
        cat.rank() <= classify_groups(o, s).category.rank(),
{
    let cards = choose|cards: Seq<Card>| #[trigger]
        formed_from(o, (HandView { category: cat, cards }), s);
    let h = HandView { category: cat, cards };
    assert(has_shape(o, h));
    assert(drawn_from(cards, s));
    assert forall|v: CardValue| count_of(s, v) <= 4 by {
        lemma_at_most_four(s, v);
    }
    if cat == HandCategory::FourOfAKind {
        let v = cards[0].value;
        assert forall|k: int| 0 <= k < cards.len() implies Pick::Value(v).accepts(#[trigger] cards[k]) by {
            assert(cards[k].value == cards[0].value);
        }
        lemma_count_at_least(s, Pick::Value(v), cards);
        lemma_at_most_four(s, v);
        assert(is_kind_value(s, 4, v));
    } else if cat == HandCategory::FullHouse {
        let three = cards.take(3);
        let two = cards.skip(3);
        lemma_drawn_part(cards, s, 0, 3);
        lemma_drawn_part(cards, s, 3, 5);
        let v = cards[0].value;
        let w = cards[3].value;
        assert(three[0] == cards[0] && two[0] == cards[3]);
        assert forall|k: int| 0 <= k < three.len() implies Pick::Value(v).accepts(#[trigger] three[k]) by {
            assert(three[k].value == three[0].value);
        }
        assert forall|k: int| 0 <= k < two.len() implies Pick::Value(w).accepts(#[trigger] two[k]) by {
            assert(two[k].value == two[0].value);
        }
        lemma_count_at_least(s, Pick::Value(v), three);
        lemma_count_at_least(s, Pick::Value(w), two);
        lemma_at_most_four(s, v);
        lemma_at_most_four(s, w);
        if count_of(s, v) == 4 {
            assert(is_kind_value(s, 4, v));
        } else if count_of(s, w) == 4 {
            assert(is_kind_value(s, 4, w));
        } else {
            assert(is_kind_value(s, 3, v));
            let t = best_kind_value(o, s, 3);
            lemma_best_kind_exists(o, s, 3);
            assert(count_of(s, t) == 3);
            let rest = select(s, Pick::NotValue(t));
            if count_of(s, w) == 3 {
                assert(select(s, Pick::Value(v)).len() == 3 && select(s, Pick::Value(w)).len() == 3);
                assert(two_triples(s));
            } else {
                assert(w != t);
                lemma_select_rest(s, t, w);
                assert(is_kind_value(rest, 2, w));
            }
        }
    } else if cat == HandCategory::ThreeOfAKind {
        let v = cards[0].value;
        assert forall|k: int| 0 <= k < cards.len() implies Pick::Value(v).accepts(#[trigger] cards[k]) by {
            assert(cards[k].value == cards[0].value);
        }
        lemma_count_at_least(s, Pick::Value(v), cards);
        lemma_at_most_four(s, v);
        if count_of(s, v) == 4 {
            assert(is_kind_value(s, 4, v));
        } else {
            assert(is_kind_value(s, 3, v));
        }
    } else if cat == HandCategory::TwoPair {
        let one = cards.take(2);
        let two = cards.skip(2);
        lemma_drawn_part(cards, s, 0, 2);
        lemma_drawn_part(cards, s, 2, 4);
        let v = cards[0].value;
        let w = cards[2].value;
        assert(one[0] == cards[0] && two[0] == cards[2]);
        assert forall|k: int| 0 <= k < one.len() implies Pick::Value(v).accepts(#[trigger] one[k]) by {
            assert(one[k].value == one[0].value);
        }
        assert forall|k: int| 0 <= k < two.len() implies Pick::Value(w).accepts(#[trigger] two[k]) by {
            assert(two[k].value == two[0].value);
        }
        lemma_count_at_least(s, Pick::Value(v), one);
        lemma_count_at_least(s, Pick::Value(w), two);
        lemma_at_most_four(s, v);
        lemma_at_most_four(s, w);
        if count_of(s, v) == 4 {
            assert(is_kind_value(s, 4, v));
        } else if count_of(s, w) == 4 {
            assert(is_kind_value(s, 4, w));
        } else if count_of(s, v) == 3 {
            assert(is_kind_value(s, 3, v));
        } else if count_of(s, w) == 3 {
            assert(is_kind_value(s, 3, w));
        } else {
            assert(is_kind_value(s, 2, v));
            assert(is_kind_value(s, 2, w));
            let t = best_kind_value(o, s, 2);
            lemma_best_kind_exists(o, s, 2);
            let rest = select(s, Pick::NotValue(t));
            if v != t {
                lemma_select_rest(s, t, v);
                assert(is_kind_value(rest, 2, v));
            } else {
                lemma_select_rest(s, t, w);
                assert(is_kind_value(rest, 2, w));
            }
        }
    } else if cat == HandCategory::Pair {
        let v = cards[0].value;
        assert forall|k: int| 0 <= k < cards.len() implies Pick::Value(v).accepts(#[trigger] cards[k]) by {
            assert(cards[k].value == cards[0].value);
        }
        lemma_count_at_least(s, Pick::Value(v), cards);
        lemma_at_most_four(s, v);
        if count_of(s, v) == 4 {
            assert(is_kind_value(s, 4, v));
        } else if count_of(s, v) == 3 {
            assert(is_kind_value(s, 3, v));
        } else {
            assert(is_kind_value(s, 2, v));
        }
    }
}

/// The ranks that the cards of a category need: a rank with four cards, or
/// with three and another with two.
proof fn lemma_needs_groups(o: Seq<CardValue>, s: Seq<Card>, cat: HandCategory) -> (at: (
    CardValue,
    CardValue,
))
    requires
        s.no_duplicates(),
        achievable(o, s, cat),
        cat == HandCategory::FourOfAKind || cat == HandCategory::FullHouse,
    ensures
        cat == HandCategory::FourOfAKind ==> count_of(s, at.0) >= 4,
        cat == HandCategory::FullHouse ==> at.0 != at.1 && count_of(s, at.0) >= 3 && count_of(
            s,
            at.1,
        ) >= 2,
{
    let cards = choose|cards: Seq<Card>| #[trigger]
        formed_from(o, (HandView { category: cat, cards }), s);
    let h = HandView { category: cat, cards };
    assert(has_shape(o, h));
    if cat == HandCategory::FourOfAKind {
        let v = cards[0].value;
        assert forall|k: int| 0 <= k < cards.len() implies Pick::Value(v).accepts(#[trigger] cards[k]) by {
            assert(cards[k].value == cards[0].value);
        }
        lemma_count_at_least(s, Pick::Value(v), cards);
        (v, v)
    } else {
        let three = cards.take(3);
        let two = cards.skip(3);
        lemma_drawn_part(cards, s, 0, 3);
        lemma_drawn_part(cards, s, 3, 5);
        let v = cards[0].value;
        let w = cards[3].value;
        assert(three[0] == cards[0] && two[0] == cards[3]);
        assert forall|k: int| 0 <= k < three.len() implies Pick::Value(v).accepts(#[trigger] three[k]) by {
            assert(three[k].value == three[0].value);
        }
        assert forall|k: int| 0 <= k < two.len() implies Pick::Value(w).accepts(#[trigger] two[k]) by {
            assert(two[k].value == two[0].value);
        }
        lemma_count_at_least(s, Pick::Value(v), three);
        lemma_count_at_least(s, Pick::Value(w), two);
        (v, w)
    }
}

/// The cards of a flush, of a straight flush or of a royal flush are five
/// cards of one suit.
proof fn lemma_needs_suit(o: Seq<CardValue>, s: Seq<Card>, cat: HandCategory) -> (cards: Seq<Card>)
    requires
        achievable(o, s, cat),
        needs_flush(cat),
    ensures
        drawn_from(cards, s),
        same_suit(cards),
        cards.len() == 5,
        formed_from(o, (HandView { category: cat, cards }), s),
{
    let cards = choose|cards: Seq<Card>| #[trigger]
        formed_from(o, (HandView { category: cat, cards }), s);
    let h = HandView { category: cat, cards };
    assert(has_shape(o, h));
    cards
}

/// The cards of a straight, of a straight flush or of a royal flush fill a
/// window; those of a royal flush fill the last.
proof fn lemma_needs_window(o: Seq<CardValue>, s: Seq<Card>, cat: HandCategory) -> (at: (Seq<Card>, int))
    requires
        achievable(o, s, cat),
        needs_run(cat),
    ensures
        drawn_from(at.0, s),
        at.0.len() == 5,
        0 <= at.1 < 10,
        fills_window(o, at.0, at.1),
        cat == HandCategory::RoyalFlush ==> at.1 == 9,
        needs_flush(cat) ==> same_suit(at.0),
{
    let cards = choose|cards: Seq<Card>| #[trigger]
        formed_from(o, (HandView { category: cat, cards }), s);
    let h = HandView { category: cat, cards };
    assert(has_shape(o, h));
    if cat == HandCategory::RoyalFlush {
        (cards, 9)
    } else {
        let w = choose|w: int| 0 <= w < 10 && #[trigger] fills_window(o, cards, w);
        (cards, w)
    }
}

/// Where a royal flush can be made, the best straight-flush candidate holds
/// the ranks at places 8 and 12.
proof fn lemma_royal_is_found(o: Seq<CardValue>, s: Seq<Card>)
    requires
        is_ordering(o),
        valid_hand(s),
        achievable(o, s, HandCategory::RoyalFlush),
    ensures
        straight_flushes(flushes(s), straights(o, s)).len() > 0,
        holds_value(best_candidate(o, straight_flushes(flushes(s), straights(o, s))), o[8]),
        holds_value(best_candidate(o, straight_flushes(flushes(s), straights(o, s))), o[12]),
{
    let pf = flushes(s);
    let ps = straights(o, s);
    let fs = straight_flushes(pf, ps);
    let at = lemma_needs_window(o, s, HandCategory::RoyalFlush);
    let royal = at.0;
    let i = lemma_gives_straight_flush(o, s, royal, 9);
    let keys = candidate_keys(o, fs);
    lemma_last_max_exists(keys);
    let k = last_max(keys);
    let best = fs[k];
    assert(best == best_candidate(o, fs));
    // the candidate found holds the strongest rank, so its key is 12
    assert(holds_value(fs[i], bin_value(o, 9int + 4int)));
    let top = choose|t: int| 0 <= t < fs[i].len() && (#[trigger] fs[i][t]).value == o[12];
    lemma_highest(o, fs[i]);
    lemma_position_at(o, 12);
    lemma_position(o, highest(o, fs[i]).value);
    assert(position(o, fs[i][top].value) <= position(o, highest(o, fs[i]).value));
    assert(keys[i] == 12);
    assert(keys[i] <= keys[k]);
    // so the best candidate holds the strongest rank too
    let found = lemma_straight_flushes(pf, ps, pf.len(), k);
    let f = pf[found.0];
    let st = ps[found.1];
    assert(best.len() >= 5);
    lemma_highest(o, best);
    lemma_position(o, highest(o, best).value);
    assert(keys[k] == position(o, highest(o, best).value));
    assert(highest(o, best).value == o[12]);
    let hi = choose|t: int| 0 <= t < best.len() && best[t] == highest(o, best);
    assert(best[hi].value == o[12]);
    // the best candidate is the cards of a straight
    let w = lemma_straights_fit(o, s, 10, found.1);
    lemma_select_holds(f, Pick::Among(st));
    let j = lemma_flushes(s, s.len(), found.0);
    lemma_select_holds(s, Pick::Suit(s[j].suit));
    assert(f.no_duplicates());
    assert forall|t: int| 0 <= t < best.len() implies st.contains(#[trigger] best[t]) by {
        assert(Pick::Among(st).accepts(best[t]));
    }
    lemma_distinct_within(best, st);
    assert forall|q: int| 0 <= q < 5 implies s.contains(#[trigger] st[q]) && st[q].value == bin_value(
        o,
        w + q,
    ) by {
        lemma_select_holds(s, Pick::Value(bin_value(o, w + q)));
        let b = bin(o, s, w + q);
        assert(b.contains(st[q]));
        let m = choose|m: int| 0 <= m < b.len() && b[m] == st[q];
        assert(Pick::Value(bin_value(o, w + q)).accepts(b[m]));
    }
    assert(st.contains(best[hi]));
    let q = choose|q: int| 0 <= q < st.len() && st[q] == best[hi];
    assert(st[q].value == o[bin_place(w + q)]);
    assert(bin_place(w + q) == 12);
    if w == 9 {
        assert(best.contains(st[0]));
        let m = choose|m: int| 0 <= m < best.len() && best[m] == st[0];
        assert(best[m].value == o[8]);
    } else {
        // a wheel beside the royal flush takes nine cards
        assert(w == 0);
        lemma_run_of(o, s, royal, 9);
        let r = run_of(o, royal, 9);
        let low = st.subrange(1, 5);
        assert forall|a: int| 0 <= a < low.len() implies s.contains(#[trigger] low[a]) && low[a].value
            == o[a] by {
            assert(low[a] == st[a + 1]);
            assert(st[a + 1].value == bin_value(o, 0 + (a + 1)));
        }
        assert forall|a: int, b: int| 0 <= a < low.len() && 0 <= b < low.len() && a != b implies low[a]
            != low[b] by {
            assert(low[a].value == o[a] && low[b].value == o[b]);
        }
        assert(drawn_from(low, s));
        assert forall|a: int, b: int| 0 <= a < low.len() && 0 <= b < r.len() implies low[a] != r[b] by {
            assert(low[a].value == o[a]);
            assert(r[b].value == bin_value(o, 9 + b));
            assert(r[b].value == o[8 + b]);
        }
        lemma_parts(s, low, r);
        assert(false);
    }
}

/// The category that the classification reports is the best that cards of
/// the hand make.
///
/// This holds of every ordering and of every hand of two to seven distinct
/// cards but the hands with exactly three cards each of two ranks: there the
/// pair of a full house is looked for among ranks with exactly two cards,
/// and three of a kind is reported.
pub proof fn lemma_classify_is_best(o: Seq<CardValue>, s: Seq<Card>, cat: HandCategory)
    requires
        is_ordering(o),
        valid_hand(s),
        !two_triples(s),
        achievable(o, s, cat),
    ensures
        cat.rank() <= classify(o, s).category.rank(),
{
    let pf = flushes(s);
    let ps = straights(o, s);
    let fs = straight_flushes(pf, ps);
    if needs_flush(cat) && needs_run(cat) {
        let at = lemma_needs_window(o, s, cat);
        let i = lemma_gives_straight_flush(o, s, at.0, at.1);
        if cat == HandCategory::RoyalFlush {
            lemma_royal_is_found(o, s);
        }
    } else if needs_flush(cat) {
        let cards = lemma_needs_suit(o, s, cat);
        let i = lemma_flush_pool(s, cards);
    } else if needs_run(cat) {
        let at = lemma_needs_window(o, s, cat);
        lemma_run_of(o, s, at.0, at.1);
        let i = lemma_straights_hold(o, s, 10, at.1, run_of(o, at.0, at.1));
    } else if fs.len() > 0 {
    } else if pf.len() > 0 || ps.len() > 0 {
        if cat == HandCategory::FourOfAKind || cat == HandCategory::FullHouse {
            let pool = if pf.len() > 0 {
                lemma_flush_candidate_pool(s)
            } else {
                lemma_straight_candidate_pool(o, s)
            };
            let at = lemma_needs_groups(o, s, cat);
            if cat == HandCategory::FourOfAKind {
                lemma_no_four_beside(s, pool, at.0);
            } else {
                lemma_no_full_house_beside(s, pool, at.0, at.1);
            }
        }
    } else {
        lemma_groups_best(o, s, cat);
    }
}

/// Classifier agreement: the category that the evaluator reports by its
/// short way through flushes, straights and groups is the category that an
/// exhaustive search over the cards of the hand finds best. Cards of the
/// hand make the category reported, and no cards of the hand make a better
/// one.
pub proof fn lemma_agrees_with_exhaustive_search(o: Seq<CardValue>, s: Seq<Card>)
    requires
        is_ordering(o),
        valid_hand(s),
        !two_triples(s),
    ensures
        achievable(o, s, classify(o, s).category),
        forall|cat: HandCategory| #[trigger]
            achievable(o, s, cat) ==> cat.rank() <= classify(o, s).category.rank(),
{
    lemma_classify_sound(o, s);
    let h = classify(o, s);
    assert(formed_from(o, (HandView { category: h.category, cards: h.cards }), s));
    assert forall|cat: HandCategory| #[trigger] achievable(o, s, cat) implies cat.rank()
        <= classify(o, s).category.rank() by {
        lemma_classify_is_best(o, s, cat);
    }
}

} // verus!
