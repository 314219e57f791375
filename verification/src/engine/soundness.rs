//! What the classification promises: the cards that it reports are cards of
//! the hand, and they have the form of the category that it reports.

use crate::engine::classify::{
    appended, best_kind_value, bin, bin_value, classify, classify_groups, classify_no_straight,
    extend, flushes, flushes_upto, has_kind, hand_strength, holds_value, is_best_kind_value,
    is_kind_value, score, straight_flush_row, straight_flushes, straight_flushes_upto, straights,
    straights_upto, valid_hand, window_straights,
};
use crate::engine::ordering::{is_ordering, lemma_position, lemma_position_at, position};
use crate::engine::selection::{
    best_candidate, candidate_keys, highest, highest_index, is_last_max, last_max,
    lemma_select_holds, select, strengths, top_cards, Pick,
};
use crate::engine::showdown::{HandCategory, HandView};
use crate::skeleton::cards::{Card, CardValue};
use vstd::prelude::*;
use vstd::seq_lib::seq_to_set_is_finite;
use vstd::set_lib::{lemma_len_subset, lemma_subset_equality};

verus! {

/// The cards are distinct cards of the hand `s`.
pub open spec fn drawn_from(cards: Seq<Card>, s: Seq<Card>) -> bool {
    cards.no_duplicates() && forall|k: int| 0 <= k < cards.len() ==> s.contains(#[trigger] cards[k])
}

/// All the cards have one rank.
pub open spec fn same_value(cards: Seq<Card>) -> bool {
    forall|i: int, j: int|
        0 <= i < cards.len() && 0 <= j < cards.len() ==> (#[trigger] cards[i]).value == (
        #[trigger] cards[j]).value
}

/// All the cards have one suit.
pub open spec fn same_suit(cards: Seq<Card>) -> bool {
    forall|i: int, j: int|
        0 <= i < cards.len() && 0 <= j < cards.len() ==> (#[trigger] cards[i]).suit == (
        #[trigger] cards[j]).suit
}

/// The cards hold the rank of each of the five bins from bin `w` on.
pub open spec fn fills_window(o: Seq<CardValue>, cards: Seq<Card>, w: int) -> bool {
    forall|k: int| 0 <= k < 5 ==> holds_value(cards, #[trigger] bin_value(o, w + k))
}

/// Five cards that fill one of the ten windows of five neighbouring bins.
pub open spec fn is_run(o: Seq<CardValue>, cards: Seq<Card>) -> bool {
    cards.len() == 5 && exists|w: int| 0 <= w < 10 && #[trigger] fills_window(o, cards, w)
}

/// The cards have the form of the category.
pub open spec fn has_shape(o: Seq<CardValue>, h: HandView) -> bool {
    match h.category {
        HandCategory::RoyalFlush => h.cards.len() == 5 && same_suit(h.cards) && fills_window(
            o,
            h.cards,
            9,
        ),
        HandCategory::StraightFlush => is_run(o, h.cards) && same_suit(h.cards),
        HandCategory::FourOfAKind => h.cards.len() == 4 && same_value(h.cards),
        HandCategory::FullHouse => h.cards.len() == 5 && same_value(h.cards.take(3)) && same_value(
            h.cards.skip(3),
        ) && h.cards[0].value != h.cards[3].value,
        HandCategory::Flush => h.cards.len() == 5 && same_suit(h.cards),
        HandCategory::Straight => is_run(o, h.cards),
        HandCategory::ThreeOfAKind => h.cards.len() == 3 && same_value(h.cards),
        HandCategory::TwoPair => h.cards.len() == 4 && same_value(h.cards.take(2)) && same_value(
            h.cards.skip(2),
        ) && h.cards[0].value != h.cards[2].value,
        HandCategory::Pair => h.cards.len() == 2 && same_value(h.cards),
        HandCategory::HighCard => h.cards.len() == 1,
    }
}

/// The classified hand is made of distinct cards of `s` that have the form
/// of its category.
pub open spec fn formed_from(o: Seq<CardValue>, h: HandView, s: Seq<Card>) -> bool {
    drawn_from(h.cards, s) && has_shape(o, h)
}

/// Keys that are not empty have a last index that holds the greatest.
pub proof fn lemma_last_max_exists(keys: Seq<int>)
    requires
        keys.len() > 0,
    ensures
        is_last_max(keys, last_max(keys)),
    decreases keys.len(),
{
    if keys.len() == 1 {
        assert(is_last_max(keys, 0));
    } else {
        let d = keys.drop_last();
        lemma_last_max_exists(d);
        let m = last_max(d);
        let end = keys.len() - 1;
        assert forall|j: int| 0 <= j < d.len() implies #[trigger] keys[j] <= d[m] by {
            assert(d[j] <= d[m]);
        }
        assert forall|j: int| m < j < d.len() implies #[trigger] keys[j] < d[m] by {
            assert(d[j] < d[m]);
        }
        assert(keys[m] == d[m]);
        if keys[end] >= d[m] {
            assert(is_last_max(keys, end));
        } else {
            assert(is_last_max(keys, m));
        }
    }
}

/// The strongest card of cards that are not empty is one of them, and no
/// card is stronger.
pub proof fn lemma_highest(o: Seq<CardValue>, s: Seq<Card>)
    requires
        s.len() > 0,
    ensures
        0 <= highest_index(o, s) < s.len(),
        s.contains(highest(o, s)),
        forall|i: int|
            0 <= i < s.len() ==> position(o, (#[trigger] s[i]).value) <= position(
                o,
                highest(o, s).value,
            ),
{
    lemma_last_max_exists(strengths(o, s));
    let k = highest_index(o, s);
    assert(s[k] == highest(o, s));
    assert forall|i: int| 0 <= i < s.len() implies position(o, (#[trigger] s[i]).value) <= position(
        o,
        highest(o, s).value,
    ) by {
        assert(strengths(o, s)[i] <= strengths(o, s)[k]);
    }
}

/// The best candidate is one of the candidates.
pub proof fn lemma_best_candidate(o: Seq<CardValue>, cands: Seq<Seq<Card>>) -> (k: int)
    requires
        cands.len() > 0,
    ensures
        0 <= k < cands.len(),
        best_candidate(o, cands) == cands[k],
{
    lemma_last_max_exists(candidate_keys(o, cands));
    last_max(candidate_keys(o, cands))
}

/// The strongest cards of a hand are cards of the hand, as many as were
/// asked for or as the hand holds; they are distinct where the hand's cards
/// are, and they are all the hand's cards where that many were asked for.
pub proof fn lemma_top_cards(o: Seq<CardValue>, s: Seq<Card>, n: nat)
    ensures
        top_cards(o, s, n).len() == if n <= s.len() {
            n
        } else {
            s.len()
        },
        forall|k: int| 0 <= k < top_cards(o, s, n).len() ==> s.contains(#[trigger] top_cards(o, s, n)[k]),
        s.no_duplicates() ==> top_cards(o, s, n).no_duplicates(),
        n >= s.len() ==> forall|i: int| 0 <= i < s.len() ==> top_cards(o, s, n).contains(#[trigger] s[i]),
    decreases n,
{
    let top = top_cards(o, s, n);
    if n > 0 && s.len() > 0 {
        lemma_highest(o, s);
        let k = highest_index(o, s);
        let r = s.remove(k);
        let rest = top_cards(o, r, (n - 1) as nat);
        lemma_top_cards(o, r, (n - 1) as nat);
        assert(top == seq![s[k]] + rest);
        assert forall|j: int| 0 <= j < top.len() implies s.contains(#[trigger] top[j]) by {
            if j > 0 {
                assert(top[j] == rest[j - 1]);
                assert(r.contains(rest[j - 1]));
                let m = choose|m: int| 0 <= m < r.len() && r[m] == rest[j - 1];
                if m < k {
                    assert(s[m] == r[m]);
                } else {
                    assert(s[m + 1] == r[m]);
                }
            }
        }
        if s.no_duplicates() {
            assert(r.no_duplicates()) by {
                assert forall|a: int, b: int|
                    0 <= a < r.len() && 0 <= b < r.len() && a != b implies r[a] != r[b] by {
                    let a2 = if a < k {
                        a
                    } else {
                        a + 1
                    };
                    let b2 = if b < k {
                        b
                    } else {
                        b + 1
                    };
                    assert(r[a] == s[a2] && r[b] == s[b2]);
                }
            }
            assert forall|a: int, b: int|
                0 <= a < top.len() && 0 <= b < top.len() && a != b implies top[a] != top[b] by {
                if a > 0 && b > 0 {
                    assert(rest[a - 1] != rest[b - 1]);
                } else {
                    let j = if a > 0 {
                        a
                    } else {
                        b
                    };
                    assert(top[j] == rest[j - 1]);
                    assert(r.contains(rest[j - 1]));
                    let m = choose|m: int| 0 <= m < r.len() && r[m] == rest[j - 1];
                    let m2 = if m < k {
                        m
                    } else {
                        m + 1
                    };
                    assert(r[m] == s[m2]);
                }
            }
        }
        if n >= s.len() {
            assert forall|i: int| 0 <= i < s.len() implies top.contains(#[trigger] s[i]) by {
                if i == k {
                    assert(top[0] == s[k]);
                } else {
                    let m = if i < k {
                        i
                    } else {
                        i - 1
                    };
                    assert(r[m] == s[i]);
                    assert(rest.contains(r[m]));
                    let j = choose|j: int| 0 <= j < rest.len() && rest[j] == s[i];
                    assert(top[j + 1] == s[i]);
                }
            }
        }
    }
}

/// Distinct cards that all occur among given cards are no more than those;
/// where they are as many, each of the given cards is one of them.
pub proof fn lemma_distinct_within(a: Seq<Card>, b: Seq<Card>)
    requires
        a.no_duplicates(),
        forall|i: int| 0 <= i < a.len() ==> b.contains(#[trigger] a[i]),
    ensures
        a.len() <= b.len(),
        a.len() == b.len() ==> forall|j: int| 0 <= j < b.len() ==> a.contains(#[trigger] b[j]),
{
    a.unique_seq_to_set();
    b.lemma_cardinality_of_set();
    seq_to_set_is_finite(a);
    seq_to_set_is_finite(b);
    assert(a.to_set().subset_of(b.to_set())) by {
        assert forall|c: Card| a.to_set().contains(c) implies b.to_set().contains(c) by {
            let i = choose|i: int| 0 <= i < a.len() && a[i] == c;
            assert(b.contains(a[i]));
        }
    }
    lemma_len_subset(a.to_set(), b.to_set());
    if a.len() == b.len() {
        lemma_subset_equality(a.to_set(), b.to_set());
        assert forall|j: int| 0 <= j < b.len() implies a.contains(#[trigger] b[j]) by {
            assert(b.contains(b[j]));
            assert(b.to_set().contains(b[j]));
            assert(a.to_set().contains(b[j]));
        }
    }
}

/// Every flush candidate is the cards of one suit of the hand, five or more.
pub proof fn lemma_flushes(s: Seq<Card>, n: nat, i: int) -> (j: int)
    requires
        n <= s.len(),
        0 <= i < flushes_upto(s, n).len(),
    ensures
        0 <= j < n,
        flushes_upto(s, n)[i] == select(s, Pick::Suit(s[j].suit)),
        flushes_upto(s, n)[i].len() >= 5,
    decreases n,
{
    let before = flushes_upto(s, (n - 1) as nat);
    if i < before.len() {
        lemma_flushes(s, (n - 1) as nat, i)
    } else {
        n - 1
    }
}

/// The card sequence `c` takes its card at `k`, for each `k` below `m`,
/// from bin `w + k`.
pub open spec fn fits(o: Seq<CardValue>, s: Seq<Card>, w: int, c: Seq<Card>, m: int) -> bool {
    c.len() == m && forall|k: int| 0 <= k < m ==> bin(o, s, w + k).contains(#[trigger] c[k])
}

/// Prefixes that fit stay fitting when a card of the next bin follows.
proof fn lemma_extend_fits(
    o: Seq<CardValue>,
    s: Seq<Card>,
    w: int,
    prefixes: Seq<Seq<Card>>,
    m: int,
    i: int,
)
    requires
        0 <= m,
        forall|j: int| 0 <= j < prefixes.len() ==> fits(o, s, w, #[trigger] prefixes[j], m),
        0 <= i < extend(prefixes, bin(o, s, w + m)).len(),
    ensures
        fits(o, s, w, extend(prefixes, bin(o, s, w + m))[i], m + 1),
    decreases prefixes.len(),
{
    let cards = bin(o, s, w + m);
    let d = prefixes.drop_last();
    let before = extend(d, cards);
    if i < before.len() {
        assert forall|j: int| 0 <= j < d.len() implies fits(o, s, w, #[trigger] d[j], m) by {
            assert(d[j] == prefixes[j]);
        }
        lemma_extend_fits(o, s, w, d, m, i);
    } else {
        let j = i - before.len();
        let p = prefixes.last();
        let c = extend(prefixes, cards)[i];
        assert(c == appended(p, cards, cards.len() as int)[j]);
        assert(c == p.push(cards[j]));
        assert(fits(o, s, w, prefixes[prefixes.len() - 1], m));
        assert forall|k: int| 0 <= k < m + 1 implies bin(o, s, w + k).contains(#[trigger] c[k]) by {
            if k < m {
                assert(c[k] == p[k]);
            } else {
                assert(cards[j] == c[k]);
            }
        }
    }
}

/// Every straight candidate of a window takes one card from each of the
/// window's five bins.
pub proof fn lemma_window_fits(o: Seq<CardValue>, s: Seq<Card>, w: int, i: int)
    requires
        0 <= i < window_straights(o, s, w).len(),
    ensures
        fits(o, s, w, window_straights(o, s, w)[i], 5),
{
    let c0 = seq![Seq::<Card>::empty()];
    let c1 = extend(c0, bin(o, s, w));
    let c2 = extend(c1, bin(o, s, w + 1));
    let c3 = extend(c2, bin(o, s, w + 2));
    let c4 = extend(c3, bin(o, s, w + 3));
    assert forall|j: int| 0 <= j < c1.len() implies fits(o, s, w, #[trigger] c1[j], 1) by {
        lemma_extend_fits(o, s, w, c0, 0, j);
    }
    assert forall|j: int| 0 <= j < c2.len() implies fits(o, s, w, #[trigger] c2[j], 2) by {
        lemma_extend_fits(o, s, w, c1, 1, j);
    }
    assert forall|j: int| 0 <= j < c3.len() implies fits(o, s, w, #[trigger] c3[j], 3) by {
        lemma_extend_fits(o, s, w, c2, 2, j);
    }
    assert forall|j: int| 0 <= j < c4.len() implies fits(o, s, w, #[trigger] c4[j], 4) by {
        lemma_extend_fits(o, s, w, c3, 3, j);
    }
    lemma_extend_fits(o, s, w, c4, 4, i);
}

/// Every straight candidate takes one card from each of the five bins of
/// some window.
pub proof fn lemma_straights_fit(o: Seq<CardValue>, s: Seq<Card>, n: nat, i: int) -> (w: int)
    requires
        0 <= i < straights_upto(o, s, n).len(),
    ensures
        0 <= w < n,
        fits(o, s, w, straights_upto(o, s, n)[i], 5),
    decreases n,
{
    let before = straights_upto(o, s, (n - 1) as nat);
    if i < before.len() {
        lemma_straights_fit(o, s, (n - 1) as nat, i)
    } else {
        lemma_window_fits(o, s, n - 1, i - before.len());
        n - 1
    }
}

/// Every straight-flush candidate of a flush is what the flush shares with
/// one of the straights, five cards or more.
pub proof fn lemma_straight_flush_row(f: Seq<Card>, ps: Seq<Seq<Card>>, n: nat, i: int) -> (j: int)
    requires
        n <= ps.len(),
        0 <= i < straight_flush_row(f, ps, n).len(),
    ensures
        0 <= j < n,
        straight_flush_row(f, ps, n)[i] == select(f, Pick::Among(ps[j])),
        straight_flush_row(f, ps, n)[i].len() >= 5,
    decreases n,
{
    let before = straight_flush_row(f, ps, (n - 1) as nat);
    if i < before.len() {
        lemma_straight_flush_row(f, ps, (n - 1) as nat, i)
    } else {
        n - 1
    }
}

/// Every straight-flush candidate is what one of the flushes shares with
/// one of the straights, five cards or more.
pub proof fn lemma_straight_flushes(pf: Seq<Seq<Card>>, ps: Seq<Seq<Card>>, m: nat, i: int) -> (at: (
    int,
    int,
))
    requires
        m <= pf.len(),
        0 <= i < straight_flushes_upto(pf, ps, m).len(),
    ensures
        0 <= at.0 < m,
        0 <= at.1 < ps.len(),
        straight_flushes_upto(pf, ps, m)[i] == select(pf[at.0], Pick::Among(ps[at.1])),
        straight_flushes_upto(pf, ps, m)[i].len() >= 5,
    decreases m,
{
    let before = straight_flushes_upto(pf, ps, (m - 1) as nat);
    if i < before.len() {
        lemma_straight_flushes(pf, ps, (m - 1) as nat, i)
    } else {
        let j = lemma_straight_flush_row(pf[m - 1], ps, ps.len(), i - before.len());
        (m - 1, j)
    }
}

/// The place in the ordering of the rank that fills a bin.
pub open spec fn bin_place(b: int) -> int {
    if b == 0 {
        12
    } else {
        b - 1
    }
}

/// The five strongest cards of five cards that fit a window fill the
/// window, and they are distinct cards of the hand.
proof fn lemma_run_shape(o: Seq<CardValue>, s: Seq<Card>, w: int, c: Seq<Card>)
    requires
        is_ordering(o),
        s.no_duplicates(),
        0 <= w < 10,
        fits(o, s, w, c, 5),
    ensures
        c.no_duplicates(),
        forall|k: int| 0 <= k < 5 ==> s.contains(#[trigger] c[k]) && c[k].value == bin_value(o, w + k),
        drawn_from(top_cards(o, c, 5), s),
        top_cards(o, c, 5).len() == 5,
        fills_window(o, top_cards(o, c, 5), w),
{
    assert forall|k: int| 0 <= k < 5 implies s.contains(#[trigger] c[k]) && c[k].value == bin_value(
        o,
        w + k,
    ) by {
        lemma_select_holds(s, Pick::Value(bin_value(o, w + k)));
        let b = bin(o, s, w + k);
        assert(b.contains(c[k]));
        let j = choose|j: int| 0 <= j < b.len() && b[j] == c[k];
        assert(Pick::Value(bin_value(o, w + k)).accepts(b[j]));
    }
    assert forall|a: int, b: int| 0 <= a < 5 && 0 <= b < 5 && a != b implies c[a] != c[b] by {
        assert(c[a].value == o[bin_place(w + a)]);
        assert(c[b].value == o[bin_place(w + b)]);
        assert(bin_place(w + a) != bin_place(w + b));
    }
    lemma_top_cards(o, c, 5);
    let top = top_cards(o, c, 5);
    assert forall|k: int| 0 <= k < top.len() implies s.contains(#[trigger] top[k]) by {
        assert(c.contains(top[k]));
        let j = choose|j: int| 0 <= j < c.len() && c[j] == top[k];
        assert(s.contains(c[j]));
    }
    assert forall|k: int| 0 <= k < 5 implies holds_value(top, #[trigger] bin_value(o, w + k)) by {
        assert(top.contains(c[k]));
        let j = choose|j: int| 0 <= j < top.len() && top[j] == c[k];
        assert(top[j].value == bin_value(o, w + k));
    }
}

/// What the classification by groups reports is made of distinct cards of
/// the hand in the form of the category reported.
pub proof fn lemma_classify_groups_sound(o: Seq<CardValue>, s: Seq<Card>)
    requires
        is_ordering(o),
        s.len() > 0,
        s.no_duplicates(),
    ensures
        formed_from(o, classify_groups(o, s), s),
{
    let h = classify_groups(o, s);
    if has_kind(s, 4) {
        let v = choose|v: CardValue| is_kind_value(s, 4, v);
        lemma_kind_group(o, s, 4);
    } else if has_kind(s, 3) {
        lemma_kind_group(o, s, 3);
        let v = best_kind_value(o, s, 3);
        let triple = select(s, Pick::Value(v));
        let rest = select(s, Pick::NotValue(v));
        lemma_select_holds(s, Pick::NotValue(v));
        if has_kind(rest, 2) {
            lemma_kind_group(o, rest, 2);
            let pair = select(rest, Pick::Value(best_kind_value(o, rest, 2)));
            lemma_pair_beside(s, v, triple, rest, pair);
        }
    } else if has_kind(s, 2) {
        lemma_kind_group(o, s, 2);
        let v = best_kind_value(o, s, 2);
        let first = select(s, Pick::Value(v));
        let rest = select(s, Pick::NotValue(v));
        lemma_select_holds(s, Pick::NotValue(v));
        if has_kind(rest, 2) {
            lemma_kind_group(o, rest, 2);
            let second = select(rest, Pick::Value(best_kind_value(o, rest, 2)));
            lemma_pair_beside(s, v, first, rest, second);
        }
    } else {
        lemma_highest(o, s);
        let c = highest(o, s);
        assert(seq![c][0] == c);
    }
}

/// The group of the strongest rank with exactly `n` cards holds `n`
/// distinct cards of the hand, all of that rank.
proof fn lemma_kind_group(o: Seq<CardValue>, s: Seq<Card>, n: int)
    requires
        is_ordering(o),
        s.no_duplicates(),
        has_kind(s, n),
    ensures
        is_best_kind_value(o, s, n, best_kind_value(o, s, n)),
        select(s, Pick::Value(best_kind_value(o, s, n))).len() == n,
        drawn_from(select(s, Pick::Value(best_kind_value(o, s, n))), s),
        same_value(select(s, Pick::Value(best_kind_value(o, s, n)))),
        forall|k: int|
            0 <= k < n ==> (#[trigger] select(s, Pick::Value(best_kind_value(o, s, n)))[k]).value
                == best_kind_value(o, s, n),
{
    lemma_best_kind_exists(o, s, n);
    let v = best_kind_value(o, s, n);
    lemma_select_holds(s, Pick::Value(v));
    let g = select(s, Pick::Value(v));
    assert forall|k: int| 0 <= k < n implies (#[trigger] g[k]).value == v by {
        assert(Pick::Value(v).accepts(g[k]));
    }
}

/// Where some rank has exactly `n` cards, one of those ranks is strongest.
pub proof fn lemma_best_kind_exists(o: Seq<CardValue>, s: Seq<Card>, n: int)
    requires
        is_ordering(o),
        has_kind(s, n),
    ensures
        is_best_kind_value(o, s, n, best_kind_value(o, s, n)),
{
    let v0 = choose|v: CardValue| is_kind_value(s, n, v);
    lemma_position(o, v0);
    assert forall|w: CardValue| is_kind_value(s, n, w) implies position(o, w) < 13 by {
        lemma_position(o, w);
    }
    let v = lemma_best_kind_from(o, s, n, 13, v0);
    assert(is_best_kind_value(o, s, n, v));
}

/// Among the ranks at places below `p` that have exactly `n` cards, one is
/// strongest.
proof fn lemma_best_kind_from(o: Seq<CardValue>, s: Seq<Card>, n: int, p: int, v0: CardValue) -> (v: CardValue)
    requires
        is_ordering(o),
        0 <= p <= 13,
        is_kind_value(s, n, v0),
        position(o, v0) < p,
        forall|w: CardValue| is_kind_value(s, n, w) ==> position(o, w) < p,
    ensures
        is_best_kind_value(o, s, n, v),
    decreases p,
{
    lemma_position(o, v0);
    let top = o[p - 1];
    if is_kind_value(s, n, top) {
        assert forall|w: CardValue| is_kind_value(s, n, w) implies position(o, w) <= position(
            o,
            top,
        ) by {
            lemma_position(o, top);
            lemma_position_at(o, p - 1);
        }
        top
    } else {
        assert forall|w: CardValue| is_kind_value(s, n, w) implies position(o, w) < p - 1 by {
            lemma_position(o, w);
            if position(o, w) == p - 1 {
                assert(o[p - 1] == w);
            }
        }
        lemma_best_kind_from(o, s, n, p - 1, v0)
    }
}

/// A group of one rank followed by a pair found among the other cards: the
/// cards are distinct cards of the hand, and the ranks of the two groups
/// differ.
proof fn lemma_pair_beside(s: Seq<Card>, v: CardValue, group: Seq<Card>, rest: Seq<Card>, pair: Seq<Card>)
    requires
        s.no_duplicates(),
        group == select(s, Pick::Value(v)),
        rest == select(s, Pick::NotValue(v)),
        group.len() >= 2,
        pair.len() == 2,
        drawn_from(pair, rest),
        same_value(pair),
    ensures
        drawn_from(group + pair, s),
        (group + pair).take(group.len() as int) == group,
        (group + pair).skip(group.len() as int) == pair,
        (group + pair)[0].value != (group + pair)[group.len() as int].value,
{
    let all = group + pair;
    lemma_select_holds(s, Pick::Value(v));
    lemma_select_holds(s, Pick::NotValue(v));
    assert(all.take(group.len() as int) =~= group);
    assert(all.skip(group.len() as int) =~= pair);
    assert forall|k: int| 0 <= k < pair.len() implies s.contains(#[trigger] pair[k]) && pair[k].value
        != v by {
        assert(rest.contains(pair[k]));
        let j = choose|j: int| 0 <= j < rest.len() && rest[j] == pair[k];
        assert(Pick::NotValue(v).accepts(rest[j]));
        assert(s.contains(rest[j]));
    }
    assert forall|k: int| 0 <= k < group.len() implies (#[trigger] group[k]).value == v by {
        assert(Pick::Value(v).accepts(group[k]));
    }
    assert forall|k: int| 0 <= k < all.len() implies s.contains(#[trigger] all[k]) by {
        if k < group.len() {
            assert(all[k] == group[k]);
        } else {
            assert(all[k] == pair[k - group.len()]);
        }
    }
    assert forall|a: int, b: int| 0 <= a < all.len() && 0 <= b < all.len() && a != b implies all[a]
        != all[b] by {
        if a < group.len() && b < group.len() {
            assert(group[a] != group[b]);
        } else if a >= group.len() && b >= group.len() {
            assert(pair[a - group.len()] != pair[b - group.len()]);
        } else if a < group.len() {
            assert(group[a].value == v);
            assert(pair[b - group.len()].value != v);
        } else {
            assert(group[b].value == v);
            assert(pair[a - group.len()].value != v);
        }
    }
    assert(all[0] == group[0]);
    assert(all[group.len() as int] == pair[0]);
}

/// The five strongest cards of a flush candidate are five distinct cards of
/// the hand in one suit.
proof fn lemma_flush_shape(o: Seq<CardValue>, s: Seq<Card>)
    requires
        s.no_duplicates(),
        flushes(s).len() > 0,
    ensures
        drawn_from(top_cards(o, best_candidate(o, flushes(s)), 5), s),
        top_cards(o, best_candidate(o, flushes(s)), 5).len() == 5,
        same_suit(top_cards(o, best_candidate(o, flushes(s)), 5)),
{
    let pf = flushes(s);
    let k = lemma_best_candidate(o, pf);
    let j = lemma_flushes(s, s.len(), k);
    let suit = s[j].suit;
    let f = pf[k];
    lemma_select_holds(s, Pick::Suit(suit));
    lemma_top_cards(o, f, 5);
    let top = top_cards(o, f, 5);
    assert forall|i: int| 0 <= i < top.len() implies s.contains(#[trigger] top[i]) && top[i].suit
        == suit by {
        assert(f.contains(top[i]));
        let m = choose|m: int| 0 <= m < f.len() && f[m] == top[i];
        assert(Pick::Suit(suit).accepts(f[m]));
        assert(s.contains(f[m]));
    }
}

/// What the classification that ignores straights reports is made of
/// distinct cards of the hand in the form of the category reported.
pub proof fn lemma_classify_no_straight_sound(o: Seq<CardValue>, s: Seq<Card>)
    requires
        is_ordering(o),
        valid_hand(s),
    ensures
        formed_from(o, classify_no_straight(o, s), s),
{
    if flushes(s).len() > 0 {
        lemma_flush_shape(o, s);
    } else {
        lemma_classify_groups_sound(o, s);
    }
}

/// Soundness of the classification: whatever the ordering and the hand, the
/// cards reported are distinct cards of the hand, and they have the form of
/// the category reported. No category is reported that the cards of the
/// hand cannot make.
pub proof fn lemma_classify_sound(o: Seq<CardValue>, s: Seq<Card>)
    requires
        is_ordering(o),
        valid_hand(s),
    ensures
        formed_from(o, classify(o, s), s),
{
    let pf = flushes(s);
    let ps = straights(o, s);
    let fs = straight_flushes(pf, ps);
    if fs.len() > 0 {
        let k = lemma_best_candidate(o, fs);
        let best = fs[k];
        let at = lemma_straight_flushes(pf, ps, pf.len(), k);
        let f = pf[at.0];
        let st = ps[at.1];
        let j = lemma_flushes(s, s.len(), at.0);
        let suit = s[j].suit;
        let w = lemma_straights_fit(o, s, 10, at.1);
        lemma_run_shape(o, s, w, st);
        lemma_select_holds(s, Pick::Suit(suit));
        lemma_select_holds(f, Pick::Among(st));
        assert forall|i: int| 0 <= i < best.len() implies st.contains(#[trigger] best[i]) && s.contains(
            best[i],
        ) && best[i].suit == suit by {
            assert(Pick::Among(st).accepts(best[i]));
            assert(f.contains(best[i]));
            let m = choose|m: int| 0 <= m < f.len() && f[m] == best[i];
            assert(Pick::Suit(suit).accepts(f[m]));
            assert(s.contains(f[m]));
        }
        lemma_distinct_within(best, st);
        lemma_top_cards(o, best, 5);
        let top = top_cards(o, best, 5);
        assert forall|i: int| 0 <= i < top.len() implies s.contains(#[trigger] top[i]) && top[i].suit
            == suit by {
            assert(best.contains(top[i]));
            let m = choose|m: int| 0 <= m < best.len() && best[m] == top[i];
            assert(s.contains(best[m]));
        }
        assert(fills_window(o, top, w)) by {
            assert forall|q: int| 0 <= q < 5 implies holds_value(top, #[trigger] bin_value(o, w + q)) by {
                assert(best.contains(st[q]));
                let m = choose|m: int| 0 <= m < best.len() && best[m] == st[q];
                assert(top.contains(best[m]));
                let t = choose|t: int| 0 <= t < top.len() && top[t] == st[q];
                assert(top[t].value == bin_value(o, w + q));
            }
        }
        if holds_value(best, o[8]) && holds_value(best, o[12]) {
            let a = choose|a: int| 0 <= a < best.len() && (#[trigger] best[a]).value == o[8];
            let b = choose|b: int| 0 <= b < best.len() && (#[trigger] best[b]).value == o[12];
            assert(st.contains(best[a]));
            assert(st.contains(best[b]));
            let ka = choose|ka: int| 0 <= ka < st.len() && st[ka] == best[a];
            let kb = choose|kb: int| 0 <= kb < st.len() && st[kb] == best[b];
            assert(st[ka].value == o[bin_place(w + ka)]);
            assert(st[kb].value == o[bin_place(w + kb)]);
            assert(bin_place(w + ka) == 8);
            assert(bin_place(w + kb) == 12);
            assert(w == 9);
        }
    } else if pf.len() > 0 {
        lemma_flush_shape(o, s);
    } else if ps.len() > 0 {
        let k = lemma_best_candidate(o, ps);
        let w = lemma_straights_fit(o, s, 10, k);
        lemma_run_shape(o, s, w, ps[k]);
    } else {
        lemma_classify_groups_sound(o, s);
    }
}

/// Comparison is a total preorder: any two hands are comparable, a hand
/// ties with itself, and what is no stronger than a hand that is no
/// stronger than a third is no stronger than the third. So no three hands
/// beat each other in a circle.
pub proof fn lemma_compare_total_preorder(o: Seq<CardValue>, a: HandView, b: HandView, c: HandView)
    ensures
        score(o, a) <= score(o, b) || score(o, b) <= score(o, a),
        score(o, a) <= score(o, a),
        score(o, a) <= score(o, b) && score(o, b) <= score(o, c) ==> score(o, a) <= score(o, c),
        !(score(o, a) > score(o, b) && score(o, b) > score(o, c) && score(o, c) > score(o, a)),
{
}

/// Hands compare by category first, and within a category by the strength
/// of the strongest card alone.
pub proof fn lemma_compare_by_category(o: Seq<CardValue>, a: HandView, b: HandView)
    requires
        is_ordering(o),
    ensures
        a.category.rank() < b.category.rank() ==> score(o, a) < score(o, b),
        a.category == b.category ==> (score(o, a) < score(o, b) <==> hand_strength(o, a.cards)
            < hand_strength(o, b.cards)),
        a.category == b.category ==> (score(o, a) == score(o, b) <==> hand_strength(o, a.cards)
            == hand_strength(o, b.cards)),
{
    lemma_strength_range(o, a.cards);
    lemma_strength_range(o, b.cards);
}

/// The strength of a hand lies between -1 and 12.
pub proof fn lemma_strength_range(o: Seq<CardValue>, cards: Seq<Card>)
    requires
        is_ordering(o),
    ensures
        -1 <= hand_strength(o, cards) <= 12,
{
    if cards.len() > 0 {
        lemma_position(o, highest(o, cards).value);
    }
}

} // verus!
