use std::cmp::Ordering;

use tinyrasputin::engine::graph::{is_acyclic, reachable};
use tinyrasputin::engine::ordering::{canonical_ordering, is_valid_ordering, position_in};
use tinyrasputin::engine::relations::{
    detect_cycles, generate_ordering, possibilities, resolve_cycles, simplify,
};
use tinyrasputin::engine::showdown::{HandCategory, ShowdownEngine};
use tinyrasputin::skeleton::cards::{Card, CardSuit, CardValue};

/// A small generator of numbers, the same on every run.
struct Numbers(u64);

impl Numbers {
    fn next(&mut self) -> u64 {
        self.0 = self.0.wrapping_mul(6364136223846793005).wrapping_add(1442695040888963407);
        self.0 >> 33
    }

    fn below(&mut self, n: usize) -> usize {
        (self.next() % n as u64) as usize
    }
}

const SUITS: [CardSuit; 4] =
    [CardSuit::Hearts, CardSuit::Diamonds, CardSuit::Spades, CardSuit::Clubs];

fn shuffled(numbers: &mut Numbers) -> [CardValue; 13] {
    let mut order = canonical_ordering();
    for i in (1..13).rev() {
        order.swap(i, numbers.below(i + 1));
    }
    order
}

fn hand_of(numbers: &mut Numbers, few_ranks: bool) -> Vec<Card> {
    let all = canonical_ordering();
    let size = 2 + numbers.below(6);
    let mut hand: Vec<Card> = vec![];
    while hand.len() < size {
        let rank = if few_ranks { numbers.below(6) } else { numbers.below(13) };
        let suit = if few_ranks { numbers.below(4) } else { numbers.below(2) * numbers.below(4) };
        let card = Card::new(SUITS[suit], all[rank]);
        if !hand.contains(&card) {
            hand.push(card);
        }
    }
    hand
}

fn rank_of(category: HandCategory) -> usize {
    category.strength()
}

/// The best category that any cards of the hand make, found by looking at
/// every choice of up to five cards.
fn best_by_search(order: &[CardValue; 13], hand: &[Card]) -> usize {
    let place = |v: CardValue| order.iter().position(|x| *x == v).unwrap();
    let mut best = 0;
    for mask in 1u32..(1 << hand.len()) {
        let cards: Vec<Card> =
            (0..hand.len()).filter(|i| mask & (1 << i) != 0).map(|i| hand[i]).collect();
        if cards.len() > 5 {
            continue;
        }
        let mut counts = [0usize; 13];
        for c in cards.iter() {
            counts[place(c.value())] += 1;
        }
        let groups: Vec<usize> = counts.iter().copied().filter(|n| *n > 0).collect();
        let same_suit = cards.iter().all(|c| c.suit() == cards[0].suit());
        let window_filled = |w: usize| {
            (0..5).all(|k| {
                let bin = w + k;
                let at = if bin == 0 { 12 } else { bin - 1 };
                counts[at] == 1
            })
        };
        let run = cards.len() == 5 && (0..10).any(window_filled);
        let found = match cards.len() {
            1 => 0,
            2 if groups == [2] => 1,
            3 if groups == [3] => 3,
            4 if groups == [4] => 7,
            4 if groups == [2, 2] => 2,
            5 if run && same_suit && window_filled(9) => 9,
            5 if run && same_suit => 8,
            5 if groups.len() == 2 && (groups == [3, 2] || groups == [2, 3]) => 6,
            5 if same_suit => 5,
            5 if run => 4,
            _ => 0,
        };
        if found > best {
            best = found;
        }
    }
    best
}

fn two_triples(hand: &[Card]) -> bool {
    let triples = canonical_ordering()
        .iter()
        .filter(|v| hand.iter().filter(|c| c.value() == **v).count() == 3)
        .count();
    triples >= 2
}

#[test]
fn the_classifier_agrees_with_an_exhaustive_search() {
    let mut numbers = Numbers(2024);
    let mut seen = [0usize; 10];
    for round in 0..3000 {
        let order = shuffled(&mut numbers);
        let engine = ShowdownEngine::try_new(order).unwrap();
        let hand = hand_of(&mut numbers, round % 2 == 0);
        assert!(ShowdownEngine::verify_hand(&hand));
        let found = rank_of(engine.process_hand(&hand).category());
        seen[found] += 1;
        if two_triples(&hand) {
            assert_eq!(found, 3);
            assert_eq!(best_by_search(&order, &hand), 6);
        } else {
            assert_eq!(found, best_by_search(&order, &hand), "{:?} under {:?}", hand, order);
        }
    }
    // the hands drawn reach every category but the rarest
    assert!(seen.iter().filter(|n| **n > 0).count() >= 8);
}

#[test]
fn the_cards_reported_are_cards_of_the_hand() {
    let mut numbers = Numbers(7);
    for round in 0..1000 {
        let order = shuffled(&mut numbers);
        let engine = ShowdownEngine::try_new(order).unwrap();
        let hand = hand_of(&mut numbers, round % 2 == 0);
        for detected in [engine.process_hand(&hand), engine.process_hand_no_straight(&hand)].iter() {
            let cards = detected.cards();
            assert!(!cards.is_empty() && cards.len() <= 5);
            for (i, card) in cards.iter().enumerate() {
                assert!(hand.contains(card));
                assert!(!cards[..i].contains(card));
            }
        }
        assert!(!engine.process_hand_no_straight(&hand).is_straight());
    }
}

#[test]
fn comparison_never_runs_in_a_circle() {
    let mut numbers = Numbers(99);
    let order = shuffled(&mut numbers);
    let engine = ShowdownEngine::try_new(order).unwrap();
    let hands: Vec<_> =
        (0..40).map(|i| engine.process_hand(&hand_of(&mut numbers, i % 2 == 0))).collect();
    for a in hands.iter() {
        for b in hands.iter() {
            for c in hands.iter() {
                let ab = engine.compare_hands(a, b);
                let bc = engine.compare_hands(b, c);
                let ca = engine.compare_hands(c, a);
                assert!(
                    !(ab == Ordering::Greater && bc == Ordering::Greater && ca == Ordering::Greater)
                );
                if ab != Ordering::Greater && bc != Ordering::Greater {
                    assert_ne!(engine.compare_hands(a, c), Ordering::Greater);
                }
            }
        }
    }
}

fn relations_of(numbers: &mut Numbers, count: usize, ranks: usize) -> Vec<(CardValue, CardValue)> {
    let all = canonical_ordering();
    (0..count).map(|_| (all[numbers.below(ranks)], all[numbers.below(ranks)])).collect()
}

#[test]
fn cycles_are_found_exactly_where_there_are_cycles() {
    let mut numbers = Numbers(5);
    for round in 0..300 {
        let edges = relations_of(&mut numbers, 1 + round % 9, 3 + round % 5);
        let cycles = detect_cycles(&edges);
        assert_eq!(cycles.is_empty(), is_acyclic(&edges));
        for cycle in cycles.iter() {
            assert!(cycle.len() >= 2);
            assert_eq!(cycle.first(), cycle.last());
            for pair in cycle.windows(2) {
                assert!(edges.contains(&(pair[0], pair[1])));
            }
        }
    }
}

#[test]
fn resolution_breaks_every_cycle() {
    let mut numbers = Numbers(11);
    for round in 0..300 {
        let edges = relations_of(&mut numbers, 1 + round % 12, 3 + round % 6);
        let resolved = resolve_cycles(&edges, &detect_cycles(&edges));
        assert!(detect_cycles(&resolved).is_empty());
        for edge in resolved.iter() {
            assert!(edges.contains(edge));
        }
        for edge in edges.iter() {
            assert!(
                resolved.contains(edge) || edge.0 == edge.1 || reachable(&resolved, edge.1, edge.0)
            );
        }
    }
}

#[test]
fn orderings_and_counts_follow_relations_without_cycles() {
    let mut numbers = Numbers(3);
    for round in 0..200 {
        let drawn = relations_of(&mut numbers, 1 + round % 12, 13);
        let edges = resolve_cycles(&drawn, &detect_cycles(&drawn));
        let ordering = generate_ordering(&edges);
        assert!(is_valid_ordering(&ordering));
        for (a, b) in edges.iter() {
            assert!(position_in(&ordering, *a) < position_in(&ordering, *b));
        }
        let mut grown: Vec<(CardValue, CardValue)> = vec![];
        let mut last = possibilities(&grown);
        for edge in edges.iter() {
            grown.push(*edge);
            let now = possibilities(&grown);
            assert!(now <= last);
            last = now;
        }
        // what is implied by the rest is not needed to reach the same ranks
        let reduced = simplify(&edges);
        for (a, b) in edges.iter() {
            assert!(reachable(&reduced, *a, *b));
        }
    }
}
