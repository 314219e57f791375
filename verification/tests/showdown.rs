use std::cmp::Ordering;
use tinyrasputin::engine::showdown::{HandCategory, ShowdownEngine, ShowdownHand, ShowdownSet};
use tinyrasputin::skeleton::cards::{Card, CardSuit, CardValue};

fn into_cards(text: &str) -> Vec<Card> {
    text.split(",").map(|x| x.parse::<Card>().unwrap()).collect()
}

fn into_ordering(text: &str) -> [CardValue; 13] {
    let values: Vec<CardValue> = text.split(",").map(|x| x.parse::<CardValue>().unwrap()).collect();
    assert!(values.len() == 13);
    let mut ordering = [CardValue::Two; 13];
    for (i, v) in values.into_iter().enumerate() {
        ordering[i] = v;
    }
    ordering
}

fn standard() -> ShowdownEngine {
    ShowdownEngine::try_new(into_ordering("2,3,4,5,6,7,8,9,T,J,Q,K,A")).unwrap()
}

// Test for engine correctness
#[test]
fn showdown_test() {
    let showdown = standard();

    let tests = [
        // Coherency Test
        ("2c,2h,Ac,Ah", ShowdownHand::TwoPair(into_cards("2c,2h,Ac,Ah"))),
        ("2c,2h,Ac,Ah,As", ShowdownHand::FullHouse(into_cards("2c,2h,Ac,Ah,As"))),
        ("2c,Ac,2h,Ah,As", ShowdownHand::FullHouse(into_cards("As,Ah,Ac,2c,2h"))),
        ("2c,3c,4c,5c,7c", ShowdownHand::Flush(into_cards("2c,3c,4c,5c,7c"))),
        ("Tc,Jc,Kc,Qc,Ac", ShowdownHand::RoyalFlush(into_cards("Tc,Jc,Qc,Kc,Ac"))),
        ("Ac,2c,3c,4c,5c", ShowdownHand::StraightFlush(into_cards("Ac,3c,5c,2c,4c"))),
        ("6c,2c", ShowdownHand::HighCard(into_cards("6c")[0])),
    ];

    for (hand, best) in tests.into_iter() {
        let hand = into_cards(hand);
        let detected = showdown.process_hand(&hand);
        assert_eq!(ShowdownSet(showdown, detected), ShowdownSet(showdown, best.clone()));
    }
}

#[test]
fn royal_flush_cards_come_strongest_first() {
    let showdown = standard();
    let detected = showdown.process_hand(&into_cards("Tc,Jc,Qc,Kc,Ac"));
    assert!(detected.is_royal_flush());
    assert_eq!(detected.cards(), into_cards("Ac,Kc,Qc,Jc,Tc"));
}

#[test]
fn kinds_of_hands() {
    let showdown = standard();
    let flush = showdown.process_hand(&into_cards("2c,3c,4c,5c,7c"));
    assert!(flush.is_flush() && !flush.is_straight() && !flush.is_of_a_kind());
    let wheel = showdown.process_hand(&into_cards("Ac,2c,3c,4c,5c"));
    assert!(wheel.is_flush() && wheel.is_straight() && !wheel.is_royal_flush());
    let pair = showdown.process_hand(&into_cards("9c,9d"));
    assert!(pair.is_of_a_kind() && !pair.is_two_pair() && !pair.is_full_house());
    assert_eq!(pair.kind_count(), Some(2));
    assert_eq!(flush.kind_count(), None);
    let high = showdown.process_hand(&into_cards("6c,2c"));
    assert!(high.is_high_card() && !high.is_of_a_kind());
}

#[test]
fn two_pair_from_four_cards() {
    let showdown = standard();
    let detected = showdown.process_hand(&into_cards("2c,2h,Ac,Ah"));
    assert!(detected.is_two_pair());
    assert_eq!(detected.cards(), into_cards("Ac,Ah,2c,2h"));
}

#[test]
fn full_house_has_the_triple_first() {
    let showdown = standard();
    let detected = showdown.process_hand(&into_cards("2c,Ac,2h,Ah,As"));
    assert!(detected.is_full_house());
    assert_eq!(detected.cards(), into_cards("Ac,Ah,As,2c,2h"));
}

#[test]
fn wheel_wraps_the_strongest_rank_below_the_weakest() {
    let showdown = standard();
    let detected = showdown.process_hand(&into_cards("Ac,2d,3c,4h,5c"));
    assert_eq!(detected.category(), HandCategory::Straight);
    assert_eq!(detected.cards(), into_cards("Ac,5c,4h,3c,2d"));
    let no_wrap = showdown.process_hand(&into_cards("Kc,Ad,2c,3h,4c"));
    assert_eq!(no_wrap.category(), HandCategory::HighCard);
}

#[test]
fn wheel_follows_the_ordering() {
    // Under this ordering the Five is weakest and the Two strongest.
    let showdown =
        ShowdownEngine::try_new(into_ordering("5,6,7,8,9,T,J,Q,K,A,4,3,2")).unwrap();
    let detected = showdown.process_hand(&into_cards("2c,5d,6c,7h,8c"));
    assert_eq!(detected.category(), HandCategory::Straight);
    assert_eq!(detected.cards(), into_cards("2c,8c,7h,6c,5d"));
    let royal = showdown.process_hand(&into_cards("Kh,Ah,4h,3h,2h"));
    assert_eq!(royal.category(), HandCategory::RoyalFlush);
}

#[test]
fn straights_are_ignored_on_request() {
    let showdown = standard();
    let hand = into_cards("2c,3d,4c,5h,6c");
    assert_eq!(showdown.process_hand(&hand).category(), HandCategory::Straight);
    let ignored = showdown.process_hand_no_straight(&hand);
    assert_eq!(ignored.category(), HandCategory::HighCard);
    assert_eq!(ignored.cards(), into_cards("6c"));
    let flush = into_cards("2c,3c,4c,5c,6c,9d");
    assert_eq!(showdown.process_hand(&flush).category(), HandCategory::StraightFlush);
    assert_eq!(showdown.process_hand_no_straight(&flush).category(), HandCategory::Flush);
}

#[test]
fn groups_in_priority_order() {
    let showdown = standard();
    let four = showdown.process_hand_no_straight_flush(&into_cards("9c,9d,9h,9s,Kc,Kd,Kh"));
    assert_eq!(four.category(), HandCategory::FourOfAKind);
    assert_eq!(four.cards(), into_cards("9c,9d,9h,9s"));
    assert_eq!(four.kind_count(), Some(4));
    let three = showdown.process_hand_no_straight_flush(&into_cards("9c,9d,9h,Qs,Kc"));
    assert_eq!(three.category(), HandCategory::ThreeOfAKind);
    assert_eq!(three.kind_count(), Some(3));
    let pair = showdown.process_hand_no_straight_flush(&into_cards("9c,9d,8h,Qs,Kc"));
    assert_eq!(pair.category(), HandCategory::Pair);
    assert_eq!(pair.cards(), into_cards("9c,9d"));
    let three_pairs = showdown.process_hand_no_straight_flush(&into_cards("9c,9d,8h,8s,Kc,Kd,2c"));
    assert_eq!(three_pairs.category(), HandCategory::TwoPair);
    assert_eq!(three_pairs.cards(), into_cards("Kc,Kd,9c,9d"));
}

#[test]
fn two_triples_are_three_of_a_kind() {
    // The pair of a full house must be a rank with exactly two cards.
    let showdown = standard();
    let detected = showdown.process_hand(&into_cards("Ac,Ad,Ah,Kc,Kd,Kh,2s"));
    assert_eq!(detected.category(), HandCategory::ThreeOfAKind);
    assert_eq!(detected.cards(), into_cards("Ac,Ad,Ah"));
}

#[test]
fn highest_card_is_the_last_of_the_strongest_rank() {
    let showdown = standard();
    let hand = into_cards("Kc,Ah,3d,As,2c");
    assert_eq!(showdown.highest_card(&hand), Card::new(CardSuit::Spades, CardValue::Ace));
    let reversed = ShowdownEngine::try_new(into_ordering("A,K,Q,J,T,9,8,7,6,5,4,3,2")).unwrap();
    assert_eq!(reversed.highest_card(&hand), Card::new(CardSuit::Clubs, CardValue::Two));
}

#[test]
fn hands_compare_by_category_then_highest_card() {
    let showdown = standard();
    let pair_low = ShowdownHand::Pair(into_cards("2c,2d"));
    let pair_high = ShowdownHand::Pair(into_cards("Kc,Kd"));
    let high_card = ShowdownHand::HighCard(into_cards("Ac")[0]);
    let flush = ShowdownHand::Flush(into_cards("2c,3c,4c,5c,7c"));
    let full = ShowdownHand::FullHouse(into_cards("2c,2d,2h,3c,3d"));
    assert_eq!(showdown.compare_hands(&pair_low, &pair_high), Ordering::Less);
    assert_eq!(showdown.compare_hands(&pair_high, &pair_low), Ordering::Greater);
    assert_eq!(showdown.compare_hands(&pair_low, &high_card), Ordering::Greater);
    assert_eq!(showdown.compare_hands(&flush, &full), Ordering::Less);
    assert_eq!(showdown.compare_hands(&pair_high, &ShowdownHand::Pair(into_cards("Kh,Ks"))), Ordering::Equal);
    assert_eq!(showdown.hand_score(&pair_low), 1 * 14 + 0 + 1);
    assert_eq!(showdown.hand_score(&full), 6 * 14 + 1 + 1);
    assert!(pair_low.is_same_type(&pair_high));
    assert!(!pair_low.is_same_type(&flush));
}

#[test]
fn comparison_is_transitive_on_samples() {
    let showdown = standard();
    let hands = [
        showdown.process_hand(&into_cards("6c,2c")),
        showdown.process_hand(&into_cards("2c,2h,Ac,Ah")),
        showdown.process_hand(&into_cards("2c,Ac,2h,Ah,As")),
        showdown.process_hand(&into_cards("2c,3c,4c,5c,7c")),
        showdown.process_hand(&into_cards("Tc,Jc,Kc,Qc,Ac")),
        showdown.process_hand(&into_cards("Ac,2c,3c,4c,5c")),
        showdown.process_hand(&into_cards("9c,9d")),
    ];
    for a in hands.iter() {
        for b in hands.iter() {
            for c in hands.iter() {
                let ab = showdown.compare_hands(a, b);
                let bc = showdown.compare_hands(b, c);
                if ab != Ordering::Greater && bc != Ordering::Greater {
                    assert_ne!(showdown.compare_hands(a, c), Ordering::Greater);
                }
                assert_eq!(showdown.compare_hands(b, a), ab.reverse());
            }
        }
    }
}

#[test]
fn sets_of_different_orderings_are_unordered() {
    let showdown = standard();
    let other = ShowdownEngine::try_new(into_ordering("A,K,Q,J,T,9,8,7,6,5,4,3,2")).unwrap();
    let hand = ShowdownHand::Pair(into_cards("2c,2d"));
    assert!(ShowdownSet(showdown, hand.clone()) != ShowdownSet(other, hand.clone()));
    assert_eq!(ShowdownSet(showdown, hand.clone()).partial_cmp(&ShowdownSet(other, hand.clone())), None);
    assert!(ShowdownSet(showdown, hand.clone()) < ShowdownSet(showdown, ShowdownHand::Pair(into_cards("3c,3d"))));
}

#[test]
fn orderings_must_hold_every_rank() {
    assert!(ShowdownEngine::try_new([CardValue::Two; 13]).is_none());
    assert!(ShowdownEngine::try_new(into_ordering("2,3,4,5,6,7,8,9,T,J,Q,K,K")).is_none());
    let engine = standard();
    assert_eq!(engine.ranks(), into_ordering("2,3,4,5,6,7,8,9,T,J,Q,K,A"));
    assert_eq!(engine.place(CardValue::Ten), 8);
}

#[test]
fn hands_are_verified() {
    assert!(!ShowdownEngine::verify_hand(&into_cards("2c")));
    assert!(ShowdownEngine::verify_hand(&into_cards("2c,3c")));
    assert!(ShowdownEngine::verify_hand(&into_cards("2c,3c,4c,5c,6c,7c,8c")));
    assert!(!ShowdownEngine::verify_hand(&into_cards("2c,3c,4c,5c,6c,7c,8c,9c")));
    assert!(!ShowdownEngine::verify_hand(&into_cards("2c,3c,2c")));
}
