use tinyrasputin::engine::evidence::{
    can_judge, derive_claims, with_board, Claim, Rule, GROUP_CERTAINTY, HIGH_CARD_CERTAINTY,
};
use tinyrasputin::engine::inference::Inference;
use tinyrasputin::engine::ordering::canonical_ordering;
use tinyrasputin::engine::showdown::ShowdownEngine;
use tinyrasputin::skeleton::cards::{Card, CardValue};

fn cards(text: &str) -> Vec<Card> {
    text.split(",").map(|x| x.parse::<Card>().unwrap()).collect()
}

fn two(text: &str) -> [Card; 2] {
    let c = cards(text);
    [c[0], c[1]]
}

fn engine() -> ShowdownEngine {
    ShowdownEngine::try_new(canonical_ordering()).unwrap()
}

#[test]
fn a_pair_that_beats_a_pair_gives_one_claim() {
    let board = cards("5h,7s,9d,Jc,Kh");
    let mine = two("2c,2d");
    let theirs = two("3c,3d");
    assert!(can_judge(&mine, &theirs, &board));
    let lost = derive_claims(&engine(), &mine, &theirs, &board, -4);
    assert_eq!(
        lost,
        vec![Claim {
            rule: Rule::PairPair,
            weaker: CardValue::Two,
            stronger: CardValue::Three,
            certainty: GROUP_CERTAINTY,
        }]
    );
    // the server decides who won, whatever the ordering in use says
    let won = derive_claims(&engine(), &mine, &theirs, &board, 4);
    assert_eq!(won[0].weaker, CardValue::Three);
    assert_eq!(won[0].stronger, CardValue::Two);
    assert!(derive_claims(&engine(), &mine, &theirs, &board, 0).is_empty());
}

#[test]
fn hands_without_a_group_give_a_claim_for_each_pair_of_hole_cards() {
    let board = cards("8h,Ts,Qd");
    let mine = two("2c,3d");
    let theirs = two("4c,6d");
    let claims = derive_claims(&engine(), &mine, &theirs, &board, 10);
    let pairs: Vec<(CardValue, CardValue)> = claims.iter().map(|c| (c.weaker, c.stronger)).collect();
    assert_eq!(
        pairs,
        vec![
            (CardValue::Four, CardValue::Two),
            (CardValue::Six, CardValue::Two),
            (CardValue::Four, CardValue::Three),
            (CardValue::Six, CardValue::Three),
        ]
    );
    assert!(claims.iter().all(|c| c.rule == Rule::HighCard && c.certainty == HIGH_CARD_CERTAINTY));
}

#[test]
fn full_houses_are_told_apart_by_the_triple_and_then_by_the_pair() {
    let board = cards("9c,9d,9h,2s,4c");
    let by_pair = derive_claims(&engine(), &two("Kc,Kd"), &two("Qc,Qd"), &board, 6);
    assert_eq!(
        by_pair,
        vec![Claim {
            rule: Rule::FullHousePair,
            weaker: CardValue::Queen,
            stronger: CardValue::King,
            certainty: GROUP_CERTAINTY,
        }]
    );
    let board = cards("9c,9d,Th,Ts,4c");
    let by_triple = derive_claims(&engine(), &two("9h,2d"), &two("Tc,3d"), &board, 6);
    assert_eq!(by_triple[0].rule, Rule::FullHouseTriple);
    assert_eq!(by_triple[0].weaker, CardValue::Ten);
    assert_eq!(by_triple[0].stronger, CardValue::Nine);
}

#[test]
fn unlike_hands_give_no_claim() {
    let board = cards("5h,7s,9d,Jc,Kh");
    assert!(derive_claims(&engine(), &two("2c,2d"), &two("3c,4d"), &board, 5).is_empty());
    let flush_board = cards("5h,7h,9h,Jh,Kc");
    assert!(derive_claims(&engine(), &two("2h,2d"), &two("3c,3d"), &flush_board, 5).is_empty());
}

#[test]
fn hands_that_share_a_card_cannot_be_judged() {
    let board = cards("5h,7s,9d");
    assert!(!can_judge(&two("2c,5h"), &two("3c,3d"), &board));
    assert!(!can_judge(&two("2c,2d"), &two("3c,3d"), &cards("5h,7s,9d,Jc,Kh,Ah")));
    assert_eq!(with_board(&two("2c,2d"), &board), cards("2c,2d,5h,7s,9d"));
}

#[test]
fn claims_become_evidence() {
    let mut inference = Inference::new();
    let board = cards("8h,Ts,Qd");
    let claims = derive_claims(&engine(), &two("2c,3d"), &two("4c,4d"), &board, 10);
    assert_eq!(inference.submit_claims(&claims), 0);
    let claims = derive_claims(&engine(), &two("2c,3d"), &two("4c,6d"), &board, 10);
    assert_eq!(inference.submit_claims(&claims), 4);
    // four relations, or two where chance turned two of them into a cycle
    let relations = inference.current_relations();
    assert!(relations.len() == 4 || relations.len() == 2);
    for (a, b) in relations.iter() {
        let low = [CardValue::Two, CardValue::Three];
        let high = [CardValue::Four, CardValue::Six];
        assert!((low.contains(a) && high.contains(b)) || (high.contains(a) && low.contains(b)));
    }
    assert_eq!(Rule::FourFour.name(), "4k -> 4k");
}
