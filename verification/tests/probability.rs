use std::str::FromStr;
use tinyrasputin::engine::chance::{scan_index, stop_of};
use tinyrasputin::engine::graph::is_acyclic;
use tinyrasputin::engine::probability::{
    counts_more, decide, left_over, strongest_rule, two_rules, Evidence, ProbabilityEngine,
    Proposed, CONFIRMATION_THRESHOLD, SCALE,
};
use tinyrasputin::skeleton::cards::{Card, CardConversionError, CardSuit, CardValue};

const KEEP: u64 = 999_999;

#[test]
fn evidence_sets_the_likely_ordering() {
    let mut engine = ProbabilityEngine::new();
    assert!(engine.update("pair-pair", &CardValue::Two, &CardValue::Ace, 900_000));
    assert_eq!(
        engine.likely_ordering(&CardValue::Two, &CardValue::Ace),
        Some((CardValue::Two, CardValue::Ace))
    );
    assert_eq!(
        engine.likely_ordering(&CardValue::Ace, &CardValue::Two),
        Some((CardValue::Two, CardValue::Ace))
    );
    assert_eq!(engine.likely_ordering(&CardValue::Two, &CardValue::King), None);
}

#[test]
fn first_evidence_has_full_weight() {
    let mut engine = ProbabilityEngine::new();
    assert!(engine.update("rule", &CardValue::Two, &CardValue::Ace, 900_000));
    assert_eq!(engine.probability(&CardValue::Two, &CardValue::Ace), 900_000);
    assert_eq!(engine.probability(&CardValue::Ace, &CardValue::Two), -900_000);
    assert_eq!(engine.repetitions(&CardValue::Ace, &CardValue::Two), 1);
    assert_eq!(engine.probabilities(), vec![((CardValue::Two, CardValue::Ace), 900_000)]);
}

#[test]
fn later_evidence_moves_the_belief_part_of_the_way() {
    let mut engine = ProbabilityEngine::new();
    assert!(engine.update("rule", &CardValue::Two, &CardValue::Ace, 900_000));
    // second evidence: half of 0.5 of the way from 0.9 to 1
    assert!(engine.update("rule", &CardValue::Two, &CardValue::Ace, 500_000));
    assert_eq!(engine.probability(&CardValue::Two, &CardValue::Ace), 925_000);
    // third evidence, against: a third of 0.3 of the way from 0.925 to -1
    assert!(engine.update("other", &CardValue::Ace, &CardValue::Two, 300_000));
    assert_eq!(engine.probability(&CardValue::Two, &CardValue::Ace), 925_000 - 192_500);
    assert_eq!(engine.repetitions(&CardValue::Two, &CardValue::Ace), 3);
    assert_eq!(
        engine.get_rules(&CardValue::Ace, &CardValue::Two),
        vec![
            ("rule".to_string(), 900_000),
            ("rule".to_string(), 500_000),
            ("other".to_string(), -300_000),
        ]
    );
}

#[test]
fn evidence_given_backwards_is_turned() {
    let mut engine = ProbabilityEngine::new();
    assert!(engine.update("rule", &CardValue::Ace, &CardValue::Two, 900_000));
    assert_eq!(engine.probability(&CardValue::Two, &CardValue::Ace), -900_000);
    assert_eq!(
        engine.likely_ordering(&CardValue::Two, &CardValue::Ace),
        Some((CardValue::Ace, CardValue::Two))
    );
}

#[test]
fn degenerate_evidence_is_not_taken() {
    let mut engine = ProbabilityEngine::new();
    assert!(!engine.update("rule", &CardValue::Two, &CardValue::Two, 900_000));
    assert!(!engine.update("rule", &CardValue::Two, &CardValue::Ace, 0));
    assert!(engine.probabilities().is_empty());
    assert_eq!(engine.probability(&CardValue::Two, &CardValue::Ace), 0);
    assert!(engine.get_rules(&CardValue::Two, &CardValue::Ace).is_empty());
}

#[test]
fn the_same_evidence_is_logged_once() {
    let mut engine = ProbabilityEngine::new();
    assert!(engine.update("rule", &CardValue::Two, &CardValue::Ace, 250_000));
    assert!(engine.update("rule", &CardValue::Two, &CardValue::Ace, 250_000));
    assert_eq!(engine.get_rules(&CardValue::Two, &CardValue::Ace).len(), 1);
    assert_eq!(engine.repetitions(&CardValue::Two, &CardValue::Ace), 2);
}

#[test]
fn beliefs_become_relations() {
    let mut engine = ProbabilityEngine::new();
    engine.update("rule", &CardValue::Two, &CardValue::Ace, 900_000);
    engine.update("rule", &CardValue::Three, &CardValue::King, 600_000);
    assert_eq!(
        engine.directed(),
        vec![
            Proposed { edge: (CardValue::Two, CardValue::Ace), confidence: 900_000 },
            Proposed { edge: (CardValue::Three, CardValue::King), confidence: 600_000 },
        ]
    );
    // a draw that is not below the rest of the confidence keeps the direction
    let kept = engine.relations_with(&[KEEP; 8]);
    assert_eq!(
        kept,
        vec![(CardValue::Two, CardValue::Ace), (CardValue::Three, CardValue::King)]
    );
    // a draw below it turns the relation
    let turned = engine.relations_with(&[0; 8]);
    assert_eq!(
        turned,
        vec![(CardValue::Ace, CardValue::Two), (CardValue::King, CardValue::Three)]
    );
    for _ in 0..20 {
        let drawn = engine.relations();
        assert_eq!(drawn.len(), 2);
        assert!(is_acyclic(&drawn));
    }
}

#[test]
fn the_weaker_relations_of_a_cycle_are_discarded_and_weakened() {
    let mut engine = ProbabilityEngine::new();
    engine.update("rule", &CardValue::Two, &CardValue::Three, 900_000);
    engine.update("rule", &CardValue::Three, &CardValue::Four, 800_000);
    engine.update("rule", &CardValue::Four, &CardValue::Two, 700_000);
    let relations = engine.relations_with(&[KEEP; 16]);
    assert_eq!(relations, vec![(CardValue::Two, CardValue::Three)]);
    // evidence that no rule is named for weakened the two beliefs
    assert_eq!(engine.probability(&CardValue::Two, &CardValue::Three), 900_000);
    assert_eq!(engine.probability(&CardValue::Three, &CardValue::Four), 80_000);
    assert_eq!(engine.probability(&CardValue::Four, &CardValue::Two), 105_000);
    assert!(engine.inconsistent_rule_names().is_empty());
}

#[test]
fn the_strongest_of_two_rules_is_ignored() {
    let mut engine = ProbabilityEngine::new();
    engine.update("firm", &CardValue::Two, &CardValue::Three, 900_000);
    engine.update("loud", &CardValue::Three, &CardValue::Four, 800_000);
    engine.update("calm", &CardValue::Three, &CardValue::Four, 10_000);
    engine.update("rule", &CardValue::Four, &CardValue::Two, 700_000);
    let belief = engine.probability(&CardValue::Three, &CardValue::Four);
    assert_eq!(belief, 800_000 + 1_000);
    let relations = engine.relations_with(&[KEEP; 16]);
    assert_eq!(relations, vec![(CardValue::Two, CardValue::Three)]);
    assert_eq!(engine.inconsistent_rule_names(), vec!["loud".to_string()]);
    // the belief on the pair is forgotten, and the rule is not heard again
    assert_eq!(engine.probability(&CardValue::Three, &CardValue::Four), 0);
    assert!(!engine.update("loud", &CardValue::Three, &CardValue::Four, 800_000));
    assert!(engine.update("calm", &CardValue::Three, &CardValue::Four, 800_000));
}

#[test]
fn a_cycle_of_equal_confidence_leaves_the_retained_relations() {
    let mut engine = ProbabilityEngine::new();
    engine.update("rule", &CardValue::Two, &CardValue::Three, 900_000);
    let first = engine.relations_with(&[KEEP; 16]);
    assert_eq!(first, vec![(CardValue::Two, CardValue::Three)]);
    engine.update("rule", &CardValue::Three, &CardValue::Four, 900_000);
    engine.update("rule", &CardValue::Four, &CardValue::Two, 900_000);
    assert!(!engine.unresolved());
    let second = engine.relations_with(&[KEEP; 16]);
    assert_eq!(second, first);
    assert!(engine.unresolved());
}

#[test]
fn a_confirmed_relation_gets_the_confirming_confidence() {
    let x = Proposed { edge: (CardValue::Two, CardValue::Three), confidence: 300_000 };
    let confirmed = decide(x, Some(CONFIRMATION_THRESHOLD + 1), 0);
    assert_eq!(confirmed.edge, x.edge);
    assert_eq!(confirmed.confidence, CONFIRMATION_THRESHOLD + 2);
    let unconfirmed = decide(x, Some(CONFIRMATION_THRESHOLD), 699_999);
    assert_eq!(unconfirmed.edge, (CardValue::Three, CardValue::Two));
    assert_eq!(unconfirmed.confidence, SCALE - 300_000);
    let kept = decide(x, None, 700_000);
    assert_eq!(kept.edge, x.edge);
    assert_eq!(kept.confidence, 300_000);
}

#[test]
fn what_is_left_of_a_discarded_confidence() {
    assert_eq!(left_over(800_000, 900_000, 700_000), 177_778);
    assert_eq!(left_over(800_000, 900_000, 0), 800_000);
    assert!(counts_more(-900_000, 800_000));
    assert!(counts_more(900_000, -900_000));
    assert!(!counts_more(-900_000, 900_000));
    assert!(counts_more(5, 5));
}

fn evidence(rule: &str, certainty: i64) -> Evidence {
    Evidence { rule: rule.to_string(), certainty }
}

#[test]
fn the_scan_stops_at_the_first_hit() {
    assert_eq!(stop_of(&[]), 0);
    assert_eq!(stop_of(&[false, false, false]), 0);
    assert_eq!(stop_of(&[true, true]), 0);
    assert_eq!(stop_of(&[false, false, true, false, true]), 2);
    assert_eq!(stop_of(&[false, false, false, true]), 3);
}

#[test]
fn the_scan_stays_below_its_length() {
    assert_eq!(scan_index(0), 0);
    assert_eq!(scan_index(1), 0);
    for n in 1..14 {
        for _ in 0..50 {
            assert!(scan_index(n) < n);
        }
    }
}

#[test]
fn the_last_of_the_strongest_named_evidence_is_found() {
    assert_eq!(strongest_rule(&vec![]), None);
    assert_eq!(strongest_rule(&vec![evidence("", 900_000)]), None);
    let log = vec![
        evidence("first", 400_000),
        evidence("", 900_000),
        evidence("second", -700_000),
        evidence("third", -700_000),
        evidence("fourth", 100_000),
    ];
    assert_eq!(strongest_rule(&log), Some(3));
    let signs = vec![evidence("down", -500_000), evidence("up", 500_000), evidence("again", -500_000)];
    assert_eq!(strongest_rule(&signs), Some(1));
}

#[test]
fn two_rules_are_told_from_one() {
    assert!(!two_rules(&vec![]));
    assert!(!two_rules(&vec![evidence("one", 1), evidence("one", 2), evidence("", 3)]));
    assert!(two_rules(&vec![evidence("", 3), evidence("one", 1), evidence("other", 2)]));
}

#[test]
fn text_is_read_through_the_standard_trait_as_by_parse() {
    assert!(matches!(CardSuit::from_str("h"), Ok(CardSuit::Hearts)));
    assert!(matches!(CardSuit::from_str(""), Err(CardConversionError::Empty)));
    assert!(matches!(CardSuit::from_str("x"), Err(CardConversionError::InvalidSuit('x'))));
    assert!(matches!(CardSuit::from_str("hh"), Err(CardConversionError::TooLong(t)) if t == "hh"));
    assert!(matches!(CardValue::from_str("T"), Ok(CardValue::Ten)));
    assert!(matches!(CardValue::from_str(""), Err(CardConversionError::Empty)));
    assert!(matches!(CardValue::from_str("1"), Err(CardConversionError::InvalidValue('1'))));
    assert!(matches!(CardValue::from_str("TT"), Err(CardConversionError::TooLong(t)) if t == "TT"));
    assert_eq!(Card::from_str("Td").unwrap(), Card::new(CardSuit::Diamonds, CardValue::Ten));
    assert!(matches!(Card::from_str("T"), Err(CardConversionError::NotACard(t)) if t == "T"));
    assert!(matches!(Card::from_str("Tdd"), Err(CardConversionError::TooLong(t)) if t == "Tdd"));
    assert!(matches!(Card::from_str("Tx"), Err(CardConversionError::InvalidSuit('x'))));
}

#[test]
fn relations_join_each_pair_once_whatever_is_drawn() {
    let ranks =
        [CardValue::Two, CardValue::Three, CardValue::Four, CardValue::Five, CardValue::Six];
    for round in 0..30 {
        let mut engine = ProbabilityEngine::new();
        let mut certainty: i64 = 150_000;
        for i in 0..5 {
            for j in (i + 1)..5 {
                assert!(engine.update("rule", &ranks[i], &ranks[j], certainty));
                certainty += 70_000 + round;
            }
        }
        let believed = engine.directed();
        assert_eq!(believed.len(), 10);
        let out = engine.relations();
        assert!(is_acyclic(&out));
        assert!(engine.unresolved() || out.len() <= believed.len());
        for (i, x) in out.iter().enumerate() {
            assert!(engine.unresolved() || believed.iter().any(|p| p.edge == *x || p.edge == (x.1, x.0)));
            for y in out[i + 1..].iter() {
                assert!(x != y && *x != (y.1, y.0));
            }
        }
    }
}

#[test]
fn relations_keep_the_order_of_the_proposal() {
    let mut engine = ProbabilityEngine::new();
    engine.update("rule", &CardValue::Two, &CardValue::Three, 700_000);
    engine.update("rule", &CardValue::Three, &CardValue::Four, 900_000);
    engine.update("rule", &CardValue::Four, &CardValue::Two, 800_000);
    engine.update("rule", &CardValue::Five, &CardValue::Six, 600_000);
    engine.update("rule", &CardValue::Seven, &CardValue::Eight, 950_000);
    // the proposal runs from the surest belief to the least sure; of the
    // cycle only its surest relation is left, each of the others at its place
    let out = engine.relations_with(&[KEEP; 16]);
    assert_eq!(
        out,
        vec![
            (CardValue::Seven, CardValue::Eight),
            (CardValue::Three, CardValue::Four),
            (CardValue::Five, CardValue::Six),
        ]
    );
    assert!(!engine.unresolved());
}

#[test]
fn a_rule_is_ignored_once() {
    let mut engine = ProbabilityEngine::new();
    for _ in 0..3 {
        engine.update("first", &CardValue::Two, &CardValue::Three, 900_000);
        engine.update("second", &CardValue::Two, &CardValue::Three, -100_000);
        engine.update("first", &CardValue::Three, &CardValue::Four, 950_000);
        engine.update("first", &CardValue::Four, &CardValue::Two, 990_000);
        engine.relations_with(&[KEEP; 16]);
    }
    let names = engine.inconsistent_rule_names();
    for (i, x) in names.iter().enumerate() {
        assert!(!names[i + 1..].contains(x));
    }
}
