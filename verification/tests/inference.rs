use tinyrasputin::engine::graph::is_acyclic;
use tinyrasputin::engine::inference::Inference;
use tinyrasputin::engine::ordering::{is_valid_ordering, position_in};
use tinyrasputin::skeleton::cards::CardValue;

#[test]
fn an_engine_without_evidence_is_fully_uncertain() {
    let mut engine = Inference::new();
    assert!(engine.current_relations().is_empty());
    assert_eq!(engine.uncertainty(), 6227020800);
    assert!(is_valid_ordering(&engine.current_ordering()));
}

#[test]
fn evidence_narrows_the_orderings() {
    let mut engine = Inference::new();
    assert!(engine.submit_evidence("pair -> pair", CardValue::Two, CardValue::Ace, 999_999));
    assert!(!engine.submit_evidence("pair -> pair", CardValue::Two, CardValue::Two, 900_000));
    let relations = engine.current_relations();
    assert_eq!(relations.len(), 1);
    assert!(is_acyclic(&relations));
    let ordering = engine.current_ordering();
    let (a, b) = relations[0];
    assert!(position_in(&ordering, a) < position_in(&ordering, b));
    assert_eq!(engine.uncertainty(), 12 * 479001600);
    // nothing changes until evidence is taken again
    assert_eq!(engine.current_ordering(), ordering);
    assert_eq!(engine.current_relations(), relations);
}

#[test]
fn the_report_lists_relations_beliefs_and_ordering() {
    let mut engine = Inference::new();
    engine.submit_evidence("rule", CardValue::Ace, CardValue::Two, 250_000);
    engine.submit_evidence("rule", CardValue::Three, CardValue::King, 1);
    let ordering = engine.current_ordering();
    let text = engine.diagnostics();
    let lines: Vec<&str> = text.split('\n').collect();
    assert_eq!(lines.len(), 13 + 2 + 1);
    assert!(lines[0].starts_with("|2|"));
    assert_eq!(lines[13], "2 -> A P(-250000)");
    assert_eq!(lines[14], "3 -> K P(1)");
    let printed: String = ordering.iter().map(|v| v.to_byte() as char).collect();
    assert_eq!(lines[15], printed);
}
