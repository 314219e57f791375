use tinyrasputin::skeleton::actions::{Action, ActionType, CALL, CHECK, FOLD, RAISE};
use tinyrasputin::skeleton::cards::{Card, CardDeck, CardHand, CardSuit, CardValue};
use tinyrasputin::skeleton::states::{
    RoundState, StateResult, BIG_BLIND, SMALL_BLIND, STARTING_STACK,
};

fn opening() -> RoundState {
    let hand = CardHand([
        Card::new(CardSuit::Clubs, CardValue::Ace),
        Card::new(CardSuit::Hearts, CardValue::Two),
    ]);
    RoundState {
        button: 0,
        street: 0,
        pips: [SMALL_BLIND, BIG_BLIND],
        stacks: [STARTING_STACK - SMALL_BLIND, STARTING_STACK - BIG_BLIND],
        hands: [Some(hand), None],
        deck: CardDeck(vec![]),
        previous: None,
    }
}

fn round(result: StateResult) -> RoundState {
    match result {
        StateResult::Round(r) => r,
        StateResult::Terminal(_) => panic!("the round is over"),
    }
}

#[test]
fn amounts_of_actions() {
    assert_eq!(Action::Fold.amount(), 0);
    assert_eq!(Action::Call.amount(), 0);
    assert_eq!(Action::Check.amount(), 0);
    assert_eq!(Action::Raise(17).amount(), 17);
}

#[test]
fn sets_of_actions() {
    let both = ActionType { bits: CHECK }.union(ActionType { bits: RAISE });
    assert_eq!(both.bits(), 12);
    assert!(both.contains(ActionType { bits: RAISE }));
    assert!(!both.contains(ActionType { bits: FOLD }));
    assert_eq!(both.intersection(ActionType { bits: RAISE | CALL }).bits(), RAISE);
    assert!(ActionType::empty().is_empty());
    assert_eq!(ActionType::default(), ActionType::empty());
    assert_eq!(ActionType::from_bits(11), Some(ActionType { bits: 11 }));
    assert_eq!(ActionType::from_bits(16), None);
}

#[test]
fn legal_actions_at_the_opening() {
    let state = opening();
    assert!(state.is_within_limits());
    assert_eq!(state.legal_actions().bits(), FOLD | CALL | RAISE);
    assert_eq!(state.raise_bounds(), [SMALL_BLIND + 3, STARTING_STACK]);
}

#[test]
fn legal_actions_when_nothing_is_owed() {
    let mut state = opening();
    state.pips = [2, 2];
    state.stacks = [198, 198];
    assert_eq!(state.legal_actions().bits(), CHECK | RAISE);
    assert_eq!(state.raise_bounds(), [4, 200]);
    state.stacks = [198, 0];
    assert_eq!(state.legal_actions().bits(), CHECK);
    state.pips = [2, 10];
    state.stacks = [8, 190];
    assert_eq!(state.legal_actions().bits(), FOLD | CALL);
}

#[test]
fn a_call_at_the_opening_posts_the_blinds() {
    let state = opening();
    let next = round(state.proceed(Action::Call));
    assert_eq!(next.button, 1);
    assert_eq!(next.street, 0);
    assert_eq!(next.pips, [BIG_BLIND, BIG_BLIND]);
    assert_eq!(next.stacks, [STARTING_STACK - BIG_BLIND, STARTING_STACK - BIG_BLIND]);
    assert_eq!(next.previous.unwrap().pips, [SMALL_BLIND, BIG_BLIND]);
}

#[test]
fn a_raise_brings_the_pips_to_the_amount() {
    let state = opening();
    let next = round(state.proceed(Action::Raise(10)));
    assert_eq!(next.button, 1);
    assert_eq!(next.pips, [10, BIG_BLIND]);
    assert_eq!(next.stacks, [STARTING_STACK - 10, STARTING_STACK - BIG_BLIND]);
    // the other player calls: the pips are matched and the street ends
    let flop = round(next.proceed(Action::Call));
    assert_eq!(flop.street, 3);
    assert_eq!(flop.button, 1);
    assert_eq!(flop.pips, [0, 0]);
    assert_eq!(flop.stacks, [STARTING_STACK - 10, STARTING_STACK - 10]);
    assert_eq!(flop.previous.as_ref().unwrap().pips, [10, 10]);
}

#[test]
fn checks_end_the_street_when_both_have_acted() {
    let mut state = opening();
    state.button = 1;
    state.street = 3;
    state.pips = [0, 0];
    let waiting = round(state.proceed(Action::Check));
    assert_eq!(waiting.button, 2);
    assert_eq!(waiting.street, 3);
    let turn = round(waiting.proceed(Action::Check));
    assert_eq!(turn.street, 4);
    assert_eq!(turn.button, 1);
}

#[test]
fn the_last_street_ends_in_a_showdown() {
    let mut state = opening();
    state.street = 5;
    state.button = 2;
    match state.proceed_street() {
        StateResult::Terminal(t) => {
            assert_eq!(t.deltas, [0, 0]);
            assert_eq!(t.previous.street, 5);
        }
        StateResult::Round(_) => panic!("the round goes on"),
    }
    assert_eq!(state.showdown().deltas, [0, 0]);
    assert_eq!(state.clone().button, 2);
}

#[test]
fn a_fold_pays_what_was_put_in() {
    let mut state = opening();
    state.button = 1;
    state.pips = [10, 2];
    state.stacks = [190, 198];
    match state.proceed(Action::Fold) {
        StateResult::Terminal(t) => assert_eq!(t.deltas, [2, -2]),
        StateResult::Round(_) => panic!("the round goes on"),
    }
    state.button = 2;
    match state.proceed(Action::Fold) {
        StateResult::Terminal(t) => assert_eq!(t.deltas, [-10, 10]),
        StateResult::Round(_) => panic!("the round goes on"),
    }
}

#[test]
fn the_player_to_act_follows_the_parity_of_any_button() {
    let mut state = opening();
    state.pips = [10, 2];
    state.stacks = [190, 198];
    for (button, like) in [(-1, 1), (-3, 1), (-2, 0), (-4, 2), (i32::MIN, 0)] {
        let mut twin = state.clone();
        twin.button = like;
        state.button = button;
        assert!(state.is_within_limits());
        assert_eq!(state.legal_actions().bits(), twin.legal_actions().bits());
        assert_eq!(state.raise_bounds(), twin.raise_bounds());
    }
    state.button = i32::MAX;
    assert!(!state.is_within_limits());
}
