use tinyrasputin::skeleton::actions::{Action, ActionType, CALL, CHECK, FOLD, RAISE};
use tinyrasputin::skeleton::cards::{Card, CardHand, CardSuit, CardValue};
use tinyrasputin::skeleton::protocol::{
    parse_clause, read_cards, read_number, ProtocolError, ServerAction,
};
use tinyrasputin::skeleton::session::{coerce_action, Effect, Session, SessionError};

fn hand(text: &str) -> CardHand {
    let cards: Vec<Card> = text.split(",").map(|x| x.parse::<Card>().unwrap()).collect();
    CardHand([cards[0], cards[1]])
}

#[test]
fn clauses_are_read() {
    assert!(matches!(parse_clause("T29.5"), Ok(ServerAction::SetGameClock)));
    assert!(matches!(parse_clause("P0"), Ok(ServerAction::SetPlayerIndex(0))));
    assert!(matches!(parse_clause("F"), Ok(ServerAction::PlayFold)));
    assert!(matches!(parse_clause("C"), Ok(ServerAction::PlayCall)));
    assert!(matches!(parse_clause("K"), Ok(ServerAction::PlayCheck)));
    assert!(matches!(parse_clause("R10"), Ok(ServerAction::PlayRaise(10))));
    assert!(matches!(parse_clause("D-5"), Ok(ServerAction::Delta(-5))));
    assert!(matches!(parse_clause("D+12"), Ok(ServerAction::Delta(12))));
    assert!(matches!(parse_clause("Q"), Ok(ServerAction::Quit)));
    match parse_clause("HAc,2h") {
        Ok(ServerAction::SetPlayerHand(h)) => assert_eq!(h, hand("Ac,2h")),
        other => panic!("{:?}", other),
    }
    match parse_clause("OKd,Ks") {
        Ok(ServerAction::RevealOpponentHand(h)) => assert_eq!(h, hand("Kd,Ks")),
        other => panic!("{:?}", other),
    }
    match parse_clause("B2c,3d,4h") {
        Ok(ServerAction::UpdateDeck(cards)) => {
            assert_eq!(cards.len(), 3);
            assert_eq!(cards[2], Card::new(CardSuit::Hearts, CardValue::Four));
        }
        other => panic!("{:?}", other),
    }
    assert!(matches!(parse_clause("B"), Ok(ServerAction::UpdateDeck(cards)) if cards.is_empty()));
}

#[test]
fn clauses_that_are_not_understood() {
    assert!(matches!(parse_clause(""), Err(ProtocolError::Empty)));
    assert!(matches!(parse_clause("X1"), Err(ProtocolError::UnknownCommand(b'X'))));
    assert!(matches!(parse_clause("P"), Err(ProtocolError::BadNumber)));
    assert!(matches!(parse_clause("Pabc"), Err(ProtocolError::BadNumber)));
    assert!(matches!(parse_clause("P-1"), Err(ProtocolError::BadNumber)));
    assert!(matches!(parse_clause("R4000000001"), Err(ProtocolError::BadNumber)));
    assert!(matches!(parse_clause("D-"), Err(ProtocolError::BadNumber)));
    assert!(matches!(parse_clause("HAc"), Err(ProtocolError::NotTwoCards)));
    assert!(matches!(parse_clause("HAc,2h,3d"), Err(ProtocolError::NotTwoCards)));
    assert!(matches!(parse_clause("BAc2h"), Err(ProtocolError::BadCards)));
    assert!(matches!(parse_clause("BAc,"), Err(ProtocolError::BadCards)));
    assert!(matches!(parse_clause("B1c"), Err(ProtocolError::BadCards)));
    assert!(matches!(parse_clause("BAc;2h"), Err(ProtocolError::BadCards)));
}

#[test]
fn numbers_and_cards_are_read() {
    assert_eq!(read_number(b"0", 10), Some(0));
    assert_eq!(read_number(b"007", 10), Some(7));
    assert_eq!(read_number(b"11", 10), None);
    assert_eq!(read_number(b"-10", 10), Some(-10));
    assert_eq!(read_number(b"1x", 10), None);
    assert_eq!(read_number(b"", 10), None);
    assert_eq!(read_number(b"99999999999999999999", 1_000_000_000_000), None);
    assert_eq!(read_cards(b""), Some(vec![]));
    assert_eq!(read_cards(b"Td"), Some(vec![Card::new(CardSuit::Diamonds, CardValue::Ten)]));
    assert_eq!(read_cards(b"Td,"), None);
    assert_eq!(read_cards(b",Td"), None);
}

#[test]
fn wanted_actions_become_legal_actions() {
    let all = ActionType { bits: FOLD | CALL | RAISE };
    let quiet = ActionType { bits: CHECK | RAISE };
    let only_check = ActionType { bits: CHECK };
    let no_raise = ActionType { bits: FOLD | CALL };
    assert_eq!(coerce_action(Action::Raise(10), all, [4, 200]), Action::Raise(10));
    assert_eq!(coerce_action(Action::Raise(4), all, [4, 200]), Action::Call);
    assert_eq!(coerce_action(Action::Raise(200), all, [4, 200]), Action::Call);
    assert_eq!(coerce_action(Action::Raise(200), quiet, [4, 200]), Action::Check);
    assert_eq!(coerce_action(Action::Raise(10), only_check, [4, 200]), Action::Check);
    assert_eq!(coerce_action(Action::Raise(10), no_raise, [4, 200]), Action::Call);
    assert_eq!(coerce_action(Action::Check, all, [4, 200]), Action::Fold);
    assert_eq!(coerce_action(Action::Check, quiet, [4, 200]), Action::Check);
    assert_eq!(coerce_action(Action::Call, quiet, [4, 200]), Action::Check);
    assert_eq!(coerce_action(Action::Call, all, [4, 200]), Action::Call);
    assert_eq!(coerce_action(Action::Fold, quiet, [4, 200]), Action::Check);
    assert_eq!(coerce_action(Action::Fold, all, [4, 200]), Action::Fold);
}

#[test]
fn a_round_from_hand_to_delta() {
    let mut session = Session::new();
    assert_eq!(session.round_num(), 1);
    assert_eq!(session.handle(ServerAction::SetPlayerIndex(1)), Ok(Effect::Nothing));
    assert_eq!(session.player_index(), 1);
    assert_eq!(session.handle(ServerAction::SetPlayerHand(hand("Ac,2h"))), Ok(Effect::NewRound));
    {
        let round = session.round().as_ref().unwrap();
        assert_eq!(round.hands, [None, Some(hand("Ac,2h"))]);
        assert_eq!(round.pips, [1, 2]);
        assert_eq!(round.stacks, [199, 198]);
    }
    assert_eq!(session.settle(Action::Check), Some(Action::Fold));
    assert_eq!(session.handle(ServerAction::PlayCall), Ok(Effect::Nothing));
    assert_eq!(session.handle(ServerAction::PlayCheck), Ok(Effect::Nothing));
    assert_eq!(session.round().as_ref().unwrap().street, 3);
    let board = vec![
        Card::new(CardSuit::Clubs, CardValue::Nine),
        Card::new(CardSuit::Diamonds, CardValue::Ten),
        Card::new(CardSuit::Hearts, CardValue::Jack),
    ];
    assert_eq!(session.handle(ServerAction::UpdateDeck(board.clone())), Ok(Effect::Nothing));
    assert_eq!(session.round().as_ref().unwrap().deck.0, board);
    assert_eq!(session.handle(ServerAction::RevealOpponentHand(hand("Kd,Ks"))), Ok(Effect::Nothing));
    let revealed = session.terminal().as_ref().unwrap();
    assert_eq!(revealed.previous.hands, [Some(hand("Kd,Ks")), Some(hand("Ac,2h"))]);
    assert_eq!(session.handle(ServerAction::Delta(-2)), Ok(Effect::RoundOver(1)));
    assert_eq!(session.terminal().as_ref().unwrap().deltas, [2, -2]);
    assert_eq!(session.bankroll(), -2);
    assert_eq!(session.round_num(), 2);
    assert!(session.round().is_none());
    assert_eq!(session.settle(Action::Check), None);
}

#[test]
fn clauses_out_of_place_are_refused() {
    let mut session = Session::new();
    assert_eq!(session.handle(ServerAction::SetPlayerIndex(2)), Err(SessionError::BadPlayer));
    assert_eq!(session.handle(ServerAction::PlayFold), Err(SessionError::NoRound));
    assert_eq!(session.handle(ServerAction::UpdateDeck(vec![])), Err(SessionError::NoRound));
    assert_eq!(
        session.handle(ServerAction::RevealOpponentHand(hand("Kd,Ks"))),
        Err(SessionError::NoRound)
    );
    assert_eq!(session.handle(ServerAction::Delta(3)), Err(SessionError::NoTerminal));
    assert_eq!(session.handle(ServerAction::SetGameClock), Ok(Effect::ClockSet));
    assert_eq!(session.handle(ServerAction::Quit), Ok(Effect::Quit));
    assert_eq!(session.handle(ServerAction::SetPlayerHand(hand("Ac,2h"))), Ok(Effect::NewRound));
    assert_eq!(session.handle(ServerAction::PlayFold), Ok(Effect::Nothing));
    assert!(session.round().is_none());
    assert_eq!(session.terminal().as_ref().unwrap().deltas, [-1, 1]);
}

#[test]
fn counts_that_leave_the_limits_are_refused() {
    assert!(Session::resume(2, 0, 1).is_none());
    let mut session = Session::resume(0, i64::MAX, 7).unwrap();
    assert_eq!(session.bankroll(), i64::MAX);
    assert_eq!(session.handle(ServerAction::SetPlayerHand(hand("Ac,2h"))), Ok(Effect::NewRound));
    assert_eq!(session.handle(ServerAction::PlayFold), Ok(Effect::Nothing));
    assert_eq!(session.handle(ServerAction::Delta(1)), Err(SessionError::OutOfLimits));
    assert_eq!(session.bankroll(), i64::MAX);
    assert_eq!(session.handle(ServerAction::Delta(-1)), Ok(Effect::RoundOver(7)));
    assert_eq!(session.round_num(), 8);
}
