//! A game session as the clauses of the server drive it: which round is
//! being played, how it ended, and what the bot is to be told.

use crate::skeleton::actions::{Action, ActionType, CHECK, RAISE};
use crate::skeleton::cards::{Card, CardDeck, CardHand};
use crate::skeleton::protocol::{ServerAction, ServerView};
use crate::skeleton::states::{
    active_of, after_action, legal_bits, max_contribution, min_contribution, within_limits,
    ResultView, RoundState, RoundView, StateResult, TerminalState, TerminalView, BIG_BLIND,
    SMALL_BLIND, STARTING_STACK,
};
use vstd::prelude::*;

verus! {

/// What is to be done after a clause was taken.
#[derive(Debug, Copy, Clone, PartialEq, Eq, Structural)]
pub enum Effect {
    /// Nothing.
    Nothing,
    /// The game clock is to be set from the clause.
    ClockSet,
    /// A round began: the bot is to be told.
    NewRound,
    /// The round with this number is over: the bot is to be told.
    RoundOver(i64),
    /// The game is over.
    Quit,
}

/// Why a clause cannot be taken.
#[derive(Debug, Copy, Clone, PartialEq, Eq, Structural)]
pub enum SessionError {
    /// The clause needs a round, and none is being played.
    NoRound,
    /// The clause needs the end of a round, and none has ended.
    NoTerminal,
    /// The index of the player is neither 0 nor 1.
    BadPlayer,
    /// The chips or the counts leave the limits that the session counts
    /// with.
    OutOfLimits,
}

/// A game session.
#[derive(Debug)]
pub struct Session {
    player_index: usize,
    bankroll: i64,
    round_num: i64,
    round: Option<RoundState>,
    terminal: Option<TerminalState>,
}

/// What a session is.
pub struct SessionView {
    pub player_index: int,
    pub bankroll: int,
    pub round_num: int,
    pub round: Option<RoundView>,
    pub terminal: Option<TerminalView>,
}

impl View for Session {
    type V = SessionView;

    closed spec fn view(&self) -> SessionView {
        SessionView {
            player_index: self.player_index as int,
            bankroll: self.bankroll as int,
            round_num: self.round_num as int,
            round: match self.round {
                Some(r) => Some(r@),
                None => None,
            },
            terminal: match self.terminal {
                Some(t) => Some(t@),
                None => None,
            },
        }
    }
}

/// The hands at the start of a round: the player's own, and none for the
/// opponent.
pub open spec fn opening_hands(player: int, hand: CardHand) -> Seq<Option<CardHand>> {
    seq![None::<CardHand>, None::<CardHand>].update(player, Some(hand))
}

/// The state at the start of a round, with the blinds posted.
pub open spec fn opening(player: int, hand: CardHand) -> RoundView {
    RoundView {
        button: 0,
        street: 0,
        pips: seq![SMALL_BLIND, BIG_BLIND],
        stacks: seq![(STARTING_STACK - SMALL_BLIND) as i64, (STARTING_STACK - BIG_BLIND) as i64],
        hands: opening_hands(player, hand),
        deck: Seq::empty(),
        previous: None,
    }
}

/// The action that a clause of play stands for.
pub open spec fn played(e: ServerView) -> Option<Action> {
    match e {
        ServerView::PlayFold => Some(Action::Fold),
        ServerView::PlayCall => Some(Action::Call),
        ServerView::PlayCheck => Some(Action::Check),
        ServerView::PlayRaise(by) => Some(Action::Raise(by as u64)),
        _ => None,
    }
}

/// The session after a clause, and what is to be done; or why the clause
/// cannot be taken.
pub open spec fn after_event(v: SessionView, e: ServerView) -> Result<(SessionView, Effect), SessionError> {
    match e {
        ServerView::SetGameClock => Ok((v, Effect::ClockSet)),
        ServerView::Quit => Ok((v, Effect::Quit)),
        ServerView::SetPlayerIndex(i) => if i < 2 {
            Ok((SessionView { player_index: i, ..v }, Effect::Nothing))
        } else {
            Err(SessionError::BadPlayer)
        },
        ServerView::SetPlayerHand(hand) => Ok(
            (SessionView { round: Some(opening(v.player_index, hand)), ..v }, Effect::NewRound),
        ),
        ServerView::UpdateDeck(deck) => match v.round {
            Some(r) => Ok((SessionView { round: Some(RoundView { deck, ..r }), ..v }, Effect::Nothing)),
            None => Err(SessionError::NoRound),
        },
        ServerView::RevealOpponentHand(hand) => match v.round {
            Some(r) => match r.previous {
                Some(p) => Ok(
                    (
                        SessionView {
                            terminal: Some(
                                TerminalView {
                                    deltas: seq![0i64, 0i64],
                                    previous: RoundView {
                                        hands: p.hands.update(1 - v.player_index, Some(hand)),
                                        ..*p
                                    },
                                },
                            ),
                            ..v
                        },
                        Effect::Nothing,
                    ),
                ),
                None => Ok((v, Effect::Nothing)),
            },
            None => Err(SessionError::NoRound),
        },
        ServerView::Delta(d) => match v.terminal {
            Some(t) => if i64::MIN <= v.bankroll + d <= i64::MAX && v.round_num < i64::MAX {
                Ok(
                    (
                        SessionView {
                            player_index: v.player_index,
                            bankroll: v.bankroll + d,
                            round_num: v.round_num + 1,
                            round: None,
                            terminal: Some(
                                TerminalView {
                                    deltas: seq![(-d) as i64, (-d) as i64].update(
                                        v.player_index,
                                        d as i64,
                                    ),
                                    previous: t.previous,
                                },
                            ),
                        },
                        Effect::RoundOver(v.round_num as i64),
                    ),
                )
            } else {
                Err(SessionError::OutOfLimits)
            },
            None => Err(SessionError::NoTerminal),
        },
        _ => match v.round {
            Some(r) => if within_limits(r) {
                match after_action(r, played(e)->0) {
                    ResultView::Round(next) => Ok(
                        (SessionView { round: Some(next), ..v }, Effect::Nothing),
                    ),
                    ResultView::Terminal(t) => Ok(
                        (SessionView { round: None, terminal: Some(t), ..v }, Effect::Nothing),
                    ),
                }
            } else {
                Err(SessionError::OutOfLimits)
            },
            None => Err(SessionError::NoRound),
        },
    }
}

/// Whether the set of legal actions holds all of the given kind.
pub open spec fn allows(legal: u16, kind: u16) -> bool {
    legal & kind == kind
}

/// The action that is played for the action that the bot wants: the action
/// itself where it is legal, and else the nearest that is.
///
/// A raise stands where raising is legal and the amount lies strictly
/// between the bounds; else it becomes a check where checking is legal, or a
/// call. A call or a fold becomes a check where checking is legal. A check
/// becomes a fold where checking is not legal.
pub open spec fn coerced(wanted: Action, legal: u16, bounds: Seq<i64>) -> Action {
    match wanted {
        Action::Raise(raise) => if allows(legal, RAISE) && bounds[0] < raise < bounds[1] {
            Action::Raise(raise)
        } else if allows(legal, CHECK) {
            Action::Check
        } else {
            Action::Call
        },
        Action::Check => if allows(legal, CHECK) {
            Action::Check
        } else {
            Action::Fold
        },
        Action::Call => if allows(legal, CHECK) {
            Action::Check
        } else {
            Action::Call
        },
        Action::Fold => if allows(legal, CHECK) {
            Action::Check
        } else {
            Action::Fold
        },
    }
}

/// Turns the action that the bot wants into an action that is legal.
pub fn coerce_action(wanted: Action, legal: ActionType, bounds: [i64; 2]) -> (action: Action)
    ensures
        action == coerced(wanted, legal.bits, bounds@),
{
    let can_check = legal.contains(ActionType { bits: CHECK });
    match wanted {
        Action::Raise(raise) => {
            let within = bounds[0] < bounds[1] && (bounds[0] < 0 || (bounds[0] as u64) < raise)
                && bounds[1] > 0 && raise < bounds[1] as u64;
            if legal.contains(ActionType { bits: RAISE }) && within {
                Action::Raise(raise)
            } else if can_check {
                Action::Check
            } else {
                Action::Call
            }
        },
        Action::Check => if can_check {
            Action::Check
        } else {
            Action::Fold
        },
        Action::Call => if can_check {
            Action::Check
        } else {
            Action::Call
        },
        Action::Fold => if can_check {
            Action::Check
        } else {
            Action::Fold
        },
    }
}

impl Session {
    /// The session is well formed: the index of the player is 0 or 1.
    pub closed spec fn wf(&self) -> bool {
        self.player_index < 2
    }

    /// A session before the first round: round 1, no chips won or lost.
    pub fn new() -> (s: Session)
        ensures
            s.wf(),
            s@ == (SessionView {
                player_index: 0,
                bankroll: 0,
                round_num: 1,
                round: None,
                terminal: None,
            }),
    {
        Session { player_index: 0, bankroll: 0, round_num: 1, round: None, terminal: None }
    }

    /// A session taken up in the middle of a game, between two rounds.
    /// `None` where the index of the player is neither 0 nor 1.
    pub fn resume(player_index: usize, bankroll: i64, round_num: i64) -> (r: Option<Session>)
        ensures
            player_index >= 2 ==> r is None,
            player_index < 2 ==> r is Some && r->0.wf() && r->0@ == (SessionView {
                player_index: player_index as int,
                bankroll: bankroll as int,
                round_num: round_num as int,
                round: None,
                terminal: None,
            }),
    {
        if player_index < 2 {
            Some(Session { player_index, bankroll, round_num, round: None, terminal: None })
        } else {
            None
        }
    }

    /// The index of this player.
    pub fn player_index(&self) -> (i: usize)
        ensures
            i == self@.player_index,
    {
        self.player_index
    }

    /// The chips won or lost so far.
    pub fn bankroll(&self) -> (n: i64)
        ensures
            n == self@.bankroll,
    {
        self.bankroll
    }

    /// The number of the round.
    pub fn round_num(&self) -> (n: i64)
        ensures
            n == self@.round_num,
    {
        self.round_num
    }

    /// The round that is being played.
    pub fn round(&self) -> (r: &Option<RoundState>)
        ensures
            match *r {
                Some(state) => self@.round == Some(state@),
                None => self@.round is None,
            },
    {
        &self.round
    }

    /// The end of the last round.
    pub fn terminal(&self) -> (t: &Option<TerminalState>)
        ensures
            match *t {
                Some(state) => self@.terminal == Some(state@),
                None => self@.terminal is None,
            },
    {
        &self.terminal
    }

    /// Takes a clause of the server: changes the session as the clause says
    /// and tells what is to be done, or leaves the session as it is and
    /// tells why the clause cannot be taken.
    pub fn handle(&mut self, event: ServerAction) -> (r: Result<Effect, SessionError>)
        requires
            old(self).wf(),
        ensures
            final(self).wf(),
            match after_event(old(self)@, event@) {
                Ok((v, effect)) => r == Ok::<Effect, SessionError>(effect) && final(self)@ == v,
                Err(e) => r == Err::<Effect, SessionError>(e) && final(self)@ == old(self)@,
            },
    {
        match event {
            ServerAction::SetGameClock => Ok(Effect::ClockSet),
            ServerAction::Quit => Ok(Effect::Quit),
            ServerAction::SetPlayerIndex(i) => {
                if i < 2 {
                    self.player_index = i;
                    Ok(Effect::Nothing)
                } else {
                    Err(SessionError::BadPlayer)
                }
            },
            ServerAction::SetPlayerHand(hand) => {
                let mut hands: [Option<CardHand>; 2] = [None, None];
                hands[self.player_index] = Some(hand);
                let round = RoundState {
                    button: 0,
                    street: 0,
                    pips: [SMALL_BLIND, BIG_BLIND],
                    stacks: [STARTING_STACK - SMALL_BLIND, STARTING_STACK - BIG_BLIND],
                    hands,
                    deck: CardDeck(Vec::new()),
                    previous: None,
                };
                proof {
                    assert(round.pips@ =~= seq![SMALL_BLIND, BIG_BLIND]);
                    assert(round.stacks@ =~= seq![
                        (STARTING_STACK - SMALL_BLIND) as i64,
                        (STARTING_STACK - BIG_BLIND) as i64,
                    ]);
                    assert(round.hands@ =~= opening_hands(self.player_index as int, hand));
                    assert(round.deck.0@ =~= Seq::<Card>::empty());
                }
                self.round = Some(round);
                Ok(Effect::NewRound)
            },
            ServerAction::UpdateDeck(deck) => {
                match self.round.take() {
                    Some(state) => {
                        let mut state = state;
                        state.deck = CardDeck(deck);
                        self.round = Some(state);
                        Ok(Effect::Nothing)
                    },
                    None => Err(SessionError::NoRound),
                }
            },
            ServerAction::RevealOpponentHand(hand) => {
                match &self.round {
                    Some(state) => {
                        match &state.previous {
                            Some(p) => {
                                let mut revised = p.duplicate();
                                let mut hands = revised.hands;
                                hands[1 - self.player_index] = Some(hand);
                                revised.hands = hands;
                                let t = TerminalState { deltas: [0, 0], previous: revised };
                                assert(t.deltas@ =~= seq![0i64, 0i64]);
                                self.terminal = Some(t);
                            },
                            None => {},
                        }
                        Ok(Effect::Nothing)
                    },
                    None => Err(SessionError::NoRound),
                }
            },
            ServerAction::Delta(d) => {
                if self.terminal.is_none() {
                    return Err(SessionError::NoTerminal);
                }
                let delta = d as i64;
                if (delta > 0 && self.bankroll > i64::MAX - delta) || (delta < 0 && self.bankroll
                    < i64::MIN - delta) || self.round_num == i64::MAX {
                    return Err(SessionError::OutOfLimits);
                }
                match self.terminal.take() {
                    Some(t) => {
                        let mut deltas: [i64; 2] = [-delta, -delta];
                        deltas[self.player_index] = delta;
                        let term = TerminalState { deltas, previous: t.previous };
                        assert(term.deltas@ =~= seq![(-d) as i64, (-d) as i64].update(
                            self.player_index as int,
                            d as i64,
                        ));
                        self.terminal = Some(term);
                    },
                    None => {},
                }
                let over = self.round_num;
                self.bankroll = self.bankroll + delta;
                self.round_num = self.round_num + 1;
                self.round = None;
                Ok(Effect::RoundOver(over))
            },
            ServerAction::PlayFold => self.play(Action::Fold),
            ServerAction::PlayCall => self.play(Action::Call),
            ServerAction::PlayCheck => self.play(Action::Check),
            ServerAction::PlayRaise(by) => self.play(Action::Raise(by as u64)),
        }
    }

    /// Plays an action in the round.
    fn play(&mut self, action: Action) -> (r: Result<Effect, SessionError>)
        requires
            old(self).wf(),
            action matches Action::Raise(amt) ==> amt <= u32::MAX,
        ensures
            final(self).wf(),
            match old(self)@.round {
                Some(state) => if within_limits(state) {
                    r == Ok::<Effect, SessionError>(Effect::Nothing) && match after_action(
                        state,
                        action,
                    ) {
                        ResultView::Round(next) => final(self)@ == (SessionView {
                            round: Some(next),
                            ..old(self)@
                        }),
                        ResultView::Terminal(t) => final(self)@ == (SessionView {
                            round: None,
                            terminal: Some(t),
                            ..old(self)@
                        }),
                    }
                } else {
                    r == Err::<Effect, SessionError>(SessionError::OutOfLimits) && final(self)@
                        == old(self)@
                },
                None => r == Err::<Effect, SessionError>(SessionError::NoRound) && final(self)@
                    == old(self)@,
            },
    {
        let next = match &self.round {
            Some(state) => {
                if !state.is_within_limits() {
                    return Err(SessionError::OutOfLimits);
                }
                state.proceed(action)
            },
            None => {
                return Err(SessionError::NoRound);
            },
        };
        match next {
            StateResult::Round(state) => {
                self.round = Some(state);
            },
            StateResult::Terminal(t) => {
                self.terminal = Some(t);
                self.round = None;
            },
        }
        Ok(Effect::Nothing)
    }

    /// The action to play for the action that the bot wants: the wanted
    /// action turned into one that is legal in the round. `None` where no
    /// round is being played or its chips leave the limits.
    pub fn settle(&self, wanted: Action) -> (r: Option<Action>)
        ensures
            match self@.round {
                Some(state) => if within_limits(state) {
                    r == Some(
                        coerced(
                            wanted,
                            legal_bits(state),
                            seq![
                                (state.pips[active_of(state)] + min_contribution(state)) as i64,
                                (state.pips[active_of(state)] + max_contribution(state)) as i64,
                            ],
                        ),
                    )
                } else {
                    r is None
                },
                None => r is None,
            },
    {
        match &self.round {
            Some(state) => {
                if state.is_within_limits() {
                    let bounds = state.raise_bounds();
                    assert(bounds@ =~= seq![bounds@[0], bounds@[1]]);
                    Some(coerce_action(wanted, state.legal_actions(), bounds))
                } else {
                    None
                }
            },
            None => None,
        }
    }
}

} // verus!
