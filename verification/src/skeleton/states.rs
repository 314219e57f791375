//! The states of one round of betting between two players, and the moves
//! from state to state.

use crate::skeleton::actions::{Action, ActionType, CALL, CHECK, FOLD, RAISE};
use crate::skeleton::cards::{Card, CardDeck, CardHand};
use vstd::prelude::*;

verus! {

pub const NUM_ROUNDS: i64 = 1000;

pub const STARTING_STACK: i64 = 200;

pub const BIG_BLIND: i64 = 2;

pub const SMALL_BLIND: i64 = 1;

/// The greatest number of chips that the states count with.
pub const CHIP_LIMIT: i64 = 1000000000000;

/// Final state of a poker round corresponding to payoffs.
#[derive(Debug)]
pub struct TerminalState {
    pub deltas: [i64; 2],
    pub previous: RoundState,
}

/// Encodes the game tree for one round of poker.
#[derive(Debug)]
pub struct RoundState {
    pub button: i32,
    pub street: i32,
    pub pips: [i64; 2],
    pub stacks: [i64; 2],
    pub hands: [Option<CardHand>; 2],
    pub deck: CardDeck,
    pub previous: Option<Box<RoundState>>,
}

/// A state of play or the end of the round.
#[derive(Debug)]
pub enum StateResult {
    Round(RoundState),
    Terminal(TerminalState),
}

/// What a state of a round is.
pub struct RoundView {
    pub button: int,
    pub street: int,
    pub pips: Seq<i64>,
    pub stacks: Seq<i64>,
    pub hands: Seq<Option<CardHand>>,
    pub deck: Seq<Card>,
    pub previous: Option<Box<RoundView>>,
}

/// What the end of a round is.
pub struct TerminalView {
    pub deltas: Seq<i64>,
    pub previous: RoundView,
}

/// What the result of a move is.
pub enum ResultView {
    Round(RoundView),
    Terminal(TerminalView),
}

/// What a state of a round is, with all that came before it.
pub open spec fn round_view(s: RoundState) -> RoundView
    decreases s,
{
    RoundView {
        button: s.button as int,
        street: s.street as int,
        pips: s.pips@,
        stacks: s.stacks@,
        hands: s.hands@,
        deck: s.deck.0@,
        previous: match s.previous {
            Some(p) => Some(Box::new(round_view(*p))),
            None => None,
        },
    }
}

impl View for RoundState {
    type V = RoundView;

    open spec fn view(&self) -> RoundView {
        round_view(*self)
    }
}

impl View for TerminalState {
    type V = TerminalView;

    open spec fn view(&self) -> TerminalView {
        TerminalView { deltas: self.deltas@, previous: self.previous@ }
    }
}

impl View for StateResult {
    type V = ResultView;

    open spec fn view(&self) -> ResultView {
        match self {
            StateResult::Round(r) => ResultView::Round(r@),
            StateResult::Terminal(t) => ResultView::Terminal(t@),
        }
    }
}

/// The player to act: 0 or 1.
pub open spec fn active_of(v: RoundView) -> int {
    v.button % 2
}

/// What the player to act must add to stay in the round.
pub open spec fn continue_cost_of(v: RoundView) -> int {
    v.pips[1 - active_of(v)] - v.pips[active_of(v)]
}

/// The chips of a state lie within the limits that the moves count with.
pub open spec fn within_limits(v: RoundView) -> bool {
    &&& i32::MIN <= v.button < i32::MAX
    &&& i32::MIN <= v.street < i32::MAX
    &&& v.pips.len() == 2
    &&& v.stacks.len() == 2
    &&& -CHIP_LIMIT <= v.pips[0] <= CHIP_LIMIT
    &&& -CHIP_LIMIT <= v.pips[1] <= CHIP_LIMIT
    &&& -CHIP_LIMIT <= v.stacks[0] <= CHIP_LIMIT
    &&& -CHIP_LIMIT <= v.stacks[1] <= CHIP_LIMIT
}

/// The bits of the actions that are legal for the player to act.
pub open spec fn legal_bits(v: RoundView) -> u16 {
    if continue_cost_of(v) == 0 {
        if v.stacks[0] == 0 || v.stacks[1] == 0 {
            CHECK
        } else {
            12
        }
    } else if continue_cost_of(v) == v.stacks[active_of(v)] || v.stacks[1 - active_of(v)] == 0 {
        3
    } else {
        11
    }
}

/// The smaller of two numbers.
pub open spec fn least(a: int, b: int) -> int {
    if a <= b {
        a
    } else {
        b
    }
}

/// The greater of two numbers.
pub open spec fn greatest(a: int, b: int) -> int {
    if a >= b {
        a
    } else {
        b
    }
}

/// The most that the player to act can add: what the player has, or what
/// the other player can match.
pub open spec fn max_contribution(v: RoundView) -> int {
    least(v.stacks[active_of(v)] as int, v.stacks[1 - active_of(v)] + continue_cost_of(v))
}

/// The least that a raise adds: the cost to continue and as much again, the
/// big blind at least, but no more than the most.
pub open spec fn min_contribution(v: RoundView) -> int {
    least(
        max_contribution(v),
        continue_cost_of(v) + greatest(continue_cost_of(v), BIG_BLIND as int),
    )
}

/// The state after a street: the end of the round after the last street,
/// else the next street with the pips cleared.
pub open spec fn after_street(v: RoundView) -> ResultView {
    if v.street == 5 {
        ResultView::Terminal(TerminalView { deltas: seq![0i64, 0i64], previous: v })
    } else {
        ResultView::Round(
            RoundView {
                button: 1,
                street: if v.street == 0 {
                    3
                } else {
                    v.street + 1
                },
                pips: seq![0i64, 0i64],
                stacks: v.stacks,
                hands: v.hands,
                deck: v.deck,
                previous: Some(Box::new(v)),
            },
        )
    }
}

/// The state after the player to act has put `contribution` more chips in.
pub open spec fn after_contribution(v: RoundView, contribution: int) -> RoundView {
    let active = active_of(v);
    RoundView {
        button: v.button + 1,
        street: v.street,
        pips: v.pips.update(active, (v.pips[active] + contribution) as i64),
        stacks: v.stacks.update(active, (v.stacks[active] - contribution) as i64),
        hands: v.hands,
        deck: v.deck,
        previous: Some(Box::new(v)),
    }
}

/// The result of an action of the player to act.
pub open spec fn after_action(v: RoundView, action: Action) -> ResultView {
    let active = active_of(v);
    match action {
        Action::Fold => {
            let delta: int = if active == 0 {
                v.stacks[0] - STARTING_STACK
            } else {
                STARTING_STACK - v.stacks[1]
            };
            ResultView::Terminal(
                TerminalView { deltas: seq![delta as i64, (-delta) as i64], previous: v },
            )
        },
        Action::Call => {
            if v.button == 0 {
                ResultView::Round(
                    RoundView {
                        button: 1,
                        street: 0,
                        pips: seq![BIG_BLIND, BIG_BLIND],
                        stacks: seq![
                            (STARTING_STACK - BIG_BLIND) as i64,
                            (STARTING_STACK - BIG_BLIND) as i64,
                        ],
                        hands: v.hands,
                        deck: v.deck,
                        previous: Some(Box::new(v)),
                    },
                )
            } else {
                after_street(after_contribution(v, continue_cost_of(v)))
            }
        },
        Action::Check => {
            if (v.street == 0 && v.button > 0) || v.button > 1 {
                after_street(v)
            } else {
                ResultView::Round(after_contribution(v, 0))
            }
        },
        Action::Raise(amt) => ResultView::Round(after_contribution(v, amt - v.pips[active])),
    }
}

impl RoundState {
    /// A copy of the state with all that came before it.
    pub fn duplicate(&self) -> (r: RoundState)
        ensures
            r@ == self@,
        decreases self,
    {
        let mut deck: Vec<Card> = Vec::new();
        let mut i: usize = 0;
        while i < self.deck.0.len()
            invariant
                i <= self.deck.0.len(),
                deck@ == self.deck.0@.take(i as int),
            decreases self.deck.0.len() - i,
        {
            deck.push(self.deck.0[i]);
            assert(self.deck.0@.take(i as int + 1) =~= self.deck.0@.take(i as int).push(
                self.deck.0@[i as int],
            ));
            i += 1;
        }
        assert(self.deck.0@.take(self.deck.0.len() as int) =~= self.deck.0@);
        let previous = match &self.previous {
            Some(p) => Some(Box::new(p.duplicate())),
            None => None,
        };
        RoundState {
            button: self.button,
            street: self.street,
            pips: self.pips,
            stacks: self.stacks,
            hands: self.hands,
            deck: CardDeck(deck),
            previous,
        }
    }

    /// Tells whether the chips of the state lie within the limits that the
    /// moves count with.
    pub fn is_within_limits(&self) -> (ok: bool)
        ensures
            ok == within_limits(self@),
    {
        self.button < i32::MAX && self.street < i32::MAX && -CHIP_LIMIT <= self.pips[0] && self.pips[0] <= CHIP_LIMIT && -CHIP_LIMIT
            <= self.pips[1] && self.pips[1] <= CHIP_LIMIT && -CHIP_LIMIT <= self.stacks[0]
            && self.stacks[0] <= CHIP_LIMIT && -CHIP_LIMIT <= self.stacks[1] && self.stacks[1]
            <= CHIP_LIMIT
    }

    /// The player to act.
    fn active(&self) -> (a: usize)
        requires
            within_limits(self@),
        ensures
            a == active_of(self@),
            a < 2,
    {
        if self.button % 2 == 0 {
            0
        } else {
            1
        }
    }

    /// Compares the players' hands and computes payoffs.
    pub fn showdown(&self) -> (t: TerminalState)
        ensures
            t@ == (TerminalView { deltas: seq![0i64, 0i64], previous: self@ }),
    {
        let t = TerminalState { previous: self.duplicate(), deltas: [0, 0] };
        assert(t.deltas@ =~= seq![0i64, 0i64]);
        t
    }

    /// Returns a mask which corresponds to the active player's legal moves.
    pub fn legal_actions(&self) -> (t: ActionType)
        requires
            within_limits(self@),
        ensures
            t.bits == legal_bits(self@),
    {
        let active = self.active();
        let continue_cost = self.pips[1 - active] - self.pips[active];
        if continue_cost == 0 {
            // We can only raise the stakes if both players can afford it
            let bets_forbidden = self.stacks[0] == 0 || self.stacks[1] == 0;
            if bets_forbidden {
                return ActionType { bits: CHECK };
            }
            assert(CHECK | RAISE == 12) by (bit_vector)
                requires
                    CHECK == 4,
                    RAISE == 8,
            ;
            return ActionType { bits: CHECK | RAISE };
        }
        // continue_cost > 0
        // similarly, re-raising is only allowed if both players can afford it
        let raises_forbidden = continue_cost == self.stacks[active] || self.stacks[1 - active] == 0;
        assert(FOLD | CALL == 3 && FOLD | CALL | RAISE == 11) by (bit_vector)
            requires
                FOLD == 1,
                CALL == 2,
                RAISE == 8,
        ;
        if raises_forbidden {
            return ActionType { bits: FOLD | CALL };
        }
        ActionType { bits: FOLD | CALL | RAISE }
    }

    /// Returns an array of the minimum and maximum legal raises.
    pub fn raise_bounds(&self) -> (bounds: [i64; 2])
        requires
            within_limits(self@),
        ensures
            bounds@[0] == self@.pips[active_of(self@)] + min_contribution(self@),
            bounds@[1] == self@.pips[active_of(self@)] + max_contribution(self@),
    {
        let active = self.active();
        let continue_cost = self.pips[1 - active] - self.pips[active];
        let other = self.stacks[1 - active] + continue_cost;
        let most = if self.stacks[active] <= other {
            self.stacks[active]
        } else {
            other
        };
        let step = if continue_cost >= BIG_BLIND {
            continue_cost
        } else {
            BIG_BLIND
        };
        let fewest = if most <= continue_cost + step {
            most
        } else {
            continue_cost + step
        };
        [self.pips[active] + fewest, self.pips[active] + most]
    }

    /// Resets the players' pips and advances the game tree to the next round
    /// of betting.
    pub fn proceed_street(&self) -> (r: StateResult)
        requires
            self.street < i32::MAX,
        ensures
            r@ == after_street(self@),
    {
        if self.street == 5 {
            return StateResult::Terminal(self.showdown());
        }
        let new_street = if self.street == 0 {
            3
        } else {
            self.street + 1
        };
        let previous = self.duplicate();
        let r = RoundState {
            button: 1,
            street: new_street,
            pips: [0, 0],
            stacks: self.stacks,
            hands: self.hands,
            deck: CardDeck(previous.duplicate().deck.0),
            previous: Some(Box::new(previous)),
        };
        assert(r.pips@ =~= seq![0i64, 0i64]);
        StateResult::Round(r)
    }

    /// The state after the player to act has put `contribution` more chips
    /// in.
    fn contribute(&self, contribution: i64) -> (r: RoundState)
        requires
            within_limits(self@),
            -3 * CHIP_LIMIT <= contribution <= 3 * CHIP_LIMIT,
        ensures
            r@ == after_contribution(self@, contribution as int),
    {
        let active = self.active();
        let mut new_pips = self.pips;
        let mut new_stacks = self.stacks;
        new_stacks[active] = new_stacks[active] - contribution;
        new_pips[active] = new_pips[active] + contribution;
        let previous = self.duplicate();
        let r = RoundState {
            button: self.button + 1,
            street: self.street,
            pips: new_pips,
            stacks: new_stacks,
            hands: self.hands,
            deck: CardDeck(previous.duplicate().deck.0),
            previous: Some(Box::new(previous)),
        };
        assert(r.pips@ =~= self.pips@.update(active as int, (self.pips@[active as int] + contribution) as i64));
        assert(r.stacks@ =~= self.stacks@.update(
            active as int,
            (self.stacks@[active as int] - contribution) as i64,
        ));
        r
    }

    /// Advances the game tree by one action performed.
    ///
    /// A fold ends the round. A call of the first player to act posts the
    /// blinds; any other call matches the pips and ends the street. A check
    /// ends the street where both players have acted. A raise brings the
    /// pips of the player to the amount raised to.
    pub fn proceed(&self, action: Action) -> (r: StateResult)
        requires
            within_limits(self@),
            action matches Action::Raise(amt) ==> amt <= CHIP_LIMIT,
        ensures
            r@ == after_action(self@, action),
    {
        let active = self.active();
        match action {
            Action::Fold => {
                let delta = if active == 0 {
                    self.stacks[0] - STARTING_STACK
                } else {
                    STARTING_STACK - self.stacks[1]
                };
                let t = TerminalState { deltas: [delta, -delta], previous: self.duplicate() };
                assert(t.deltas@ =~= seq![delta, (-delta) as i64]);
                StateResult::Terminal(t)
            },
            Action::Call => {
                if self.button == 0 {
                    let previous = self.duplicate();
                    let r = RoundState {
                        button: 1,
                        street: 0,
                        pips: [BIG_BLIND, BIG_BLIND],
                        stacks: [STARTING_STACK - BIG_BLIND, STARTING_STACK - BIG_BLIND],
                        hands: self.hands,
                        deck: CardDeck(previous.duplicate().deck.0),
                        previous: Some(Box::new(previous)),
                    };
                    assert(r.pips@ =~= seq![BIG_BLIND, BIG_BLIND]);
                    assert(r.stacks@ =~= seq![
                        (STARTING_STACK - BIG_BLIND) as i64,
                        (STARTING_STACK - BIG_BLIND) as i64,
                    ]);
                    return StateResult::Round(r);
                }
                let added = self.pips[1 - active] - self.pips[active];
                let state = self.contribute(added);
                state.proceed_street()
            },
            Action::Check => {
                if (self.street == 0 && self.button > 0) || self.button > 1 {
                    // both players acted
                    return self.proceed_street();
                }
                // let opponent act
                StateResult::Round(self.contribute(0))
            },
            Action::Raise(amt) => {
                let added = amt as i64 - self.pips[active];
                StateResult::Round(self.contribute(added))
            },
        }
    }
}

impl Clone for RoundState {
    fn clone(&self) -> (r: RoundState)
        ensures
            r@ == self@,
    {
        self.duplicate()
    }
}

impl Clone for TerminalState {
    fn clone(&self) -> (t: TerminalState)
        ensures
            t@ == self@,
    {
        TerminalState { deltas: self.deltas, previous: self.previous.duplicate() }
    }
}

impl Clone for StateResult {
    fn clone(&self) -> (r: StateResult)
        ensures
            r@ == self@,
    {
        match self {
            StateResult::Round(r) => StateResult::Round(r.duplicate()),
            StateResult::Terminal(t) => StateResult::Terminal(
                TerminalState { deltas: t.deltas, previous: t.previous.duplicate() },
            ),
        }
    }
}

} // verus!
