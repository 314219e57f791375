//! Evidence from a showdown: what the outcome of two revealed hands says of
//! the order of the ranks.

use crate::engine::classify::{classify_no_straight, valid_hand};
use crate::engine::inference::Inference;
use crate::engine::probability::{accepts, updated, BeliefView, EngineView, SCALE};
use crate::engine::selection::highest;
use crate::engine::showdown::{HandCategory, ShowdownEngine, ShowdownHand};
use crate::skeleton::cards::{Card, CardValue};
use vstd::prelude::*;

verus! {

/// The certainty of evidence from two hands of the same group category.
pub const GROUP_CERTAINTY: i64 = 900000;

/// The certainty of evidence from two hands without a group.
pub const HIGH_CARD_CERTAINTY: i64 = 250000;

/// The rules that give evidence from a showdown.
#[derive(Debug, Copy, Clone, PartialEq, Eq, Structural)]
pub enum Rule {
    /// A pair beat a pair.
    PairPair,
    /// Three of a kind beat three of a kind.
    ThreeThree,
    /// Four of a kind beat four of a kind.
    FourFour,
    /// A full house beat a full house with another triple.
    FullHouseTriple,
    /// A full house beat a full house with the same triple.
    FullHousePair,
    /// A hand without a group beat a hand without a group.
    HighCard,
}

impl Rule {
    /// The name under which the rule gives its evidence.
    pub open spec fn name_text(self) -> Seq<char> {
        match self {
            Rule::PairPair => "pair -> pair"@,
            Rule::ThreeThree => "3k -> 3k"@,
            Rule::FourFour => "4k -> 4k"@,
            Rule::FullHouseTriple => "fh -> fh (ltv -> wtv)"@,
            Rule::FullHousePair => "fh -> fh (lpv -> wpv)"@,
            Rule::HighCard => "hc -> hc"@,
        }
    }

    /// The name under which the rule gives its evidence.
    pub fn name(&self) -> (text: &'static str)
        ensures
            text@ == self.name_text(),
            text@.len() > 0,
    {
        match self {
            Rule::PairPair => {
                proof {
                    reveal_strlit("pair -> pair");
                }
                "pair -> pair"
            },
            Rule::ThreeThree => {
                proof {
                    reveal_strlit("3k -> 3k");
                }
                "3k -> 3k"
            },
            Rule::FourFour => {
                proof {
                    reveal_strlit("4k -> 4k");
                }
                "4k -> 4k"
            },
            Rule::FullHouseTriple => {
                proof {
                    reveal_strlit("fh -> fh (ltv -> wtv)");
                }
                "fh -> fh (ltv -> wtv)"
            },
            Rule::FullHousePair => {
                proof {
                    reveal_strlit("fh -> fh (lpv -> wpv)");
                }
                "fh -> fh (lpv -> wpv)"
            },
            Rule::HighCard => {
                proof {
                    reveal_strlit("hc -> hc");
                }
                "hc -> hc"
            },
        }
    }
}

/// A claim that one rank is weaker than another.
#[derive(Debug, Copy, Clone, PartialEq, Eq, Structural)]
pub struct Claim {
    pub rule: Rule,
    pub weaker: CardValue,
    pub stronger: CardValue,
    pub certainty: i64,
}

/// The rule for two hands of one group category, if there is one.
pub open spec fn group_rule(c: HandCategory) -> Option<Rule> {
    match c {
        HandCategory::Pair => Some(Rule::PairPair),
        HandCategory::ThreeOfAKind => Some(Rule::ThreeThree),
        HandCategory::FourOfAKind => Some(Rule::FourFour),
        _ => None,
    }
}

/// The claims that follow where the hole cards `winner` beat the hole cards
/// `loser` on the board.
///
/// The two hands are classified without regard to straights. Two hands
/// without a group give a claim for each hole card of the winner over each
/// hole card of the loser. Two pairs, two threes of a kind or two fours of a
/// kind give one claim, of the strongest card of the winner's group over
/// that of the loser's. Two full houses give one claim, of the triples where
/// they differ and else of the pairs. Other hands give none.
pub open spec fn claims_of(o: Seq<CardValue>, winner: Seq<Card>, loser: Seq<Card>, board: Seq<Card>) -> Seq<Claim> {
    let w = classify_no_straight(o, winner + board);
    let l = classify_no_straight(o, loser + board);
    if w.category == HandCategory::HighCard && l.category == HandCategory::HighCard {
        seq![
            Claim {
                rule: Rule::HighCard,
                weaker: loser[0].value,
                stronger: winner[0].value,
                certainty: HIGH_CARD_CERTAINTY,
            },
            Claim {
                rule: Rule::HighCard,
                weaker: loser[1].value,
                stronger: winner[0].value,
                certainty: HIGH_CARD_CERTAINTY,
            },
            Claim {
                rule: Rule::HighCard,
                weaker: loser[0].value,
                stronger: winner[1].value,
                certainty: HIGH_CARD_CERTAINTY,
            },
            Claim {
                rule: Rule::HighCard,
                weaker: loser[1].value,
                stronger: winner[1].value,
                certainty: HIGH_CARD_CERTAINTY,
            },
        ]
    } else if w.category == l.category && group_rule(w.category) is Some {
        seq![
            Claim {
                rule: group_rule(w.category)->0,
                weaker: highest(o, l.cards).value,
                stronger: highest(o, w.cards).value,
                certainty: GROUP_CERTAINTY,
            },
        ]
    } else if w.category == HandCategory::FullHouse && l.category == HandCategory::FullHouse {
        if w.cards[0].value != l.cards[0].value {
            seq![
                Claim {
                    rule: Rule::FullHouseTriple,
                    weaker: l.cards[0].value,
                    stronger: w.cards[0].value,
                    certainty: GROUP_CERTAINTY,
                },
            ]
        } else {
            seq![
                Claim {
                    rule: Rule::FullHousePair,
                    weaker: l.cards[3].value,
                    stronger: w.cards[3].value,
                    certainty: GROUP_CERTAINTY,
                },
            ]
        }
    } else {
        Seq::empty()
    }
}

/// The claims that follow from a showdown in which the observer, who holds
/// `mine`, won or lost `delta` chips against `theirs`. A showdown without
/// gain or loss gives none.
pub open spec fn claims_for(
    o: Seq<CardValue>,
    mine: Seq<Card>,
    theirs: Seq<Card>,
    board: Seq<Card>,
    delta: int,
) -> Seq<Claim> {
    if delta > 0 {
        claims_of(o, mine, theirs, board)
    } else if delta < 0 {
        claims_of(o, theirs, mine, board)
    } else {
        Seq::empty()
    }
}

/// The hole cards followed by the board.
pub fn with_board(hole: &[Card; 2], board: &[Card]) -> (all: Vec<Card>)
    ensures
        all@ == hole@ + board@,
{
    let mut all: Vec<Card> = Vec::new();
    all.push(hole[0]);
    all.push(hole[1]);
    let mut i: usize = 0;
    assert(all@ =~= hole@ + board@.take(0));
    while i < board.len()
        invariant
            i <= board.len(),
            all@ == hole@ + board@.take(i as int),
        decreases board.len() - i,
    {
        all.push(board[i]);
        assert(board@.take(i as int + 1) =~= board@.take(i as int).push(board@[i as int]));
        assert(all@ =~= hole@ + board@.take(i as int + 1));
        i += 1;
    }
    assert(board@.take(board.len() as int) =~= board@);
    all
}

/// Tells whether the two hands with the board can be judged: each is a hand
/// of at most seven cards, none of them twice.
pub fn can_judge(mine: &[Card; 2], theirs: &[Card; 2], board: &[Card]) -> (ok: bool)
    ensures
        ok == (valid_hand(mine@ + board@) && valid_hand(theirs@ + board@)),
{
    if board.len() > 5 {
        return false;
    }
    let a = with_board(mine, board);
    let b = with_board(theirs, board);
    ShowdownEngine::verify_hand(a.as_slice()) && ShowdownEngine::verify_hand(b.as_slice())
}

/// The claims where the hole cards `winner` beat the hole cards `loser`.
fn claims_between(engine: &ShowdownEngine, winner: &[Card; 2], loser: &[Card; 2], board: &[Card]) -> (out: Vec<Claim>)
    requires
        valid_hand(winner@ + board@),
        valid_hand(loser@ + board@),
    ensures
        out@ == claims_of(engine.ordering(), winner@, loser@, board@),
{
    let all_w = with_board(winner, board);
    let all_l = with_board(loser, board);
    let w = engine.process_hand_no_straight(all_w.as_slice());
    let l = engine.process_hand_no_straight(all_l.as_slice());
    let cw = w.category();
    let cl = l.category();
    let mut out: Vec<Claim> = Vec::new();
    match (cw, cl) {
        (HandCategory::HighCard, HandCategory::HighCard) => {
            out.push(
                Claim {
                    rule: Rule::HighCard,
                    weaker: loser[0].value,
                    stronger: winner[0].value,
                    certainty: HIGH_CARD_CERTAINTY,
                },
            );
            out.push(
                Claim {
                    rule: Rule::HighCard,
                    weaker: loser[1].value,
                    stronger: winner[0].value,
                    certainty: HIGH_CARD_CERTAINTY,
                },
            );
            out.push(
                Claim {
                    rule: Rule::HighCard,
                    weaker: loser[0].value,
                    stronger: winner[1].value,
                    certainty: HIGH_CARD_CERTAINTY,
                },
            );
            out.push(
                Claim {
                    rule: Rule::HighCard,
                    weaker: loser[1].value,
                    stronger: winner[1].value,
                    certainty: HIGH_CARD_CERTAINTY,
                },
            );
            assert(out@ =~= claims_of(engine.ordering(), winner@, loser@, board@));
        },
        (HandCategory::Pair, HandCategory::Pair) => {
            out.push(group_claim(engine, Rule::PairPair, &w, &l));
            assert(out@ =~= claims_of(engine.ordering(), winner@, loser@, board@));
        },
        (HandCategory::ThreeOfAKind, HandCategory::ThreeOfAKind) => {
            out.push(group_claim(engine, Rule::ThreeThree, &w, &l));
            assert(out@ =~= claims_of(engine.ordering(), winner@, loser@, board@));
        },
        (HandCategory::FourOfAKind, HandCategory::FourOfAKind) => {
            out.push(group_claim(engine, Rule::FourFour, &w, &l));
            assert(out@ =~= claims_of(engine.ordering(), winner@, loser@, board@));
        },
        (HandCategory::FullHouse, HandCategory::FullHouse) => {
            let wc = w.cards();
            let lc = l.cards();
            if wc[0].value != lc[0].value {
                out.push(
                    Claim {
                        rule: Rule::FullHouseTriple,
                        weaker: lc[0].value,
                        stronger: wc[0].value,
                        certainty: GROUP_CERTAINTY,
                    },
                );
            } else {
                out.push(
                    Claim {
                        rule: Rule::FullHousePair,
                        weaker: lc[3].value,
                        stronger: wc[3].value,
                        certainty: GROUP_CERTAINTY,
                    },
                );
            }
            assert(out@ =~= claims_of(engine.ordering(), winner@, loser@, board@));
        },
        _ => {
            assert(out@ =~= claims_of(engine.ordering(), winner@, loser@, board@));
        },
    }
    out
}

/// The claim of the strongest card of the winner's group over that of the
/// loser's.
fn group_claim(engine: &ShowdownEngine, rule: Rule, w: &ShowdownHand, l: &ShowdownHand) -> (c: Claim)
    requires
        w@.cards.len() > 0,
        l@.cards.len() > 0,
    ensures
        c == (Claim {
            rule,
            weaker: highest(engine.ordering(), l@.cards).value,
            stronger: highest(engine.ordering(), w@.cards).value,
            certainty: GROUP_CERTAINTY,
        }),
{
    let wc = w.cards();
    let lc = l.cards();
    Claim {
        rule,
        weaker: engine.highest_card(lc.as_slice()).value,
        stronger: engine.highest_card(wc.as_slice()).value,
        certainty: GROUP_CERTAINTY,
    }
}

/// The claims that follow from a showdown in which the observer, who holds
/// `mine`, won or lost `delta` chips against `theirs`.
pub fn derive_claims(engine: &ShowdownEngine, mine: &[Card; 2], theirs: &[Card; 2], board: &[Card], delta: i64) -> (out: Vec<Claim>)
    requires
        valid_hand(mine@ + board@),
        valid_hand(theirs@ + board@),
    ensures
        out@ == claims_for(engine.ordering(), mine@, theirs@, board@, delta as int),
{
    if delta > 0 {
        claims_between(engine, mine, theirs, board)
    } else if delta < 0 {
        claims_between(engine, theirs, mine, board)
    } else {
        Vec::new()
    }
}

/// The beliefs after the first `n` claims were submitted in turn.
pub open spec fn beliefs_after(v: EngineView, claims: Seq<Claim>, n: nat) -> Seq<BeliefView>
    decreases n,
{
    if n == 0 {
        v.beliefs
    } else {
        let before = beliefs_after(v, claims, (n - 1) as nat);
        let c = claims[n - 1];
        if accepts(v, c.rule.name_text(), c.weaker, c.stronger, c.certainty as int) {
            updated(before, c.rule.name_text(), c.weaker, c.stronger, c.certainty as int)
        } else {
            before
        }
    }
}

/// How many of the first `n` claims are taken.
pub open spec fn taken_of(v: EngineView, claims: Seq<Claim>, n: nat) -> nat
    decreases n,
{
    if n == 0 {
        0
    } else {
        let c = claims[n - 1];
        taken_of(v, claims, (n - 1) as nat) + if accepts(
            v,
            c.rule.name_text(),
            c.weaker,
            c.stronger,
            c.certainty as int,
        ) {
            1nat
        } else {
            0nat
        }
    }
}

impl Inference {
    /// Submits each of the claims as evidence and tells how many were taken.
    pub fn submit_claims(&mut self, claims: &Vec<Claim>) -> (taken: usize)
        requires
            old(self).wf(),
            forall|i: int| 0 <= i < claims.len() ==> -SCALE < (#[trigger] claims@[i]).certainty < SCALE,
        ensures
            final(self).wf(),
            taken == taken_of(old(self).beliefs(), claims@, claims.len() as nat),
            final(self).beliefs().beliefs == beliefs_after(
                old(self).beliefs(),
                claims@,
                claims.len() as nat,
            ),
            final(self).beliefs().denied == old(self).beliefs().denied,
            final(self).derived() == old(self).derived(),
            final(self).chosen() == old(self).chosen(),
            final(self).stale() == (old(self).stale() || taken > 0),
    {
        let ghost start = self.beliefs();
        let mut taken: usize = 0;
        let mut i: usize = 0;
        while i < claims.len()
            invariant
                i <= claims.len(),
                taken <= i,
                self.wf(),
                start == old(self).beliefs(),
                forall|k: int| 0 <= k < claims.len() ==> -SCALE < (#[trigger] claims@[k]).certainty < SCALE,
                taken == taken_of(start, claims@, i as nat),
                self.beliefs().beliefs == beliefs_after(start, claims@, i as nat),
                self.beliefs().denied == start.denied,
                self.beliefs().unresolved == start.unresolved,
                self.beliefs().retained == start.retained,
                self.derived() == old(self).derived(),
                self.chosen() == old(self).chosen(),
                self.stale() == (old(self).stale() || taken > 0),
            decreases claims.len() - i,
        {
            let c = claims[i];
            let ghost now = self.beliefs();
            proof {
                // whether evidence is taken depends on the ignored rules alone
                assert(accepts(now, c.rule.name_text(), c.weaker, c.stronger, c.certainty as int)
                    == accepts(start, c.rule.name_text(), c.weaker, c.stronger, c.certainty as int));
            }
            if self.submit_evidence(c.rule.name(), c.weaker, c.stronger, c.certainty) {
                taken += 1;
            }
            i += 1;
        }
        taken
    }
}

} // verus!
