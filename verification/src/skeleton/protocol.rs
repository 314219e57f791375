//! The clauses that the game server sends: a letter, and after it what the
//! letter calls for, a number or cards.

use crate::skeleton::cards::{suit_of_byte, value_of_byte, Card, CardHand, CardSuit, CardValue};
use vstd::prelude::*;
use vstd::string::StringSliceAdditionalSpecFns;

verus! {

/// What the server tells.
#[derive(Debug, Clone)]
pub enum ServerAction {
    /// `T`: the time left on the game clock follows.
    SetGameClock,
    /// `P`: the index of this player.
    SetPlayerIndex(usize),
    /// `H`: the two cards of this player.
    SetPlayerHand(CardHand),
    /// `F`: a player folds.
    PlayFold,
    /// `C`: a player calls.
    PlayCall,
    /// `K`: a player checks.
    PlayCheck,
    /// `R`: a player raises to the amount.
    PlayRaise(u32),
    /// `B`: the cards on the board.
    UpdateDeck(Vec<Card>),
    /// `O`: the two cards of the opponent.
    RevealOpponentHand(CardHand),
    /// `D`: the chips won or lost in the round.
    Delta(i32),
    /// `Q`: the game is over.
    Quit,
}

/// Why a clause is not understood.
#[derive(Debug, Copy, Clone, PartialEq, Eq, Structural)]
pub enum ProtocolError {
    /// The clause is empty.
    Empty,
    /// The letter stands for nothing.
    UnknownCommand(u8),
    /// What follows the letter is not the number called for.
    BadNumber,
    /// What follows the letter is not cards separated by commas.
    BadCards,
    /// A hand does not have two cards.
    NotTwoCards,
}

/// What the server tells, as mathematics.
pub enum ServerView {
    SetGameClock,
    SetPlayerIndex(int),
    SetPlayerHand(CardHand),
    PlayFold,
    PlayCall,
    PlayCheck,
    PlayRaise(int),
    UpdateDeck(Seq<Card>),
    RevealOpponentHand(CardHand),
    Delta(int),
    Quit,
}

impl View for ServerAction {
    type V = ServerView;

    open spec fn view(&self) -> ServerView {
        match self {
            ServerAction::SetGameClock => ServerView::SetGameClock,
            ServerAction::SetPlayerIndex(i) => ServerView::SetPlayerIndex(*i as int),
            ServerAction::SetPlayerHand(h) => ServerView::SetPlayerHand(*h),
            ServerAction::PlayFold => ServerView::PlayFold,
            ServerAction::PlayCall => ServerView::PlayCall,
            ServerAction::PlayCheck => ServerView::PlayCheck,
            ServerAction::PlayRaise(n) => ServerView::PlayRaise(*n as int),
            ServerAction::UpdateDeck(d) => ServerView::UpdateDeck(d@),
            ServerAction::RevealOpponentHand(h) => ServerView::RevealOpponentHand(*h),
            ServerAction::Delta(d) => ServerView::Delta(*d as int),
            ServerAction::Quit => ServerView::Quit,
        }
    }
}

/// Whether the byte is a decimal digit.
pub open spec fn is_digit(b: u8) -> bool {
    48 <= b <= 57
}

/// The number that the digits write, or `None` where a byte is no digit.
pub open spec fn digits_value(s: Seq<u8>) -> Option<nat>
    decreases s.len(),
{
    if s.len() == 0 {
        Some(0)
    } else {
        match digits_value(s.drop_last()) {
            Some(v) => if is_digit(s.last()) {
                Some(v * 10 + (s.last() - 48) as nat)
            } else {
                None
            },
            None => None,
        }
    }
}

/// The whole number that the text writes: digits, with a sign before them
/// or without. `None` where it writes none.
pub open spec fn number_value(s: Seq<u8>) -> Option<int> {
    if s.len() == 0 {
        None
    } else if s[0] == 45 {
        if s.len() == 1 {
            None
        } else {
            match digits_value(s.skip(1)) {
                Some(v) => Some(-(v as int)),
                None => None,
            }
        }
    } else if s[0] == 43 {
        if s.len() == 1 {
            None
        } else {
            match digits_value(s.skip(1)) {
                Some(v) => Some(v as int),
                None => None,
            }
        }
    } else {
        match digits_value(s) {
            Some(v) => Some(v as int),
            None => None,
        }
    }
}

/// The number that digits write grows with every digit.
proof fn lemma_digits_grow(s: Seq<u8>, n: int)
    requires
        0 <= n <= s.len(),
        digits_value(s) is Some,
    ensures
        digits_value(s.take(n)) is Some,
        digits_value(s.take(n))->0 <= digits_value(s)->0,
    decreases s.len() - n,
{
    if n == s.len() {
        assert(s.take(n) =~= s);
    } else {
        lemma_digits_grow(s, n + 1);
        assert(s.take(n + 1).drop_last() =~= s.take(n));
    }
}

/// Where a byte is no digit, the digits write no number.
proof fn lemma_digits_stop(s: Seq<u8>, n: int)
    requires
        0 <= n < s.len(),
        !is_digit(s[n]),
    ensures
        digits_value(s) is None,
    decreases s.len(),
{
    if n < s.len() - 1 {
        lemma_digits_stop(s.drop_last(), n);
    }
}

/// Reads digits as a number of at most `limit`.
fn read_digits(s: &[u8], from: usize, limit: u64) -> (r: Option<u64>)
    requires
        from <= s.len(),
        limit <= 1000000000000,
    ensures
        r == match digits_value(s@.skip(from as int)) {
            Some(v) => if v <= limit {
                Some(v as u64)
            } else {
                None
            },
            None => None,
        },
{
    let ghost t = s@.skip(from as int);
    let mut value: u64 = 0;
    let mut i: usize = from;
    assert(t.take(0) =~= Seq::<u8>::empty());
    while i < s.len()
        invariant
            from <= i <= s.len(),
            t == s@.skip(from as int),
            limit <= 1000000000000,
            digits_value(t.take(i - from)) == Some(value as nat),
            value <= limit,
        decreases s.len() - i,
    {
        let b = s[i];
        assert(t[i - from] == b);
        assert(t.take(i - from + 1).drop_last() =~= t.take(i - from));
        if b < 48 || b > 57 {
            proof {
                lemma_digits_stop(t, i - from);
            }
            return None;
        }
        let next = value * 10 + (b - 48) as u64;
        if next > limit {
            proof {
                if digits_value(t) is Some {
                    lemma_digits_grow(t, i - from + 1);
                }
            }
            return None;
        }
        value = next;
        i += 1;
    }
    assert(t.take(s.len() - from) =~= t);
    Some(value)
}

/// Reads a whole number between `-limit` and `limit`.
pub fn read_number(s: &[u8], limit: u64) -> (r: Option<i64>)
    requires
        limit <= 1000000000000,
    ensures
        r == match number_value(s@) {
            Some(v) => if -limit <= v <= limit {
                Some(v as i64)
            } else {
                None
            },
            None => None,
        },
{
    if s.len() == 0 {
        return None;
    }
    if s[0] == 45 {
        if s.len() == 1 {
            return None;
        }
        match read_digits(s, 1, limit) {
            Some(v) => Some(-(v as i64)),
            None => None,
        }
    } else if s[0] == 43 {
        if s.len() == 1 {
            return None;
        }
        match read_digits(s, 1, limit) {
            Some(v) => Some(v as i64),
            None => None,
        }
    } else {
        assert(s@.skip(0) =~= s@);
        match read_digits(s, 0, limit) {
            Some(v) => Some(v as i64),
            None => None,
        }
    }
}

/// The cards that the text writes: cards of two bytes each, with a comma
/// between two cards; no cards where the text is empty. `None` where the
/// text writes none.
pub open spec fn cards_value(s: Seq<u8>) -> Option<Seq<Card>>
    decreases s.len(),
{
    if s.len() == 0 {
        Some(Seq::empty())
    } else if s.len() == 2 {
        match (value_of_byte(s[0]), suit_of_byte(s[1])) {
            (Some(value), Some(suit)) => Some(seq![Card { suit, value }]),
            _ => None,
        }
    } else if s.len() >= 5 && s[s.len() - 3] == 44 {
        match (
            cards_value(s.take(s.len() - 3)),
            value_of_byte(s[s.len() - 2]),
            suit_of_byte(s[s.len() - 1]),
        ) {
            (Some(before), Some(value), Some(suit)) => if before.len() > 0 {
                Some(before.push(Card { suit, value }))
            } else {
                None
            },
            _ => None,
        }
    } else {
        None
    }
}

/// Reads cards separated by commas.
pub fn read_cards(s: &[u8]) -> (r: Option<Vec<Card>>)
    ensures
        match cards_value(s@) {
            Some(cards) => r is Some && r->0@ == cards,
            None => r is None,
        },
{
    let mut out: Vec<Card> = Vec::new();
    if s.len() == 0 {
        return Some(out);
    }
    if s.len() % 3 != 2 {
        proof {
            if cards_value(s@) is Some {
                lemma_cards_length(s@);
            }
        }
        return None;
    }
    assert(usize::MAX == 0xffff_ffff || usize::MAX == 0xffff_ffff_ffff_ffff);
    let mut i: usize = 0;
    assert(s@.take(0) =~= Seq::<u8>::empty());
    while i < s.len()
        invariant
            i <= s.len() + 1,
            s.len() < usize::MAX,
            i % 3 == 0,
            s.len() % 3 == 2,
            i == 0 ==> out.len() == 0,
            i > 0 ==> cards_value(s@.take(i - 1)) == Some(out@) && out.len() > 0,
        decreases s.len() + 1 - i,
    {
        let ghost part = s@.take(i + 2);
        if i > 0 && s[i - 1] != 44 {
            proof {
                lemma_cards_stop(s@, i + 2);
            }
            return None;
        }
        match (CardValue::from_byte(s[i]), CardSuit::from_byte(s[i + 1])) {
            (Some(value), Some(suit)) => {
                out.push(Card { suit, value });
                proof {
                    if i > 0 {
                        assert(part.take(part.len() - 3) =~= s@.take(i - 1));
                    }
                }
            },
            _ => {
                proof {
                    lemma_cards_stop(s@, i + 2);
                }
                return None;
            },
        }
        i += 3;
    }
    assert(s@.take(s.len() as int) =~= s@);
    Some(out)
}

/// Text that writes cards has two bytes for the first card and three for
/// each card after it.
proof fn lemma_cards_length(s: Seq<u8>)
    requires
        cards_value(s) is Some,
        s.len() > 0,
    ensures
        s.len() % 3 == 2,
    decreases s.len(),
{
    if s.len() != 2 {
        let before = s.take(s.len() - 3);
        if before.len() > 0 {
            lemma_cards_length(before);
        }
    }
}

/// Text writes no cards where a part of it that ends with a card writes
/// none.
proof fn lemma_cards_stop(s: Seq<u8>, n: int)
    requires
        2 <= n <= s.len(),
        n % 3 == 2,
        s.len() % 3 == 2,
        cards_value(s.take(n)) is None,
    ensures
        cards_value(s) is None,
    decreases s.len() - n,
{
    if n == s.len() {
        assert(s.take(n) =~= s);
    } else {
        assert(s.take(s.len() - 3).take(n) =~= s.take(n));
        if s.len() - 3 > n {
            lemma_cards_stop(s.take(s.len() - 3), n);
        } else {
            assert(s.take(s.len() - 3) =~= s.take(n));
        }
    }
}

/// What a clause tells: the first byte is the letter, and the rest is what
/// the letter calls for.
pub open spec fn clause_value(s: Seq<u8>) -> Result<ServerView, ProtocolError> {
    if s.len() == 0 {
        Err(ProtocolError::Empty)
    } else {
        let arg = s.skip(1);
        if s[0] == 84 {
            Ok(ServerView::SetGameClock)
        } else if s[0] == 80 {
            match number_value(arg) {
                Some(v) => if 0 <= v <= 1000000 {
                    Ok(ServerView::SetPlayerIndex(v))
                } else {
                    Err(ProtocolError::BadNumber)
                },
                None => Err(ProtocolError::BadNumber),
            }
        } else if s[0] == 72 || s[0] == 79 {
            match cards_value(arg) {
                Some(cards) => if cards.len() == 2 {
                    if s[0] == 72 {
                        Ok(ServerView::SetPlayerHand(CardHand([cards[0], cards[1]])))
                    } else {
                        Ok(ServerView::RevealOpponentHand(CardHand([cards[0], cards[1]])))
                    }
                } else {
                    Err(ProtocolError::NotTwoCards)
                },
                None => Err(ProtocolError::BadCards),
            }
        } else if s[0] == 70 {
            Ok(ServerView::PlayFold)
        } else if s[0] == 67 {
            Ok(ServerView::PlayCall)
        } else if s[0] == 75 {
            Ok(ServerView::PlayCheck)
        } else if s[0] == 82 {
            match number_value(arg) {
                Some(v) => if 0 <= v <= 4000000000 {
                    Ok(ServerView::PlayRaise(v))
                } else {
                    Err(ProtocolError::BadNumber)
                },
                None => Err(ProtocolError::BadNumber),
            }
        } else if s[0] == 66 {
            match cards_value(arg) {
                Some(cards) => Ok(ServerView::UpdateDeck(cards)),
                None => Err(ProtocolError::BadCards),
            }
        } else if s[0] == 68 {
            match number_value(arg) {
                Some(v) => if -2000000000 <= v <= 2000000000 {
                    Ok(ServerView::Delta(v))
                } else {
                    Err(ProtocolError::BadNumber)
                },
                None => Err(ProtocolError::BadNumber),
            }
        } else if s[0] == 81 {
            Ok(ServerView::Quit)
        } else {
            Err(ProtocolError::UnknownCommand(s[0]))
        }
    }
}

/// The bytes of a slice from `from` on.
fn tail_of(s: &[u8], from: usize) -> (out: Vec<u8>)
    requires
        from <= s.len(),
    ensures
        out@ == s@.skip(from as int),
{
    let mut out: Vec<u8> = Vec::new();
    let mut i: usize = from;
    assert(s@.skip(from as int).take(0) =~= Seq::<u8>::empty());
    while i < s.len()
        invariant
            from <= i <= s.len(),
            out@ == s@.skip(from as int).take(i - from),
        decreases s.len() - i,
    {
        out.push(s[i]);
        assert(s@.skip(from as int).take(i - from + 1) =~= s@.skip(from as int).take(i - from).push(
            s@[i as int],
        ));
        i += 1;
    }
    assert(s@.skip(from as int).take(s.len() - from) =~= s@.skip(from as int));
    out
}

/// Reads a clause of the server.
pub fn parse_clause(clause: &str) -> (r: Result<ServerAction, ProtocolError>)
    ensures
        match clause_value(clause.spec_bytes()) {
            Ok(v) => r is Ok && r->Ok_0@ == v,
            Err(e) => r == Err::<ServerAction, ProtocolError>(e),
        },
{
    let s = clause.as_bytes();
    if s.len() == 0 {
        return Err(ProtocolError::Empty);
    }
    let letter = s[0];
    let arg = tail_of(s, 1);
    if letter == 84 {
        Ok(ServerAction::SetGameClock)
    } else if letter == 80 {
        match read_number(arg.as_slice(), 1000000) {
            Some(v) => if v >= 0 {
                Ok(ServerAction::SetPlayerIndex(v as usize))
            } else {
                Err(ProtocolError::BadNumber)
            },
            None => Err(ProtocolError::BadNumber),
        }
    } else if letter == 72 || letter == 79 {
        match read_cards(arg.as_slice()) {
            Some(cards) => if cards.len() == 2 {
                let hand = CardHand([cards[0], cards[1]]);
                if letter == 72 {
                    Ok(ServerAction::SetPlayerHand(hand))
                } else {
                    Ok(ServerAction::RevealOpponentHand(hand))
                }
            } else {
                Err(ProtocolError::NotTwoCards)
            },
            None => Err(ProtocolError::BadCards),
        }
    } else if letter == 70 {
        Ok(ServerAction::PlayFold)
    } else if letter == 67 {
        Ok(ServerAction::PlayCall)
    } else if letter == 75 {
        Ok(ServerAction::PlayCheck)
    } else if letter == 82 {
        match read_number(arg.as_slice(), 4000000000) {
            Some(v) => if v >= 0 {
                Ok(ServerAction::PlayRaise(v as u32))
            } else {
                Err(ProtocolError::BadNumber)
            },
            None => Err(ProtocolError::BadNumber),
        }
    } else if letter == 66 {
        match read_cards(arg.as_slice()) {
            Some(cards) => Ok(ServerAction::UpdateDeck(cards)),
            None => Err(ProtocolError::BadCards),
        }
    } else if letter == 68 {
        match read_number(arg.as_slice(), 2000000000) {
            Some(v) => Ok(ServerAction::Delta(v as i32)),
            None => Err(ProtocolError::BadNumber),
        }
    } else if letter == 81 {
        Ok(ServerAction::Quit)
    } else {
        Err(ProtocolError::UnknownCommand(letter))
    }
}

} // verus!
