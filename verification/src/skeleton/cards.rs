//! Ranks, suits and cards, and their conversion from and to the standard
//! two-character text form (`"Tc"`, `"2h"`).

use std::str::FromStr;
use vstd::string::StringSliceAdditionalSpecFns;
use vstd::prelude::*;

verus! {

/// One of the four suits.
#[derive(Debug, Copy, Clone, Hash, PartialEq, Eq, Structural)]
pub enum CardSuit {
    Hearts,
    Diamonds,
    Spades,
    Clubs,
}

/// One of the thirteen ranks. The order in which the variants are declared is
/// the print order only; it says nothing about strength.
#[derive(Debug, Copy, Clone, Hash, PartialEq, Eq, Structural)]
pub enum CardValue {
    Two,
    Three,
    Four,
    Five,
    Six,
    Seven,
    Eight,
    Nine,
    Ten,
    Jack,
    Queen,
    King,
    Ace,
}

/// A card: a rank in a suit.
#[derive(Debug, Copy, Clone, Hash, PartialEq, Eq, Structural)]
pub struct Card {
    pub suit: CardSuit,
    pub value: CardValue,
}

/// The two cards that a player holds.
#[derive(Debug, Copy, Clone, PartialEq, Eq)]
pub struct CardHand(pub [Card; 2]);

/// The cards on the board.
#[derive(Debug, Clone, PartialEq, Eq)]
pub struct CardDeck(pub Vec<Card>);

/// Why a piece of text is not a suit, a rank or a card.
#[derive(Debug)]
pub enum CardConversionError {
    InvalidSuit(char),
    InvalidValue(char),
    Empty,
    TooLong(String),
    NotACard(String),
}

/// The suit that a byte of text stands for.
pub open spec fn suit_of_byte(b: u8) -> Option<CardSuit> {
    if b == 0x68 {
        Some(CardSuit::Hearts)
    } else if b == 0x64 {
        Some(CardSuit::Diamonds)
    } else if b == 0x73 {
        Some(CardSuit::Spades)
    } else if b == 0x63 {
        Some(CardSuit::Clubs)
    } else {
        None
    }
}

/// The rank that a byte of text stands for.
pub open spec fn value_of_byte(b: u8) -> Option<CardValue> {
    if b == 0x32 {
        Some(CardValue::Two)
    } else if b == 0x33 {
        Some(CardValue::Three)
    } else if b == 0x34 {
        Some(CardValue::Four)
    } else if b == 0x35 {
        Some(CardValue::Five)
    } else if b == 0x36 {
        Some(CardValue::Six)
    } else if b == 0x37 {
        Some(CardValue::Seven)
    } else if b == 0x38 {
        Some(CardValue::Eight)
    } else if b == 0x39 {
        Some(CardValue::Nine)
    } else if b == 0x54 {
        Some(CardValue::Ten)
    } else if b == 0x4a {
        Some(CardValue::Jack)
    } else if b == 0x51 {
        Some(CardValue::Queen)
    } else if b == 0x4b {
        Some(CardValue::King)
    } else if b == 0x41 {
        Some(CardValue::Ace)
    } else {
        None
    }
}

/// The thirteen ranks in print order.
pub open spec fn canonical_values() -> Seq<CardValue> {
    seq![
        CardValue::Two,
        CardValue::Three,
        CardValue::Four,
        CardValue::Five,
        CardValue::Six,
        CardValue::Seven,
        CardValue::Eight,
        CardValue::Nine,
        CardValue::Ten,
        CardValue::Jack,
        CardValue::Queen,
        CardValue::King,
        CardValue::Ace,
    ]
}

impl CardSuit {
    /// The byte that prints this suit.
    pub open spec fn byte(self) -> u8 {
        match self {
            CardSuit::Hearts => 0x68,
            CardSuit::Diamonds => 0x64,
            CardSuit::Spades => 0x73,
            CardSuit::Clubs => 0x63,
        }
    }

    /// Reads a suit from one byte.
    pub fn from_byte(b: u8) -> (r: Option<CardSuit>)
        ensures
            r == suit_of_byte(b),
    {
        if b == 0x68 {
            Some(CardSuit::Hearts)
        } else if b == 0x64 {
            Some(CardSuit::Diamonds)
        } else if b == 0x73 {
            Some(CardSuit::Spades)
        } else if b == 0x63 {
            Some(CardSuit::Clubs)
        } else {
            None
        }
    }

    /// The byte that prints this suit: `h`, `d`, `s` or `c`.
    pub fn to_byte(&self) -> (b: u8)
        ensures
            b == self.byte(),
            suit_of_byte(b) == Some(*self),
    {
        match self {
            CardSuit::Hearts => 0x68,
            CardSuit::Diamonds => 0x64,
            CardSuit::Spades => 0x73,
            CardSuit::Clubs => 0x63,
        }
    }

    /// Reads a suit from text that is exactly one of `h`, `d`, `s`, `c`.
    ///
    /// Text of more than one byte is `TooLong`, empty text is `Empty`, and
    /// any other single byte is `InvalidSuit` with that character.
    pub fn parse(s: &str) -> (r: Result<CardSuit, CardConversionError>)
        ensures
            s.spec_bytes().len() > 1 ==> (r matches Err(CardConversionError::TooLong(t)) && t@
                == s@),
            s.spec_bytes().len() == 0 ==> r == Err::<CardSuit, CardConversionError>(
                CardConversionError::Empty,
            ),
            s.spec_bytes().len() == 1 ==> (match suit_of_byte(s.spec_bytes()[0]) {
                Some(suit) => r == Ok::<CardSuit, CardConversionError>(suit),
                None => r == Err::<CardSuit, CardConversionError>(
                    CardConversionError::InvalidSuit(s.spec_bytes()[0] as char),
                ),
            }),
    {
        let bytes = s.as_bytes();
        if bytes.len() > 1 {
            return Err(CardConversionError::TooLong(s.to_owned()));
        }
        if bytes.len() == 0 {
            return Err(CardConversionError::Empty);
        }
        let b = bytes[0];
        match CardSuit::from_byte(b) {
            Some(suit) => Ok(suit),
            None => Err(CardConversionError::InvalidSuit(b as char)),
        }
    }
}

impl CardValue {
    /// Where this rank stands in print order: 0 for `Two`, 12 for `Ace`.
    pub open spec fn index(self) -> int {
        match self {
            CardValue::Two => 0,
            CardValue::Three => 1,
            CardValue::Four => 2,
            CardValue::Five => 3,
            CardValue::Six => 4,
            CardValue::Seven => 5,
            CardValue::Eight => 6,
            CardValue::Nine => 7,
            CardValue::Ten => 8,
            CardValue::Jack => 9,
            CardValue::Queen => 10,
            CardValue::King => 11,
            CardValue::Ace => 12,
        }
    }

    /// The byte that prints this rank.
    pub open spec fn byte(self) -> u8 {
        match self {
            CardValue::Two => 0x32,
            CardValue::Three => 0x33,
            CardValue::Four => 0x34,
            CardValue::Five => 0x35,
            CardValue::Six => 0x36,
            CardValue::Seven => 0x37,
            CardValue::Eight => 0x38,
            CardValue::Nine => 0x39,
            CardValue::Ten => 0x54,
            CardValue::Jack => 0x4a,
            CardValue::Queen => 0x51,
            CardValue::King => 0x4b,
            CardValue::Ace => 0x41,
        }
    }

    /// Where this rank stands in print order.
    pub fn canonical_index(&self) -> (i: usize)
        ensures
            i == self.index(),
            i < 13,
            canonical_values()[i as int] == *self,
    {
        match self {
            CardValue::Two => 0,
            CardValue::Three => 1,
            CardValue::Four => 2,
            CardValue::Five => 3,
            CardValue::Six => 4,
            CardValue::Seven => 5,
            CardValue::Eight => 6,
            CardValue::Nine => 7,
            CardValue::Ten => 8,
            CardValue::Jack => 9,
            CardValue::Queen => 10,
            CardValue::King => 11,
            CardValue::Ace => 12,
        }
    }

    /// The rank at a place in print order.
    pub fn from_canonical_index(i: usize) -> (v: CardValue)
        requires
            i < 13,
        ensures
            v.index() == i,
            v == canonical_values()[i as int],
    {
        if i == 0 {
            CardValue::Two
        } else if i == 1 {
            CardValue::Three
        } else if i == 2 {
            CardValue::Four
        } else if i == 3 {
            CardValue::Five
        } else if i == 4 {
            CardValue::Six
        } else if i == 5 {
            CardValue::Seven
        } else if i == 6 {
            CardValue::Eight
        } else if i == 7 {
            CardValue::Nine
        } else if i == 8 {
            CardValue::Ten
        } else if i == 9 {
            CardValue::Jack
        } else if i == 10 {
            CardValue::Queen
        } else if i == 11 {
            CardValue::King
        } else {
            CardValue::Ace
        }
    }

    /// Reads a rank from one byte.
    pub fn from_byte(b: u8) -> (r: Option<CardValue>)
        ensures
            r == value_of_byte(b),
    {
        if b == 0x32 {
            Some(CardValue::Two)
        } else if b == 0x33 {
            Some(CardValue::Three)
        } else if b == 0x34 {
            Some(CardValue::Four)
        } else if b == 0x35 {
            Some(CardValue::Five)
        } else if b == 0x36 {
            Some(CardValue::Six)
        } else if b == 0x37 {
            Some(CardValue::Seven)
        } else if b == 0x38 {
            Some(CardValue::Eight)
        } else if b == 0x39 {
            Some(CardValue::Nine)
        } else if b == 0x54 {
            Some(CardValue::Ten)
        } else if b == 0x4a {
            Some(CardValue::Jack)
        } else if b == 0x51 {
            Some(CardValue::Queen)
        } else if b == 0x4b {
            Some(CardValue::King)
        } else if b == 0x41 {
            Some(CardValue::Ace)
        } else {
            None
        }
    }

    /// The byte that prints this rank: a digit, or one of `T`, `J`, `Q`, `K`, `A`.
    pub fn to_byte(&self) -> (b: u8)
        ensures
            b == self.byte(),
            value_of_byte(b) == Some(*self),
    {
        match self {
            CardValue::Two => 0x32,
            CardValue::Three => 0x33,
            CardValue::Four => 0x34,
            CardValue::Five => 0x35,
            CardValue::Six => 0x36,
            CardValue::Seven => 0x37,
            CardValue::Eight => 0x38,
            CardValue::Nine => 0x39,
            CardValue::Ten => 0x54,
            CardValue::Jack => 0x4a,
            CardValue::Queen => 0x51,
            CardValue::King => 0x4b,
            CardValue::Ace => 0x41,
        }
    }

    /// Reads a rank from text that is exactly one of `2`..`9`, `T`, `J`, `Q`,
    /// `K`, `A`.
    ///
    /// Text of more than one byte is `TooLong`, empty text is `Empty`, and
    /// any other single byte is `InvalidValue` with that character.
    pub fn parse(s: &str) -> (r: Result<CardValue, CardConversionError>)
        ensures
            s.spec_bytes().len() > 1 ==> (r matches Err(CardConversionError::TooLong(t)) && t@
                == s@),
            s.spec_bytes().len() == 0 ==> r == Err::<CardValue, CardConversionError>(
                CardConversionError::Empty,
            ),
            s.spec_bytes().len() == 1 ==> (match value_of_byte(s.spec_bytes()[0]) {
                Some(value) => r == Ok::<CardValue, CardConversionError>(value),
                None => r == Err::<CardValue, CardConversionError>(
                    CardConversionError::InvalidValue(s.spec_bytes()[0] as char),
                ),
            }),
    {
        let bytes = s.as_bytes();
        if bytes.len() > 1 {
            return Err(CardConversionError::TooLong(s.to_owned()));
        }
        if bytes.len() == 0 {
            return Err(CardConversionError::Empty);
        }
        let b = bytes[0];
        match CardValue::from_byte(b) {
            Some(value) => Ok(value),
            None => Err(CardConversionError::InvalidValue(b as char)),
        }
    }
}

impl Card {
    pub fn new(suit: CardSuit, value: CardValue) -> (c: Card)
        ensures
            c.suit == suit,
            c.value == value,
    {
        Card { suit, value }
    }

    pub fn suit(&self) -> (s: CardSuit)
        ensures
            s == self.suit,
    {
        self.suit
    }

    pub fn value(&self) -> (v: CardValue)
        ensures
            v == self.value,
    {
        self.value
    }

    /// Reads a card from two bytes of text, the rank first and the suit second.
    ///
    /// Longer text is `TooLong` and shorter text is `NotACard`. Of two bytes
    /// the rank is judged first: a first byte that is no rank gives
    /// `InvalidValue`, and only then a second byte that is no suit gives
    /// `InvalidSuit`.
    pub fn parse(s: &str) -> (r: Result<Card, CardConversionError>)
        ensures
            s.spec_bytes().len() > 2 ==> (r matches Err(CardConversionError::TooLong(t)) && t@
                == s@),
            s.spec_bytes().len() < 2 ==> (r matches Err(CardConversionError::NotACard(t)) && t@
                == s@),
            s.spec_bytes().len() == 2 ==> (match (
                value_of_byte(s.spec_bytes()[0]),
                suit_of_byte(s.spec_bytes()[1]),
            ) {
                (Some(value), Some(suit)) => r == Ok::<Card, CardConversionError>(
                    Card { suit, value },
                ),
                (None, _) => r == Err::<Card, CardConversionError>(
                    CardConversionError::InvalidValue(s.spec_bytes()[0] as char),
                ),
                (Some(_), None) => r == Err::<Card, CardConversionError>(
                    CardConversionError::InvalidSuit(s.spec_bytes()[1] as char),
                ),
            }),
    {
        let bytes = s.as_bytes();
        if bytes.len() > 2 {
            return Err(CardConversionError::TooLong(s.to_owned()));
        }
        if bytes.len() < 2 {
            return Err(CardConversionError::NotACard(s.to_owned()));
        }
        let vb = bytes[0];
        let sb = bytes[1];
        match CardValue::from_byte(vb) {
            None => Err(CardConversionError::InvalidValue(vb as char)),
            Some(value) => match CardSuit::from_byte(sb) {
                None => Err(CardConversionError::InvalidSuit(sb as char)),
                Some(suit) => Ok(Card { suit, value }),
            },
        }
    }

    /// The two bytes that print this card: rank, then suit.
    pub fn to_bytes(&self) -> (out: Vec<u8>)
        ensures
            out@ == seq![self.value.byte(), self.suit.byte()],
    {
        let mut out: Vec<u8> = Vec::new();
        out.push(self.value.to_byte());
        out.push(self.suit.to_byte());
        out
    }
}

impl FromStr for CardSuit {
    type Err = CardConversionError;

    /// Reads a suit as `CardSuit::parse` does.
    fn from_str(s: &str) -> (r: Result<Self, Self::Err>)
        ensures
            s.spec_bytes().len() > 1 ==> (r matches Err(CardConversionError::TooLong(t)) && t@
                == s@),
            s.spec_bytes().len() == 0 ==> r == Err::<CardSuit, CardConversionError>(
                CardConversionError::Empty,
            ),
            s.spec_bytes().len() == 1 ==> (match suit_of_byte(s.spec_bytes()[0]) {
                Some(suit) => r == Ok::<CardSuit, CardConversionError>(suit),
                None => r == Err::<CardSuit, CardConversionError>(
                    CardConversionError::InvalidSuit(s.spec_bytes()[0] as char),
                ),
            }),
    {
        CardSuit::parse(s)
    }
}

impl FromStr for CardValue {
    type Err = CardConversionError;

    /// Reads a rank as `CardValue::parse` does.
    fn from_str(s: &str) -> (r: Result<Self, Self::Err>)
        ensures
            s.spec_bytes().len() > 1 ==> (r matches Err(CardConversionError::TooLong(t)) && t@
                == s@),
            s.spec_bytes().len() == 0 ==> r == Err::<CardValue, CardConversionError>(
                CardConversionError::Empty,
            ),
            s.spec_bytes().len() == 1 ==> (match value_of_byte(s.spec_bytes()[0]) {
                Some(value) => r == Ok::<CardValue, CardConversionError>(value),
                None => r == Err::<CardValue, CardConversionError>(
                    CardConversionError::InvalidValue(s.spec_bytes()[0] as char),
                ),
            }),
    {
        CardValue::parse(s)
    }
}

impl FromStr for Card {
    type Err = CardConversionError;

    /// Reads a card as `Card::parse` does.
    fn from_str(s: &str) -> (r: Result<Self, Self::Err>)
        ensures
            s.spec_bytes().len() > 2 ==> (r matches Err(CardConversionError::TooLong(t)) && t@
                == s@),
            s.spec_bytes().len() < 2 ==> (r matches Err(CardConversionError::NotACard(t)) && t@
                == s@),
            s.spec_bytes().len() == 2 ==> (match (
                value_of_byte(s.spec_bytes()[0]),
                suit_of_byte(s.spec_bytes()[1]),
            ) {
                (Some(value), Some(suit)) => r == Ok::<Card, CardConversionError>(
                    Card { suit, value },
                ),
                (None, _) => r == Err::<Card, CardConversionError>(
                    CardConversionError::InvalidValue(s.spec_bytes()[0] as char),
                ),
                (Some(_), None) => r == Err::<Card, CardConversionError>(
                    CardConversionError::InvalidSuit(s.spec_bytes()[1] as char),
                ),
            }),
    {
        Card::parse(s)
    }
}

} // verus!
