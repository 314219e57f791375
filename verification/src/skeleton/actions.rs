//! The actions of a betting round and the sets of actions that are legal.

use vstd::prelude::*;

verus! {

/// The bit of folding in a set of actions.
pub const FOLD: u16 = 1;

/// The bit of calling.
pub const CALL: u16 = 2;

/// The bit of checking.
pub const CHECK: u16 = 4;

/// The bit of raising.
pub const RAISE: u16 = 8;

/// A set of kinds of actions, one bit for each kind.
#[derive(Debug, Copy, Clone, Hash, PartialEq, Eq, Structural)]
pub struct ActionType {
    pub bits: u16,
}

impl ActionType {
    /// The set without actions.
    pub fn empty() -> (t: ActionType)
        ensures
            t.bits == 0,
    {
        ActionType { bits: 0 }
    }

    /// The set with the given bits, or `None` where a bit stands for no kind
    /// of action.
    pub fn from_bits(bits: u16) -> (r: Option<ActionType>)
        ensures
            bits <= 15 ==> r == Some(ActionType { bits }),
            bits > 15 ==> r is None,
    {
        if bits <= 15 {
            Some(ActionType { bits })
        } else {
            None
        }
    }

    /// The bits of the set.
    pub fn bits(&self) -> (bits: u16)
        ensures
            bits == self.bits,
    {
        self.bits
    }

    /// Whether the set holds no action.
    pub fn is_empty(&self) -> (b: bool)
        ensures
            b == (self.bits == 0),
    {
        self.bits == 0
    }

    /// Whether the set holds every action of `other`.
    pub fn contains(&self, other: ActionType) -> (b: bool)
        ensures
            b == (self.bits & other.bits == other.bits),
    {
        self.bits & other.bits == other.bits
    }

    /// The actions of either set.
    pub fn union(&self, other: ActionType) -> (t: ActionType)
        ensures
            t.bits == self.bits | other.bits,
    {
        ActionType { bits: self.bits | other.bits }
    }

    /// The actions of both sets.
    pub fn intersection(&self, other: ActionType) -> (t: ActionType)
        ensures
            t.bits == self.bits & other.bits,
    {
        ActionType { bits: self.bits & other.bits }
    }
}

impl Default for ActionType {
    fn default() -> (t: ActionType)
        ensures
            t.bits == 0,
    {
        ActionType { bits: 0 }
    }
}

/// An action of a player.
#[derive(Debug, Copy, Clone, PartialEq, Eq, Structural)]
pub enum Action {
    Fold,
    Call,
    Check,
    Raise(u64),
}

impl Action {
    /// The amount raised to, or zero for an action that is no raise.
    pub fn amount(&self) -> (amt: u64)
        ensures
            amt == match *self {
                Action::Raise(amt) => amt,
                _ => 0,
            },
    {
        match self {
            Action::Fold => 0,
            Action::Call => 0,
            Action::Check => 0,
            Action::Raise(amt) => *amt,
        }
    }
}

} // verus!
