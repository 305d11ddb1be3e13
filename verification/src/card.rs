use vstd::prelude::*;

use crate::error::Error;

verus! {

/// One of the three suits of the reduced deck. Suits have no order of their
/// own; only identity matters.
#[derive(Copy, Clone, Eq, PartialEq, Structural, Debug)]
pub enum Suit {
    Red,
    Green,
    Black,
}

/// A numbered card: a suit together with a rank. The deck uses ranks
/// 0 through 8; ordering between numbered cards goes by rank alone.
#[derive(Copy, Clone, Eq, PartialEq, Structural, Debug)]
pub enum NumCard {
    Black(usize),
    Red(usize),
    Green(usize),
}

/// A playing card: one of the three suited jacks, the single joker, or a
/// numbered card. Jacks and the joker carry no rank.
#[derive(Copy, Clone, Eq, PartialEq, Structural, Debug)]
pub enum Card {
    JBlack,
    JRed,
    JGreen,
    Joker,
    Num(NumCard),
}

/// The marker left behind when all four jacks of one suit are cleared from
/// play together. It is not a playable card.
#[derive(Copy, Clone, Eq, PartialEq, Structural, Debug)]
pub enum Jacks {
    Red,
    Green,
    Black,
}

/// What a utility slot may hold: a single playable card, or the bundle of
/// four cleared jacks of one suit.
#[derive(Copy, Clone, Eq, PartialEq, Structural, Debug)]
pub enum CardOrJacks {
    Card(Card),
    Jacks(Jacks),
}

impl NumCard {
    pub open spec fn spec_suit(self) -> Suit {
        match self {
            NumCard::Red(_) => Suit::Red,
            NumCard::Green(_) => Suit::Green,
            NumCard::Black(_) => Suit::Black,
        }
    }

    pub open spec fn spec_value(self) -> usize {
        match self {
            NumCard::Red(n) => n,
            NumCard::Green(n) => n,
            NumCard::Black(n) => n,
        }
    }

    /// A numbered card may go on top of foundation card `self` exactly when
    /// the suits agree and the rank goes up by one.
    pub open spec fn spec_can_parent_ord(self, other: NumCard) -> bool {
        self.spec_suit() == other.spec_suit() && self.spec_value() + 1 == other.spec_value()
    }

    pub fn suit(&self) -> (s: Suit)
        ensures
            s == self.spec_suit(),
    {
        match *self {
            NumCard::Red(_) => Suit::Red,
            NumCard::Green(_) => Suit::Green,
            NumCard::Black(_) => Suit::Black,
        }
    }

    pub fn value(&self) -> (v: usize)
        ensures
            v == self.spec_value(),
    {
        match *self {
            NumCard::Red(n) => n,
            NumCard::Green(n) => n,
            NumCard::Black(n) => n,
        }
    }

    pub fn can_parent_ord(&self, other: &NumCard) -> (r: bool)
        ensures
            r == self.spec_can_parent_ord(*other),
    {
        self.suit() == other.suit() && other.value() > 0 && self.value() == other.value() - 1
    }
}

impl Card {
    pub open spec fn spec_num(self) -> Option<NumCard> {
        match self {
            Card::Num(n) => Some(n),
            _ => None,
        }
    }

    pub open spec fn spec_is_jack(self) -> bool {
        match self {
            Card::JRed => true,
            Card::JGreen => true,
            Card::JBlack => true,
            _ => false,
        }
    }

    pub open spec fn spec_suit(self) -> Option<Suit> {
        match self {
            Card::Num(nc) => Some(nc.spec_suit()),
            Card::JRed => Some(Suit::Red),
            Card::JGreen => Some(Suit::Green),
            Card::JBlack => Some(Suit::Black),
            Card::Joker => None,
        }
    }

    /// Card `other` may rest on play-stack card `self` exactly when both are
    /// numbered, of different suits, and `self` outranks `other` by one.
    pub open spec fn spec_can_parent(self, other: Card) -> bool {
        match (self, other) {
            (Card::Num(a), Card::Num(b)) => a.spec_suit() != b.spec_suit()
                && a.spec_value() == b.spec_value() + 1,
            _ => false,
        }
    }

    pub fn can_parent(&self, other: &Card) -> (r: bool)
        ensures
            r == self.spec_can_parent(*other),
    {
        match (self, other) {
            (Card::Num(a), Card::Num(b)) => {
                a.suit() != b.suit() && a.value() > 0 && a.value() - 1 == b.value()
            },
            _ => false,
        }
    }

    pub fn into_num(self) -> (r: Option<NumCard>)
        ensures
            r == self.spec_num(),
    {
        match self {
            Card::Num(c) => Some(c),
            _ => None,
        }
    }

    pub fn num(&self) -> (r: Option<&NumCard>)
        ensures
            match r {
                Some(n) => self.spec_num() == Some(*n),
                None => self.spec_num() is None,
            },
    {
        match *self {
            Card::Num(ref c) => Some(c),
            _ => None,
        }
    }

    pub fn value(&self) -> (r: Option<usize>)
        ensures
            r == match self.spec_num() {
                Some(n) => Some(n.spec_value()),
                None => None::<usize>,
            },
    {
        match *self {
            Card::Num(ref c) => Some(c.value()),
            _ => None,
        }
    }

    pub fn is_jack(&self) -> (r: bool)
        ensures
            r == self.spec_is_jack(),
    {
        match *self {
            Card::JRed | Card::JGreen | Card::JBlack => true,
            _ => false,
        }
    }

    pub fn suit(&self) -> (r: Option<Suit>)
        ensures
            r == self.spec_suit(),
    {
        match *self {
            Card::Num(ref nc) => Some(nc.suit()),
            Card::JRed => Some(Suit::Red),
            Card::JGreen => Some(Suit::Green),
            Card::JBlack => Some(Suit::Black),
            Card::Joker => None,
        }
    }
}

/// The jack card of a given suit.
pub open spec fn jack_of(s: Suit) -> Card {
    match s {
        Suit::Red => Card::JRed,
        Suit::Green => Card::JGreen,
        Suit::Black => Card::JBlack,
    }
}


impl Jacks {
    pub open spec fn spec_from_suit(s: Suit) -> Jacks {
        match s {
            Suit::Red => Jacks::Red,
            Suit::Green => Jacks::Green,
            Suit::Black => Jacks::Black,
        }
    }

    pub fn from_suit(s: Suit) -> (r: Jacks)
        ensures
            r == Jacks::spec_from_suit(s),
    {
        match s {
            Suit::Red => Jacks::Red,
            Suit::Green => Jacks::Green,
            Suit::Black => Jacks::Black,
        }
    }
}

impl CardOrJacks {
    pub fn into_card(self) -> (r: Result<Card, Error>)
        ensures
            match self {
                CardOrJacks::Card(c) => r == Ok::<Card, Error>(c),
                CardOrJacks::Jacks(_) => r == Err::<Card, Error>(Error::InvalidConv),
            },
    {
        match self {
            CardOrJacks::Card(c) => Ok(c),
            CardOrJacks::Jacks(_) => Err(Error::InvalidConv),
        }
    }

    pub fn card(&self) -> (r: Result<&Card, Error>)
        ensures
            match *self {
                CardOrJacks::Card(c) => r is Ok && *r->Ok_0 == c,
                CardOrJacks::Jacks(_) => r == Err::<&Card, Error>(Error::InvalidConv),
            },
    {
        match *self {
            CardOrJacks::Card(ref c) => Ok(c),
            CardOrJacks::Jacks(_) => Err(Error::InvalidConv),
        }
    }
}

} // verus!
