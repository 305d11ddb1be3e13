use vstd::prelude::*;

verus! {

/// A click that landed on a play stack: which stack, and the vertical pixel
/// offset of the click (resolved into a card index only during validation).
#[derive(Debug, Copy, Clone, PartialEq, Eq, Structural)]
pub struct StackPosition {
    pub stack: Stack,
    pub y: u32,
}

/// A foundation pile chosen by a click.
#[derive(Debug, Copy, Clone, Eq, PartialEq, Structural)]
pub enum Ordered {
    Ordered0,
    Ordered1,
    Ordered2,
}

/// A utility slot chosen by a click.
#[derive(Debug, Copy, Clone, Eq, PartialEq, Structural)]
pub enum Utility {
    Utility0,
    Utility1,
    Utility2,
}

/// A move request as it comes in from the click resolver, not yet checked.
#[derive(Debug, Copy, Clone, Eq, PartialEq)]
pub struct Attempt(pub Move);

/// The witness that a move passed validation. The executor accepts only
/// this type, so an unchecked request can never be applied.
#[derive(Debug, Copy, Clone, Eq, PartialEq)]
pub struct Valid(pub Move);

/// A proposed move: an optional source and an optional destination. The
/// suit-clear buttons need no source; everything else needs both.
#[derive(Copy, Clone, Eq, PartialEq, Debug)]
pub struct Move {
    pub src: Option<ClickTarget>,
    pub dst: Option<ClickTarget>,
}

/// An abstract board location (or fixed button) that a click resolved to.
#[derive(Debug, Copy, Clone, Eq, PartialEq)]
pub enum ClickTarget {
    Stack(StackPosition),
    Utility(Utility),
    Ordered(Ordered),
    GreenButton,
    RedButton,
    BlackButton,
}

/// One of the eight play stacks.
#[derive(Debug, Copy, Clone, Eq, PartialEq, Structural)]
pub enum Stack {
    Stack0,
    Stack1,
    Stack2,
    Stack3,
    Stack4,
    Stack5,
    Stack6,
    Stack7,
}

impl Utility {
    pub open spec fn spec_idx(self) -> int {
        match self {
            Utility::Utility0 => 0,
            Utility::Utility1 => 1,
            Utility::Utility2 => 2,
        }
    }

    pub fn idx(&self) -> (i: usize)
        ensures
            i as int == self.spec_idx(),
            i < 3,
    {
        match *self {
            Utility::Utility0 => 0,
            Utility::Utility1 => 1,
            Utility::Utility2 => 2,
        }
    }
}

impl Ordered {
    pub open spec fn spec_idx(self) -> int {
        match self {
            Ordered::Ordered0 => 0,
            Ordered::Ordered1 => 1,
            Ordered::Ordered2 => 2,
        }
    }

    pub fn idx(&self) -> (i: usize)
        ensures
            i as int == self.spec_idx(),
            i < 3,
    {
        match *self {
            Ordered::Ordered0 => 0,
            Ordered::Ordered1 => 1,
            Ordered::Ordered2 => 2,
        }
    }
}

impl Stack {
    pub open spec fn spec_idx(self) -> int {
        match self {
            Stack::Stack0 => 0,
            Stack::Stack1 => 1,
            Stack::Stack2 => 2,
            Stack::Stack3 => 3,
            Stack::Stack4 => 4,
            Stack::Stack5 => 5,
            Stack::Stack6 => 6,
            Stack::Stack7 => 7,
        }
    }

    pub fn idx(&self) -> (i: usize)
        ensures
            i as int == self.spec_idx(),
            i < 8,
    {
        match *self {
            Stack::Stack0 => 0,
            Stack::Stack1 => 1,
            Stack::Stack2 => 2,
            Stack::Stack3 => 3,
            Stack::Stack4 => 4,
            Stack::Stack5 => 5,
            Stack::Stack6 => 6,
            Stack::Stack7 => 7,
        }
    }

    /// The stack at a given column. Columns past the eighth do not exist,
    /// so callers must stay below eight.
    pub fn from_col(col: usize) -> (r: Stack)
        requires
            col < 8,
        ensures
            r == spec_stack_of_idx(col as int),
            r.spec_idx() == col as int,
    {
        match col {
            0 => Stack::Stack0,
            1 => Stack::Stack1,
            2 => Stack::Stack2,
            3 => Stack::Stack3,
            4 => Stack::Stack4,
            5 => Stack::Stack5,
            6 => Stack::Stack6,
            _ => Stack::Stack7,
        }
    }
}

impl ClickTarget {
    /// Where a raw window coordinate lands on the abstract board. Anything
    /// outside every zone resolves to no location at all.
    pub open spec fn spec_from_coord(x: int, y: int) -> Option<ClickTarget> {
        if 0 <= x <= 70 && 0 <= y <= 102 {
            Some(ClickTarget::Utility(Utility::Utility0))
        } else if 75 <= x <= 145 && 0 <= y <= 102 {
            Some(ClickTarget::Utility(Utility::Utility1))
        } else if 150 <= x <= 220 && 0 <= y <= 102 {
            Some(ClickTarget::Utility(Utility::Utility2))
        } else if 375 <= x <= 445 && 0 <= y <= 102 {
            Some(ClickTarget::Ordered(Ordered::Ordered0))
        } else if 450 <= x <= 520 && 0 <= y <= 102 {
            Some(ClickTarget::Ordered(Ordered::Ordered1))
        } else if 525 <= x <= 595 && 0 <= y <= 102 {
            Some(ClickTarget::Ordered(Ordered::Ordered2))
        } else if 245 <= x <= 275 && 0 <= y <= 30 {
            Some(ClickTarget::RedButton)
        } else if 245 <= x <= 275 && 35 <= y <= 65 {
            Some(ClickTarget::GreenButton)
        } else if 245 <= x <= 275 && 70 <= y <= 100 {
            Some(ClickTarget::BlackButton)
        } else if 0 <= x < 600 && 0 <= y {
            Some(ClickTarget::Stack(StackPosition { stack: spec_stack_of_idx(x / 75), y: y as u32 }))
        } else {
            None
        }
    }

    pub fn from_coord(x: i32, y: i32) -> (r: Option<ClickTarget>)
        ensures
            r == Self::spec_from_coord(x as int, y as int),
    {
        if 0 <= x && x <= 70 && 0 <= y && y <= 102 {
            Some(ClickTarget::Utility(Utility::Utility0))
        } else if 75 <= x && x <= 145 && 0 <= y && y <= 102 {
            Some(ClickTarget::Utility(Utility::Utility1))
        } else if 150 <= x && x <= 220 && 0 <= y && y <= 102 {
            Some(ClickTarget::Utility(Utility::Utility2))
        } else if 375 <= x && x <= 445 && 0 <= y && y <= 102 {
            Some(ClickTarget::Ordered(Ordered::Ordered0))
        } else if 450 <= x && x <= 520 && 0 <= y && y <= 102 {
            Some(ClickTarget::Ordered(Ordered::Ordered1))
        } else if 525 <= x && x <= 595 && 0 <= y && y <= 102 {
            Some(ClickTarget::Ordered(Ordered::Ordered2))
        } else if 245 <= x && x <= 275 && 0 <= y && y <= 30 {
            Some(ClickTarget::RedButton)
        } else if 245 <= x && x <= 275 && 35 <= y && y <= 65 {
            Some(ClickTarget::GreenButton)
        } else if 245 <= x && x <= 275 && 70 <= y && y <= 100 {
            Some(ClickTarget::BlackButton)
        } else if 0 <= x && x < 600 && 0 <= y {
            let col: usize = (x as usize) / 75;
            assert(col == x as int / 75);
            Some(ClickTarget::Stack(StackPosition { stack: Stack::from_col(col), y: y as u32 }))
        } else {
            None
        }
    }
}

/// The stack whose column index is `i` (callers keep `i` below eight).
pub open spec fn spec_stack_of_idx(i: int) -> Stack {
    if i == 0 {
        Stack::Stack0
    } else if i == 1 {
        Stack::Stack1
    } else if i == 2 {
        Stack::Stack2
    } else if i == 3 {
        Stack::Stack3
    } else if i == 4 {
        Stack::Stack4
    } else if i == 5 {
        Stack::Stack5
    } else if i == 6 {
        Stack::Stack6
    } else {
        Stack::Stack7
    }
}

} // verus!
