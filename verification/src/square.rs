//! The three states of a cell.

use vstd::prelude::*;

verus! {

/// What a cell of the board holds: a disk of one of the two players, or nothing.
#[derive(Copy, Clone, Debug, PartialEq, Eq, Structural)]
pub enum Square {
    Black,
    White,
    Empty,
}

impl Square {
    /// The player who moves after `self`: `White` after `Black`, and `Black`
    /// after anything else.
    pub open spec fn spec_opponent(self) -> Square {
        if self == Square::Black {
            Square::White
        } else {
            Square::Black
        }
    }

    /// True for the two values that stand for a player.
    pub open spec fn is_player(self) -> bool {
        self != Square::Empty
    }

    /// True when `self` is a disk that `player` captures: a disk, and not
    /// one of `player`'s own.
    pub open spec fn opposes(self, player: Square) -> bool {
        self != Square::Empty && self != player
    }

    /// The player who moves after `self`.
    #[verifier::when_used_as_spec(spec_opponent)]
    pub fn opponent(self) -> (r: Square)
        ensures
            r == self.spec_opponent(),
    {
        if self == Square::Black {
            Square::White
        } else {
            Square::Black
        }
    }
}

} // verus!
