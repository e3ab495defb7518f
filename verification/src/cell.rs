//! One grid position of a minesweeper board.

use vstd::prelude::*;

verus! {

/// The state of one grid position: whether it holds a mine, whether the
/// player has flagged it, whether it has been revealed, and the number of
/// mines among its topological neighbors (computed once, at board build).
#[derive(Clone, Copy, PartialEq, Eq, Structural, Debug)]
pub struct Cell {
    pub mine: bool,
    pub flag: bool,
    pub revealed: bool,
    pub neighbors: u8,
}

impl Cell {
    /// Inverts the flag bit; rejected (no mutation) on a revealed cell.
    pub fn toggle_flag(&mut self) -> (accepted: bool)
        ensures
            accepted == !old(self).revealed,
            accepted ==> *final(self) == (Cell { flag: !old(self).flag, ..*old(self) }),
            !accepted ==> *final(self) == *old(self),
    {
        if self.revealed {
            false
        } else {
            self.flag = !self.flag;
            true
        }
    }

    /// Sets the revealed bit to `value`; rejected (no mutation) on a
    /// flagged cell.
    pub fn set_reveal(&mut self, value: bool) -> (accepted: bool)
        ensures
            accepted == !old(self).flag,
            accepted ==> *final(self) == (Cell { revealed: value, ..*old(self) }),
            !accepted ==> *final(self) == *old(self),
    {
        if self.flag {
            false
        } else {
            self.revealed = value;
            true
        }
    }
}

} // verus!
