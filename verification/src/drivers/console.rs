//! The console driver's state: the board size it reports on.  The printing
//! loop itself lives with the rest of the command-line shell.

use vstd::prelude::*;

verus! {

pub struct ConsoleDriver {
    board_size: usize,
}

impl ConsoleDriver {
    pub closed spec fn spec_board_size(&self) -> int {
        self.board_size as int
    }

    pub fn new(board_size: usize) -> (d: ConsoleDriver)
        ensures
            d.spec_board_size() == board_size,
    {
        ConsoleDriver { board_size }
    }

    pub fn board_size(&self) -> (n: usize)
        ensures
            n == self.spec_board_size(),
    {
        self.board_size
    }
}

} // verus!
