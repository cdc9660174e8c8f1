use vstd::prelude::*;

use crate::board::{Board, Chip};

verus! {

/// The live state of a console game: the shared board, whose turn it is,
/// and how many moves have been played.  The console loop around it reads
/// columns and renders the board; the rules live in the board itself.
pub struct InteractiveGame {
    pub board: Board,
    pub turn: Chip,
    pub moves: usize,
}

impl InteractiveGame {
    /// A fresh game: empty board, red to move, nothing played yet.
    pub fn new() -> (g: Self)
        ensures
            g.board.wf(),
            g.board.count_chips() == 0,
            g.turn == Chip::Red,
            g.moves == 0,
    {
        let board = Board::new();
        proof {
            crate::board::lemma_empty_board_count(board);
        }
        InteractiveGame { board, turn: Chip::Red, moves: 0 }
    }

    /// Passes the turn to the other player.
    pub fn next_turn(&mut self)
        ensures
            final(self).turn == old(self).turn.spec_opposite(),
            final(self).board == old(self).board,
            final(self).moves == old(self).moves,
    {
        self.turn = match self.turn {
            Chip::Red => Chip::Yellow,
            Chip::Yellow => Chip::Red,
        }
    }
}

} // verus!
