use vstd::prelude::*;

use crate::board::Board;
use crate::util::Move;

verus! {

/// A board and the moves to play on it, as handed to a move worker.
#[derive(Clone, Debug)]
pub struct BoardMoveState {
    pub request: Board,
    pub moves: Vec<Move>,
}

} // verus!
