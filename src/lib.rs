//! Move generation and best-move search for Othello on an 8x8 board with
//! permanently blocked cells.
use vstd::prelude::*;

pub mod board;
pub mod search;

use crate::board::Board;
use crate::search::{negamax, negamax_spec};

verus! {

/// The best move for `player` against `opponent` with the given holes,
/// searched `depth` plies below each root move, as the index of its cell (the
/// leading zeros of its bit); `None` when `player` has no legal move.
pub fn evaluate(player: u64, opponent: u64, holes: u64, depth: u8) -> (r: Option<u32>)
    ensures
        r == negamax_spec(Board { player, opponent, holes }, depth as nat),
{
    negamax(Board { player, opponent, holes }, depth)
}

} // verus!
