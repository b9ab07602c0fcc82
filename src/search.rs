//! Depth-limited negamax search with alpha-beta pruning.
use vstd::prelude::*;
use crate::board::{
    count, is_single, lemma_pop_le, lemma_top_bit, lemma_top_single, pop, top_bit, Board, Moves,
};

verus! {

/// Largest score magnitude; the window of the root search.
pub const INF: i32 = 2147483647;

/// Bound on the magnitude of every score the search produces: 2048 times
/// the largest disc differential.
pub open spec fn score_bound() -> int {
    131072int
}

pub open spec fn max_int(a: int, b: int) -> int {
    if a >= b {
        a
    } else {
        b
    }
}

/// Static evaluation of a position for the side to move: corner discs weigh
/// 16, mobility 4 and exposure of frontier discs 1.
pub open spec fn eval_spec(b: Board) -> int {
    let next = b.pass_spec();
    let c = b.corners_spec();
    16 * (pop(b.player & c) - pop(b.opponent & c)) + 4 * (pop(b.moves_spec()) - pop(
        next.moves_spec(),
    )) + (pop(next.frontier_spec()) - pop(b.frontier_spec()))
}

/// Score of a finished game: 2048 per disc of advantage.
pub open spec fn final_score(b: Board) -> int {
    2048 * (pop(b.player) - pop(b.opponent))
}

/// Un-pruned negamax value of `b` for the side to move, searched `depth`
/// plies deep; a forced pass costs no depth.
pub open spec fn value(b: Board, depth: nat) -> int
    decreases depth, if b.moves_spec() == 0 { 1int } else { 0int }, 1int, 0int,
{
    let next = b.pass_spec();
    if b.moves_spec() == 0 {
        if next.moves_spec() == 0 {
            final_score(b)
        } else {
            -value(next, depth)
        }
    } else if depth == 0 {
        eval_spec(b)
    } else {
        best_of(b, (depth - 1) as nat, b.moves_spec())
    }
}

/// Best negated child value over the moves `ms` of `b`, children searched
/// `depth` plies deep; `-INF` when `ms` is empty.
pub open spec fn best_of(b: Board, depth: nat, ms: u64) -> int
    decreases depth + 1, 0int, 0int, ms,
    via best_of_decreases
{
    if ms == 0 {
        -INF
    } else {
        let m = top_bit(ms);
        max_int(-value(b.play_spec(m), depth), best_of(b, depth, ms ^ m))
    }
}

#[via_fn]
proof fn best_of_decreases(b: Board, depth: nat, ms: u64) {
    if ms != 0 {
        lemma_top_bit(ms);
    }
}

proof fn lemma_eval_bounds(b: Board)
    ensures
        -score_bound() < eval_spec(b) < score_bound(),
{
    let next = b.pass_spec();
    let c = b.corners_spec();
    lemma_pop_le(b.player & c);
    lemma_pop_le(b.opponent & c);
    lemma_pop_le(b.moves_spec());
    lemma_pop_le(next.moves_spec());
    lemma_pop_le(next.frontier_spec());
    lemma_pop_le(b.frontier_spec());
}

/// Every value lies within the score bound.
pub proof fn lemma_value_bounds(b: Board, depth: nat)
    ensures
        -score_bound() <= value(b, depth) <= score_bound(),
    decreases depth, if b.moves_spec() == 0 { 1int } else { 0int }, 1int, 0int,
{
    let next = b.pass_spec();
    if b.moves_spec() == 0 {
        if next.moves_spec() == 0 {
            lemma_pop_le(b.player);
            lemma_pop_le(b.opponent);
        } else {
            lemma_value_bounds(next, depth);
        }
    } else if depth == 0 {
        lemma_eval_bounds(b);
    } else {
        lemma_best_of_bounds(b, (depth - 1) as nat, b.moves_spec());
    }
}

proof fn lemma_best_of_bounds(b: Board, depth: nat, ms: u64)
    ensures
        -INF <= best_of(b, depth, ms) <= score_bound(),
        ms != 0 ==> -score_bound() <= best_of(b, depth, ms),
    decreases depth + 1, 0int, 0int, ms,
{
    if ms != 0 {
        let m = top_bit(ms);
        lemma_top_bit(ms);
        lemma_value_bounds(b.play_spec(m), depth);
        lemma_best_of_bounds(b, depth, ms ^ m);
    }
}


/// Number of discs in `mask`, as a score.
fn bits(mask: u64) -> (r: i32)
    ensures
        r == pop(mask),
        0 <= r <= 64,
{
    count(mask) as i32
}

/// Fail-soft alpha-beta search of `board`, `depth` plies deep, in the window
/// `(alpha, beta)`: a result inside the window is the exact value, one at or
/// below `alpha` bounds the value from above, one at or above `beta` from
/// below.
fn search(board: Board, depth: u8, alpha: i32, beta: i32) -> (r: i32)
    requires
        -INF <= alpha < beta <= INF,
    ensures
        -INF <= r <= INF,
        alpha < r < beta ==> r == value(board, depth as nat),
        r <= alpha ==> value(board, depth as nat) <= r,
        r >= beta ==> value(board, depth as nat) >= r,
    decreases depth, if board.moves_spec() == 0 { 1int } else { 0int },
{
    let next = board.pass();
    let player = board.moves();
    let opponent = next.moves();

    if player == 0 {
        if opponent == 0 {
            return 2048 * (bits(board.player) - bits(board.opponent));
        } else {
            let v = search(next, depth, -beta, -alpha);
            return -v;
        }
    }
    if depth == 0 {
        let mask = board.corners();
        let corners = bits(board.player & mask) - bits(board.opponent & mask);
        let mobility = bits(player) - bits(opponent);
        let frontier = bits(next.frontier()) - bits(board.frontier());
        return 16 * corners + 4 * mobility + frontier;
    }

    let ghost a0 = alpha as int;
    let ghost d = (depth - 1) as nat;
    let mut alpha = alpha;
    let mut best: i32 = -INF;
    let mut it = Moves(player);
    let ghost mut tk: int = -INF;
    proof {
        lemma_best_of_bounds(board, d, player);
    }
    while it.0 != 0 && alpha < beta
        invariant
            -INF <= a0 < beta <= INF,
            depth > 0,
            d == depth - 1,
            player == board.moves_spec(),
            alpha == max_int(a0, best as int),
            -INF <= best <= INF,
            tk >= -INF,
            best_of(board, d, player) == max_int(tk, best_of(board, d, it.0)),
            best >= beta ==> tk >= best,
            a0 < best < beta ==> tk == best,
            best <= a0 ==> tk <= best,
        decreases it.0,
    {
        let ghost rem = it.0;
        proof {
            lemma_top_bit(rem);
        }
        let m = it.next().unwrap();
        let child = board.play(m);
        let v = search(child, depth - 1, -beta, -alpha);
        let s = -v;
        proof {
            tk = max_int(tk, -value(child, d));
        }
        if s > best {
            best = s;
        }
        if best > alpha {
            alpha = best;
        }
    }
    best
}


/// Score of playing `m` at the root: the negated value of the resulting
/// position, searched `depth` plies deep.
pub open spec fn root_score(b: Board, depth: nat, m: u64) -> int {
    -value(b.play_spec(m), depth)
}

/// Of two moves, the one with the higher root score; `a` on a tie.
pub open spec fn better(b: Board, depth: nat, a: u64, c: u64) -> u64 {
    if root_score(b, depth, a) >= root_score(b, depth, c) {
        a
    } else {
        c
    }
}

/// The move of `ms` with the highest root score; of equal scores, the one
/// met first, highest bit first.
pub open spec fn pick(b: Board, depth: nat, ms: u64) -> u64
    decreases ms,
    via pick_decreases
{
    if ms == 0 {
        0
    } else {
        let t = top_bit(ms);
        let rest = ms ^ t;
        if rest == 0 {
            t
        } else {
            better(b, depth, t, pick(b, depth, rest))
        }
    }
}

#[via_fn]
proof fn pick_decreases(b: Board, depth: nat, ms: u64) {
    if ms != 0 {
        lemma_top_bit(ms);
    }
}

/// The cell index (leading zeros of the move bit) that the search chooses,
/// or `None` when the side to move has no legal move.
pub open spec fn negamax_spec(b: Board, depth: nat) -> Option<u32> {
    if b.moves_spec() == 0 {
        None
    } else {
        Some(vstd::std_specs::bits::u64_leading_zeros(pick(b, depth, b.moves_spec())) as u32)
    }
}

/// Root score of `m`, exact: the root window is the full score range.
fn root_eval(board: Board, depth: u8, m: u64) -> (r: i32)
    ensures
        r == root_score(board, depth as nat, m),
{
    let child = board.play(m);
    proof {
        lemma_value_bounds(child, depth as nat);
    }
    let v = search(child, depth, -INF, INF);
    -v
}

/// The best move for the side to move, searched `depth` plies below each
/// root move, as the number of leading zeros of its bit; `None` when the side
/// to move has no legal move. Pruning never changes the choice: it is the
/// move of highest un-pruned negamax score, the first in highest-bit-first
/// order among equals.
pub fn negamax(board: Board, depth: u8) -> (r: Option<u32>)
    ensures
        r == negamax_spec(board, depth as nat),
{
    let ms = board.moves();
    if ms == 0 {
        return None;
    }
    let ghost d = depth as nat;
    let mut it = Moves(ms);
    proof {
        lemma_top_bit(ms);
    }
    let first = it.next().unwrap();
    let mut best_m = first;
    let mut best_s = root_eval(board, depth, first);
    while it.0 != 0
        invariant
            ms == board.moves_spec(),
            ms != 0,
            d == depth as nat,
            best_s == root_score(board, d, best_m),
            it.0 == 0 ==> pick(board, d, ms) == best_m,
            it.0 != 0 ==> pick(board, d, ms) == better(board, d, best_m, pick(board, d, it.0)),
        decreases it.0,
    {
        let ghost rem = it.0;
        proof {
            lemma_top_bit(rem);
        }
        let m = it.next().unwrap();
        let s = root_eval(board, depth, m);
        if s > best_s {
            best_m = m;
            best_s = s;
        }
    }
    proof {
        vstd::std_specs::bits::axiom_u64_leading_zeros(best_m);
    }
    Some(best_m.leading_zeros())
}

/// With a single legal move, the search returns that move, whatever its score.
pub proof fn lemma_single_move(b: Board, depth: nat)
    requires
        is_single(b.moves_spec()),
    ensures
        negamax_spec(b, depth) == Some(
            vstd::std_specs::bits::u64_leading_zeros(b.moves_spec()) as u32,
        ),
{
    lemma_top_single(b.moves_spec());
}

/// Without a legal move for the side to move, the search returns nothing.
pub proof fn lemma_no_move(b: Board, depth: nat)
    requires
        b.moves_spec() == 0,
    ensures
        negamax_spec(b, depth) is None,
{
}

} // verus!
