use rand::rngs::ThreadRng;
use rand::seq::SliceRandom;
use vstd::prelude::*;

use crate::game::{
    apply, available_moves, board_wf, copy_board, full, game_over, get_available_moves, grid,
    has_line, in_bounds, is_game_over, is_game_won, lemma_available_moves, opponent, update_board,
    valid_move, wf_grid, winner, col_winner, row_winner, Board, Grid, Piece, Position,
};

verus! {

/// The magnitude of a won or lost position.
pub const WIN_SCORE: i32 = 10_000;

/// The score of a finished position for `persp`: a win, a loss, or nothing.
pub open spec fn score(g: Grid, persp: Piece) -> int {
    match winner(g) {
        Some(w) => if w == persp {
            WIN_SCORE as int
        } else {
            -WIN_SCORE as int
        },
        None => 0,
    }
}

/// The minimax value for `persp` of the grid on which `last` has just moved,
/// searching at most `rem` more plies.
pub open spec fn value(g: Grid, rem: nat, persp: Piece, last: Piece) -> int
    decreases rem, 0nat, 0nat,
{
    if rem == 0 || game_over(g) {
        score(g, persp)
    } else {
        let mover = opponent(last);
        if mover == persp {
            max_child(g, (rem - 1) as nat, persp, mover, available_moves(g))
        } else {
            min_child(g, (rem - 1) as nat, persp, mover, available_moves(g))
        }
    }
}

/// The largest value among the positions that `mover` reaches by the moves `ms`.
pub open spec fn max_child(g: Grid, rem: nat, persp: Piece, mover: Piece, ms: Seq<Position>) -> int
    decreases rem, 1nat, ms.len(),
{
    if ms.len() == 0 {
        i32::MIN as int
    } else {
        let a = max_child(g, rem, persp, mover, ms.drop_last());
        let v = value(apply(g, ms.last(), mover), rem, persp, mover);
        if v > a {
            v
        } else {
            a
        }
    }
}

/// The smallest value among the positions that `mover` reaches by the moves `ms`.
pub open spec fn min_child(g: Grid, rem: nat, persp: Piece, mover: Piece, ms: Seq<Position>) -> int
    decreases rem, 1nat, ms.len(),
{
    if ms.len() == 0 {
        i32::MAX as int
    } else {
        let a = min_child(g, rem, persp, mover, ms.drop_last());
        let v = value(apply(g, ms.last(), mover), rem, persp, mover);
        if v < a {
            v
        } else {
            a
        }
    }
}

/// What an alpha-beta search with window `(alpha, beta)` may return for a
/// position of value `v`: the value itself inside the window, and outside it
/// a bound on the same side as the value.
pub open spec fn window_result(r: int, v: int, alpha: int, beta: int) -> bool {
    &&& r <= alpha ==> v <= r
    &&& r >= beta ==> v >= r
    &&& alpha < r < beta ==> v == r
}

/// The index of the first largest element among the first `n` of `s`.
pub open spec fn first_max(s: Seq<int>, n: nat) -> int
    decreases n,
{
    if n <= 1 {
        0
    } else {
        let j = first_max(s, (n - 1) as nat);
        if s[n - 1] > s[j] {
            n - 1
        } else {
            j
        }
    }
}

/// The full-depth value of each legal move of `piece`, in move order.
pub open spec fn root_values(g: Grid, piece: Piece) -> Seq<int> {
    available_moves(g).map_values(|m: Position| value(apply(g, m, piece), 9, piece, piece))
}

/// The first legal move of `piece` with the highest value.
pub open spec fn best_move(g: Grid, piece: Piece) -> Position {
    available_moves(g)[first_max(root_values(g, piece), available_moves(g).len())]
}

/// The score of a position for `perspective`: a win counts `WIN_SCORE`, a
/// loss `-WIN_SCORE`, anything else 0.
pub fn evaluate(board: &Board, perspective: Piece) -> (r: i32)
    requires
        board_wf(board),
    ensures
        r == score(grid(board), perspective),
{
    match is_game_won(board) {
        Some(w) => if w == perspective {
            WIN_SCORE
        } else {
            -WIN_SCORE
        },
        None => 0,
    }
}

/// Over a longer list of moves the largest value can only grow.
proof fn lemma_max_child_prefix(g: Grid, rem: nat, persp: Piece, mover: Piece, ms: Seq<Position>, i: int)
    requires
        0 <= i <= ms.len(),
    ensures
        max_child(g, rem, persp, mover, ms.take(i)) <= max_child(g, rem, persp, mover, ms),
    decreases ms.len(),
{
    if i < ms.len() {
        lemma_max_child_prefix(g, rem, persp, mover, ms.drop_last(), i);
        assert(ms.drop_last().take(i) =~= ms.take(i));
    } else {
        assert(ms.take(i) =~= ms);
    }
}

/// Over a longer list of moves the smallest value can only shrink.
proof fn lemma_min_child_prefix(g: Grid, rem: nat, persp: Piece, mover: Piece, ms: Seq<Position>, i: int)
    requires
        0 <= i <= ms.len(),
    ensures
        min_child(g, rem, persp, mover, ms.take(i)) >= min_child(g, rem, persp, mover, ms),
    decreases ms.len(),
{
    if i < ms.len() {
        lemma_min_child_prefix(g, rem, persp, mover, ms.drop_last(), i);
        assert(ms.drop_last().take(i) =~= ms.take(i));
    } else {
        assert(ms.take(i) =~= ms);
    }
}

/// Minimax search with alpha-beta pruning. `piece` has just moved on `board`;
/// its opponent moves next. The result is the position's value for
/// `perspective` when that lies strictly inside `(alpha, beta)`, and a bound
/// on the same side of the window as the value otherwise.
pub fn minimax(
    board: &Board,
    depth: i32,
    max_depth: i32,
    perspective: Piece,
    piece: Piece,
    alpha: i32,
    beta: i32,
) -> (r: i32)
    requires
        board_wf(board),
        0 <= depth <= max_depth,
        alpha < beta,
    ensures
        -WIN_SCORE <= r <= WIN_SCORE,
        window_result(
            r as int,
            value(grid(board), (max_depth - depth) as nat, perspective, piece),
            alpha as int,
            beta as int,
        ),
    decreases max_depth - depth,
{
    if depth == max_depth || is_game_over(board) {
        return evaluate(board, perspective);
    }
    let ghost g = grid(board);
    let ghost rem: nat = (max_depth - depth - 1) as nat;
    let mover = piece.other();
    let moves = get_available_moves(board);
    proof {
        lemma_available_moves(g);
    }
    let ghost v = value(g, (max_depth - depth) as nat, perspective, piece);
    if mover == perspective {
        assert(v == max_child(g, rem, perspective, mover, moves@));
        let mut max_eval: i32 = i32::MIN;
        let mut a = alpha;
        let mut i: usize = 0;
        while i < moves.len()
            invariant
                g == grid(board),
                board_wf(board),
                !game_over(g),
                0 <= depth < max_depth,
                rem == max_depth - depth - 1,
                moves@ == available_moves(g),
                moves@.len() > 0,
                forall|j: int| 0 <= j < moves@.len() ==> valid_move(g, #[trigger] moves@[j]),
                0 <= i <= moves@.len(),
                alpha < beta,
                a == (if max_eval > alpha { max_eval } else { alpha }),
                a < beta,
                v == value(g, (max_depth - depth) as nat, perspective, piece),
                v == max_child(g, rem, perspective, mover, moves@),
                i == 0 ==> max_eval == i32::MIN,
                i > 0 ==> -WIN_SCORE <= max_eval <= WIN_SCORE,
                max_eval <= alpha ==> max_child(g, rem, perspective, mover, moves@.take(i as int)) <= max_eval,
                alpha < max_eval < beta ==> max_child(g, rem, perspective, mover, moves@.take(i as int)) == max_eval,
            decreases moves@.len() - i,
        {
            let m = moves[i];
            let mut child = copy_board(board);
            update_board(&mut child, &m, mover);
            let eval = minimax(&child, depth + 1, max_depth, perspective, mover, a, beta);
            proof {
                assert(moves@.take(i + 1).drop_last() =~= moves@.take(i as int));
                assert(moves@.take(i + 1).last() == m);
            }
            if eval > max_eval {
                max_eval = eval;
            }
            if eval > a {
                a = eval;
            }
            if beta <= a {
                proof {
                    lemma_max_child_prefix(g, rem, perspective, mover, moves@, i + 1);
                }
                return max_eval;
            }
            i = i + 1;
        }
        proof {
            assert(moves@.take(i as int) =~= moves@);
        }
        max_eval
    } else {
        assert(v == min_child(g, rem, perspective, mover, moves@));
        let mut min_eval: i32 = i32::MAX;
        let mut b = beta;
        let mut i: usize = 0;
        while i < moves.len()
            invariant
                g == grid(board),
                board_wf(board),
                !game_over(g),
                0 <= depth < max_depth,
                rem == max_depth - depth - 1,
                moves@ == available_moves(g),
                moves@.len() > 0,
                forall|j: int| 0 <= j < moves@.len() ==> valid_move(g, #[trigger] moves@[j]),
                0 <= i <= moves@.len(),
                alpha < beta,
                b == (if min_eval < beta { min_eval } else { beta }),
                alpha < b,
                v == value(g, (max_depth - depth) as nat, perspective, piece),
                v == min_child(g, rem, perspective, mover, moves@),
                i == 0 ==> min_eval == i32::MAX,
                i > 0 ==> -WIN_SCORE <= min_eval <= WIN_SCORE,
                min_eval >= beta ==> min_child(g, rem, perspective, mover, moves@.take(i as int)) >= min_eval,
                alpha < min_eval < beta ==> min_child(g, rem, perspective, mover, moves@.take(i as int)) == min_eval,
            decreases moves@.len() - i,
        {
            let m = moves[i];
            let mut child = copy_board(board);
            update_board(&mut child, &m, mover);
            let eval = minimax(&child, depth + 1, max_depth, perspective, mover, alpha, b);
            proof {
                assert(moves@.take(i + 1).drop_last() =~= moves@.take(i as int));
                assert(moves@.take(i + 1).last() == m);
            }
            if eval < min_eval {
                min_eval = eval;
            }
            if eval < b {
                b = eval;
            }
            if b <= alpha {
                proof {
                    lemma_min_child_prefix(g, rem, perspective, mover, moves@, i + 1);
                }
                return min_eval;
            }
            i = i + 1;
        }
        proof {
            assert(moves@.take(i as int) =~= moves@);
        }
        min_eval
    }
}


/// The first move of `piece` with the highest full-depth minimax value.
/// The alpha bound found for earlier moves is kept while later moves are
/// searched, so later moves that cannot do better are pruned.
pub fn pick_best_move(board: &Board, piece: Piece) -> (r: Position)
    requires
        board_wf(board),
        !full(grid(board)),
    ensures
        r == best_move(grid(board), piece),
        valid_move(grid(board), r),
{
    let ghost g = grid(board);
    let ghost vals = root_values(g, piece);
    let moves = get_available_moves(board);
    proof {
        lemma_available_moves(g);
    }
    let mut best_score: i32 = i32::MIN;
    let mut best_index: usize = 0;
    let mut alpha: i32 = i32::MIN;
    let beta: i32 = i32::MAX;
    let mut i: usize = 0;
    while i < moves.len()
        invariant
            g == grid(board),
            board_wf(board),
            moves@ == available_moves(g),
            moves@.len() > 0,
            forall|j: int| 0 <= j < moves@.len() ==> valid_move(g, #[trigger] moves@[j]),
            vals == root_values(g, piece),
            0 <= i <= moves@.len(),
            beta == i32::MAX,
            i == 0 ==> best_score == i32::MIN && alpha == i32::MIN,
            i > 0 ==> best_index < i && best_index == first_max(vals, i as nat) && best_score
                == vals[best_index as int] && alpha == best_score && -WIN_SCORE <= best_score
                <= WIN_SCORE,
        decreases moves@.len() - i,
    {
        let m = moves[i];
        let mut child = copy_board(board);
        update_board(&mut child, &m, piece);
        let score = minimax(&child, 0, 9, piece, piece, alpha, beta);
        assert(vals[i as int] == value(apply(g, m, piece), 9, piece, piece));
        if score > best_score {
            best_score = score;
            best_index = i;
        }
        if score > alpha {
            alpha = score;
        }
        i = i + 1;
    }
    moves[best_index]
}

/// The full-depth minimax value for `piece` of playing `pos`, searched with
/// a window of its own.
pub fn score_candidate(board: &Board, pos: &Position, piece: Piece) -> (r: i32)
    requires
        board_wf(board),
        in_bounds(*pos),
    ensures
        r == value(apply(grid(board), *pos, piece), 9, piece, piece),
{
    let mut child = copy_board(board);
    update_board(&mut child, pos, piece);
    minimax(&child, 0, 9, piece, piece, i32::MIN, i32::MAX)
}

/// The first of `moves` whose score is the highest.
pub fn select_best_move(moves: &Vec<Position>, scores: &Vec<i32>) -> (r: Position)
    requires
        moves@.len() == scores@.len(),
        moves@.len() > 0,
    ensures
        r == moves@[first_max(scores@.map_values(|s: i32| s as int), moves@.len())],
{
    let ghost vals = scores@.map_values(|s: i32| s as int);
    let mut best_index: usize = 0;
    let mut i: usize = 1;
    while i < moves.len()
        invariant
            moves@.len() == scores@.len(),
            vals == scores@.map_values(|s: i32| s as int),
            1 <= i <= moves@.len(),
            best_index < i,
            best_index == first_max(vals, i as nat),
        decreases moves@.len() - i,
    {
        if scores[i] > scores[best_index] {
            best_index = i;
        }
        i = i + 1;
    }
    moves[best_index]
}


/// Scoring every legal move with a window of its own and then taking the
/// first highest score picks the same move as the search that carries its
/// window from move to move.
pub proof fn lemma_independent_windows_agree(g: Grid, piece: Piece, scores: Seq<int>)
    requires
        wf_grid(g),
        !full(g),
        scores.len() == available_moves(g).len(),
        forall|i: int|
            0 <= i < scores.len() ==> #[trigger] scores[i] == value(
                apply(g, available_moves(g)[i], piece),
                9,
                piece,
                piece,
            ),
    ensures
        available_moves(g)[first_max(scores, available_moves(g).len())] == best_move(g, piece),
{
    assert(scores =~= root_values(g, piece));
}

/// A finished line for one player and none for the other scores as a win
/// for the first and as a loss for the second.
pub proof fn lemma_terminal_scoring(g: Grid, a: Piece)
    requires
        wf_grid(g),
        has_line(g, a),
        !has_line(g, opponent(a)),
    ensures
        score(g, a) == WIN_SCORE as int,
        score(g, opponent(a)) == -WIN_SCORE as int,
{
    lemma_has_line_winner(g, a);
}

/// The winner of a grid where only `a` holds a line is `a`.
proof fn lemma_has_line_winner(g: Grid, a: Piece)
    requires
        has_line(g, a),
        !has_line(g, opponent(a)),
    ensures
        winner(g) == Some(a),
{
    let b = opponent(a);
    assert forall|i: int| 0 <= i < 3 implies #[trigger] row_winner(g, i) != Some(b) by {}
    assert forall|i: int| 0 <= i < 3 implies #[trigger] col_winner(g, i) != Some(b) by {}
    assert(row_winner(g, 0) != Some(b) && row_winner(g, 1) != Some(b) && row_winner(g, 2) != Some(b));
    assert(col_winner(g, 0) != Some(b) && col_winner(g, 1) != Some(b) && col_winner(g, 2) != Some(b));
    if exists|i: int| 0 <= i < 3 && #[trigger] row_winner(g, i) == Some(a) {
        let i = choose|i: int| 0 <= i < 3 && #[trigger] row_winner(g, i) == Some(a);
        assert(row_winner(g, i) == Some(a));
    } else if exists|i: int| 0 <= i < 3 && #[trigger] col_winner(g, i) == Some(a) {
        let i = choose|i: int| 0 <= i < 3 && #[trigger] col_winner(g, i) == Some(a);
        assert(col_winner(g, i) == Some(a));
    }
}


#[verifier::external_type_specification]
#[verifier::external_body]
pub struct ExThreadRng(ThreadRng);

/// Relies on rand's `SliceRandom::choose` for slices: `None` for an empty
/// slice, otherwise one of its elements.
#[verifier::external_body]
fn choose_position(moves: &Vec<Position>, rng: &mut ThreadRng) -> (r: Option<Position>)
    ensures
        r.is_none() <==> moves@.len() == 0,
        r matches Some(p) ==> moves@.contains(p),
{
    moves.as_slice().choose(rng).copied()
}

/// Any of the nine cells, occupied or not, picked at random.
pub fn get_random_move(rng: &mut ThreadRng) -> (r: Position)
    ensures
        in_bounds(r),
{
    let mut cells: Vec<Position> = Vec::new();
    let mut y: u8 = 0;
    while y < 3
        invariant
            0 <= y <= 3,
            cells@.len() == 3 * y,
            forall|j: int| 0 <= j < cells@.len() ==> in_bounds(#[trigger] cells@[j]),
        decreases 3 - y,
    {
        let mut x: u8 = 0;
        while x < 3
            invariant
                0 <= x <= 3,
                0 <= y < 3,
                cells@.len() == 3 * y + x,
                forall|j: int| 0 <= j < cells@.len() ==> in_bounds(#[trigger] cells@[j]),
            decreases 3 - x,
        {
            cells.push(Position { x, y });
            x = x + 1;
        }
        y = y + 1;
    }
    match choose_position(&cells, rng) {
        Some(p) => p,
        None => cells[0],
    }
}

/// One of the legal moves, picked at random.
pub fn get_random_valid_move(rng: &mut ThreadRng, board: &Board) -> (r: Position)
    requires
        board_wf(board),
        !full(grid(board)),
    ensures
        available_moves(grid(board)).contains(r),
        valid_move(grid(board), r),
{
    let moves = get_available_moves(board);
    proof {
        lemma_available_moves(grid(board));
    }
    match choose_position(&moves, rng) {
        Some(p) => p,
        None => moves[0],
    }
}

} // verus!
