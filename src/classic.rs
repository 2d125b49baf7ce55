//! A simpler engine: plain minimax from White's point of view over material
//! only, to a fixed depth, without a cache.

use vstd::prelude::*;
use crate::position::{position_of, bits_below, color_mask_of, kind_mask_of, spec_successors, status_of, white_of, board_status, color_mask, count_bits, current_position, kind_mask, successors, white_to_move, GameStatus, Move, PieceKind};
use crate::statistics::Statistics;

verus! {

/// How many plies below each root move the simpler engine looks.
pub const CLASSIC_DEPTH: i32 = 3;

/// The largest magnitude of a material balance.
pub const MATERIAL_LIMIT: i32 = 6 * 64 * 900;

pub open spec fn spec_base_value(p: PieceKind) -> i32 {
    match p {
        PieceKind::Queen => 900,
        PieceKind::Rook => 500,
        PieceKind::Bishop => 320,
        PieceKind::Knight => 300,
        PieceKind::Pawn => 100,
        PieceKind::King => 0,
    }
}

/// The simpler engine's piece values; the king is covered by the checkmate
/// rule.
fn base_value(p: PieceKind) -> (r: i32)
    ensures
        r == spec_base_value(p),
        0 <= r <= 900,
{
    match p {
        PieceKind::Queen => 900,
        PieceKind::Rook => 500,
        PieceKind::Bishop => 320,
        PieceKind::Knight => 300,
        PieceKind::Pawn => 100,
        PieceKind::King => 0,
    }
}

/// A score of the simpler engine: an extreme value for a mate, or a
/// material balance.
pub open spec fn classic_score(r: i32) -> bool {
    r == i32::MIN || r == i32::MAX || -MATERIAL_LIMIT <= r <= MATERIAL_LIMIT
}

/// White's material minus Black's over the first `n` kinds of piece.
pub open spec fn spec_classic_material(b: chess::Board, n: nat) -> int
    decreases n,
{
    if n == 0 {
        0
    } else {
        let k = (n - 1) as u8;
        let kind = kind_mask_of(b, k);
        let value = spec_base_value(PieceKind::spec_from_index(k));
        spec_classic_material(b, (n - 1) as nat) + value * bits_below(color_mask_of(b, true) & kind, 64)
            - value * bits_below(color_mask_of(b, false) & kind, 64)
    }
}

/// The simpler engine's evaluation of a board, for White.
pub open spec fn spec_classic_eval(b: chess::Board) -> int {
    match status_of(b) {
        GameStatus::Checkmate => if white_of(b) {
            i32::MIN as int
        } else {
            i32::MAX as int
        },
        GameStatus::Stalemate => 0,
        GameStatus::Ongoing => spec_classic_material(b, 6),
    }
}

/// Plain minimax over the legal moves: White maximises, Black minimises;
/// with no depth left or no legal move, the position's evaluation.
pub open spec fn spec_minimax(b: chess::Board, depth: nat) -> int
    decreases depth, 0nat,
{
    if depth == 0 || spec_successors(b).len() == 0 {
        spec_classic_eval(b)
    } else {
        spec_best_of(spec_successors(b), (depth - 1) as nat, white_of(b), spec_successors(b).len())
    }
}

/// The best minimax value of the first `n` positions, for the side that
/// maximises or minimises.
pub open spec fn spec_best_of(children: Seq<(Move, chess::Board)>, depth: nat, maximise: bool, n: nat) -> int
    decreases depth, 1nat, n,
{
    if n <= 1 {
        spec_minimax(children[0].1, depth)
    } else {
        let prev = spec_best_of(children, depth, maximise, (n - 1) as nat);
        let next = spec_minimax(children[n - 1].1, depth);
        if maximise && next > prev || !maximise && next < prev {
            next
        } else {
            prev
        }
    }
}

/// The score of a position for White: the extreme value for a checkmate
/// (the side to move is the loser), zero for a stalemate, and otherwise
/// White's material minus Black's.
pub fn evaluate_board(board: &chess::Board) -> (r: i32)
    ensures
        classic_score(r),
        r == spec_classic_eval(*board),
{
    match board_status(board) {
        GameStatus::Checkmate => {
            if white_to_move(board) {
                return i32::MIN;
            } else {
                return i32::MAX;
            }
        },
        GameStatus::Stalemate => {
            return 0;
        },
        GameStatus::Ongoing => {},
    }
    let white = color_mask(board, true);
    let black = color_mask(board, false);
    let mut balance: i32 = 0;
    let mut k: u8 = 0;
    while k < 6
        invariant
            k <= 6,
            -(k as int) * 64 * 900 <= balance <= (k as int) * 64 * 900,
            status_of(*board) == GameStatus::Ongoing,
            white == color_mask_of(*board, true),
            black == color_mask_of(*board, false),
            balance == spec_classic_material(*board, k as nat),
        decreases 6 - k,
    {
        let kind = PieceKind::from_index(k);
        let pieces = kind_mask(board, kind);
        let value = base_value(kind);
        let ours = count_bits(white & pieces) as i32;
        let theirs = count_bits(black & pieces) as i32;
        assert(0 <= value * ours <= 64 * 900) by (nonlinear_arith)
            requires
                0 <= value <= 900,
                0 <= ours <= 64,
        ;
        assert(0 <= value * theirs <= 64 * 900) by (nonlinear_arith)
            requires
                0 <= value <= 900,
                0 <= theirs <= 64,
        ;
        balance = balance + value * ours - value * theirs;
        k += 1;
    }
    balance
}

/// Plain minimax to `remaining_depth` plies: White maximises, Black
/// minimises; a position without moves is evaluated where it stands.
pub fn negamax(board: &chess::Board, stats: &mut Statistics, remaining_depth: i32) -> (r: i32)
    requires
        remaining_depth >= 0,
    ensures
        classic_score(r),
        r == spec_minimax(*board, remaining_depth as nat),
    decreases remaining_depth,
{
    if remaining_depth == 0 {
        stats.increment();
        return evaluate_board(board);
    }
    let children = successors(board);
    if children.len() == 0 {
        return evaluate_board(board);
    }
    let maximise = white_to_move(board);
    let mut best = negamax(&children[0].1, stats, remaining_depth - 1);
    let mut i: usize = 1;
    while i < children.len()
        invariant
            1 <= i <= children@.len(),
            remaining_depth > 0,
            classic_score(best),
            children@ == spec_successors(*board),
            maximise == white_of(*board),
            best == spec_best_of(children@, (remaining_depth - 1) as nat, maximise, i as nat),
        decreases children@.len() - i,
    {
        let score = negamax(&children[i].1, stats, remaining_depth - 1);
        if maximise && score > best || !maximise && score < best {
            best = score;
        }
        i += 1;
    }
    best
}

/// What an alpha-beta search over the window `[alpha, beta]` gives for a
/// position of minimax value `v`: `v` itself inside the window, and a value
/// beyond the window's edge on the same side as `v` (no further out than
/// `v`) outside it.
pub open spec fn window_result(alpha: int, beta: int, r: int, v: int) -> bool {
    &&& (alpha <= v <= beta ==> r == v)
    &&& (v > beta ==> beta < r <= v)
    &&& (v < alpha ==> v <= r < alpha)
}

/// Over the full window, alpha-beta gives exactly the plain minimax value.
pub proof fn lemma_full_window_is_minimax(r: i32, v: int)
    requires
        window_result(i32::MIN as int, i32::MAX as int, r as int, v),
    ensures
        r == v,
{
}

proof fn lemma_best_of_bounds(children: Seq<(Move, chess::Board)>, depth: nat, maximise: bool, n: nat)
    requires
        1 <= n <= children.len(),
    ensures
        forall|k: int| 0 <= k < n ==> maximise ==> spec_best_of(children, depth, maximise, n) >= spec_minimax(#[trigger] children[k].1, depth),
        forall|k: int| 0 <= k < n ==> !maximise ==> spec_best_of(children, depth, maximise, n) <= spec_minimax(#[trigger] children[k].1, depth),
    decreases n,
{
    if n > 1 {
        lemma_best_of_bounds(children, depth, maximise, (n - 1) as nat);
    }
}

/// Minimax with alpha-beta pruning, from White's point of view: White's
/// best value stops the scan once it exceeds `beta`, Black's once it falls
/// below `alpha`. Within a window it finds the plain minimax value.
pub fn negamax_alpha_beta(board: &chess::Board, stats: &mut Statistics, remaining_depth: i32, alpha_in: i32, beta_in: i32) -> (r: i32)
    requires
        remaining_depth >= 0,
    ensures
        classic_score(r),
        alpha_in <= beta_in ==> window_result(alpha_in as int, beta_in as int, r as int, spec_minimax(*board, remaining_depth as nat)),
    decreases remaining_depth,
{
    if remaining_depth == 0 {
        stats.increment();
        return evaluate_board(board);
    }
    let mut alpha = alpha_in;
    let mut beta = beta_in;
    let children = successors(board);
    if children.len() == 0 {
        return evaluate_board(board);
    }
    let maximise = white_to_move(board);
    let ghost d = (remaining_depth - 1) as nat;
    let ghost ok = alpha_in <= beta_in;
    let mut best_value = if maximise { i32::MIN } else { i32::MAX };
    let mut i: usize = 0;
    while i < children.len()
        invariant
            i <= children@.len(),
            remaining_depth > 0,
            d == remaining_depth - 1,
            ok == (alpha_in <= beta_in),
            children@ == spec_successors(*board),
            children@.len() > 0,
            maximise == white_of(*board),
            classic_score(best_value),
            maximise ==> beta == beta_in,
            !maximise ==> alpha == alpha_in,
            i == 0 ==> alpha == alpha_in && beta == beta_in,
            i == 0 ==> best_value == if maximise { i32::MIN } else { i32::MAX },
            ok && maximise && i > 0 ==> {
                let m = spec_best_of(children@, d, true, i as nat);
                &&& alpha == if best_value > alpha_in { best_value } else { alpha_in }
                &&& m <= beta_in
                &&& best_value <= beta_in
                &&& (m >= alpha_in ==> best_value == m)
                &&& (m < alpha_in ==> m <= best_value < alpha_in)
            },
            ok && !maximise && i > 0 ==> {
                let m = spec_best_of(children@, d, false, i as nat);
                &&& beta == if best_value < beta_in { best_value } else { beta_in }
                &&& m >= alpha_in
                &&& best_value >= alpha_in
                &&& (m <= beta_in ==> best_value == m)
                &&& (m > beta_in ==> beta_in < best_value <= m)
            },
        decreases children@.len() - i,
    {
        let child_score = negamax_alpha_beta(&children[i].1, stats, remaining_depth - 1, alpha, beta);
        let ghost v = spec_minimax(children@[i as int].1, d);
        if maximise {
            if child_score > best_value {
                best_value = child_score;
            }
            if beta < best_value {
                proof {
                    lemma_best_of_bounds(children@, d, true, children@.len());
                }
                return best_value;
            }
            if best_value > alpha {
                alpha = best_value;
            }
        } else {
            if child_score < best_value {
                best_value = child_score;
            }
            if best_value < alpha {
                proof {
                    lemma_best_of_bounds(children@, d, false, children@.len());
                }
                return best_value;
            }
            if best_value < beta {
                beta = best_value;
            }
        }
        i += 1;
    }
    assert(spec_minimax(*board, remaining_depth as nat) == spec_best_of(children@, d, maximise, children@.len()));
    best_value
}

/// The simpler engine: a fixed-depth minimax without a cache.
#[derive(Clone, Copy, Debug, Default)]
pub struct StockWish {
    pub depth: i32,
}

/// The legal moves of a position, in generation order.
pub open spec fn legal_move_list(b: chess::Board) -> Seq<Move> {
    spec_successors(b).map_values(|x: (Move, chess::Board)| x.0)
}

/// The plain minimax value of the position each legal move leads to.
pub open spec fn minimax_scores(b: chess::Board) -> Seq<i32> {
    Seq::new(spec_successors(b).len(), |k: int| spec_minimax(spec_successors(b)[k].1, CLASSIC_DEPTH as nat) as i32)
}

/// White takes the last of the highest scores, Black the first of the
/// lowest; nothing when there are no moves.
pub open spec fn extreme_choice(moves: Seq<Move>, scores: Seq<i32>, maximise: bool, choice: Option<Move>) -> bool {
    &&& moves.len() == scores.len()
    &&& match choice {
        None => moves.len() == 0,
        Some(m) => exists|i: int|
            0 <= i < moves.len() && moves[i] == m && if maximise {
                (forall|j: int| 0 <= j < scores.len() ==> #[trigger] scores[j] <= scores[i])
                    && (forall|j: int| i < j < scores.len() ==> #[trigger] scores[j] < scores[i])
            } else {
                (forall|j: int| 0 <= j < scores.len() ==> #[trigger] scores[j] >= scores[i])
                    && (forall|j: int| 0 <= j < i ==> #[trigger] scores[j] > scores[i])
            },
    }
}

/// Picks the move for the side to move from the scores of the positions
/// the moves lead to.
pub fn pick_extreme(moves: &Vec<Move>, scores: &Vec<i32>, maximise: bool) -> (r: Option<Move>)
    requires
        moves@.len() == scores@.len(),
    ensures
        extreme_choice(moves@, scores@, maximise, r),
{
    if moves.len() == 0 {
        return None;
    }
    let mut best: usize = 0;
    let mut i: usize = 1;
    while i < moves.len()
        invariant
            moves@.len() == scores@.len(),
            1 <= i <= moves@.len(),
            best < i,
            maximise ==> forall|k: int| 0 <= k < i ==> #[trigger] scores@[k] <= scores@[best as int],
            maximise ==> forall|k: int| best < k < i ==> #[trigger] scores@[k] < scores@[best as int],
            !maximise ==> forall|k: int| 0 <= k < i ==> #[trigger] scores@[k] >= scores@[best as int],
            !maximise ==> forall|k: int| 0 <= k < best ==> #[trigger] scores@[k] > scores@[best as int],
        decreases moves@.len() - i,
    {
        if maximise && scores[i] >= scores[best] || !maximise && scores[i] < scores[best] {
            best = i;
        }
        i += 1;
    }
    assert(0 <= best < moves@.len() && moves@[best as int] == moves@[best as int]);
    Some(moves[best])
}

impl StockWish {
    /// The move whose resulting position scores best for the side to move
    /// after an alpha-beta search `CLASSIC_DEPTH` plies deep: the last of
    /// the highest for White, the first of the lowest for Black. `None` when
    /// the side to move has no legal move.
    pub fn best_next_move(&self, game: chess::Game) -> (r: Option<Move>)
        ensures
            r matches Some(m) ==> m.wf(),
            r is None <==> spec_successors(position_of(game)).len() == 0,
            extreme_choice(
                legal_move_list(position_of(game)),
                minimax_scores(position_of(game)),
                white_of(position_of(game)),
                r,
            ),
    {
        let board = current_position(&game);
        let children = successors(&board);
        let maximise = white_to_move(&board);
        let mut stats = Statistics::new();
        let mut moves: Vec<Move> = Vec::new();
        let mut scores: Vec<i32> = Vec::new();
        let mut i: usize = 0;
        while i < children.len()
            invariant
                i <= children@.len(),
                moves@.len() == i,
                scores@.len() == i,
                forall|k: int| 0 <= k < i ==> #[trigger] moves@[k] == children@[k].0,
                children@ == spec_successors(position_of(game)),
                maximise == white_of(position_of(game)),
                forall|k: int| 0 <= k < i ==> #[trigger] scores@[k] == minimax_scores(position_of(game))[k],
                forall|k: int| 0 <= k < children@.len() ==> (#[trigger] children@[k]).0.wf(),
            decreases children@.len() - i,
        {
            let (m, child) = children[i];
            moves.push(m);
            scores.push(negamax_alpha_beta(&child, &mut stats, CLASSIC_DEPTH, i32::MIN, i32::MAX));
            i += 1;
        }
        let r = pick_extreme(&moves, &scores, maximise);
        proof {
            assert(moves@ =~= legal_move_list(position_of(game)));
            assert(scores@ =~= minimax_scores(position_of(game)));
            assert(extreme_choice(moves@, scores@, maximise, r));
            if r is Some {
                let j = choose|j: int| 0 <= j < moves@.len() && moves@[j] == r->0;
                assert(children@[j].0.wf());
            }
        }
        r
    }
}

} // verus!
