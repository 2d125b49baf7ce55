//! Static evaluation of a position, from the point of view of the side to
//! move: material plus weighted piece-square bonuses.

use vstd::prelude::*;
use crate::cache::{cache_wf, insert_in_cache_if_better, lru_capacity, lru_entries, stored_if_better, CacheData, SWCache, TopTargets};
use crate::move_ordering::{moves_toward_quiescence, spec_quiescence_moves};
use crate::position::{Move, bits_below, hash_of, board_status, color_mask, color_mask_of, count_bits, kind_mask, kind_mask_of, status_of, white_of, white_to_move, GameStatus, PieceKind};
use crate::score::{valid_value, Score};
use crate::stockwish::Calibration;

verus! {

pub const QUEEN_VALUE: i32 = 900;
pub const ROOK_VALUE: i32 = 500;
pub const BISHOP_VALUE: i32 = 330;
pub const KNIGHT_VALUE: i32 = 320;
pub const PAWN_VALUE: i32 = 100;

/// No positional bonus in the tables is larger than this in magnitude.
pub const BONUS_LIMIT: i32 = 50;

/// The largest magnitude of a calibration's positional weight.
pub const MAX_POSITIONAL_WEIGHT: i32 = 10_000;

/// The largest magnitude of a piece-square table cell that evaluation uses.
pub const CELL_LIMIT: i32 = 1_000_000;

/// The largest magnitude of the evaluation of an ongoing position.
pub const EVAL_LIMIT: i32 = 768_000_000;

/// How many plies the capture search may add beyond the nominal depth.
/// Capture search is meant to run until the position is quiet; this bound
/// is a deliberate addition that makes it terminate on every input (in
/// check every move is tried, so checks could otherwise go on without end).
/// When it is used up, the stand-pat value stands.
pub const QUIESCENCE_PLY_LIMIT: u32 = 64;

pub open spec fn spec_piece_value(p: Option<PieceKind>) -> i32 {
    match p {
        Some(PieceKind::Queen) => QUEEN_VALUE,
        Some(PieceKind::Rook) => ROOK_VALUE,
        Some(PieceKind::Bishop) => BISHOP_VALUE,
        Some(PieceKind::Knight) => KNIGHT_VALUE,
        Some(PieceKind::Pawn) => PAWN_VALUE,
        _ => 0,
    }
}

/// The material value of a piece; an empty square and the king count zero
/// (the king is covered by the checkmate rule).
pub fn piece_value(p: Option<PieceKind>) -> (r: i32)
    ensures
        r == spec_piece_value(p),
        0 <= r <= QUEEN_VALUE,
{
    match p {
        Some(PieceKind::Queen) => QUEEN_VALUE,
        Some(PieceKind::Rook) => ROOK_VALUE,
        Some(PieceKind::Bishop) => BISHOP_VALUE,
        Some(PieceKind::Knight) => KNIGHT_VALUE,
        Some(PieceKind::Pawn) => PAWN_VALUE,
        _ => 0,
    }
}

/// Whether bit `i` of `mask` is set.
pub open spec fn bit_set(mask: u64, i: nat) -> bool {
    (mask >> (i as u64)) & 1u64 == 1u64
}

/// The sum of `cells[63 - i]` over the set bits `i < n` of `mask`.
pub open spec fn dot_prefix(cells: Seq<i32>, mask: u64, n: nat) -> int
    decreases n,
{
    if n == 0 {
        0
    } else {
        dot_prefix(cells, mask, (n - 1) as nat) + if bit_set(mask, (n - 1) as nat) {
            cells[63 - (n - 1)] as int
        } else {
            0
        }
    }
}

/// The cell a square's mirror image occupies: same file, rank reflected.
pub open spec fn mirror_index(i: int) -> int {
    (7 - i / 8) * 8 + i % 8
}

/// A value for each square for one kind of piece, row by row.
#[derive(Clone, Copy, Debug)]
pub struct PieceSquareTable {
    pub cells: [i32; 64],
}

impl PieceSquareTable {
    /// Every cell lies within the evaluation's limit.
    pub open spec fn wf(&self) -> bool {
        forall|i: int| 0 <= i < 64 ==> -CELL_LIMIT <= #[trigger] self.cells@[i] <= CELL_LIMIT
    }

    /// A table whose cells are `offset * offset_scale + scale * vals[i]`.
    pub fn new(offset: i32, offset_scale: i32, scale: i32, vals: [i32; 64]) -> (r: Self)
        requires
            forall|i: int|
                0 <= i < 64 ==> i32::MIN <= offset * offset_scale + scale * #[trigger] vals@[i] <= i32::MAX,
        ensures
            forall|i: int| 0 <= i < 64 ==> #[trigger] r.cells@[i] == offset * offset_scale + scale * vals@[i],
    {
        let mut cells = vals;
        assert(-0x4000_0000_0000_0000 <= offset * offset_scale <= 0x4000_0000_0000_0000) by (nonlinear_arith)
            requires
                i32::MIN <= offset <= i32::MAX,
                i32::MIN <= offset_scale <= i32::MAX,
        ;
        let base: i64 = offset as i64 * offset_scale as i64;
        let mut i: usize = 0;
        while i < 64
            invariant
                i <= 64,
                base == offset * offset_scale,
                forall|k: int|
                    0 <= k < 64 ==> i32::MIN <= offset * offset_scale + scale * #[trigger] vals@[k] <= i32::MAX,
                forall|k: int| 0 <= k < i ==> #[trigger] cells@[k] == offset * offset_scale + scale * vals@[k],
                forall|k: int| i <= k < 64 ==> #[trigger] cells@[k] == vals@[k],
            decreases 64 - i,
        {
            let v = cells[i];
            assert(-0x4000_0000_0000_0000 <= scale * v <= 0x4000_0000_0000_0000) by (nonlinear_arith)
                requires
                    i32::MIN <= scale <= i32::MAX,
                    i32::MIN <= v <= i32::MAX,
            ;
            assert(i32::MIN <= offset * offset_scale + scale * vals@[i as int] <= i32::MAX);
            cells[i] = (base + scale as i64 * v as i64) as i32;
            i += 1;
        }
        Self { cells }
    }

    /// A table with exactly these cells.
    pub fn new_raw(vals: [i32; 64]) -> (r: Self)
        ensures
            r.cells@ == vals@,
    {
        Self { cells: vals }
    }

    /// The sum of the table over the squares set in `mask`; square `i` reads
    /// cell `63 - i`.
    pub fn dot(&self, mask: u64) -> (r: i32)
        requires
            self.wf(),
        ensures
            r == dot_prefix(self.cells@, mask, 64),
            -64 * CELL_LIMIT <= r <= 64 * CELL_LIMIT,
    {
        let mut acc: i32 = 0;
        let mut i: u64 = 0;
        while i < 64
            invariant
                i <= 64,
                self.wf(),
                acc == dot_prefix(self.cells@, mask, i as nat),
                -(i as int) * CELL_LIMIT <= acc <= (i as int) * CELL_LIMIT,
            decreases 64 - i,
        {
            if (mask >> i) & 1u64 == 1u64 {
                acc = acc + self.cells[(63 - i) as usize];
            }
            i += 1;
        }
        acc
    }

    /// The same table for the other colour: ranks reflected, files kept.
    pub fn change_color(&self) -> (r: Self)
        ensures
            forall|i: int| 0 <= i < 64 ==> #[trigger] r.cells@[i] == self.cells@[mirror_index(i)],
            self.wf() ==> r.wf(),
    {
        let mut cells = self.cells;
        let mut i: usize = 0;
        while i < 64
            invariant
                i <= 64,
                forall|k: int| 0 <= k < i ==> #[trigger] cells@[k] == self.cells@[mirror_index(k)],
            decreases 64 - i,
        {
            cells[i] = self.cells[(7 - i / 8) * 8 + i % 8];
            i += 1;
        }
        Self::new_raw(cells)
    }
}

pub open spec fn spec_bonuses(kind: PieceKind) -> [i32; 64] {
    match kind {
        PieceKind::Pawn => PAWN_BONUSES,
        PieceKind::Knight => KNIGHT_BONUSES,
        PieceKind::Bishop => BISHOP_BONUSES,
        PieceKind::Rook => ROOK_BONUSES,
        PieceKind::Queen => QUEEN_BONUSES,
        PieceKind::King => KING_BONUSES,
    }
}

/// The positional bonuses for a white piece of `kind`, rank 8 first.
fn bonuses(kind: PieceKind) -> (r: [i32; 64])
    ensures
        r == spec_bonuses(kind),
        forall|i: int| 0 <= i < 64 ==> -BONUS_LIMIT <= #[trigger] r@[i] <= BONUS_LIMIT,
{
    match kind {
        PieceKind::Pawn => PAWN_BONUSES,
        PieceKind::Knight => KNIGHT_BONUSES,
        PieceKind::Bishop => BISHOP_BONUSES,
        PieceKind::Rook => ROOK_BONUSES,
        PieceKind::Queen => QUEEN_BONUSES,
        PieceKind::King => KING_BONUSES,
    }
}

/// The table for a white piece of `kind` under a positional weight: each
/// cell is the piece's value plus the weighted bonus of the square.
pub fn white_table(kind: PieceKind, calibration: Calibration) -> (r: PieceSquareTable)
    requires
        calibration.wf(),
    ensures
        r.wf(),
        r.cells@ == spec_table_cells(kind, calibration.positional_weight),
{
    let vals = bonuses(kind);
    let w = calibration.positional_weight;
    assert forall|i: int| 0 <= i < 64 implies -CELL_LIMIT <= w * #[trigger] vals@[i] <= CELL_LIMIT by {
        let b = vals@[i];
        assert(-MAX_POSITIONAL_WEIGHT <= w <= MAX_POSITIONAL_WEIGHT);
        assert(-500_000 <= w * b <= 500_000) by (nonlinear_arith)
            requires
                -10_000 <= w <= 10_000,
                -50 <= b <= 50,
        ;
    }
    let value = piece_value(Some(kind));
    let r = PieceSquareTable::new(value, 1, w, vals);
    assert forall|i: int| 0 <= i < 64 implies -CELL_LIMIT <= #[trigger] r.cells@[i] <= CELL_LIMIT by {
        let b = vals@[i];
        assert(-500_000 <= w * b <= 500_000) by (nonlinear_arith)
            requires
                -10_000 <= w <= 10_000,
                -50 <= b <= 50,
        ;
        assert(value * 1 == value);
    }
    assert(r.cells@ =~= spec_table_cells(kind, calibration.positional_weight)) by {
        assert forall|i: int| 0 <= i < 64 implies #[trigger] r.cells@[i] == spec_table_cells(kind, w)[i] by {
            assert(value * 1 == value);
        }
    }
    r
}

/// The cells of the white table for `kind` under positional weight `w`.
pub open spec fn spec_table_cells(kind: PieceKind, w: i32) -> Seq<i32> {
    Seq::new(64, |i: int| (spec_piece_value(Some(kind)) + w * spec_bonuses(kind)@[i]) as i32)
}

/// The white tables of all six kinds of piece under a calibration.
pub open spec fn spec_tables(calibration: Calibration) -> Seq<Seq<i32>> {
    Seq::new(6, |k: int| spec_table_cells(PieceKind::spec_from_index(k as u8), calibration.positional_weight))
}

/// The squares of each of the six kinds of piece on a board.
pub open spec fn spec_kinds(b: chess::Board) -> Seq<u64> {
    Seq::new(6, |k: int| kind_mask_of(b, k as u8))
}

/// White's material and weighted position minus Black's, on a board.
pub open spec fn spec_board_balance(b: chess::Board, calibration: Calibration) -> int {
    spec_balance(spec_tables(calibration), color_mask_of(b, true), color_mask_of(b, false), spec_kinds(b), 6)
}

/// The static evaluation of a board from the side to move's point of view.
pub open spec fn spec_raw_score(b: chess::Board, calibration: Calibration) -> int {
    spec_status_score(status_of(b), white_of(b), spec_board_balance(b, calibration))
}

/// The cells of each table.
pub open spec fn cells_of(tables: Seq<PieceSquareTable>) -> Seq<Seq<i32>> {
    Seq::new(tables.len(), |k: int| tables[k].cells@)
}

/// Material plus weighted position for White minus the same for Black, for
/// the pieces on `white` and `black`, kind `k` standing on `kinds[k]` and
/// scored with `tables[k]` (Black with its mirror).
pub fn balance(tables: &Vec<PieceSquareTable>, white: u64, black: u64, kinds: &Vec<u64>) -> (r: i32)
    requires
        tables@.len() == 6,
        kinds@.len() == 6,
        forall|k: int| 0 <= k < 6 ==> (#[trigger] tables@[k]).wf(),
    ensures
        r == spec_balance(cells_of(tables@), white, black, kinds@, 6),
        -EVAL_LIMIT <= r <= EVAL_LIMIT,
{
    let mut total: i32 = 0;
    let mut k: usize = 0;
    while k < 6
        invariant
            k <= 6,
            tables@.len() == 6,
            kinds@.len() == 6,
            forall|j: int| 0 <= j < 6 ==> (#[trigger] tables@[j]).wf(),
            total == spec_balance(cells_of(tables@), white, black, kinds@, k as nat),
            -(k as int) * 128 * CELL_LIMIT <= total <= (k as int) * 128 * CELL_LIMIT,
        decreases 6 - k,
    {
        let white_cells = tables[k];
        let black_cells = white_cells.change_color();
        assert(black_cells.cells@ =~= mirrored_cells(white_cells.cells@));
        assert(cells_of(tables@)[k as int] == white_cells.cells@);
        total = total + white_cells.dot(white & kinds[k]) - black_cells.dot(black & kinds[k]);
        k += 1;
    }
    total
}

/// Material plus weighted position for White minus the same for Black.
fn sum_piece_square_tables(board: &chess::Board, calibration: Calibration) -> (r: i32)
    requires
        calibration.wf(),
    ensures
        r == spec_board_balance(*board, calibration),
        -EVAL_LIMIT <= r <= EVAL_LIMIT,
{
    let mut tables: Vec<PieceSquareTable> = Vec::new();
    let mut kinds: Vec<u64> = Vec::new();
    let mut k: u8 = 0;
    while k < 6
        invariant
            k <= 6,
            calibration.wf(),
            tables@.len() == k,
            kinds@.len() == k,
            forall|j: int| 0 <= j < k ==> (#[trigger] tables@[j]).wf(),
            forall|j: int| 0 <= j < k ==> (#[trigger] tables@[j]).cells@ == spec_tables(calibration)[j],
            forall|j: int| 0 <= j < k ==> #[trigger] kinds@[j] == spec_kinds(*board)[j],
        decreases 6 - k,
    {
        let kind = PieceKind::from_index(k);
        tables.push(white_table(kind, calibration));
        kinds.push(kind_mask(board, kind));
        k += 1;
    }
    assert(cells_of(tables@) =~= spec_tables(calibration));
    assert(kinds@ =~= spec_kinds(*board));
    balance(&tables, color_mask(board, true), color_mask(board, false), &kinds)
}

/// The score of a position from the side to move's point of view, given
/// its status and White's balance: a checkmated side gets one above the
/// smallest value, a stalemate is even, otherwise the balance counts for
/// White and against Black.
pub open spec fn spec_status_score(status: GameStatus, white_to_move: bool, balance: int) -> int {
    match status {
        GameStatus::Checkmate => i32::MIN + 1,
        GameStatus::Stalemate => 0,
        GameStatus::Ongoing => if white_to_move {
            balance
        } else {
            -balance
        },
    }
}

/// Combines a position's status, side to move and balance into its score.
pub fn score_from_parts(status: GameStatus, white_to_move: bool, balance: i32) -> (r: i32)
    requires
        -EVAL_LIMIT <= balance <= EVAL_LIMIT,
    ensures
        r == spec_status_score(status, white_to_move, balance as int),
        valid_value(r),
{
    match status {
        GameStatus::Checkmate => i32::MIN + 1,
        GameStatus::Stalemate => 0,
        GameStatus::Ongoing => if white_to_move {
            balance
        } else {
            -balance
        },
    }
}

/// The static evaluation of a position, from the side to move's point of
/// view: checkmate, stalemate, or material and weighted position.
pub fn raw_board_score(board: &chess::Board, calibration: Calibration) -> (r: i32)
    requires
        calibration.wf(),
    ensures
        valid_value(r),
        r == spec_raw_score(*board, calibration),
        status_of(*board) == GameStatus::Ongoing ==> -EVAL_LIMIT <= r <= EVAL_LIMIT,
{
    let status = board_status(board);
    let balance = match status {
        GameStatus::Ongoing => sum_piece_square_tables(board, calibration),
        _ => 0,
    };
    score_from_parts(status, white_to_move(board), balance)
}

/// The evaluation is relative to the side to move: two positions with the
/// same pieces on the same squares, both with a legal move, but different
/// sides to move, score opposite values.
pub proof fn lemma_side_to_move_negates(b1: chess::Board, b2: chess::Board, calibration: Calibration)
    requires
        status_of(b1) == GameStatus::Ongoing,
        status_of(b2) == GameStatus::Ongoing,
        white_of(b1) != white_of(b2),
        color_mask_of(b1, true) == color_mask_of(b2, true),
        color_mask_of(b1, false) == color_mask_of(b2, false),
        forall|k: u8| k < 6 ==> #[trigger] kind_mask_of(b1, k) == kind_mask_of(b2, k),
    ensures
        spec_raw_score(b2, calibration) == -spec_raw_score(b1, calibration),
{
    assert(spec_kinds(b1) =~= spec_kinds(b2)) by {
        assert forall|k: int| 0 <= k < 6 implies #[trigger] spec_kinds(b1)[k] == spec_kinds(b2)[k] by {
            assert(kind_mask_of(b1, k as u8) == kind_mask_of(b2, k as u8));
        }
    }
}

/// What a window search guarantees: a lower bound is at least `beta`; an
/// exact value is at least `alpha`, and below `beta` when the window is
/// not empty. Upper bounds are never produced.
pub open spec fn within_window(s: Score, alpha: i32, beta: i32) -> bool {
    &&& s.wf()
    &&& match s {
        Score::LowerBound(v) => v >= beta,
        Score::Exact(v) => v >= alpha && (alpha < beta ==> v < beta),
        Score::UpperBound(_) => false,
    }
}

/// Capture search as a value: the stand-pat evaluation when it reaches
/// `beta`, else the scan of the capture-search moves starting from the
/// better of `alpha` and the stand-pat value; with no plies left, that
/// value itself.
pub open spec fn spec_quiesce(b: chess::Board, alpha: i32, beta: i32, calibration: Calibration, budget: nat) -> Score
    decreases budget, 1nat, 0nat,
{
    let eval = spec_raw_score(b, calibration) as i32;
    if beta <= eval {
        Score::LowerBound(eval)
    } else {
        let best = if alpha > eval { alpha } else { eval };
        if budget == 0 {
            Score::Exact(best)
        } else {
            quiesce_scan(spec_quiescence_moves(b), 0, best, beta, calibration, (budget - 1) as nat)
        }
    }
}

/// The scan of capture search over `moves[i..]`: each child is searched
/// with the negated window, its negated value cuts off at `beta` or raises
/// the best value so far.
pub open spec fn quiesce_scan(
    moves: Seq<(Move, chess::Board)>,
    i: nat,
    best: i32,
    beta: i32,
    calibration: Calibration,
    budget: nat,
) -> Score
    decreases budget + 1, 0nat, moves.len() - i,
{
    if i >= moves.len() {
        Score::Exact(best)
    } else {
        let v = (-(spec_quiesce(moves[i as int].1, (-beta) as i32, (-best) as i32, calibration, budget).spec_value() as int)) as i32;
        if beta <= v {
            Score::LowerBound(v)
        } else {
            quiesce_scan(moves, i + 1, if v > best { v } else { best }, beta, calibration, budget)
        }
    }
}

/// Capture search: the stand-pat evaluation, improved by the captures (all
/// moves when in check) that keep the window open. Recursion stops after
/// `budget` further plies, where the stand-pat value stands.
fn quiescent_alpha_beta(board: &chess::Board, alpha: i32, beta: i32, calibration: Calibration, budget: u32) -> (r: Score)
    requires
        valid_value(alpha),
        valid_value(beta),
        calibration.wf(),
    ensures
        r == spec_quiesce(*board, alpha, beta, calibration, budget as nat),
        within_window(r, alpha, beta),
        r.spec_value() >= spec_raw_score(*board, calibration),
        beta <= spec_raw_score(*board, calibration) ==> r == Score::LowerBound(spec_raw_score(*board, calibration) as i32),
        budget == 0 && spec_raw_score(*board, calibration) < beta ==> r == Score::Exact(
            if alpha > spec_raw_score(*board, calibration) { alpha } else { spec_raw_score(*board, calibration) as i32 },
        ),
    decreases budget,
{
    let eval = raw_board_score(board, calibration);
    if beta <= eval {
        return Score::LowerBound(eval);
    }
    let mut best = if alpha > eval { alpha } else { eval };
    if budget == 0 {
        return Score::Exact(best);
    }
    let moves = moves_toward_quiescence(board);
    let ghost best0 = best;
    let mut i: usize = 0;
    while i < moves.len()
        invariant
            moves@ == spec_quiescence_moves(*board),
            quiesce_scan(moves@, 0, best0, beta, calibration, (budget - 1) as nat) == quiesce_scan(
                moves@,
                i as nat,
                best,
                beta,
                calibration,
                (budget - 1) as nat,
            ),
            spec_quiesce(*board, alpha, beta, calibration, budget as nat) == quiesce_scan(moves@, 0, best0, beta, calibration, (budget - 1) as nat),
            valid_value(alpha),
            valid_value(beta),
            calibration.wf(),
            budget > 0,
            i <= moves@.len(),
            best >= alpha,
            best >= eval,
            eval < beta,
            eval == spec_raw_score(*board, calibration),
            valid_value(best),
            alpha < beta ==> best < beta,
        decreases moves@.len() - i,
    {
        let child = quiescent_alpha_beta(&moves[i].1, -beta, -best, calibration, budget - 1).negate();
        assert(child.spec_value() == (-(spec_quiesce(moves@[i as int].1, (-beta) as i32, (-best) as i32, calibration, (budget - 1) as nat).spec_value() as int)) as i32);
        let v = child.value();
        if beta <= v {
            return Score::LowerBound(v);
        }
        if v > best {
            best = v;
        }
        i += 1;
    }
    Score::Exact(best)
}

/// The capture-search score of a position within the window
/// `(alpha, beta)`. The result is also offered to the cache at depth zero.
pub fn quiescent_board_score(
    board: &chess::Board,
    cache: &mut SWCache,
    alpha: i32,
    beta: i32,
    calibration: Calibration,
) -> (r: i32)
    requires
        valid_value(alpha),
        valid_value(beta),
        calibration.wf(),
        lru_capacity(*old(cache)) > 0,
        cache_wf(lru_entries(*old(cache))),
    ensures
        valid_value(r),
        r >= alpha || r >= beta,
        alpha < beta && r < beta ==> r >= alpha,
        r == spec_quiesce(*board, alpha, beta, calibration, QUIESCENCE_PLY_LIMIT as nat).spec_value(),
        r >= spec_raw_score(*board, calibration),
        beta <= spec_raw_score(*board, calibration) ==> r == spec_raw_score(*board, calibration),
        exists|t: TopTargets|
            {
                &&& t.entries().len() == 0
                &&& stored_if_better(
                    lru_entries(*old(cache)),
                    hash_of(*board),
                    (CacheData {
                        depth: 0,
                        score: spec_quiesce(*board, alpha, beta, calibration, QUIESCENCE_PLY_LIMIT as nat),
                        targets: t,
                    }),
                    lru_entries(*final(cache)),
                )
            },
        lru_capacity(*final(cache)) == lru_capacity(*old(cache)),
        cache_wf(lru_entries(*final(cache))),
{
    let score = quiescent_alpha_beta(board, alpha, beta, calibration, QUIESCENCE_PLY_LIMIT);
    let targets = TopTargets::new(0);
    let ghost t = targets;
    insert_in_cache_if_better(board, 0, &score, targets, cache);
    assert(t.entries().len() == 0);
    score.value()
}

/// The stage of a game, judged by the material left on the board.
#[derive(Clone, Copy, Debug, PartialEq, Eq, Structural)]
pub enum GamePhase {
    Opening,
    MiddleGame,
    Endgame,
}

pub open spec fn spec_phase_of_material(total: int) -> GamePhase {
    if total > 6800 {
        GamePhase::Opening
    } else if total > 3000 {
        GamePhase::MiddleGame
    } else {
        GamePhase::Endgame
    }
}

/// The phase for a total material value of both sides together.
pub fn phase_of_material(total: i32) -> (r: GamePhase)
    ensures
        r == spec_phase_of_material(total as int),
{
    if total > 6800 {
        GamePhase::Opening
    } else if total > 3000 {
        GamePhase::MiddleGame
    } else {
        GamePhase::Endgame
    }
}

/// The value of the pieces of the first `n` kinds on a board, both colours.
pub open spec fn spec_total_material(b: chess::Board, n: nat) -> int
    decreases n,
{
    if n == 0 {
        0
    } else {
        spec_total_material(b, (n - 1) as nat) + spec_piece_value(Some(PieceKind::spec_from_index((n - 1) as u8)))
            * bits_below(kind_mask_of(b, (n - 1) as u8), 64)
    }
}

/// The phase of a position, from the value of all pieces on the board.
pub fn game_phase(board: &chess::Board) -> (r: GamePhase)
    ensures
        r == spec_phase_of_material(spec_total_material(*board, 6)),
{
    let mut total: i32 = 0;
    let mut k: u8 = 0;
    while k < 6
        invariant
            k <= 6,
            0 <= total <= (k as int) * 64 * QUEEN_VALUE,
            total == spec_total_material(*board, k as nat),
        decreases 6 - k,
    {
        let kind = PieceKind::from_index(k);
        let value = piece_value(Some(kind));
        let n = count_bits(kind_mask(board, kind)) as i32;
        assert(0 <= value * n <= 64 * QUEEN_VALUE) by (nonlinear_arith)
            requires
                0 <= value <= QUEEN_VALUE,
                0 <= n <= 64,
        ;
        total = total + value * n;
        k += 1;
    }
    phase_of_material(total)
}

/// The table for the other colour: ranks reflected, files kept.
pub open spec fn mirrored_cells(cells: Seq<i32>) -> Seq<i32> {
    Seq::new(64, |i: int| cells[mirror_index(i)])
}

/// Square `i` of `reflected` is set exactly when the mirror image of `i` is
/// set in `mask`.
#[verifier::opaque]
pub open spec fn reflects(reflected: u64, mask: u64) -> bool {
    forall|i: nat| i < 64 ==> #[trigger] bit_set(reflected, i) == bit_set(mask, mirror_index(i as int) as nat)
}

proof fn lemma_mirror_index(square: int)
    requires
        0 <= square < 64,
    ensures
        0 <= mirror_index(square) < 64,
        mirror_index(mirror_index(square)) == square,
        mirror_index(63 - square) == 63 - mirror_index(square),
{
    let r = square / 8;
    let c = square % 8;
    assert(square == 8 * r + c);
    assert((63 - square) / 8 == 7 - r && (63 - square) % 8 == 7 - c);
    assert(mirror_index(square) == (7 - r) * 8 + c);
    assert(mirror_index(square) / 8 == 7 - r && mirror_index(square) % 8 == c);
}

/// The bonus tables of the two colours agree on mirrored squares: the table
/// for the other colour, read at the square a piece stands on, gives what
/// the first table gives at the rank-reflected square.
pub proof fn lemma_mirrored_squares_agree(cells: Seq<i32>, square: int)
    requires
        cells.len() == 64,
        0 <= square < 64,
    ensures
        mirrored_cells(cells)[63 - square] == cells[63 - mirror_index(square)],
        0 <= mirror_index(square) < 64,
        mirror_index(mirror_index(square)) == square,
{
    lemma_mirror_index(square);
}

/// Reflecting the ranks twice gives the table back.
pub proof fn lemma_mirrored_cells_involution(cells: Seq<i32>)
    requires
        cells.len() == 64,
    ensures
        mirrored_cells(mirrored_cells(cells)) == cells,
{
    assert forall|i: int| 0 <= i < 64 implies #[trigger] mirrored_cells(mirrored_cells(cells))[i] == cells[i] by {
        lemma_mirror_index(i);
    }
    assert(mirrored_cells(mirrored_cells(cells)) =~= cells);
}

/// The part of a dot product that comes from one rank of the board.
pub open spec fn rank_part(cells: Seq<i32>, mask: u64, rank: int) -> int {
    dot_prefix(cells, mask, (8 * rank + 8) as nat) - dot_prefix(cells, mask, (8 * rank) as nat)
}

proof fn lemma_rank_square(cells: Seq<i32>, mask: u64, reflected: u64, rank: int, file: int)
    requires
        cells.len() == 64,
        0 <= rank < 8,
        0 <= file < 8,
        reflects(reflected, mask),
    ensures
        mirrored_cells(cells)[63 - (8 * rank + file)] == cells[63 - (8 * (7 - rank) + file)],
        bit_set(reflected, (8 * (7 - rank) + file) as nat) == bit_set(mask, (8 * rank + file) as nat),
{
    reveal(reflects);
    let other = 7 - rank;
    lemma_mirrored_squares_agree(cells, 8 * rank + file);
    assert((8 * rank + file) / 8 == rank && (8 * rank + file) % 8 == file);
    assert((8 * other + file) / 8 == other && (8 * other + file) % 8 == file);
    assert(mirror_index(8 * rank + file) == 8 * other + file);
    assert(mirror_index(8 * other + file) == 8 * rank + file);
    assert(bit_set(reflected, (8 * other + file) as nat) == bit_set(mask, mirror_index(8 * other + file) as nat));
}

#[verifier::rlimit(40)]
proof fn lemma_rank_part(cells: Seq<i32>, mask: u64, reflected: u64, rank: int)
    requires
        cells.len() == 64,
        0 <= rank < 8,
        reflects(reflected, mask),
    ensures
        rank_part(mirrored_cells(cells), mask, rank) == rank_part(cells, reflected, 7 - rank),
{
    lemma_rank_square(cells, mask, reflected, rank, 0);
    lemma_rank_square(cells, mask, reflected, rank, 1);
    lemma_rank_square(cells, mask, reflected, rank, 2);
    lemma_rank_square(cells, mask, reflected, rank, 3);
    lemma_rank_square(cells, mask, reflected, rank, 4);
    lemma_rank_square(cells, mask, reflected, rank, 5);
    lemma_rank_square(cells, mask, reflected, rank, 6);
    lemma_rank_square(cells, mask, reflected, rank, 7);
    reveal_with_fuel(dot_prefix, 9);
}

/// Colour symmetry of one kind of piece: pieces scored with the mirrored
/// table on the squares of `mask` sum to what the first table gives the
/// same pieces reflected across the middle of the board.
pub proof fn lemma_mirrored_dot(cells: Seq<i32>, mask: u64, reflected: u64)
    requires
        cells.len() == 64,
        reflects(reflected, mask),
    ensures
        dot_prefix(mirrored_cells(cells), mask, 64) == dot_prefix(cells, reflected, 64),
{
    lemma_rank_part(cells, mask, reflected, 0);
    lemma_rank_part(cells, mask, reflected, 1);
    lemma_rank_part(cells, mask, reflected, 2);
    lemma_rank_part(cells, mask, reflected, 3);
    lemma_rank_part(cells, mask, reflected, 4);
    lemma_rank_part(cells, mask, reflected, 5);
    lemma_rank_part(cells, mask, reflected, 6);
    lemma_rank_part(cells, mask, reflected, 7);
    assert(dot_prefix(mirrored_cells(cells), mask, 0) == 0);
    assert(dot_prefix(cells, reflected, 0) == 0);
}

proof fn lemma_bit_and(a: u64, b: u64, i: nat)
    requires
        i < 64,
    ensures
        bit_set(a & b, i) == (bit_set(a, i) && bit_set(b, i)),
{
    let s = i as u64;
    assert((((a & b) >> s) & 1u64 == 1u64) == (((a >> s) & 1u64 == 1u64) && ((b >> s) & 1u64 == 1u64))) by (bit_vector)
        requires
            s < 64,
    ;
}

proof fn lemma_reflects_and(ra: u64, a: u64, rb: u64, b: u64)
    requires
        reflects(ra, a),
        reflects(rb, b),
    ensures
        reflects(ra & rb, a & b),
{
    reveal(reflects);
    assert forall|i: nat| i < 64 implies #[trigger] bit_set(ra & rb, i) == bit_set(a & b, mirror_index(i as int) as nat) by {
        lemma_mirror_index(i as int);
        lemma_bit_and(ra, rb, i);
        lemma_bit_and(a, b, mirror_index(i as int) as nat);
        assert(bit_set(ra, i) == bit_set(a, mirror_index(i as int) as nat));
        assert(bit_set(rb, i) == bit_set(b, mirror_index(i as int) as nat));
    }
}

proof fn lemma_reflects_back(reflected: u64, mask: u64)
    requires
        reflects(reflected, mask),
    ensures
        reflects(mask, reflected),
{
    reveal(reflects);
    assert forall|i: nat| i < 64 implies #[trigger] bit_set(mask, i) == bit_set(reflected, mirror_index(i as int) as nat) by {
        lemma_mirror_index(i as int);
        assert(bit_set(reflected, mirror_index(i as int) as nat) == bit_set(mask, mirror_index(mirror_index(i as int)) as nat));
    }
}

/// White's material and position minus Black's, over the first `n` kinds of
/// piece: White's pieces of kind `k` (the squares of `white & kinds[k]`) are
/// scored with `tables[k]`, Black's with its mirror.
pub open spec fn spec_balance(tables: Seq<Seq<i32>>, white: u64, black: u64, kinds: Seq<u64>, n: nat) -> int
    decreases n,
{
    if n == 0 {
        0
    } else {
        let k = n - 1;
        spec_balance(tables, white, black, kinds, k as nat) + dot_prefix(tables[k], white & kinds[k], 64)
            - dot_prefix(mirrored_cells(tables[k]), black & kinds[k], 64)
    }
}

/// Colour symmetry of the evaluation: swapping the colours of all pieces and
/// reflecting the board across its middle negates the balance, so with the
/// turn passed to the other side too the side to move scores the same.
#[verifier::rlimit(50)]
pub proof fn lemma_color_mirror_negates_balance(
    tables: Seq<Seq<i32>>,
    white: u64,
    black: u64,
    kinds: Seq<u64>,
    mirrored_white: u64,
    mirrored_black: u64,
    mirrored_kinds: Seq<u64>,
    n: nat,
)
    requires
        n <= tables.len(),
        n <= kinds.len(),
        n <= mirrored_kinds.len(),
        forall|k: int| 0 <= k < n ==> (#[trigger] tables[k]).len() == 64,
        reflects(mirrored_white, black),
        reflects(mirrored_black, white),
        forall|k: int| 0 <= k < n ==> reflects(#[trigger] mirrored_kinds[k], kinds[k]),
    ensures
        spec_balance(tables, mirrored_white, mirrored_black, mirrored_kinds, n) == -spec_balance(tables, white, black, kinds, n),
    decreases n,
{
    if n > 0 {
        let k = (n - 1) as int;
        lemma_color_mirror_negates_balance(tables, white, black, kinds, mirrored_white, mirrored_black, mirrored_kinds, (n - 1) as nat);
        let t = tables[k];
        let mk = mirrored_kinds[k];
        let kk = kinds[k];
        assert(reflects(mk, kk));
        lemma_reflects_and(mirrored_white, black, mk, kk);
        lemma_mirrored_dot(t, black & kk, mirrored_white & mk);
        lemma_reflects_and(mirrored_black, white, mk, kk);
        lemma_reflects_back(mirrored_black & mk, white & kk);
        lemma_mirrored_dot(t, mirrored_black & mk, white & kk);
        assert(dot_prefix(t, mirrored_white & mk, 64) == dot_prefix(mirrored_cells(t), black & kk, 64));
        assert(dot_prefix(mirrored_cells(t), mirrored_black & mk, 64) == dot_prefix(t, white & kk, 64));
    }
}

/// Positional bonuses for a white pawn, rank 8 first.
pub const PAWN_BONUSES: [i32; 64] = [
        0, 0, 0, 0, 0, 0, 0, 0,
        50, 50, 50, 50, 50, 50, 50, 50,
        10, 10, 20, 30, 30, 20, 10, 10,
        5, 5, 10, 25, 25, 10, 5, 5,
        0, 0, 0, 20, 20, 0, 0, 0,
        5, -5, -10, 0, 0, -10, -5, 5,
        5, 10, 10, -20, -20, 10, 10, 5,
        0, 0, 0, 0, 0, 0, 0, 0,
    ];

/// Positional bonuses for a white knight, rank 8 first.
pub const KNIGHT_BONUSES: [i32; 64] = [
        -50, -40, -30, -30, -30, -30, -40, -50,
        -40, -20, 0, 0, 0, 0, -20, -40,
        -30, 0, 10, 15, 15, 10, 0, -30,
        -30, 5, 15, 20, 20, 15, 5, -30,
        -30, 0, 15, 20, 20, 15, 0, -30,
        -30, 5, 10, 15, 15, 10, 5, -30,
        -40, -20, 0, 5, 5, 0, -20, -40,
        -50, -40, -30, -30, -30, -30, -40, -50,
    ];

/// Positional bonuses for a white bishop, rank 8 first.
pub const BISHOP_BONUSES: [i32; 64] = [
        -20, -10, -10, -10, -10, -10, -10, -20,
        -10, 0, 0, 0, 0, 0, 0, -10,
        -10, 0, 5, 10, 10, 5, 0, -10,
        -10, 5, 5, 10, 10, 5, 5, -10,
        -10, 0, 10, 10, 10, 10, 0, -10,
        -10, 10, 10, 10, 10, 10, 10, -10,
        -10, 5, 0, 0, 0, 0, 5, -10,
        -20, -10, -10, -10, -10, -10, -10, -20,
    ];

/// Positional bonuses for a white rook, rank 8 first.
pub const ROOK_BONUSES: [i32; 64] = [
        0, 0, 0, 0, 0, 0, 0, 0,
        5, 10, 10, 10, 10, 10, 10, 5,
        -5, 0, 0, 0, 0, 0, 0, -5,
        -5, 0, 0, 0, 0, 0, 0, -5,
        -5, 0, 0, 0, 0, 0, 0, -5,
        -5, 0, 0, 0, 0, 0, 0, -5,
        -5, 0, 0, 0, 0, 0, 0, -5,
        0, 0, 0, 5, 5, 0, 0, 0,
    ];

/// Positional bonuses for a white queen, rank 8 first.
pub const QUEEN_BONUSES: [i32; 64] = [
        -20, -10, -10, -5, -5, -10, -10, -20,
        -10, 0, 0, 0, 0, 0, 0, -10,
        -10, 0, 5, 5, 5, 5, 0, -10,
        -5, 0, 5, 5, 5, 5, 0, -5,
        0, 0, 5, 5, 5, 5, 0, -5,
        -10, 5, 5, 5, 5, 5, 0, -10,
        -10, 0, 5, 0, 0, 0, 0, -10,
        -20, -10, -10, -5, -5, -10, -10, -20,
    ];

/// Positional bonuses for a white king, rank 8 first.
pub const KING_BONUSES: [i32; 64] = [
        -30, -40, -40, -50, -50, -40, -40, -30,
        -30, -40, -40, -50, -50, -40, -40, -30,
        -30, -40, -40, -50, -50, -40, -40, -30,
        -30, -40, -40, -50, -50, -40, -40, -30,
        -20, -30, -30, -40, -40, -30, -30, -20,
        -10, -20, -20, -20, -20, -20, -20, -10,
        20, 20, 0, 0, 0, 0, 20, 20,
        20, 30, 10, 0, 0, 10, 30, 20,
    ];

} // verus!
