//! The engine's view of a chess position. Positions and games are values of
//! the `chess` crate, carried through the search as they are; what the search
//! reads from them is handed over as plain values.

use vstd::prelude::*;

verus! {

#[verifier::external_type_specification]
#[verifier::external_body]
pub struct ExBoard(chess::Board);

#[verifier::external_type_specification]
#[verifier::external_body]
pub struct ExGame(chess::Game);

/// The kind of a chess piece, numbered as the `chess` crate numbers them.
#[derive(Clone, Copy, Debug, PartialEq, Eq, Structural)]
pub enum PieceKind {
    Pawn,
    Knight,
    Bishop,
    Rook,
    Queen,
    King,
}

impl PieceKind {
    pub open spec fn spec_from_index(i: u8) -> PieceKind {
        if i == 0 {
            PieceKind::Pawn
        } else if i == 1 {
            PieceKind::Knight
        } else if i == 2 {
            PieceKind::Bishop
        } else if i == 3 {
            PieceKind::Rook
        } else if i == 4 {
            PieceKind::Queen
        } else {
            PieceKind::King
        }
    }

    pub open spec fn spec_index(self) -> u8 {
        match self {
            PieceKind::Pawn => 0,
            PieceKind::Knight => 1,
            PieceKind::Bishop => 2,
            PieceKind::Rook => 3,
            PieceKind::Queen => 4,
            PieceKind::King => 5,
        }
    }

    pub fn from_index(i: u8) -> (r: PieceKind)
        requires
            i < 6,
        ensures
            r == PieceKind::spec_from_index(i),
            r.spec_index() == i,
    {
        if i == 0 {
            PieceKind::Pawn
        } else if i == 1 {
            PieceKind::Knight
        } else if i == 2 {
            PieceKind::Bishop
        } else if i == 3 {
            PieceKind::Rook
        } else if i == 4 {
            PieceKind::Queen
        } else {
            PieceKind::King
        }
    }

    pub fn index(self) -> (r: u8)
        ensures
            r == self.spec_index(),
            r < 6,
    {
        match self {
            PieceKind::Pawn => 0,
            PieceKind::Knight => 1,
            PieceKind::Bishop => 2,
            PieceKind::Rook => 3,
            PieceKind::Queen => 4,
            PieceKind::King => 5,
        }
    }
}

/// A move: source square, destination square (0 = a1, 1 = b1, ..., 63 = h8)
/// and the piece a pawn promotes to, if any.
#[derive(Clone, Copy, Debug, PartialEq, Eq, Structural)]
pub struct Move {
    pub source: u8,
    pub dest: u8,
    pub promotion: Option<PieceKind>,
}

impl Move {
    pub open spec fn wf(self) -> bool {
        self.source < 64 && self.dest < 64
    }
}

/// Whether the game goes on, or the side to move has no legal move.
#[derive(Clone, Copy, Debug, PartialEq, Eq, Structural)]
pub enum GameStatus {
    Ongoing,
    Stalemate,
    Checkmate,
}

/// The legal moves of a position, in the order the move generator yields
/// them (source, destination and promotion as indices), each with the
/// position it leads to.
pub uninterp spec fn legal_moves_of(b: chess::Board) -> Seq<(u8, u8, Option<u8>, chess::Board)>;

/// Whether a position is ongoing, stalemate or checkmate.
pub uninterp spec fn status_of(b: chess::Board) -> GameStatus;

/// The Zobrist hash of a position.
pub uninterp spec fn hash_of(b: chess::Board) -> u64;

/// Whether White is to move.
pub uninterp spec fn white_of(b: chess::Board) -> bool;

/// The squares of the pieces giving check to the side to move.
pub uninterp spec fn checkers_of(b: chess::Board) -> u64;

/// The squares holding pieces of the kind with this index, of either colour.
pub uninterp spec fn kind_mask_of(b: chess::Board, kind_index: u8) -> u64;

/// The squares holding pieces of one colour.
pub uninterp spec fn color_mask_of(b: chess::Board, white: bool) -> u64;

/// The index of the kind of the piece on a square, if any.
pub uninterp spec fn piece_index_of(b: chess::Board, square: u8) -> Option<u8>;

/// The position a game has reached.
pub uninterp spec fn position_of(g: chess::Game) -> chess::Board;

/// The position with the turn passed, if the side to move is not in check.
pub uninterp spec fn null_move_of(b: chess::Board) -> Option<chess::Board>;

/// A move given by indices.
pub open spec fn move_of(raw: (u8, u8, Option<u8>, chess::Board)) -> Move {
    Move {
        source: raw.0,
        dest: raw.1,
        promotion: match raw.2 {
            Some(p) => Some(PieceKind::spec_from_index(p)),
            None => None,
        },
    }
}

/// The legal moves of a position with the positions they lead to.
pub open spec fn spec_successors(b: chess::Board) -> Seq<(Move, chess::Board)> {
    legal_moves_of(b).map_values(|raw: (u8, u8, Option<u8>, chess::Board)| (move_of(raw), raw.3))
}

/// The kind of the piece on a square, if any.
pub open spec fn spec_piece_on(b: chess::Board, square: u8) -> Option<PieceKind> {
    match piece_index_of(b, square) {
        Some(i) => Some(PieceKind::spec_from_index(i)),
        None => None,
    }
}

/// Whether the side to move is in check.
pub open spec fn spec_in_check(b: chess::Board) -> bool {
    checkers_of(b) != 0
}

/// Relies on chess::MoveGen::new_legal for the legal moves of a position and
/// on chess::Board::make_move_new for the position each of them leads to.
/// Each move comes once (source, destination and promotion as indices);
/// make_move_new is only ever given a move that the generator produced.
#[verifier::external_body]
fn legal_successors(board: &chess::Board) -> (r: Vec<(u8, u8, Option<u8>, chess::Board)>)
    ensures
        r@ == legal_moves_of(*board),
        forall|i: int|
            0 <= i < r@.len() ==> {
                &&& (#[trigger] r@[i]).0 < 64
                &&& r@[i].1 < 64
                &&& (r@[i].2 matches Some(p) ==> p < 6)
            },
        forall|i: int, j: int|
            0 <= i < r@.len() && 0 <= j < r@.len() && i != j ==> ((#[trigger] r@[i]).0, r@[i].1,
                r@[i].2) != ((#[trigger] r@[j]).0, r@[j].1, r@[j].2),
{
    chess::MoveGen::new_legal(board).map(
        |m| {
            let promotion = m.get_promotion().map(|p| p.to_index() as u8);
            (m.get_source().to_index() as u8, m.get_dest().to_index() as u8, promotion,
                board.make_move_new(m))
        },
    ).collect()
}

/// Each legal move of the position, once, with the position it leads to.
pub fn successors(board: &chess::Board) -> (r: Vec<(Move, chess::Board)>)
    ensures
        r@ == spec_successors(*board),
        forall|i: int| 0 <= i < r@.len() ==> (#[trigger] r@[i]).0.wf(),
        forall|i: int, j: int|
            0 <= i < r@.len() && 0 <= j < r@.len() && i != j ==> (#[trigger] r@[i]).0
                != (#[trigger] r@[j]).0,
{
    let raw = legal_successors(board);
    let mut out: Vec<(Move, chess::Board)> = Vec::new();
    let mut i: usize = 0;
    while i < raw.len()
        invariant
            i <= raw@.len(),
            out@.len() == i,
            forall|k: int| 0 <= k < raw@.len() ==> {
                &&& (#[trigger] raw@[k]).0 < 64
                &&& raw@[k].1 < 64
                &&& (raw@[k].2 matches Some(p) ==> p < 6)
            },
            forall|k: int| 0 <= k < i ==> #[trigger] out@[k] == (move_of(raw@[k]), raw@[k].3),
        decreases raw@.len() - i,
    {
        let (source, dest, promotion_index, next) = raw[i];
        let promotion = match promotion_index {
            Some(p) => Some(PieceKind::from_index(p)),
            None => None,
        };
        out.push((Move { source, dest, promotion }, next));
        i += 1;
    }
    assert forall|a: int, b: int|
        0 <= a < out@.len() && 0 <= b < out@.len() && a != b implies (#[trigger] out@[a]).0
            != (#[trigger] out@[b]).0 by {
        assert(((raw@[a]).0, raw@[a].1, raw@[a].2) != ((raw@[b]).0, raw@[b].1, raw@[b].2));
        assert(out@[a] == (move_of(raw@[a]), raw@[a].3));
        assert(out@[b] == (move_of(raw@[b]), raw@[b].3));
        if out@[a].0 == out@[b].0 {
            if raw@[a].2 is Some {
                assert(raw@[b].2 is Some);
                assert(PieceKind::spec_from_index(raw@[a].2->0).spec_index() == raw@[a].2->0);
                assert(PieceKind::spec_from_index(raw@[b].2->0).spec_index() == raw@[b].2->0);
            } else {
                assert(raw@[b].2 is None);
            }
        }
    }
    assert(out@ =~= spec_successors(*board));
    out
}

/// Relies on chess::Board::status, which counts the legal moves: ongoing
/// when there is one, else checkmate when in check and stalemate otherwise.
#[verifier::external_body]
pub(crate) fn board_status(board: &chess::Board) -> (r: GameStatus)
    ensures
        r == status_of(*board),
        (r == GameStatus::Ongoing) <==> legal_moves_of(*board).len() > 0,
        (r == GameStatus::Checkmate) <==> (legal_moves_of(*board).len() == 0 && checkers_of(*board) != 0),
{
    match board.status() {
        chess::BoardStatus::Ongoing => GameStatus::Ongoing,
        chess::BoardStatus::Stalemate => GameStatus::Stalemate,
        chess::BoardStatus::Checkmate => GameStatus::Checkmate,
    }
}

/// Relies on chess::Board::get_hash: the position's Zobrist hash (the keys
/// come from a fixed seed).
#[verifier::external_body]
pub(crate) fn board_hash(board: &chess::Board) -> (r: u64)
    ensures
        r == hash_of(*board),
{
    board.get_hash()
}

/// Relies on chess::Board::side_to_move: true when White is to move.
#[verifier::external_body]
pub(crate) fn white_to_move(board: &chess::Board) -> (r: bool)
    ensures
        r == white_of(*board),
{
    match board.side_to_move() {
        chess::Color::White => true,
        chess::Color::Black => false,
    }
}

/// Relies on chess::Board::checkers: the squares of the pieces giving check.
#[verifier::external_body]
fn checkers_mask(board: &chess::Board) -> (r: u64)
    ensures
        r == checkers_of(*board),
{
    board.checkers().0
}

/// Whether the side to move is in check.
pub fn in_check(board: &chess::Board) -> (r: bool)
    ensures
        r == spec_in_check(*board),
{
    checkers_mask(board) != 0
}

/// Relies on chess::Board::pieces: the squares holding pieces of one kind
/// (given by its index), of either colour.
#[verifier::external_body]
fn pieces_mask(board: &chess::Board, kind_index: u8) -> (r: u64)
    requires
        kind_index < 6,
    ensures
        r == kind_mask_of(*board, kind_index),
{
    board.pieces(chess::ALL_PIECES[kind_index as usize]).0
}

/// The squares holding pieces of one kind, of either colour.
pub fn kind_mask(board: &chess::Board, kind: PieceKind) -> (r: u64)
    ensures
        r == kind_mask_of(*board, kind.spec_index()),
{
    pieces_mask(board, kind.index())
}

/// Relies on chess::Board::color_combined: the squares holding pieces of one
/// colour.
#[verifier::external_body]
pub(crate) fn color_mask(board: &chess::Board, white: bool) -> (r: u64)
    ensures
        r == color_mask_of(*board, white),
{
    board.color_combined(if white { chess::Color::White } else { chess::Color::Black }).0
}

/// Relies on chess::Board::piece_on: the index of the kind of the piece on
/// a square, if any.
#[verifier::external_body]
fn piece_index_on(board: &chess::Board, square: u8) -> (r: Option<u8>)
    requires
        square < 64,
    ensures
        r == piece_index_of(*board, square),
        r matches Some(i) ==> i < 6,
{
    board.piece_on(chess::ALL_SQUARES[square as usize]).map(|p| p.to_index() as u8)
}

/// The kind of the piece on a square, if any.
pub fn piece_on(board: &chess::Board, square: u8) -> (r: Option<PieceKind>)
    requires
        square < 64,
    ensures
        r == spec_piece_on(*board, square),
{
    match piece_index_on(board, square) {
        Some(i) => Some(PieceKind::from_index(i)),
        None => None,
    }
}

/// Relies on chess::Game::current_position: the position reached in a game.
#[verifier::external_body]
pub(crate) fn current_position(game: &chess::Game) -> (r: chess::Board)
    ensures
        r == position_of(*game),
{
    game.current_position()
}

/// The number of set bits among the lowest `n` of `mask`.
pub open spec fn bits_below(mask: u64, n: nat) -> nat
    decreases n,
{
    if n == 0 {
        0
    } else {
        bits_below(mask, (n - 1) as nat) + if (mask >> ((n - 1) as u64)) & 1u64 == 1u64 {
            1nat
        } else {
            0nat
        }
    }
}

/// The number of set bits of `mask`.
pub fn count_bits(mask: u64) -> (r: u32)
    ensures
        r == bits_below(mask, 64),
        r <= 64,
{
    let mut n: u32 = 0;
    let mut i: u64 = 0;
    while i < 64
        invariant
            i <= 64,
            n == bits_below(mask, i as nat),
            n <= i,
        decreases 64 - i,
    {
        if (mask >> i) & 1u64 == 1u64 {
            n = n + 1;
        }
        i += 1;
    }
    n
}

/// Relies on chess::Board::null_move: the position with the turn passed to
/// the other side, or `None` when the side to move is in check.
#[verifier::external_body]
pub(crate) fn null_move(board: &chess::Board) -> (r: Option<chess::Board>)
    ensures
        r == null_move_of(*board),
        (r == None::<chess::Board>) <==> checkers_of(*board) != 0,
{
    board.null_move()
}

} // verus!
