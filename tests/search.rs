use std::str::FromStr;

use chess::{Board, Game, MoveGen};
use stockwish::cache::SWCache;
use stockwish::evaluation::{quiescent_board_score, raw_board_score};
use stockwish::position::Move;
use stockwish::stockwish::{Calibration, StockWish};

fn board(fen: &str) -> Board {
    Board::from_str(fen).expect("valid position")
}

fn legal(b: &Board) -> Vec<Move> {
    MoveGen::new_legal(b)
        .map(|m| Move {
            source: m.get_source().to_index() as u8,
            dest: m.get_dest().to_index() as u8,
            promotion: m
                .get_promotion()
                .map(|p| stockwish::position::PieceKind::from_index(p.to_index() as u8)),
        })
        .collect()
}

fn material() -> Calibration {
    Calibration { positional_weight: 0 }
}

#[test]
fn opening_move_at_depth_one() {
    let mut engine = StockWish::new(1, material());
    let chosen = engine.best_next_move_iterative_deepening(Game::new());
    let moves = legal(&Board::default());
    assert_eq!(moves.len(), 20);
    let chosen = chosen.expect("the opening position has moves");
    assert!(moves.contains(&chosen));
}

#[test]
fn opening_move_with_positional_weight() {
    let mut engine = StockWish::new(2, Calibration { positional_weight: 1 });
    let chosen = engine.best_next_move_iterative_deepening(Game::new());
    assert!(legal(&Board::default()).contains(&chosen.unwrap()));
}

#[test]
fn single_legal_move_is_returned() {
    // the white king on g1 is checked along the first rank; h2 is its only escape
    let fen = "k7/8/8/8/8/8/5PP1/r5K1 w - - 0 1";
    let b = board(fen);
    let moves = legal(&b);
    assert_eq!(moves.len(), 1);
    for depth in 1..=3 {
        let mut engine = StockWish::new(depth, material());
        let (chosen, _) = engine.search_at_depth(&b, depth);
        assert_eq!(chosen, Some(moves[0]));
        let game = Game::from_str(fen).unwrap();
        assert_eq!(engine.best_next_move_iterative_deepening(game), Some(moves[0]));
    }
}

#[test]
fn checkmated_side_gets_no_move() {
    let fen = "k7/8/8/8/8/8/5PPP/r5K1 w - - 0 1";
    let mut engine = StockWish::new(3, material());
    assert_eq!(engine.best_next_move_iterative_deepening(Game::from_str(fen).unwrap()), None);
}

#[test]
fn stalemated_side_gets_no_move() {
    let fen = "7k/5Q2/6K1/8/8/8/8/8 b - - 0 1";
    let mut engine = StockWish::new(2, material());
    assert_eq!(engine.best_next_move_iterative_deepening(Game::from_str(fen).unwrap()), None);
}

#[test]
fn mate_in_one_is_found() {
    // Ra1-a8 mates behind the black pawns
    let fen = "6k1/5ppp/8/8/8/8/8/R5K1 w - - 0 1";
    let mate = Move { source: 0, dest: 56, promotion: None };
    for depth in 2..=3 {
        let mut engine = StockWish::new(depth, material());
        assert_eq!(
            engine.best_next_move_iterative_deepening(Game::from_str(fen).unwrap()),
            Some(mate)
        );
    }
}

#[test]
fn quiescence_takes_the_hanging_queen() {
    // White's pawn on e4 takes the undefended queen on d5
    let b = board("4k3/8/8/3q4/4P3/8/8/4K3 w - - 0 1");
    let standing = raw_board_score(&b, material());
    assert_eq!(standing, -800);
    let mut cache: SWCache = hashlru::Cache::new(1000);
    let score = quiescent_board_score(&b, &mut cache, i32::MIN + 1, i32::MAX, material());
    assert_eq!(score, 100);
    assert!(score > standing);
}

#[test]
fn quiescence_respects_beta() {
    let b = board("4k3/8/8/3q4/4P3/8/8/4K3 w - - 0 1");
    let mut cache: SWCache = hashlru::Cache::new(1000);
    // the capture already reaches beta = 50
    let score = quiescent_board_score(&b, &mut cache, -1000, 50, material());
    assert!(score >= 50);
}

#[test]
fn evaluation_of_terminal_positions() {
    let mated = board("k7/8/8/8/8/8/5PPP/r5K1 w - - 0 1");
    assert_eq!(raw_board_score(&mated, material()), i32::MIN + 1);
    let stalemate = board("7k/5Q2/6K1/8/8/8/8/8 b - - 0 1");
    assert_eq!(raw_board_score(&stalemate, material()), 0);
}

#[test]
fn evaluation_is_from_the_movers_side() {
    assert_eq!(raw_board_score(&Board::default(), material()), 0);
    assert_eq!(raw_board_score(&Board::default(), Calibration { positional_weight: 3 }), 0);
    // White is a knight up
    let white_up = board("r1bqkbnr/pppppppp/8/8/8/8/PPPPPPPP/RNBQKBNR w KQkq - 0 1");
    assert_eq!(raw_board_score(&white_up, material()), 320);
    let black_to_move = board("r1bqkbnr/pppppppp/8/8/8/8/PPPPPPPP/RNBQKBNR b KQkq - 0 1");
    assert_eq!(raw_board_score(&black_to_move, material()), -320);
}

#[test]
fn evaluation_of_color_mirrored_positions_agrees() {
    // the same situation for the side to move, colours swapped and ranks reflected
    let a = board("rnbqkbnr/pppppppp/8/8/4P3/8/PPPP1PPP/RNBQKBNR b KQkq - 0 1");
    let b = board("rnbqkbnr/pppp1ppp/8/4p3/8/8/PPPPPPPP/RNBQKBNR w KQkq - 0 1");
    let weighted = Calibration { positional_weight: 2 };
    assert_eq!(raw_board_score(&a, weighted), raw_board_score(&b, weighted));
    assert!(raw_board_score(&a, weighted) < 0);
    let mut cache_a: SWCache = hashlru::Cache::new(1000);
    let mut cache_b: SWCache = hashlru::Cache::new(1000);
    assert_eq!(
        quiescent_board_score(&a, &mut cache_a, -5000, 5000, weighted),
        quiescent_board_score(&b, &mut cache_b, -5000, 5000, weighted)
    );
}

#[test]
fn positional_weight_changes_the_evaluation() {
    // after 1. e4 White's pawn stands on a square worth 20
    let b = board("rnbqkbnr/pppppppp/8/8/4P3/8/PPPP1PPP/RNBQKBNR w KQkq - 0 1");
    assert_eq!(raw_board_score(&b, material()), 0);
    assert_eq!(raw_board_score(&b, Calibration { positional_weight: 1 }), 40);
    assert_eq!(raw_board_score(&b, Calibration { positional_weight: 2 }), 80);
}

#[test]
fn default_engine_settings() {
    let c = Calibration::default();
    assert_eq!(c.positional_weight, 0);
    let _engine = StockWish::default();
}

#[test]
fn principal_variation_starts_with_the_move() {
    let fen = "6k1/5ppp/8/8/8/8/8/R5K1 w - - 0 1";
    let b = board(fen);
    let mut engine = StockWish::new(3, material());
    let chosen = engine.best_next_move_iterative_deepening(Game::from_str(fen).unwrap()).unwrap();
    let pv = engine.get_principal_variation(&b, chosen);
    // the mate ends the line at once
    assert_eq!(pv, vec![chosen]);
    let start = Board::default();
    let mut engine = StockWish::new(3, material());
    let (first, _) = engine.search_at_depth(&start, 3);
    let pv = engine.get_principal_variation(&start, first.unwrap());
    assert!(pv.len() >= 2);
    assert_eq!(pv[0], first.unwrap());
}

#[test]
fn search_statistics_count_leaves() {
    let mut engine = StockWish::new(1, material());
    let (_, stats) = engine.search_at_depth(&Board::default(), 1);
    // one leaf per opening move
    assert_eq!(stats.iterations(), 20);
}

#[test]
fn mate_score_is_near_the_extreme() {
    let fen = "6k1/5ppp/8/8/8/8/8/R5K1 w - - 0 1";
    let b = board(fen);
    let mut engine = StockWish::new(2, material());
    engine.best_next_move_iterative_deepening(Game::from_str(fen).unwrap());
    let root = engine.cached_result(&b).expect("the root result is cached");
    assert_eq!(root.depth, 2);
    let value = root.score.value();
    assert!(value > i32::MAX - 100 && value < i32::MAX);
}

#[test]
fn one_result_per_deepening_pass() {
    let mut engine = StockWish::new(3, material());
    let passes = engine.iterative_deepening(&Board::default());
    assert_eq!(passes.len(), 3);
    let moves = legal(&Board::default());
    for (choice, _) in passes {
        assert!(moves.contains(&choice.unwrap()));
    }
    let mated = board("k7/8/8/8/8/8/5PPP/r5K1 w - - 0 1");
    let passes = StockWish::new(2, material()).iterative_deepening(&mated);
    assert!(passes.iter().all(|p| p.0.is_none()));
}

#[test]
fn cached_result_of_unsearched_position_is_none() {
    let mut engine = StockWish::new(1, material());
    assert!(engine.cached_result(&Board::default()).is_none());
}

#[test]
fn fools_mate_is_found() {
    // after 1. f3 e5 2. g4 Black mates with Qd8-h4
    let fen = "rnbqkbnr/pppp1ppp/8/4p3/6P1/5P2/PPPPP2P/RNBQKBNR b KQkq - 0 2";
    let mut engine = StockWish::new(2, material());
    let chosen = engine.best_next_move_iterative_deepening(Game::from_str(fen).unwrap());
    assert_eq!(chosen, Some(Move { source: 59, dest: 31, promotion: None }));
}
