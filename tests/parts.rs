use std::str::FromStr;

use chess::Board;
use stockwish::cache::{new_transposition_cache, insert_hash_if_better, insert_in_cache_if_better, lookup, CacheData, SWCache, TopTargets};
use stockwish::classic::{evaluate_board, pick_extreme};
use stockwish::position::count_bits;
use stockwish::evaluation::{balance, score_from_parts, game_phase, phase_of_material, piece_value, GamePhase, PieceSquareTable};
use stockwish::stockwish::{null_move_pruning, pick_best_move, probe_cache, Probe};
use stockwish::move_ordering::{arrange_by_priority, generate_move_order, move_score, moves_toward_quiescence, order_by_priority, MoveCategory};
use stockwish::position::{GameStatus, Move, PieceKind};
use stockwish::score::{discount_checkmates, Score};
use stockwish::statistics::Statistics;

fn mv(source: u8, dest: u8) -> Move {
    Move { source, dest, promotion: None }
}

fn entry(depth: i32, value: i32) -> CacheData {
    CacheData { depth, score: Score::Exact(value), targets: TopTargets::new(2) }
}

#[test]
fn score_negation_round_trip() {
    assert_eq!(Score::Exact(5).negate(), Score::Exact(-5));
    assert_eq!(Score::LowerBound(7).negate(), Score::UpperBound(-7));
    assert_eq!(Score::UpperBound(-3).negate(), Score::LowerBound(3));
    for s in [Score::Exact(12), Score::LowerBound(-40), Score::UpperBound(i32::MAX)] {
        assert_eq!(s.negate().negate(), s);
        assert_eq!(s.negate().value(), -s.value());
        assert_eq!(i32::from(s), s.value());
    }
}

#[test]
fn checkmate_discount_boundaries() {
    assert_eq!(discount_checkmates(i32::MAX - 1), i32::MAX - 2);
    assert_eq!(discount_checkmates(i32::MIN + 1), i32::MIN + 2);
    assert_eq!(discount_checkmates(i32::MAX - 99), i32::MAX - 100);
    assert_eq!(discount_checkmates(i32::MAX - 100), i32::MAX - 100);
    assert_eq!(discount_checkmates(i32::MIN + 99), i32::MIN + 100);
    assert_eq!(discount_checkmates(i32::MIN + 100), i32::MIN + 100);
    assert_eq!(discount_checkmates(0), 0);
    assert_eq!(discount_checkmates(-250), -250);
}

#[test]
fn repeated_discount_moves_toward_zero() {
    let mut v = i32::MAX - 1;
    for _ in 0..200 {
        let next = discount_checkmates(v);
        assert!(next <= v && next >= 0);
        v = next;
    }
    assert_eq!(v, i32::MAX - 100);
    let mut w = i32::MIN + 1;
    for _ in 0..200 {
        let next = discount_checkmates(w);
        assert!(next >= w && next <= 0);
        w = next;
    }
    assert_eq!(w, i32::MIN + 100);
}

#[test]
fn top_targets_keep_the_best() {
    let mut t = TopTargets::new(2);
    t.try_insert(5, &mv(1, 2));
    t.try_insert(1, &mv(3, 4));
    assert_eq!(t.len(), 2);
    t.try_insert(3, &mv(5, 6));
    assert_eq!(t.len(), 2);
    // lowest first
    assert_eq!(t.ordered_moves(), vec![mv(5, 6), mv(1, 2)]);
    // a tie with the lowest kept entry does not displace it
    t.try_insert(3, &mv(7, 8));
    assert_eq!(t.ordered_moves(), vec![mv(5, 6), mv(1, 2)]);
    t.try_insert(9, &mv(9, 10));
    assert_eq!(t.ordered_moves(), vec![mv(1, 2), mv(9, 10)]);
}

#[test]
fn top_targets_length_is_bounded() {
    let mut t = TopTargets::new(3);
    for i in 0..10u8 {
        t.try_insert(i as i32 * 7 % 5, &mv(i, i + 1));
        assert_eq!(t.len(), std::cmp::min(3, i as usize + 1));
    }
    let mut empty = TopTargets::new(0);
    empty.try_insert(100, &mv(0, 1));
    assert_eq!(empty.len(), 0);
    assert!(empty.ordered_moves().is_empty());
}

#[test]
fn top_targets_order_unsorted_input() {
    let mut t = TopTargets::new(4);
    t.try_insert(30, &mv(0, 8));
    t.try_insert(-10, &mv(1, 9));
    t.try_insert(20, &mv(2, 10));
    t.try_insert(0, &mv(3, 11));
    assert_eq!(t.ordered_moves(), vec![mv(1, 9), mv(3, 11), mv(2, 10), mv(0, 8)]);
}

#[test]
fn cache_keeps_the_deeper_result() {
    let mut cache: SWCache = hashlru::Cache::new(100);
    assert!(lookup(&mut cache, 42).is_none());
    insert_hash_if_better(42, entry(1, 10), &mut cache);
    insert_hash_if_better(42, entry(3, 20), &mut cache);
    assert_eq!(lookup(&mut cache, 42).unwrap().depth, 3);
    // a shallower result does not replace it
    insert_hash_if_better(42, entry(2, 30), &mut cache);
    let kept = lookup(&mut cache, 42).unwrap();
    assert_eq!((kept.depth, kept.score), (3, Score::Exact(20)));
    // the other order gives the same depth
    let mut other: SWCache = hashlru::Cache::new(100);
    insert_hash_if_better(7, entry(3, 20), &mut other);
    insert_hash_if_better(7, entry(1, 10), &mut other);
    assert_eq!(lookup(&mut other, 7).unwrap().depth, 3);
}

#[test]
fn cache_ties_go_to_the_latest_write() {
    let mut cache: SWCache = hashlru::Cache::new(100);
    insert_hash_if_better(5, entry(2, 10), &mut cache);
    insert_hash_if_better(5, entry(2, -10), &mut cache);
    assert_eq!(lookup(&mut cache, 5).unwrap().score, Score::Exact(-10));
    assert!(lookup(&mut cache, 6).is_none());
}

#[test]
fn cache_entry_for_a_board() {
    let board = Board::default();
    let mut cache: SWCache = hashlru::Cache::new(100);
    insert_in_cache_if_better(&board, 4, &Score::LowerBound(15), TopTargets::new(1), &mut cache);
    let found = lookup(&mut cache, board.get_hash()).unwrap();
    assert_eq!((found.depth, found.score), (4, Score::LowerBound(15)));
}

#[test]
fn piece_values() {
    assert_eq!(piece_value(Some(PieceKind::Queen)), 900);
    assert_eq!(piece_value(Some(PieceKind::Rook)), 500);
    assert_eq!(piece_value(Some(PieceKind::Bishop)), 330);
    assert_eq!(piece_value(Some(PieceKind::Knight)), 320);
    assert_eq!(piece_value(Some(PieceKind::Pawn)), 100);
    assert_eq!(piece_value(Some(PieceKind::King)), 0);
    assert_eq!(piece_value(None), 0);
}

#[test]
fn piece_square_tables() {
    let mut vals = [0i32; 64];
    for (i, v) in vals.iter_mut().enumerate() {
        *v = i as i32;
    }
    let t = PieceSquareTable::new(100, 2, 3, vals);
    assert_eq!(t.cells[0], 200);
    assert_eq!(t.cells[63], 200 + 189);
    let raw = PieceSquareTable::new_raw(vals);
    assert_eq!(raw.cells, vals);
    let mirrored = raw.change_color();
    // the first rank of the mirror is the last rank of the table
    assert_eq!(mirrored.cells[0], 56);
    assert_eq!(mirrored.cells[7], 63);
    assert_eq!(mirrored.cells[56], 0);
    assert_eq!(mirrored.cells[63], 7);
    assert_eq!(mirrored.change_color().cells, vals);
    // square i reads cell 63 - i
    assert_eq!(raw.dot(0), 0);
    assert_eq!(raw.dot(1), 63);
    assert_eq!(raw.dot(1 | (1 << 63)), 63);
    assert_eq!(raw.dot(u64::MAX), (0..64).sum::<i32>());
}

#[test]
fn move_categories() {
    let quiet = mv(12, 28);
    assert_eq!(move_score(&quiet, false, 0, &None), MoveCategory::NormalMove(0));
    assert_eq!(move_score(&quiet, true, 580, &None), MoveCategory::Capture(580));
    let promote = Move { source: 52, dest: 60, promotion: Some(PieceKind::Queen) };
    assert_eq!(move_score(&promote, false, 0, &None), MoveCategory::Promotion(900));
    assert_eq!(move_score(&promote, true, 400, &None), MoveCategory::Capture(400));
    let hints = Some(vec![mv(1, 2), quiet]);
    assert_eq!(move_score(&quiet, true, 580, &hints), MoveCategory::Cached(1));
    assert_eq!(move_score(&mv(1, 2), false, 0, &hints), MoveCategory::Cached(0));
}

#[test]
fn priority_order_is_a_permutation() {
    let keys = vec![5i64, -3, 5, 10, 0];
    let order = order_by_priority(&keys);
    assert_eq!(order.len(), 5);
    assert_eq!(order[0], 3);
    let mut seen = order.clone();
    seen.sort();
    assert_eq!(seen, vec![0, 1, 2, 3, 4]);
    for w in order.windows(2) {
        assert!(keys[w[0]] >= keys[w[1]]);
    }
    assert!(order_by_priority(&vec![]).is_empty());
}

#[test]
fn move_order_covers_every_legal_move_once() {
    let board = Board::default();
    let ordered = generate_move_order(&board, None);
    assert_eq!(ordered.len(), 20);
    for (i, a) in ordered.iter().enumerate() {
        for b in ordered.iter().skip(i + 1) {
            assert_ne!(a.0, b.0);
        }
        assert_eq!(board.make_move_new(chess::ChessMove::new(
            chess::ALL_SQUARES[a.0.source as usize],
            chess::ALL_SQUARES[a.0.dest as usize],
            None,
        )), a.1);
    }
    // a position without legal moves gives an empty order
    let mated = Board::from_str("k7/8/8/8/8/8/5PPP/r5K1 w - - 0 1").unwrap();
    assert!(generate_move_order(&mated, None).is_empty());
}

#[test]
fn move_order_puts_hints_then_captures_first() {
    // White can take the queen on d5 with either pawn, or the pawn on b5
    // with the c4 pawn
    let board = Board::from_str("4k3/8/8/1p1q4/2P1P3/8/8/4K3 w - - 0 1").unwrap();
    let ordered = generate_move_order(&board, None);
    let queen_takes = [mv(26, 35), mv(28, 35)];
    assert!(queen_takes.contains(&ordered[0].0));
    assert!(queen_takes.contains(&ordered[1].0));
    assert_ne!(ordered[0].0, ordered[1].0);
    assert_eq!(ordered[2].0, mv(26, 33));
    let mut hints = TopTargets::new(2);
    hints.try_insert(50, &mv(4, 12));
    hints.try_insert(10, &mv(4, 5));
    let ordered = generate_move_order(&board, Some(hints));
    assert_eq!(ordered[0].0, mv(4, 12));
    assert_eq!(ordered[1].0, mv(4, 5));
    assert!(queen_takes.contains(&ordered[2].0));
}

#[test]
fn quiescence_moves_are_captures_unless_in_check() {
    let board = Board::from_str("4k3/8/8/1p1q4/2P1P3/8/8/4K3 w - - 0 1").unwrap();
    let captures: Vec<Move> = moves_toward_quiescence(&board).iter().map(|c| c.0).collect();
    assert_eq!(captures.len(), 3);
    assert!(captures[..2].contains(&mv(26, 35)));
    assert!(captures[..2].contains(&mv(28, 35)));
    assert_eq!(captures[2], mv(26, 33));
    let quiet = Board::default();
    assert!(moves_toward_quiescence(&quiet).is_empty());
    // in check every legal move counts
    let checked = Board::from_str("k7/8/8/8/8/8/5PP1/r5K1 w - - 0 1").unwrap();
    assert_eq!(moves_toward_quiescence(&checked).len(), 1);
}

#[test]
fn statistics_count_positions() {
    let mut stats = Statistics::new();
    assert_eq!(stats.iterations(), 0);
    stats.increment();
    stats.increment();
    assert_eq!(stats.iterations(), 2);
}

#[test]
fn classic_engine() {
    assert_eq!(count_bits(0), 0);
    assert_eq!(count_bits(u64::MAX), 64);
    assert_eq!(count_bits(0b1011), 3);
    assert_eq!(evaluate_board(&Board::default()), 0);
    let black_up = Board::from_str("rnbqkbnr/pppppppp/8/8/8/8/PPPPPPPP/R1BQKBNR w KQkq - 0 1").unwrap();
    assert_eq!(evaluate_board(&black_up), -300);
    let white_mated = Board::from_str("k7/8/8/8/8/8/5PPP/r5K1 w - - 0 1").unwrap();
    assert_eq!(evaluate_board(&white_mated), i32::MIN);
    let engine = stockwish::classic::StockWish { depth: 0 };
    let chosen = engine.best_next_move(chess::Game::new()).unwrap();
    assert!(generate_move_order(&Board::default(), None).iter().any(|c| c.0 == chosen));
    let mate = chess::Game::from_str("6k1/5ppp/8/8/8/8/8/R5K1 w - - 0 1").unwrap();
    assert_eq!(engine.best_next_move(mate), Some(mv(0, 56)));
    let none = chess::Game::from_str("k7/8/8/8/8/8/5PPP/r5K1 w - - 0 1").unwrap();
    assert_eq!(engine.best_next_move(none), None);
}

#[test]
fn game_phases() {
    assert_eq!(phase_of_material(6801), GamePhase::Opening);
    assert_eq!(phase_of_material(6800), GamePhase::MiddleGame);
    assert_eq!(phase_of_material(3001), GamePhase::MiddleGame);
    assert_eq!(phase_of_material(3000), GamePhase::Endgame);
    assert_eq!(game_phase(&Board::default()), GamePhase::Opening);
    let kings_and_rooks = Board::from_str("r3k3/8/8/8/8/8/8/R3K3 w - - 0 1").unwrap();
    assert_eq!(game_phase(&kings_and_rooks), GamePhase::Endgame);
}

#[test]
fn null_move_needs_depth_and_no_check() {
    let board = Board::default();
    assert!(null_move_pruning(&board, 2).is_none());
    let passed = null_move_pruning(&board, 3).unwrap();
    assert_eq!(passed.side_to_move(), chess::Color::Black);
    let checked = Board::from_str("k7/8/8/8/8/8/5PP1/r5K1 w - - 0 1").unwrap();
    assert!(null_move_pruning(&checked, 5).is_none());
}

#[test]
fn root_picks_the_first_best_move() {
    let moves = vec![mv(1, 2), mv(3, 4), mv(5, 6)];
    assert_eq!(pick_best_move(&moves, &vec![1, 5, 5]), Some(mv(3, 4)));
    assert_eq!(pick_best_move(&moves, &vec![9, 5, 5]), Some(mv(1, 2)));
    assert_eq!(pick_best_move(&moves, &vec![-9, -5, 0]), Some(mv(5, 6)));
    assert_eq!(pick_best_move(&vec![], &vec![]), None);
}

#[test]
fn balance_negates_under_colour_mirror() {
    let mut tables = Vec::new();
    for k in 0..6 {
        let mut vals = [0i32; 64];
        for (i, v) in vals.iter_mut().enumerate() {
            *v = ((i * 7 + k * 13) % 23) as i32 - 11;
        }
        tables.push(PieceSquareTable::new(100 * k as i32, 1, 2, vals));
    }
    let white: u64 = 0x0000_0000_1000_ef12;
    let black: u64 = 0x28ff_0040_0000_0000;
    let kinds: Vec<u64> = vec![
        0x00ff_0040_1000_ef00,
        0x0200_0000_0000_0002,
        0x2000_0000_0000_0010,
        0x0000_0000_0000_0000,
        0x0800_0000_0000_0000,
        0x0000_0000_0000_0000,
    ];
    let b = balance(&tables, white, black, &kinds);
    // swap_bytes reverses the ranks of a board mask
    let mirrored_kinds: Vec<u64> = kinds.iter().map(|m| m.swap_bytes()).collect();
    let m = balance(&tables, black.swap_bytes(), white.swap_bytes(), &mirrored_kinds);
    assert_eq!(m, -b);
    assert_ne!(b, 0);
}

#[test]
fn simpler_engine_picks_by_colour() {
    let moves = vec![mv(1, 2), mv(3, 4), mv(5, 6)];
    assert_eq!(pick_extreme(&moves, &vec![3, 5, 5], true), Some(mv(5, 6)));
    assert_eq!(pick_extreme(&moves, &vec![3, 1, 1], false), Some(mv(3, 4)));
    assert_eq!(pick_extreme(&moves, &vec![7, 1, 2], true), Some(mv(1, 2)));
    assert_eq!(pick_extreme(&vec![], &vec![], false), None);
}

#[test]
fn cache_probe_rules() {
    let deep_exact = CacheData { depth: 4, score: Score::Exact(12), targets: TopTargets::new(1) };
    assert!(matches!(probe_cache(Some(deep_exact), 3, -50, 50), Probe::Found(Score::Exact(12))));
    let deep_lower = CacheData { depth: 3, score: Score::LowerBound(20), targets: TopTargets::new(1) };
    match probe_cache(Some(deep_lower), 3, -50, 50) {
        Probe::Search { alpha, beta, hints } => {
            assert_eq!((alpha, beta), (20, 50));
            assert!(hints.is_none());
        }
        _ => panic!("a bound only narrows the window"),
    }
    let deep_upper = CacheData { depth: 5, score: Score::UpperBound(-10), targets: TopTargets::new(1) };
    match probe_cache(Some(deep_upper), 2, -50, 50) {
        Probe::Search { alpha, beta, .. } => assert_eq!((alpha, beta), (-50, -10)),
        _ => panic!("a bound only narrows the window"),
    }
    let mut targets = TopTargets::new(2);
    targets.try_insert(5, &mv(12, 28));
    let shallow = CacheData { depth: 1, score: Score::Exact(99), targets };
    match probe_cache(Some(shallow), 3, -50, 50) {
        Probe::Search { alpha, beta, hints } => {
            assert_eq!((alpha, beta), (-50, 50));
            assert_eq!(hints.unwrap().ordered_moves(), vec![mv(12, 28)]);
        }
        _ => panic!("a shallow entry settles nothing"),
    }
    let leaf = CacheData { depth: 0, score: Score::Exact(99), targets: TopTargets::new(0) };
    assert!(matches!(probe_cache(Some(leaf), 2, -5, 5), Probe::Search { alpha: -5, beta: 5, hints: None }));
    assert!(matches!(probe_cache(None, 2, -5, 5), Probe::Search { alpha: -5, beta: 5, hints: None }));
}

#[test]
fn scores_from_status() {
    assert_eq!(score_from_parts(GameStatus::Checkmate, true, 500), i32::MIN + 1);
    assert_eq!(score_from_parts(GameStatus::Stalemate, false, 500), 0);
    assert_eq!(score_from_parts(GameStatus::Ongoing, true, 500), 500);
    assert_eq!(score_from_parts(GameStatus::Ongoing, false, 500), -500);
}

#[test]
fn arrangement_keeps_every_move_once() {
    let b = Board::default();
    let items = vec![(mv(1, 2), b), (mv(3, 4), b), (mv(5, 6), b), (mv(7, 8), b)];
    let arranged = arrange_by_priority(&items, &vec![0, 30, -4, 30]);
    let moves: Vec<Move> = arranged.iter().map(|x| x.0).collect();
    assert_eq!(moves.len(), 4);
    assert!(moves[..2].contains(&mv(3, 4)) && moves[..2].contains(&mv(7, 8)));
    assert_eq!(moves[2], mv(1, 2));
    assert_eq!(moves[3], mv(5, 6));
}

#[test]
fn equal_scores_keep_their_order() {
    let mut t = TopTargets::new(4);
    t.try_insert(7, &mv(0, 1));
    t.try_insert(3, &mv(2, 3));
    t.try_insert(7, &mv(4, 5));
    t.try_insert(3, &mv(6, 7));
    assert_eq!(t.ordered_moves(), vec![mv(2, 3), mv(6, 7), mv(0, 1), mv(4, 5)]);
}

#[test]
fn full_cache_evicts_one_entry() {
    let mut cache = new_transposition_cache(2);
    insert_hash_if_better(1, entry(1, 1), &mut cache);
    insert_hash_if_better(2, entry(1, 2), &mut cache);
    insert_hash_if_better(3, entry(1, 3), &mut cache);
    assert_eq!(cache.len(), 2);
    assert!(lookup(&mut cache, 3).is_some());
    // the least recently used key went
    assert!(lookup(&mut cache, 1).is_none());
    assert!(lookup(&mut cache, 2).is_some());
}

#[test]
fn large_table_cells() {
    let vals = [1000i32; 64];
    let t = PieceSquareTable::new(2_000_000, 100, 1000, vals);
    assert_eq!(t.cells[5], 2_000_000 * 100 + 1_000_000);
}

#[test]
fn statistics_keep_their_start() {
    let mut stats = Statistics::new();
    let start = stats.started();
    stats.increment();
    assert_eq!(stats.started(), start);
}

#[test]
fn ties_keep_the_first_seen_entry() {
    let mut t = TopTargets::new(2);
    t.try_insert(1, &mv(0, 1));
    t.try_insert(1, &mv(2, 3));
    t.try_insert(2, &mv(4, 5));
    // the later of the two equal low entries made room
    assert_eq!(t.ordered_moves(), vec![mv(0, 1), mv(4, 5)]);
}
