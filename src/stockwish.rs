//! The search: negamax with alpha-beta pruning over the transposition cache,
//! and the iterative-deepening driver.

use vstd::prelude::*;
use crate::cache::{cache_wf, spec_offer_all, spec_ordered_moves, storable, stored_if_better, insert_hash_if_better, lookup, lru_capacity, lru_entries, new_cache, CacheData, SWCache, TopTargets};
use crate::evaluation::{quiescent_board_score, spec_quiesce, spec_raw_score, QUIESCENCE_PLY_LIMIT, within_window, MAX_POSITIONAL_WEIGHT};
use crate::move_ordering::{generate_move_order, spec_move_order};
use crate::position::{null_move_of, board_hash, current_position, hash_of, position_of, null_move, spec_successors, successors, Move};
use crate::score::{discount_checkmates, spec_discount_checkmates, valid_value, Score};
use crate::statistics::Statistics;

verus! {

/// How heavily the piece-square bonuses count next to material.
#[derive(Clone, Copy, Debug, Default)]
pub struct Calibration {
    pub positional_weight: i32,
}

impl Calibration {
    /// The weight is small enough that every evaluation fits in an `i32`.
    pub open spec fn wf(&self) -> bool {
        -MAX_POSITIONAL_WEIGHT <= self.positional_weight <= MAX_POSITIONAL_WEIGHT
    }
}

/// How many entries the transposition cache holds.
pub const CACHE_CAPACITY: usize = 10_000_000;

/// How many best replies an inner node remembers for move ordering.
pub const NODE_TARGETS: usize = 6;

/// How many best replies the root remembers for move ordering.
pub const ROOT_TARGETS: usize = 3;

/// The deepest iteration of a default engine.
pub const DEFAULT_DEPTH: i32 = 6;

/// How the root picks its move from the moves it searched and their
/// scores: nothing when there were no moves, else the first move whose score
/// no other move beats.
pub open spec fn root_choice(moves: Seq<Move>, scores: Seq<i32>, choice: Option<Move>) -> bool {
    &&& moves.len() == scores.len()
    &&& match choice {
        None => moves.len() == 0,
        Some(m) => exists|i: int|
            0 <= i < moves.len() && moves[i] == m && (forall|j: int| 0 <= j < scores.len() ==> #[trigger] scores[j] <= scores[i])
                && (forall|j: int| 0 <= j < i ==> #[trigger] scores[j] < scores[i]),
    }
}

/// The replies the cache remembers for `h`, if any: a root pass orders its
/// moves by them whatever their depth.
pub open spec fn root_hints(m: Map<u64, CacheData>, h: u64) -> Option<TopTargets> {
    if m.contains_key(h) {
        Some(m[h].targets)
    } else {
        None
    }
}

/// The moves of a search, without their positions.
pub open spec fn moves_only(moves: Seq<(Move, chess::Board)>) -> Seq<Move> {
    moves.map_values(|x: (Move, chess::Board)| x.0)
}

/// What a root pass at `depth` computes, taking the cache from `before` to
/// `after`: every legal move, in the order the cached replies give, is
/// searched `depth - 1` plies deep (child `k` meeting the search contract in
/// the window `(-i32::MAX, -a)`, `a` the best score so far or one above the
/// smallest value), with the cache going from `caches[k]` to
/// `caches[k + 1]`. The choice is the first move whose discounted negated
/// result is highest; that best score, exact, and the three best replies
/// are stored for the root by the depth rule.
pub open spec fn root_ok(
    b: chess::Board,
    depth: i32,
    calibration: Calibration,
    before: Map<u64, CacheData>,
    after: Map<u64, CacheData>,
    choice: Option<Move>,
) -> bool {
    let moves = spec_move_order(b, root_hints(before, hash_of(b)));
    exists|children: Seq<Score>, caches: Seq<Map<u64, CacheData>>|
        #![trigger discounted_scores(children), caches[0]]
        {
            let scores = discounted_scores(children);
            &&& children.len() == moves.len()
            &&& caches.len() == moves.len() + 1
            &&& caches[0] == before
            &&& forall|k: int|
                0 <= k < moves.len() ==> negamax_ok(
                    moves[k].1,
                    (depth - 1) as i32,
                    (i32::MIN + 1) as i32,
                    (-alpha_at((i32::MIN + 1) as i32, scores, k as nat)) as i32,
                    calibration,
                    caches[k],
                    caches[k + 1],
                    #[trigger] children[k],
                )
            &&& root_choice(moves_only(moves), scores, choice)
            &&& exists|t: TopTargets|
                {
                    &&& t.capacity() == ROOT_TARGETS
                    &&& t.entries() == spec_offer_all(Seq::empty(), ROOT_TARGETS as nat, scored_moves(scores, moves))
                    &&& stored_if_better(
                        caches[moves.len() as int],
                        hash_of(b),
                        (CacheData {
                            depth,
                            score: Score::Exact(alpha_at((i32::MIN + 1) as i32, scores, moves.len())),
                            targets: t,
                        }),
                        after,
                    )
                }
        }
}

/// The root chose `choice` by `root_choice` among scores for the legal moves
/// of `b`, searched in some order.
pub open spec fn chosen_among_legal(b: chess::Board, choice: Option<Move>) -> bool {
    exists|moves: Seq<Move>, scores: Seq<i32>|
        {
            &&& moves.len() == spec_successors(b).len()
            &&& (forall|k: int| 0 <= k < spec_successors(b).len() ==> moves.contains(#[trigger] spec_successors(b)[k].0))
            &&& root_choice(moves, scores, choice)
        }
}

/// The root's choice: the first of the searched moves with the highest
/// score, or nothing when no move was searched.
pub fn pick_best_move(moves: &Vec<Move>, scores: &Vec<i32>) -> (r: Option<Move>)
    requires
        moves@.len() == scores@.len(),
    ensures
        root_choice(moves@, scores@, r),
{
    if moves.len() == 0 {
        return None;
    }
    let mut best: usize = 0;
    let mut i: usize = 1;
    while i < moves.len()
        invariant
            moves@.len() == scores@.len(),
            1 <= i <= moves@.len(),
            best < i,
            forall|k: int| 0 <= k < i ==> #[trigger] scores@[k] <= scores@[best as int],
            forall|k: int| 0 <= k < best ==> #[trigger] scores@[k] < scores@[best as int],
        decreases moves@.len() - i,
    {
        if scores[i] > scores[best] {
            best = i;
        }
        i += 1;
    }
    assert(0 <= best < moves@.len() && moves@[best as int] == moves@[best as int]);
    Some(moves[best])
}

/// The search engine: the deepest iteration to run, the transposition cache
/// it keeps across searches, and its evaluation weights.
pub struct StockWish {
    depth: i32,
    cache: SWCache,
    calibration: Calibration,
}

/// What a node makes of its cache entry.
pub enum Probe {
    /// An exact result deep enough: the node's score.
    Found(Score),
    /// Search on, within this window, ordering moves by these hints.
    Search { alpha: i32, beta: i32, hints: Option<TopTargets> },
}

pub open spec fn spec_probe(entry: Option<CacheData>, remaining_depth: i32, alpha: i32, beta: i32) -> Probe {
    match entry {
        None => Probe::Search { alpha, beta, hints: None },
        Some(e) => if e.depth >= remaining_depth {
            match e.score {
                Score::Exact(v) => Probe::Found(Score::Exact(v)),
                Score::LowerBound(v) => Probe::Search { alpha: if v > alpha { v } else { alpha }, beta, hints: None },
                Score::UpperBound(v) => Probe::Search { alpha, beta: if v < beta { v } else { beta }, hints: None },
            }
        } else if e.depth > 0 {
            Probe::Search { alpha, beta, hints: Some(e.targets) }
        } else {
            Probe::Search { alpha, beta, hints: None }
        },
    }
}

/// The cache rule of a node: an entry at least `remaining_depth` deep
/// settles an exact score or narrows the window with its bound; a
/// shallower one (but not of depth zero) only lends its best replies to move
/// ordering; otherwise the window stands.
pub fn probe_cache(entry: Option<CacheData>, remaining_depth: i32, alpha: i32, beta: i32) -> (r: Probe)
    ensures
        r == spec_probe(entry, remaining_depth, alpha, beta),
{
    match entry {
        None => Probe::Search { alpha, beta, hints: None },
        Some(e) => {
            if e.depth >= remaining_depth {
                match e.score {
                    Score::Exact(v) => Probe::Found(Score::Exact(v)),
                    Score::LowerBound(v) => Probe::Search { alpha: if v > alpha { v } else { alpha }, beta, hints: None },
                    Score::UpperBound(v) => Probe::Search { alpha, beta: if v < beta { v } else { beta }, hints: None },
                }
            } else if e.depth > 0 {
                Probe::Search { alpha, beta, hints: Some(e.targets) }
            } else {
                Probe::Search { alpha, beta, hints: None }
            }
        },
    }
}

/// The cache holds an exact result for `h` searched at least `depth` deep.
pub open spec fn exact_hit(m: Map<u64, CacheData>, h: u64, depth: i32) -> bool {
    m.contains_key(h) && m[h].depth >= depth && m[h].score is Exact
}

/// The cache entry under `h`, if any.
pub open spec fn entry_of(m: Map<u64, CacheData>, h: u64) -> Option<CacheData> {
    if m.contains_key(h) {
        Some(m[h])
    } else {
        None
    }
}

/// The window a node searches after consulting its cache entry.
pub open spec fn probed_window(m: Map<u64, CacheData>, h: u64, depth: i32, alpha: i32, beta: i32) -> (i32, i32) {
    match spec_probe(entry_of(m, h), depth, alpha, beta) {
        Probe::Search { alpha, beta, hints } => (alpha, beta),
        Probe::Found(_) => (alpha, beta),
    }
}

/// A node is a leaf when no depth is left or it has no legal move.
pub open spec fn is_leaf(b: chess::Board, depth: i32) -> bool {
    depth <= 0 || spec_successors(b).len() == 0
}

/// The cache holds `score` for `h` at `depth`, unless it already held a
/// deeper result there.
pub open spec fn holds_result(m: Map<u64, CacheData>, h: u64, depth: i32, score: Score) -> bool {
    m.contains_key(h) && (m[h].depth > depth || (m[h].depth == depth && m[h].score == score))
}

/// The best of the first `k` scores, `i32::MIN` before any.
pub open spec fn best_prefix(scores: Seq<i32>, k: nat) -> i32
    decreases k,
{
    if k == 0 {
        i32::MIN
    } else {
        let p = best_prefix(scores, (k - 1) as nat);
        if scores[k - 1] > p {
            scores[k - 1]
        } else {
            p
        }
    }
}

/// The window's lower edge when the `k`-th child is searched: raised by
/// every score before it.
pub open spec fn alpha_at(alpha: i32, scores: Seq<i32>, k: nat) -> i32 {
    if best_prefix(scores, k) > alpha {
        best_prefix(scores, k)
    } else {
        alpha
    }
}

/// The children's results seen from the node: negated, then pulled towards
/// zero near mate.
pub open spec fn discounted_scores(children: Seq<Score>) -> Seq<i32> {
    Seq::new(children.len(), |k: int| spec_discount_checkmates((-(children[k].spec_value() as int)) as i32))
}

/// Each searched move with its score, in search order.
pub open spec fn scored_moves(scores: Seq<i32>, moves: Seq<(Move, chess::Board)>) -> Seq<(i32, Move)> {
    Seq::new(scores.len(), |k: int| (scores[k], moves[k].0))
}

/// The moves a node's cache probe hints at.
pub open spec fn probed_hints(m: Map<u64, CacheData>, h: u64, depth: i32, alpha: i32, beta: i32) -> Option<TopTargets> {
    match spec_probe(entry_of(m, h), depth, alpha, beta) {
        Probe::Search { alpha, beta, hints } => hints,
        Probe::Found(_) => None,
    }
}

/// The shape of an inner node's scan over the first `children.len()` of
/// `moves`, its child results given: it stopped at the first score (child
/// result negated and discounted) reaching `beta`, giving a lower bound, or
/// ran through all moves, giving the best score exactly. The node's result
/// and its best replies were then stored by the depth rule.
pub open spec fn node_shape(
    b: chess::Board,
    depth: i32,
    beta: i32,
    moves: Seq<(Move, chess::Board)>,
    children: Seq<Score>,
    caches: Seq<Map<u64, CacheData>>,
    after: Map<u64, CacheData>,
    r: Score,
) -> bool {
    let scores = discounted_scores(children);
    let n = children.len();
    &&& 1 <= n <= moves.len()
    &&& caches.len() == n + 1
    &&& forall|k: int| 0 <= k < n - 1 ==> #[trigger] best_prefix(scores, (k + 1) as nat) < beta
    &&& r == if best_prefix(scores, n) >= beta {
        Score::LowerBound(best_prefix(scores, n))
    } else {
        Score::Exact(best_prefix(scores, n))
    }
    &&& (r is Exact ==> n == moves.len())
    &&& exists|t: TopTargets|
        {
            &&& t.capacity() == NODE_TARGETS
            &&& t.entries() == spec_offer_all(Seq::empty(), NODE_TARGETS as nat, scored_moves(scores, moves))
            &&& stored_if_better(caches[n as int], hash_of(b), (CacheData { depth, score: r, targets: t }), after)
        }
}

/// What the search computes for `b` with `depth` plies left in the window
/// `(alpha, beta)`, taking the cache from `before` to `after`: an exact
/// cached result deep enough is returned as it is; a leaf gets the capture
/// search value in the window the cache narrowed, stored at depth zero;
/// any other node scans its ordered moves as `node_shape` says, each child
/// meeting this same contract.
#[verifier::opaque]
pub open spec fn negamax_ok(
    b: chess::Board,
    depth: i32,
    alpha: i32,
    beta: i32,
    calibration: Calibration,
    before: Map<u64, CacheData>,
    after: Map<u64, CacheData>,
    r: Score,
) -> bool
    decreases (if depth > 0 { depth } else { 0 }),
{
    let h = hash_of(b);
    let window = probed_window(before, h, depth, alpha, beta);
    if exact_hit(before, h, depth) {
        r == before[h].score && after == before
    } else if is_leaf(b, depth) {
        let q = spec_quiesce(b, window.0, window.1, calibration, QUIESCENCE_PLY_LIMIT as nat);
        &&& r == Score::Exact(q.spec_value())
        &&& exists|t: TopTargets|
            t.entries().len() == 0 && stored_if_better(before, h, (CacheData { depth: 0, score: q, targets: t }), after)
    } else {
        let moves = spec_move_order(b, probed_hints(before, h, depth, alpha, beta));
        exists|children: Seq<Score>, caches: Seq<Map<u64, CacheData>>|
            {
                &&& caches.len() > 0
                &&& caches[0] == before
                &&& #[trigger] node_shape(b, depth, window.1, moves, children, caches, after, r)
                &&& forall|k: int|
                    0 <= k < children.len() ==> negamax_ok(
                        moves[k].1,
                        (depth - 1) as i32,
                        (-window.1) as i32,
                        (-alpha_at(window.0, discounted_scores(children), k as nat)) as i32,
                        calibration,
                        caches[k],
                        caches[k + 1],
                        #[trigger] children[k],
                    )
            }
    }
}

proof fn lemma_best_prefix_push(scores: Seq<i32>, x: i32, k: nat)
    requires
        k <= scores.len(),
    ensures
        best_prefix(scores.push(x), k) == best_prefix(scores, k),
    decreases k,
{
    if k > 0 {
        lemma_best_prefix_push(scores, x, (k - 1) as nat);
    }
}

proof fn lemma_inner_node(
    b: chess::Board,
    depth: i32,
    alpha_in: i32,
    beta_in: i32,
    calibration: Calibration,
    before: Map<u64, CacheData>,
    children: Seq<Score>,
    caches: Seq<Map<u64, CacheData>>,
    after: Map<u64, CacheData>,
    r: Score,
    t: TopTargets,
)
    requires
        !exact_hit(before, hash_of(b), depth),
        !is_leaf(b, depth),
        caches.len() > 0,
        caches[0] == before,
        ({
            let window = probed_window(before, hash_of(b), depth, alpha_in, beta_in);
            let moves = spec_move_order(b, probed_hints(before, hash_of(b), depth, alpha_in, beta_in));
            let scores = discounted_scores(children);
            let n = children.len();
            &&& 1 <= n <= moves.len()
            &&& caches.len() == n + 1
            &&& forall|k: int|
                0 <= k < n ==> negamax_ok(
                    moves[k].1,
                    (depth - 1) as i32,
                    (-window.1) as i32,
                    (-alpha_at(window.0, scores, k as nat)) as i32,
                    calibration,
                    caches[k],
                    caches[k + 1],
                    #[trigger] children[k],
                )
            &&& forall|k: int| 0 <= k < n - 1 ==> #[trigger] best_prefix(scores, (k + 1) as nat) < window.1
            &&& r == if best_prefix(scores, n) >= window.1 {
                Score::LowerBound(best_prefix(scores, n))
            } else {
                Score::Exact(best_prefix(scores, n))
            }
            &&& (r is Exact ==> n == moves.len())
            &&& t.capacity() == NODE_TARGETS
            &&& t.entries() == spec_offer_all(Seq::empty(), NODE_TARGETS as nat, scored_moves(scores, moves))
            &&& stored_if_better(caches[n as int], hash_of(b), (CacheData { depth, score: r, targets: t }), after)
        }),
    ensures
        negamax_ok(b, depth, alpha_in, beta_in, calibration, before, after, r),
{
    reveal(negamax_ok);
    let window = probed_window(before, hash_of(b), depth, alpha_in, beta_in);
    let moves = spec_move_order(b, probed_hints(before, hash_of(b), depth, alpha_in, beta_in));
    assert(node_shape(b, depth, window.1, moves, children, caches, after, r));
}

/// Negamax with alpha-beta pruning over the transposition cache.
///
/// A cached result at least as deep as `remaining_depth` is used: an exact
/// score is returned at once, a bound narrows the window; a shallower one
/// only steers move ordering. A leaf (no depth left, or no legal move) is
/// scored by capture search. Otherwise each move is searched with the
/// negated window, the child's score negated and discounted towards zero
/// near mate; the first score to reach `beta` is stored and returned as a
/// lower bound, else the best score is stored and returned as exact.
#[verifier::rlimit(100)]
#[verifier::spinoff_prover]
fn negamax_alpha_beta_cache(
    board: &chess::Board,
    stats: &mut Statistics,
    remaining_depth: i32,
    cache: &mut SWCache,
    alpha_in: i32,
    beta_in: i32,
    calibration: Calibration,
) -> (r: Score)
    requires
        valid_value(alpha_in),
        valid_value(beta_in),
        calibration.wf(),
        lru_capacity(*old(cache)) > 0,
        cache_wf(lru_entries(*old(cache))),
    ensures
        negamax_ok(*board, remaining_depth, alpha_in, beta_in, calibration, lru_entries(*old(cache)), lru_entries(*final(cache)), r),
        r.wf(),
        !(r is UpperBound),
        r matches Score::LowerBound(v) ==> v >= beta_in,
        lru_capacity(*final(cache)) == lru_capacity(*old(cache)),
        cache_wf(lru_entries(*final(cache))),
        final(stats).spec_start() == old(stats).spec_start(),
        final(stats).spec_iterations() >= old(stats).spec_iterations(),
        exact_hit(lru_entries(*old(cache)), hash_of(*board), remaining_depth) ==> final(stats).spec_iterations()
            == old(stats).spec_iterations(),
        !exact_hit(lru_entries(*old(cache)), hash_of(*board), remaining_depth) && is_leaf(*board, remaining_depth)
            ==> final(stats).spec_iterations() == if old(stats).spec_iterations() < i32::MAX {
            old(stats).spec_iterations() + 1
        } else {
            old(stats).spec_iterations() as int
        },
        !exact_hit(lru_entries(*old(cache)), hash_of(*board), remaining_depth) && !is_leaf(*board, remaining_depth)
            ==> r.spec_value() < i32::MAX,
    decreases (if remaining_depth > 0 { remaining_depth } else { 0 }),
{
    let ghost capacity = lru_capacity(*cache);
    let ghost before = lru_entries(*cache);
    let hash = board_hash(board);
    let entry = lookup(cache, hash);
    proof {
        if entry is Some {
            assert(lru_entries(*cache).contains_key(hash));
        }
    }
    let (mut alpha, beta, preferred_targets) = match probe_cache(entry, remaining_depth, alpha_in, beta_in) {
        Probe::Found(score) => {
            proof {
                reveal(negamax_ok);
            }
            return score;
        },
        Probe::Search { alpha, beta, hints } => (alpha, beta, hints),
    };
    assert(!exact_hit(before, hash_of(*board), remaining_depth));
    assert(entry == entry_of(before, hash_of(*board)));
    assert((alpha, beta) == probed_window(before, hash_of(*board), remaining_depth, alpha_in, beta_in));
    assert(preferred_targets == probed_hints(before, hash_of(*board), remaining_depth, alpha_in, beta_in));
    let ghost alpha0 = alpha;
    let valid_moves = generate_move_order(board, preferred_targets);
    if remaining_depth <= 0 || valid_moves.len() == 0 {
        stats.increment();
        let v = quiescent_board_score(board, cache, alpha, beta, calibration);
        proof {
            let t = choose|t: TopTargets|
                {
                    &&& t.entries().len() == 0
                    &&& stored_if_better(
                        before,
                        hash_of(*board),
                        (CacheData {
                            depth: 0,
                            score: spec_quiesce(*board, alpha, beta, calibration, QUIESCENCE_PLY_LIMIT as nat),
                            targets: t,
                        }),
                        lru_entries(*cache),
                    )
                };
            reveal(negamax_ok);
        }
        return Score::Exact(v);
    }
    let mut best_value: i32 = i32::MIN;
    let mut top_targets = TopTargets::new(NODE_TARGETS);
    let ghost mut children: Seq<Score> = Seq::empty();
    let ghost mut caches: Seq<Map<u64, CacheData>> = seq![before];
    let ghost start_iterations = stats.spec_iterations();
    let ghost start_instant = stats.spec_start();
    assert(scored_moves(discounted_scores(children), valid_moves@) =~= Seq::<(i32, Move)>::empty());
    let mut i: usize = 0;
    while i < valid_moves.len()
        invariant
            children.len() == i,
            caches.len() == i + 1,
            caches[0] == before,
            caches[i as int] == lru_entries(*cache),
            valid_moves@ == spec_move_order(*board, probed_hints(before, hash_of(*board), remaining_depth, alpha_in, beta_in)),
            valid_moves@.len() == spec_successors(*board).len(),
            forall|k: int|
                0 <= k < i ==> negamax_ok(
                    valid_moves@[k].1,
                    (remaining_depth - 1) as i32,
                    (-beta) as i32,
                    (-alpha_at(alpha0, discounted_scores(children), k as nat)) as i32,
                    calibration,
                    caches[k],
                    caches[k + 1],
                    #[trigger] children[k],
                ),
            forall|k: int| 0 <= k < i ==> (#[trigger] children[k]).wf(),
            best_value == best_prefix(discounted_scores(children), i as nat),
            alpha == alpha_at(alpha0, discounted_scores(children), i as nat),
            forall|k: int| 0 <= k < i ==> #[trigger] best_prefix(discounted_scores(children), (k + 1) as nat) < beta,
            forall|k: int| 0 <= k < i ==> #[trigger] discounted_scores(children)[k] < i32::MAX,
            best_value < i32::MAX,
            top_targets.entries() == spec_offer_all(Seq::empty(), NODE_TARGETS as nat, scored_moves(discounted_scores(children), valid_moves@)),
            top_targets.capacity() == NODE_TARGETS,
            (alpha0, beta) == probed_window(before, hash_of(*board), remaining_depth, alpha_in, beta_in),
            hash == hash_of(*board),
            !exact_hit(before, hash_of(*board), remaining_depth),
            !is_leaf(*board, remaining_depth),
            before == lru_entries(*old(cache)),
            0 < remaining_depth,
            valid_value(alpha),
            valid_value(alpha0),
            valid_value(beta),
            calibration.wf(),
            lru_capacity(*cache) == capacity,
            capacity == lru_capacity(*old(cache)),
            capacity > 0,
            cache_wf(lru_entries(*cache)),
            i <= valid_moves@.len(),
            i == 0 ==> best_value == i32::MIN,
            i > 0 ==> valid_value(best_value),
            beta == beta_in,
            top_targets.wf(),
            stats.spec_start() == start_instant,
            stats.spec_iterations() >= start_iterations,
            start_iterations == old(stats).spec_iterations(),
            start_instant == old(stats).spec_start(),
        decreases valid_moves@.len() - i,
    {
        let (chess_move, child) = valid_moves[i];
        let child_result = negamax_alpha_beta_cache(
            &child,
            stats,
            remaining_depth - 1,
            cache,
            -beta,
            -alpha,
            calibration,
        );
        let child_score = child_result.negate();
        let discounted = discount_checkmates(child_score.value());
        top_targets.try_insert(discounted, &chess_move);
        let ghost old_children = children;
        let ghost old_scores = discounted_scores(children);
        proof {
            crate::score::lemma_discount_step(child_score.spec_value());
            children = children.push(child_result);
            caches = caches.push(lru_entries(*cache));
            let new_scores = discounted_scores(children);
            assert(new_scores =~= old_scores.push(discounted));
            assert forall|k: nat| k <= i implies #[trigger] best_prefix(new_scores, k) == best_prefix(old_scores, k) by {
                lemma_best_prefix_push(old_scores, discounted, k);
            }
            assert(scored_moves(new_scores, valid_moves@).drop_last() =~= scored_moves(old_scores, valid_moves@));
            assert(scored_moves(new_scores, valid_moves@).last() == (discounted, chess_move));
            assert forall|k: int|
                0 <= k < i + 1 implies negamax_ok(
                    valid_moves@[k].1,
                    (remaining_depth - 1) as i32,
                    (-beta) as i32,
                    (-alpha_at(alpha0, discounted_scores(children), k as nat)) as i32,
                    calibration,
                    caches[k],
                    caches[k + 1],
                    #[trigger] children[k],
                ) by {
                assert(best_prefix(new_scores, k as nat) == best_prefix(old_scores, k as nat));
                if k < i {
                    assert(children[k] == old_children[k]);
                }
            }
            assert forall|k: int| 0 <= k < i + 1 implies (#[trigger] children[k]).wf() by {
                if k < i {
                    assert(children[k] == old_children[k]);
                }
            }
            assert forall|k: int| 0 <= k < i implies #[trigger] best_prefix(new_scores, (k + 1) as nat) < beta by {
                assert(best_prefix(new_scores, (k + 1) as nat) == best_prefix(old_scores, (k + 1) as nat));
            }
            assert forall|k: int| 0 <= k < i + 1 implies #[trigger] new_scores[k] < i32::MAX by {
                if k < i {
                    assert(new_scores[k] == old_scores[k]);
                }
            }
        }
        if discounted > best_value {
            best_value = discounted;
        }
        if best_value > alpha {
            alpha = best_value;
        }
        if best_value >= beta {
            let score = Score::LowerBound(best_value);
            let ghost stored_targets = top_targets;
            insert_hash_if_better(hash, CacheData { depth: remaining_depth, score, targets: top_targets }, cache);
            proof {
                let sc = discounted_scores(children);
                let n = children.len();
                assert(best_value == best_prefix(sc, n));
                lemma_inner_node(
                    *board,
                    remaining_depth,
                    alpha_in,
                    beta_in,
                    calibration,
                    before,
                    children,
                    caches,
                    lru_entries(*cache),
                    score,
                    stored_targets,
                );
            }
            return score;
        }
        i += 1;
    }
    let score = Score::Exact(best_value);
    let ghost stored_targets = top_targets;
    insert_hash_if_better(hash, CacheData { depth: remaining_depth, score, targets: top_targets }, cache);
    proof {
        let sc = discounted_scores(children);
        let n = children.len();
        assert(best_value == best_prefix(sc, n));
        assert(best_prefix(sc, ((n - 1) + 1) as nat) < beta);
        lemma_inner_node(
            *board,
            remaining_depth,
            alpha_in,
            beta_in,
            calibration,
            before,
            children,
            caches,
            lru_entries(*cache),
            score,
            stored_targets,
        );
    }
    score
}

impl StockWish {
    /// The cache can store entries and holds only negatable scores, and the
    /// weights keep every evaluation in range.
    pub closed spec fn wf(&self) -> bool {
        &&& lru_capacity(self.cache) > 0
        &&& cache_wf(lru_entries(self.cache))
        &&& self.calibration.wf()
        &&& self.depth >= 1
    }

    pub closed spec fn spec_entries(&self) -> Map<u64, CacheData> {
        lru_entries(self.cache)
    }

    pub closed spec fn spec_depth(&self) -> i32 {
        self.depth
    }

    pub closed spec fn spec_calibration(&self) -> Calibration {
        self.calibration
    }

    /// An engine that deepens up to `depth` (at least one pass), with an
    /// empty cache.
    pub fn new(depth: i32, calibration: Calibration) -> (r: Self)
        requires
            calibration.wf(),
            depth >= 1,
        ensures
            r.wf(),
            r.spec_depth() == depth,
            r.spec_calibration() == calibration,
    {
        let cache = new_cache(CACHE_CAPACITY);
        Self { depth, cache, calibration }
    }

    /// One root pass at `depth`: every legal move is searched `depth - 1`
    /// plies deep (over the full window), scored from the mover's side with
    /// the mate discount, and the first move with the highest score is
    /// chosen. The root's best replies are stored in the cache to order the
    /// next, deeper pass. `None` when the side to move has no legal move.
    pub fn search_at_depth(&mut self, board: &chess::Board, depth: i32) -> (r: (Option<Move>, Statistics))
        requires
            old(self).wf(),
            depth > i32::MIN,
        ensures
            final(self).wf(),
            final(self).spec_depth() == old(self).spec_depth(),
            final(self).spec_calibration() == old(self).spec_calibration(),
            r.0 matches Some(m) ==> m.wf(),
            r.0 is None <==> spec_successors(*board).len() == 0,
            root_ok(*board, depth, old(self).spec_calibration(), old(self).spec_entries(), final(self).spec_entries(), r.0),
            chosen_among_legal(*board, r.0),
            exists|best: i32|
                {
                    &&& holds_result(final(self).spec_entries(), hash_of(*board), depth, Score::Exact(best))
                    &&& (spec_successors(*board).len() == 0 ==> best == i32::MIN + 1)
                    &&& (r.0 is Some ==> best > i32::MIN + 1)
                },
    {
        let mut stats = Statistics::new();
        let hash = board_hash(board);
        let mut alpha: i32 = i32::MIN + 1;
        let beta: i32 = i32::MAX;
        let ghost before = lru_entries(self.cache);
        let preferred_targets = match lookup(&mut self.cache, hash) {
            Some(cached) => Some(cached.targets),
            None => None,
        };
        assert(preferred_targets == root_hints(before, hash_of(*board)));
        let ghost mut children: Seq<Score> = Seq::empty();
        let ghost mut caches: Seq<Map<u64, CacheData>> = seq![before];
        let mut top_targets = TopTargets::new(ROOT_TARGETS);
        let moves = generate_move_order(board, preferred_targets);
        let mut searched: Vec<Move> = Vec::new();
        let mut scores: Vec<i32> = Vec::new();
        let mut i: usize = 0;
        while i < moves.len()
            invariant
                self.wf(),
                self.depth == old(self).depth,
                self.calibration == old(self).calibration,
                depth > i32::MIN,
                valid_value(alpha),
                beta == i32::MAX,
                i <= moves@.len(),
                searched@.len() == i,
                scores@.len() == i,
                forall|k: int| 0 <= k < i ==> #[trigger] searched@[k] == moves@[k].0,
                crate::move_ordering::distinct_moves(moves@),
                top_targets.wf(),
                hash == hash_of(*board),
                i == 0 ==> alpha == i32::MIN + 1,
                i > 0 ==> alpha > i32::MIN + 1,
                before == old(self).spec_entries(),
                moves@ == spec_move_order(*board, root_hints(before, hash_of(*board))),
                children.len() == i,
                caches.len() == i + 1,
                caches[0] == before,
                caches[i as int] == lru_entries(self.cache),
                scores@ == discounted_scores(children),
                alpha == alpha_at((i32::MIN + 1) as i32, discounted_scores(children), i as nat),
                forall|k: int|
                    0 <= k < i ==> negamax_ok(
                        moves@[k].1,
                        (depth - 1) as i32,
                        (i32::MIN + 1) as i32,
                        (-alpha_at((i32::MIN + 1) as i32, discounted_scores(children), k as nat)) as i32,
                        old(self).calibration,
                        caches[k],
                        caches[k + 1],
                        #[trigger] children[k],
                    ),
                forall|k: int| 0 <= k < i ==> (#[trigger] children[k]).wf(),
                top_targets.entries() == spec_offer_all(Seq::empty(), ROOT_TARGETS as nat, scored_moves(discounted_scores(children), moves@)),
                top_targets.capacity() == ROOT_TARGETS,
            decreases moves@.len() - i,
        {
            let (chess_move, child) = moves[i];
            let child_result = negamax_alpha_beta_cache(
                &child,
                &mut stats,
                depth - 1,
                &mut self.cache,
                -beta,
                -alpha,
                self.calibration,
            );
            let child_score = child_result.negate();
            let discounted = discount_checkmates(child_score.value());
            proof {
                crate::score::lemma_discount_step(child_score.spec_value());
            }
            top_targets.try_insert(discounted, &chess_move);
            searched.push(chess_move);
            scores.push(discounted);
            let ghost old_children = children;
            let ghost old_scores = discounted_scores(children);
            proof {
                children = children.push(child_result);
                caches = caches.push(lru_entries(self.cache));
                let new_scores = discounted_scores(children);
                assert(new_scores =~= old_scores.push(discounted));
                assert forall|k: nat| k <= i implies #[trigger] best_prefix(new_scores, k) == best_prefix(old_scores, k) by {
                    lemma_best_prefix_push(old_scores, discounted, k);
                }
                assert(scored_moves(new_scores, moves@).drop_last() =~= scored_moves(old_scores, moves@));
                assert(scored_moves(new_scores, moves@).last() == (discounted, chess_move));
                assert forall|k: int|
                    0 <= k < i + 1 implies negamax_ok(
                        moves@[k].1,
                        (depth - 1) as i32,
                        (i32::MIN + 1) as i32,
                        (-alpha_at((i32::MIN + 1) as i32, discounted_scores(children), k as nat)) as i32,
                        old(self).calibration,
                        caches[k],
                        caches[k + 1],
                        #[trigger] children[k],
                    ) by {
                    assert(best_prefix(new_scores, k as nat) == best_prefix(old_scores, k as nat));
                    if k < i {
                        assert(children[k] == old_children[k]);
                    }
                }
                assert forall|k: int| 0 <= k < i + 1 implies (#[trigger] children[k]).wf() by {
                    if k < i {
                        assert(children[k] == old_children[k]);
                    }
                }
            }
            if discounted > alpha {
                alpha = discounted;
            }
            i += 1;
        }
        let ghost stored_targets = top_targets;
        insert_hash_if_better(
            hash,
            CacheData { depth, score: Score::Exact(alpha), targets: top_targets },
            &mut self.cache,
        );
        let best_move = pick_best_move(&searched, &scores);
        proof {
            if best_move is Some {
                let j = choose|j: int| 0 <= j < searched@.len() && searched@[j] == best_move->0;
                assert(moves@[j].0.wf());
            }
            assert forall|k: int| 0 <= k < spec_successors(*board).len() implies searched@.contains(
                #[trigger] spec_successors(*board)[k].0) by {
                assert(moves@.contains(spec_successors(*board)[k]));
                let j = choose|j: int| 0 <= j < moves@.len() && moves@[j] == spec_successors(*board)[k];
                assert(searched@[j] == moves@[j].0);
            }
            assert(chosen_among_legal(*board, best_move));
            assert(holds_result(self.spec_entries(), hash_of(*board), depth, Score::Exact(alpha)));
            assert(searched@ =~= moves_only(moves@));
            assert(root_choice(moves_only(moves@), discounted_scores(children), best_move));
            assert(stored_targets.capacity() == ROOT_TARGETS);
            assert(root_ok(*board, depth, old(self).spec_calibration(), old(self).spec_entries(), self.spec_entries(), best_move));
        }
        (best_move, stats)
    }

    /// Iterative deepening: a root pass at each depth `1, 2, ..., depth`,
    /// each one ordering its moves by what the earlier passes left in the
    /// cache. Gives each pass's choice with its statistics, shallowest first.
    pub fn iterative_deepening(&mut self, board: &chess::Board) -> (r: Vec<(Option<Move>, Statistics)>)
        requires
            old(self).wf(),
        ensures
            final(self).wf(),
            final(self).spec_depth() == old(self).spec_depth(),
            final(self).spec_calibration() == old(self).spec_calibration(),
            r@.len() == old(self).spec_depth(),
            exists|caches: Seq<Map<u64, CacheData>>|
                {
                    &&& caches.len() == r@.len() + 1
                    &&& caches[0] == old(self).spec_entries()
                    &&& caches[r@.len() as int] == final(self).spec_entries()
                    &&& forall|k: int|
                        0 <= k < r@.len() ==> root_ok(
                            *board,
                            (k + 1) as i32,
                            old(self).spec_calibration(),
                            caches[k],
                            caches[k + 1],
                            (#[trigger] r@[k]).0,
                        )
                },
            forall|k: int| 0 <= k < r@.len() ==> {
                &&& ((#[trigger] r@[k]).0 is None <==> spec_successors(*board).len() == 0)
                &&& chosen_among_legal(*board, r@[k].0)
                &&& (r@[k].0 matches Some(m) ==> m.wf())
            },
    {
        let mut passes: Vec<(Option<Move>, Statistics)> = Vec::new();
        let ghost mut caches: Seq<Map<u64, CacheData>> = seq![self.spec_entries()];
        let mut d: i64 = 1;
        while d <= self.depth as i64
            invariant
                caches.len() == passes@.len() + 1,
                caches[0] == old(self).spec_entries(),
                caches[passes@.len() as int] == self.spec_entries(),
                forall|k: int|
                    0 <= k < passes@.len() ==> root_ok(
                        *board,
                        (k + 1) as i32,
                        old(self).spec_calibration(),
                        caches[k],
                        caches[k + 1],
                        (#[trigger] passes@[k]).0,
                    ),
                self.wf(),
                self.depth == old(self).depth,
                self.calibration == old(self).calibration,
                1 <= d <= self.depth + 1,
                passes@.len() == d - 1,
                forall|k: int| 0 <= k < passes@.len() ==> {
                    &&& ((#[trigger] passes@[k]).0 is None <==> spec_successors(*board).len() == 0)
                    &&& chosen_among_legal(*board, passes@[k].0)
                    &&& (passes@[k].0 matches Some(m) ==> m.wf())
                },
            decreases self.depth + 1 - d,
        {
            let pass = self.search_at_depth(board, d as i32);
            let ghost old_passes = passes@;
            let ghost old_caches = caches;
            passes.push(pass);
            proof {
                caches = caches.push(self.spec_entries());
                assert forall|k: int|
                    0 <= k < passes@.len() implies root_ok(
                        *board,
                        (k + 1) as i32,
                        old(self).spec_calibration(),
                        caches[k],
                        caches[k + 1],
                        (#[trigger] passes@[k]).0,
                    ) by {
                    if k < old_passes.len() {
                        assert(passes@[k] == old_passes[k]);
                        assert(caches[k] == old_caches[k]);
                        assert(caches[k + 1] == old_caches[k + 1]);
                    }
                }
            }
            d += 1;
        }
        passes
    }

    /// The best move for the side to move in `game`: the choice of the
    /// last, deepest pass of iterative deepening. `None` exactly when the
    /// side to move has no legal move.
    pub fn best_next_move_iterative_deepening(&mut self, game: chess::Game) -> (r: Option<Move>)
        requires
            old(self).wf(),
        ensures
            final(self).wf(),
            r matches Some(m) ==> m.wf(),
            r is None <==> spec_successors(position_of(game)).len() == 0,
            chosen_among_legal(position_of(game), r),
            exists|before: Map<u64, CacheData>, after: Map<u64, CacheData>|
                #[trigger] root_ok(position_of(game), old(self).spec_depth(), old(self).spec_calibration(), before, after, r),
    {
        let board = current_position(&game);
        let mut passes = self.iterative_deepening(&board);
        proof {
            let caches = choose|caches: Seq<Map<u64, CacheData>>|
                {
                    &&& caches.len() == passes@.len() + 1
                    &&& caches[0] == old(self).spec_entries()
                    &&& caches[passes@.len() as int] == self.spec_entries()
                    &&& forall|k: int|
                        0 <= k < passes@.len() ==> root_ok(
                            board,
                            (k + 1) as i32,
                            old(self).spec_calibration(),
                            caches[k],
                            caches[k + 1],
                            (#[trigger] passes@[k]).0,
                        )
                };
            let last = passes@.len() - 1;
            assert(root_ok(board, old(self).spec_depth(), old(self).spec_calibration(), caches[last], caches[last + 1], passes@[last].0));
        }
        match passes.pop() {
            Some((choice, _stats)) => choice,
            None => None,
        }
    }
}

/// The longest principal variation read back from the cache.
pub const PRINCIPAL_VARIATION_LIMIT: usize = 64;

/// The position the first of `s[i..]` whose move is `m` leads to, if any.
pub open spec fn find_after(s: Seq<(Move, chess::Board)>, m: Move, i: int) -> Option<chess::Board>
    decreases s.len() - i,
{
    if i < 0 || i >= s.len() {
        None
    } else if s[i].0 == m {
        Some(s[i].1)
    } else {
        find_after(s, m, i + 1)
    }
}

/// The position `m` leads to from `b`, when it is a legal move there.
pub open spec fn spec_after(b: chess::Board, m: Move) -> Option<chess::Board> {
    find_after(spec_successors(b), m, 0)
}

/// The next step of a principal variation: the best reply the cache
/// remembers for `b`, with the position it leads to, when it is legal.
pub open spec fn pv_next(entries: Map<u64, CacheData>, b: chess::Board) -> Option<(Move, chess::Board)> {
    if entries.contains_key(hash_of(b)) && spec_ordered_moves(entries[hash_of(b)].targets.entries()).len() > 0 {
        let replies = spec_ordered_moves(entries[hash_of(b)].targets.entries());
        let reply = replies[replies.len() - 1];
        match spec_after(b, reply) {
            Some(next) => Some((reply, next)),
            None => None,
        }
    } else {
        None
    }
}

/// Up to `n` steps of the principal variation from `b`.
pub open spec fn pv_line(entries: Map<u64, CacheData>, b: chess::Board, n: nat) -> Seq<Move>
    decreases n,
{
    if n == 0 {
        Seq::empty()
    } else {
        match pv_next(entries, b) {
            None => Seq::empty(),
            Some((reply, next)) => seq![reply] + pv_line(entries, next, (n - 1) as nat),
        }
    }
}

/// The position `m` leads to from `board`, when it is a legal move there.
fn after_move(board: &chess::Board, m: Move) -> (r: Option<chess::Board>)
    ensures
        r == spec_after(*board, m),
{
    let next = successors(board);
    let mut i: usize = 0;
    while i < next.len()
        invariant
            i <= next@.len(),
            next@ == spec_successors(*board),
            find_after(next@, m, 0) == find_after(next@, m, i as int),
        decreases next@.len() - i,
    {
        if next[i].0 == m {
            return Some(next[i].1);
        }
        i += 1;
    }
    None
}

impl StockWish {
    /// What the cache remembers of `board`, if anything.
    pub fn cached_result(&mut self, board: &chess::Board) -> (r: Option<CacheData>)
        requires
            old(self).wf(),
        ensures
            final(self).wf(),
            final(self).spec_depth() == old(self).spec_depth(),
            final(self).spec_calibration() == old(self).spec_calibration(),
            final(self).spec_entries() == old(self).spec_entries(),
            r == if old(self).spec_entries().contains_key(hash_of(*board)) {
                Some(old(self).spec_entries()[hash_of(*board)])
            } else {
                None
            },
            r matches Some(data) ==> storable(data.score),
    {
        let hash = board_hash(board);
        let r = lookup(&mut self.cache, hash);
        proof {
            if r is Some {
                assert(lru_entries(self.cache).contains_key(hash));
            }
        }
        r
    }

    /// The expected line of play after `first_move`: from each position
    /// reached, the best reply the cache remembers, as long as there is one
    /// and it is legal, up to `PRINCIPAL_VARIATION_LIMIT` replies.
    pub fn get_principal_variation(&mut self, current_board: &chess::Board, first_move: Move) -> (r: Vec<Move>)
        requires
            old(self).wf(),
        ensures
            final(self).wf(),
            final(self).spec_depth() == old(self).spec_depth(),
            final(self).spec_calibration() == old(self).spec_calibration(),
            1 <= r@.len() <= PRINCIPAL_VARIATION_LIMIT + 1,
            r@[0] == first_move,
            final(self).spec_entries() == old(self).spec_entries(),
            r@ == seq![first_move] + match spec_after(*current_board, first_move) {
                Some(b) => pv_line(old(self).spec_entries(), b, PRINCIPAL_VARIATION_LIMIT as nat),
                None => Seq::empty(),
            },
    {
        let ghost entries = lru_entries(self.cache);
        let mut pv: Vec<Move> = Vec::new();
        pv.push(first_move);
        let mut board = match after_move(current_board, first_move) {
            Some(b) => b,
            None => {
                assert(pv@ =~= seq![first_move] + Seq::<Move>::empty());
                return pv;
            },
        };
        let ghost first_board = board;
        let ghost target = seq![first_move] + pv_line(entries, board, PRINCIPAL_VARIATION_LIMIT as nat);
        let mut n: usize = 0;
        while n < PRINCIPAL_VARIATION_LIMIT
            invariant
                self.wf(),
                self.depth == old(self).depth,
                self.calibration == old(self).calibration,
                pv@.len() == n + 1,
                n <= PRINCIPAL_VARIATION_LIMIT,
                pv@[0] == first_move,
                lru_entries(self.cache) == entries,
                entries == old(self).spec_entries(),
                pv@ + pv_line(entries, board, (PRINCIPAL_VARIATION_LIMIT - n) as nat) == target,
                spec_after(*current_board, first_move) == Some(first_board),
                target == seq![first_move] + pv_line(entries, first_board, PRINCIPAL_VARIATION_LIMIT as nat),
            decreases PRINCIPAL_VARIATION_LIMIT - n,
        {
            let ghost k = (PRINCIPAL_VARIATION_LIMIT - n) as nat;
            let hash = board_hash(&board);
            let cached = match lookup(&mut self.cache, hash) {
                Some(c) => c,
                None => {
                    assert(pv_line(entries, board, k) =~= Seq::<Move>::empty());
                    assert(pv@ =~= pv@ + Seq::<Move>::empty());
                    return pv;
                },
            };
            let replies = cached.targets.ordered_moves();
            if replies.len() == 0 {
                assert(pv_line(entries, board, k) =~= Seq::<Move>::empty());
                assert(pv@ =~= pv@ + Seq::<Move>::empty());
                return pv;
            }
            let next_move = replies[replies.len() - 1];
            let ghost here = board;
            board = match after_move(&board, next_move) {
                Some(b) => b,
                None => {
                    assert(pv_line(entries, here, k) =~= Seq::<Move>::empty());
                    assert(pv@ =~= pv@ + Seq::<Move>::empty());
                    return pv;
                },
            };
            assert(pv_next(entries, here) == Some((next_move, board)));
            assert(pv_line(entries, here, k) == seq![next_move] + pv_line(entries, board, (k - 1) as nat));
            assert(pv@.push(next_move) + pv_line(entries, board, (k - 1) as nat) =~= pv@ + (seq![next_move]
                + pv_line(entries, board, (k - 1) as nat)));
            pv.push(next_move);
            n += 1;
        }
        assert(pv_line(entries, board, 0) =~= Seq::<Move>::empty());
        assert(pv@ =~= pv@ + Seq::<Move>::empty());
        pv
    }
}

/// The position with the turn passed, for null-move pruning: only with at
/// least three plies left and when the side to move is not in check.
pub fn null_move_pruning(board: &chess::Board, remaining_depth: i32) -> (r: Option<chess::Board>)
    ensures
        remaining_depth < 3 ==> r is None,
        remaining_depth >= 3 ==> r == null_move_of(*board),
{
    if remaining_depth < 3 {
        return None;
    }
    null_move(board)
}

impl Default for StockWish {
    fn default() -> (r: Self)
        ensures
            r.wf(),
            r.spec_depth() == DEFAULT_DEPTH,
            r.spec_calibration() == (Calibration { positional_weight: 0 }),
    {
        Self::new(DEFAULT_DEPTH, Calibration { positional_weight: 0 })
    }
}

} // verus!
