//! Move ordering: legal moves arranged so that those likely to cause a cutoff
//! come first.

use vstd::prelude::*;
use itertools::Itertools;
use crate::cache::{spec_ordered_moves, TopTargets};
use crate::evaluation::{piece_value, spec_piece_value, QUEEN_VALUE};
use crate::position::{color_mask, color_mask_of, in_check, piece_on, spec_in_check, spec_piece_on, spec_successors, successors, white_of, white_to_move, Move};

verus! {

/// The pairs sorted ascending by their first component, stably.
pub uninterp spec fn sorted_pairs_of(items: Seq<(i64, usize)>) -> Seq<(i64, usize)>;

/// Relies on itertools::Itertools::sorted_by_key (a stable sort, ascending by
/// the key): the same pairs, rearranged so that the keys ascend, pairs with
/// equal keys keeping their order.
#[verifier::external_body]
fn sorted_by_key(items: Vec<(i64, usize)>) -> (r: Vec<(i64, usize)>)
    ensures
        r@ == sorted_pairs_of(items@),
        r@.to_multiset() == items@.to_multiset(),
        forall|i: int, j: int| 0 <= i < j < r@.len() ==> (#[trigger] r@[i]).0 <= (#[trigger] r@[j]).0,
        forall|i: int, j: int|
            0 <= i < j < r@.len() && (#[trigger] r@[i]).0 == (#[trigger] r@[j]).0 ==> exists|a: int, b: int|
                0 <= a < b < items@.len() && items@[a] == r@[i] && items@[b] == r@[j],
{
    items.into_iter().sorted_by_key(|x| x.0).collect()
}

/// A permutation of `0..n`, listed as a sequence of indices.
pub open spec fn is_permutation_of_indices(r: Seq<usize>, n: nat) -> bool {
    &&& r.len() == n
    &&& r.no_duplicates()
    &&& forall|i: int| 0 <= i < r.len() ==> (#[trigger] r[i]) < n
    &&& forall|k: usize| k < n ==> #[trigger] r.contains(k)
}

/// Each index with its negated key, ready for an ascending sort.
pub open spec fn priority_items(keys: Seq<i64>) -> Seq<(i64, usize)> {
    Seq::new(keys.len(), |k: int| ((-keys[k]) as i64, k as usize))
}

/// The indices of `keys` by descending key, ties in index order.
pub open spec fn spec_order(keys: Seq<i64>) -> Seq<usize> {
    sorted_pairs_of(priority_items(keys)).map_values(|x: (i64, usize)| x.1)
}

/// The indices of `keys`, each exactly once, ordered by descending key;
/// equal keys keep their index order.
pub fn order_by_priority(keys: &Vec<i64>) -> (r: Vec<usize>)
    requires
        forall|i: int| 0 <= i < keys@.len() ==> #[trigger] keys@[i] > i64::MIN,
    ensures
        r@ == spec_order(keys@),
        is_permutation_of_indices(r@, keys@.len()),
        forall|i: int, j: int|
            0 <= i < j < r@.len() ==> keys@[#[trigger] r@[i] as int] >= keys@[#[trigger] r@[j] as int],
        forall|i: int, j: int|
            0 <= i < j < r@.len() && keys@[#[trigger] r@[i] as int] == keys@[#[trigger] r@[j] as int] ==> r@[i] < r@[j],
{
    let n = keys.len();
    let mut items: Vec<(i64, usize)> = Vec::new();
    let mut k: usize = 0;
    while k < n
        invariant
            k <= n,
            n == keys@.len(),
            items@.len() == k,
            forall|i: int| 0 <= i < keys@.len() ==> #[trigger] keys@[i] > i64::MIN,
            forall|i: int| 0 <= i < k ==> (#[trigger] items@[i]) == ((-keys@[i]) as i64, i as usize),
        decreases n - k,
    {
        items.push((-keys[k], k));
        k += 1;
    }
    let ghost items_seq = items@;
    let sorted = sorted_by_key(items);
    proof {
        broadcast use vstd::seq_lib::group_to_multiset_ensures;

        assert forall|x: (i64, usize)| #[trigger] sorted@.contains(x) implies x.1 < n && x.0 == -keys@[x.1 as int]
            && items_seq.contains(x) by {
            assert(sorted@.to_multiset().count(x) > 0);
            assert(items_seq.to_multiset().count(x) > 0);
            let i = choose|i: int| 0 <= i < items_seq.len() && items_seq[i] == x;
        }
        assert(items_seq.no_duplicates()) by {
            assert forall|a: int, b: int| 0 <= a < items_seq.len() && 0 <= b < items_seq.len() && a != b
                implies items_seq[a] != items_seq[b] by {
                assert(items_seq[a].1 == a as usize);
                assert(items_seq[b].1 == b as usize);
            }
        }
        items_seq.lemma_multiset_has_no_duplicates();
        sorted@.lemma_multiset_has_no_duplicates_conv();
    }
    let mut out: Vec<usize> = Vec::new();
    let mut i: usize = 0;
    while i < sorted.len()
        invariant
            i <= sorted@.len(),
            out@.len() == i,
            forall|j: int| 0 <= j < i ==> (#[trigger] out@[j]) == sorted@[j].1,
            forall|x: (i64, usize)| #[trigger] sorted@.contains(x) ==> x.1 < n && x.0 == -keys@[x.1 as int],
            sorted@.no_duplicates(),
            n == keys@.len(),
        decreases sorted@.len() - i,
    {
        out.push(sorted[i].1);
        i += 1;
    }
    proof {
        broadcast use vstd::seq_lib::group_to_multiset_ensures;

        assert(sorted@.len() == n) by {
            assert(sorted@.to_multiset().len() == items_seq.to_multiset().len());
        }
        assert forall|a: int| 0 <= a < out@.len() implies (#[trigger] out@[a]) < n
            && sorted@[a] == ((-keys@[out@[a] as int]) as i64, out@[a]) by {
            assert(sorted@.contains(sorted@[a]));
        }
        assert forall|a: int, b: int| 0 <= a < out@.len() && 0 <= b < out@.len() && a != b
            implies out@[a] != out@[b] by {
            assert(sorted@.contains(sorted@[a]));
            assert(sorted@.contains(sorted@[b]));
        }
        assert forall|k: usize| k < n implies #[trigger] out@.contains(k) by {
            let x = ((-keys@[k as int]) as i64, k);
            assert(items_seq[k as int] == x);
            assert(items_seq.to_multiset().count(x) > 0);
            assert(sorted@.to_multiset().count(x) > 0);
            let a = choose|a: int| 0 <= a < sorted@.len() && sorted@[a] == x;
            assert(out@[a] == k);
        }
        assert forall|i: int, j: int| 0 <= i < j < out@.len() implies keys@[#[trigger] out@[i] as int]
            >= keys@[#[trigger] out@[j] as int] by {
            assert(sorted@.contains(sorted@[i]));
            assert(sorted@.contains(sorted@[j]));
        }
        assert forall|i: int, j: int|
            0 <= i < j < out@.len() && keys@[#[trigger] out@[i] as int] == keys@[#[trigger] out@[j] as int]
            implies out@[i] < out@[j] by {
            assert(sorted@.contains(sorted@[i]));
            assert(sorted@.contains(sorted@[j]));
            assert(sorted@[i].0 == sorted@[j].0);
            let (a, b) = choose|a: int, b: int|
                0 <= a < b < items_seq.len() && items_seq[a] == sorted@[i] && items_seq[b] == sorted@[j];
            assert(items_seq[a].1 == a as usize);
            assert(items_seq[b].1 == b as usize);
        }
        assert(items_seq =~= priority_items(keys@));
        assert(out@ =~= spec_order(keys@));
    }
    out
}

/// Why a move is tried early, best reason last; the value orders moves of
/// one category, higher first.
#[derive(Clone, Copy, Debug, PartialEq, Eq, Structural)]
pub enum MoveCategory {
    NormalMove(i32),
    Promotion(i32),
    Capture(i32),
    Cached(i32),
}

/// Categories rank lexicographically: the category first, then its value.
pub open spec fn spec_priority(c: MoveCategory) -> int {
    match c {
        MoveCategory::NormalMove(v) => v as int,
        MoveCategory::Promotion(v) => 0x1_0000_0000 + v,
        MoveCategory::Capture(v) => 2 * 0x1_0000_0000 + v,
        MoveCategory::Cached(v) => 3 * 0x1_0000_0000 + v,
    }
}

/// The sort key of a category.
pub fn priority(c: MoveCategory) -> (r: i64)
    ensures
        r == spec_priority(c),
        r > i64::MIN,
{
    match c {
        MoveCategory::NormalMove(v) => v as i64,
        MoveCategory::Promotion(v) => 0x1_0000_0000i64 + v as i64,
        MoveCategory::Capture(v) => 2 * 0x1_0000_0000i64 + v as i64,
        MoveCategory::Cached(v) => 3 * 0x1_0000_0000i64 + v as i64,
    }
}

/// The first index at which `m` occurs in `s`, if it does.
pub open spec fn first_index(s: Seq<Move>, m: Move) -> Option<int> {
    if s.contains(m) {
        Some(choose|i: int| 0 <= i < s.len() && s[i] == m && forall|j: int| 0 <= j < i ==> s[j] != m)
    } else {
        None
    }
}

/// The category of a move: among the cached replies (by its position in
/// them, best last), else a capture (by its exchange gain), else a promotion
/// (by the value of the new piece), else an ordinary move.
pub open spec fn spec_move_category(m: Move, is_capture: bool, capture_gain: i32, hints: Option<Seq<Move>>) -> MoveCategory {
    if hints is Some && hints->0.contains(m) {
        MoveCategory::Cached((first_index(hints->0, m)->0) as i32)
    } else if is_capture {
        MoveCategory::Capture(capture_gain)
    } else if m.promotion is Some {
        MoveCategory::Promotion(crate::evaluation::spec_piece_value(m.promotion))
    } else {
        MoveCategory::NormalMove(0)
    }
}

/// The cached replies as a sequence, if any.
pub open spec fn hints_view(hints: Option<Vec<Move>>) -> Option<Seq<Move>> {
    match hints {
        Some(h) => Some(h@),
        None => None,
    }
}

/// Categorises a move from what the position says of it.
pub fn move_score(m: &Move, is_capture: bool, capture_gain: i32, hints: &Option<Vec<Move>>) -> (r: MoveCategory)
    requires
        hints matches Some(h) ==> h@.len() <= i32::MAX,
    ensures
        r == spec_move_category(*m, is_capture, capture_gain, hints_view(*hints)),
{
    if hints.is_some() {
        let h = hints.as_ref().unwrap();
        let mut i: usize = 0;
        while i < h.len()
            invariant
                i <= h@.len(),
                h@.len() <= i32::MAX,
                hints_view(*hints) == Some(h@),
                forall|j: int| 0 <= j < i ==> h@[j] != *m,
            decreases h@.len() - i,
        {
            if h[i] == *m {
                proof {
                    assert(h@.contains(*m));
                    assert(0 <= i < h@.len() && h@[i as int] == *m && forall|j: int| 0 <= j < i ==> h@[j] != *m);
                    let k = first_index(h@, *m)->0;
                    assert(0 <= k < h@.len() && h@[k] == *m && forall|j: int| 0 <= j < k ==> h@[j] != *m);
                    assert(k == i) by {
                        if k < i {
                            assert(h@[k] != *m);
                        } else if k > i {
                            assert(h@[i as int] != *m);
                        }
                    }
                }
                return MoveCategory::Cached(i as i32);
            }
            i += 1;
        }
    }
    if is_capture {
        MoveCategory::Capture(capture_gain)
    } else if let Some(p) = m.promotion {
        MoveCategory::Promotion(piece_value(Some(p)))
    } else {
        MoveCategory::NormalMove(0)
    }
}

/// Most valuable victim, least valuable attacker: the value of the piece on
/// the destination minus the value of the piece that moves.
fn mvv_lva(board: &chess::Board, m: &Move) -> (r: i32)
    requires
        m.wf(),
    ensures
        r == spec_mvv_lva(*board, *m),
        -QUEEN_VALUE <= r <= QUEEN_VALUE,
{
    let victim = piece_on(board, m.dest);
    let attacker = piece_on(board, m.source);
    piece_value(victim) - piece_value(attacker)
}

/// The exchange gain of a move: victim's value minus mover's value.
pub open spec fn spec_mvv_lva(b: chess::Board, m: Move) -> int {
    spec_piece_value(spec_piece_on(b, m.dest)) - spec_piece_value(spec_piece_on(b, m.source))
}

/// Whether a move lands on a piece of the side not to move.
pub open spec fn spec_is_capture(b: chess::Board, m: Move) -> bool {
    color_mask_of(b, !white_of(b)) & (1u64 << (m.dest as u64)) != 0
}

/// The cached replies a node orders by, best last.
pub open spec fn spec_hints(top_targets: Option<TopTargets>) -> Option<Seq<Move>> {
    match top_targets {
        Some(t) => if spec_ordered_moves(t.entries()).len() <= i32::MAX {
            Some(spec_ordered_moves(t.entries()))
        } else {
            None
        },
        None => None,
    }
}

/// The priority of a move in a position, given the cached replies.
pub open spec fn spec_move_key(b: chess::Board, hints: Option<Seq<Move>>, m: Move) -> int {
    spec_priority(
        spec_move_category(
            m,
            spec_is_capture(b, m),
            if spec_is_capture(b, m) {
                spec_mvv_lva(b, m) as i32
            } else {
                0
            },
            hints,
        ),
    )
}

/// The priorities of the legal moves of `b`, in generation order.
pub open spec fn spec_move_keys(b: chess::Board, hints: Option<Seq<Move>>) -> Seq<i64> {
    Seq::new(spec_successors(b).len(), |k: int| spec_move_key(b, hints, spec_successors(b)[k].0) as i64)
}

/// The legal moves of `b` by descending priority, ties in generation order.
pub open spec fn spec_move_order(b: chess::Board, top_targets: Option<TopTargets>) -> Seq<(Move, chess::Board)> {
    arranged(spec_successors(b), spec_move_keys(b, spec_hints(top_targets)))
}

/// Picks `items[order[i]]` for each `i`.
fn pick<T: Copy>(items: &Vec<T>, order: &Vec<usize>) -> (r: Vec<T>)
    requires
        is_permutation_of_indices(order@, items@.len()),
    ensures
        r@.len() == items@.len(),
        forall|i: int| 0 <= i < r@.len() ==> #[trigger] r@[i] == items@[order@[i] as int],
{
    let mut out: Vec<T> = Vec::new();
    let mut i: usize = 0;
    while i < order.len()
        invariant
            is_permutation_of_indices(order@, items@.len()),
            i <= order@.len(),
            out@.len() == i,
            forall|j: int| 0 <= j < i ==> #[trigger] out@[j] == items@[order@[j] as int],
        decreases order@.len() - i,
    {
        out.push(items[order[i]]);
        i += 1;
    }
    out
}

/// Moves that are pairwise different and well formed.
pub open spec fn distinct_moves(s: Seq<(Move, chess::Board)>) -> bool {
    &&& forall|i: int| 0 <= i < s.len() ==> (#[trigger] s[i]).0.wf()
    &&& forall|i: int, j: int| 0 <= i < s.len() && 0 <= j < s.len() && i != j ==> (#[trigger] s[i]).0 != (#[trigger] s[j]).0
}

proof fn lemma_pick_distinct(items: Seq<(Move, chess::Board)>, order: Seq<usize>, r: Seq<(Move, chess::Board)>)
    requires
        distinct_moves(items),
        items.len() <= usize::MAX,
        is_permutation_of_indices(order, items.len()),
        r.len() == items.len(),
        forall|i: int| 0 <= i < r.len() ==> #[trigger] r[i] == items[order[i] as int],
    ensures
        distinct_moves(r),
        forall|k: int| 0 <= k < items.len() ==> #[trigger] r.contains(items[k]),
{
    assert forall|i: int, j: int| 0 <= i < r.len() && 0 <= j < r.len() && i != j implies (#[trigger] r[i]).0
        != (#[trigger] r[j]).0 by {
        assert(order[i] != order[j]);
    }
    assert forall|k: int| 0 <= k < items.len() implies #[trigger] r.contains(items[k]) by {
        assert(order.contains(k as usize));
        let i = choose|i: int| 0 <= i < order.len() && order[i] == k as usize;
        assert(r[i] == items[k]);
    }
}

/// `items` in the order `spec_order` gives their keys.
pub open spec fn arranged(items: Seq<(Move, chess::Board)>, keys: Seq<i64>) -> Seq<(Move, chess::Board)> {
    Seq::new(items.len(), |i: int| items[spec_order(keys)[i] as int])
}

/// Whether a legal move of `b` is a capture.
pub open spec fn capture_pred(b: chess::Board) -> spec_fn((Move, chess::Board)) -> bool {
    |x: (Move, chess::Board)| spec_is_capture(b, x.0)
}

/// The legal captures of `b`, in generation order.
pub open spec fn spec_captures(b: chess::Board) -> Seq<(Move, chess::Board)> {
    spec_successors(b).filter(capture_pred(b))
}

/// The exchange gains of the legal captures of `b`.
pub open spec fn spec_capture_keys(b: chess::Board) -> Seq<i64> {
    Seq::new(spec_captures(b).len(), |k: int| spec_mvv_lva(b, spec_captures(b)[k].0) as i64)
}

/// The moves capture search tries: every legal move when in check, else
/// the captures by descending exchange gain, ties in generation order.
pub open spec fn spec_quiescence_moves(b: chess::Board) -> Seq<(Move, chess::Board)> {
    if spec_in_check(b) {
        spec_successors(b)
    } else {
        arranged(spec_captures(b), spec_capture_keys(b))
    }
}

/// The moves rearranged by descending priority: each of them exactly once
/// (the same number of moves, all different, every one present), and
/// `keys[k]` the priority of `items[k]`.
pub fn arrange_by_priority(items: &Vec<(Move, chess::Board)>, keys: &Vec<i64>) -> (r: Vec<(Move, chess::Board)>)
    requires
        keys@.len() == items@.len(),
        distinct_moves(items@),
        forall|i: int| 0 <= i < keys@.len() ==> #[trigger] keys@[i] > i64::MIN,
    ensures
        r@.len() == items@.len(),
        distinct_moves(r@),
        forall|k: int| 0 <= k < items@.len() ==> #[trigger] r@.contains(items@[k]),
        forall|i: int| 0 <= i < r@.len() ==> items@.contains(#[trigger] r@[i]),
        r@ == arranged(items@, keys@),
        exists|order: Seq<usize>|
            {
                &&& is_permutation_of_indices(order, items@.len())
                &&& forall|i: int| 0 <= i < r@.len() ==> #[trigger] r@[i] == items@[order[i] as int]
                &&& forall|i: int, j: int|
                    0 <= i < j < order.len() ==> keys@[#[trigger] order[i] as int] >= keys@[#[trigger] order[j] as int]
            },
{
    let n = items.len();
    let order = order_by_priority(keys);
    let r = pick(items, &order);
    proof {
        assert(items@.len() == n);
        lemma_pick_distinct(items@, order@, r@);
        assert forall|i: int| 0 <= i < r@.len() implies items@.contains(#[trigger] r@[i]) by {
            assert(r@[i] == items@[order@[i] as int]);
        }
        assert(r@ =~= arranged(items@, keys@));
    }
    r
}

/// The legal moves of a position with the positions they lead to, each
/// exactly once: first the cached replies (best first), then captures by
/// descending exchange gain, then promotions by descending piece value, then
/// the rest.
pub fn generate_move_order(board: &chess::Board, top_targets: Option<TopTargets>) -> (r: Vec<(Move, chess::Board)>)
    ensures
        r@ == spec_move_order(*board, top_targets),
        distinct_moves(r@),
        r@.len() == spec_successors(*board).len(),
        forall|k: int| 0 <= k < spec_successors(*board).len() ==> #[trigger] r@.contains(spec_successors(*board)[k]),
        forall|i: int| 0 <= i < r@.len() ==> spec_successors(*board).contains(#[trigger] r@[i]),
        forall|i: int, j: int|
            0 <= i < j < r@.len() ==> spec_move_key(*board, spec_hints(top_targets), (#[trigger] r@[i]).0)
                >= spec_move_key(*board, spec_hints(top_targets), (#[trigger] r@[j]).0),
{
    let moves = successors(board);
    let hints: Option<Vec<Move>> = match top_targets {
        Some(t) => {
            let h = t.ordered_moves();
            if h.len() <= i32::MAX as usize {
                Some(h)
            } else {
                None
            }
        },
        None => None,
    };
    assert(hints_view(hints) == spec_hints(top_targets));
    let other_players_pieces = color_mask(board, !white_to_move(board));
    let mut keys: Vec<i64> = Vec::new();
    let mut i: usize = 0;
    while i < moves.len()
        invariant
            i <= moves@.len(),
            keys@.len() == i,
            moves@ == spec_successors(*board),
            distinct_moves(moves@),
            other_players_pieces == color_mask_of(*board, !white_of(*board)),
            hints_view(hints) == spec_hints(top_targets),
            hints matches Some(h) ==> h@.len() <= i32::MAX,
            forall|k: int| 0 <= k < i ==> #[trigger] keys@[k] > i64::MIN,
            forall|k: int| 0 <= k < i ==> #[trigger] keys@[k] == spec_move_key(*board, spec_hints(top_targets), moves@[k].0),
        decreases moves@.len() - i,
    {
        let m = moves[i].0;
        let is_capture = other_players_pieces & (1u64 << (m.dest as u64)) != 0;
        let gain = if is_capture { mvv_lva(board, &m) } else { 0 };
        keys.push(priority(move_score(&m, is_capture, gain, &hints)));
        i += 1;
    }
    assert(keys@ =~= spec_move_keys(*board, spec_hints(top_targets)));
    let r = arrange_by_priority(&moves, &keys);
    proof {
        let order = choose|order: Seq<usize>|
            {
                &&& is_permutation_of_indices(order, moves@.len())
                &&& forall|i: int| 0 <= i < r@.len() ==> #[trigger] r@[i] == moves@[order[i] as int]
                &&& forall|i: int, j: int|
                    0 <= i < j < order.len() ==> keys@[#[trigger] order[i] as int] >= keys@[#[trigger] order[j] as int]
            };
        assert forall|i: int, j: int| 0 <= i < j < r@.len() implies spec_move_key(*board, spec_hints(top_targets), (#[trigger] r@[i]).0)
            >= spec_move_key(*board, spec_hints(top_targets), (#[trigger] r@[j]).0) by {
            assert(r@[i] == moves@[order[i] as int]);
            assert(r@[j] == moves@[order[j] as int]);
            assert(keys@[order[i] as int] >= keys@[order[j] as int]);
        }
    }
    r
}

/// The moves to search past the nominal depth: every legal move when the
/// side to move is in check, else the captures by descending exchange gain.
pub fn moves_toward_quiescence(board: &chess::Board) -> (r: Vec<(Move, chess::Board)>)
    ensures
        r@ == spec_quiescence_moves(*board),
        distinct_moves(r@),
        spec_in_check(*board) ==> r@ == spec_successors(*board),
        !spec_in_check(*board) ==> forall|x: (Move, chess::Board)|
            #[trigger] r@.contains(x) <==> (spec_successors(*board).contains(x) && spec_is_capture(*board, x.0)),
        !spec_in_check(*board) ==> forall|i: int, j: int|
            0 <= i < j < r@.len() ==> spec_mvv_lva(*board, (#[trigger] r@[i]).0) >= spec_mvv_lva(*board, (#[trigger] r@[j]).0),
{
    let moves = successors(board);
    if in_check(board) {
        return moves;
    }
    let other_players_pieces = color_mask(board, !white_to_move(board));
    let mut captures: Vec<(Move, chess::Board)> = Vec::new();
    let mut keys: Vec<i64> = Vec::new();
    let ghost mut taken: Seq<int> = Seq::empty();
    let mut i: usize = 0;
    while i < moves.len()
        invariant
            i <= moves@.len(),
            keys@.len() == captures@.len(),
            taken.len() == captures@.len(),
            moves@ == spec_successors(*board),
            distinct_moves(moves@),
            other_players_pieces == color_mask_of(*board, !white_of(*board)),
            forall|k: int| 0 <= k < taken.len() ==> 0 <= #[trigger] taken[k] < i && captures@[k] == moves@[taken[k]],
            forall|k: int, l: int| 0 <= k < l < taken.len() ==> #[trigger] taken[k] < #[trigger] taken[l],
            forall|k: int| 0 <= k < keys@.len() ==> #[trigger] keys@[k] > i64::MIN,
            forall|k: int| 0 <= k < keys@.len() ==> #[trigger] keys@[k] == spec_mvv_lva(*board, captures@[k].0),
            forall|k: int| 0 <= k < captures@.len() ==> spec_is_capture(*board, (#[trigger] captures@[k]).0),
            forall|k: int| 0 <= k < i && spec_is_capture(*board, moves@[k].0) ==> #[trigger] captures@.contains(moves@[k]),
            captures@ == moves@.take(i as int).filter(capture_pred(*board)),
        decreases moves@.len() - i,
    {
        let m = moves[i].0;
        let ghost before = captures@;
        proof {
            reveal(Seq::filter);
            assert(moves@.take(i as int + 1).drop_last() =~= moves@.take(i as int));
            assert(moves@.take(i as int + 1).last() == moves@[i as int]);
        }
        if other_players_pieces & (1u64 << (m.dest as u64)) != 0 {
            captures.push(moves[i]);
            keys.push(mvv_lva(board, &m) as i64);
            proof {
                taken = taken.push(i as int);
            }
            assert(captures@[captures@.len() - 1] == moves@[i as int]);
        }
        proof {
            assert forall|k: int| 0 <= k <= i && spec_is_capture(*board, moves@[k].0) implies #[trigger] captures@.contains(moves@[k]) by {
                if k == i {
                    assert(captures@[captures@.len() - 1] == moves@[i as int]);
                } else {
                    assert(before.contains(moves@[k]));
                    let c = choose|c: int| 0 <= c < before.len() && before[c] == moves@[k];
                    assert(captures@[c] == before[c]);
                }
            }
        }
        i += 1;
    }
    assert(distinct_moves(captures@)) by {
        assert forall|a: int, b: int| 0 <= a < captures@.len() && 0 <= b < captures@.len() && a != b
            implies (#[trigger] captures@[a]).0 != (#[trigger] captures@[b]).0 by {
            if a < b {
                assert(taken[a] < taken[b]);
            } else {
                assert(taken[b] < taken[a]);
            }
        }
        assert forall|a: int| 0 <= a < captures@.len() implies (#[trigger] captures@[a]).0.wf() by {
            assert(captures@[a] == moves@[taken[a]]);
        }
    }
    assert(moves@.take(moves@.len() as int) =~= moves@);
    assert(captures@ == spec_captures(*board));
    assert(keys@ =~= spec_capture_keys(*board));
    let r = arrange_by_priority(&captures, &keys);
    proof {
        let order = choose|order: Seq<usize>|
            {
                &&& is_permutation_of_indices(order, captures@.len())
                &&& forall|i: int| 0 <= i < r@.len() ==> #[trigger] r@[i] == captures@[order[i] as int]
                &&& forall|i: int, j: int|
                    0 <= i < j < order.len() ==> keys@[#[trigger] order[i] as int] >= keys@[#[trigger] order[j] as int]
            };
        assert forall|i: int, j: int| 0 <= i < j < r@.len() implies spec_mvv_lva(*board, (#[trigger] r@[i]).0)
            >= spec_mvv_lva(*board, (#[trigger] r@[j]).0) by {
            assert(r@[i] == captures@[order[i] as int]);
            assert(r@[j] == captures@[order[j] as int]);
            assert(keys@[order[i] as int] >= keys@[order[j] as int]);
        }
        assert forall|x: (Move, chess::Board)| #[trigger] r@.contains(x) <==> (spec_successors(*board).contains(x)
            && spec_is_capture(*board, x.0)) by {
            if r@.contains(x) {
                assert(captures@.contains(x));
                let k = choose|k: int| 0 <= k < captures@.len() && captures@[k] == x;
                assert(captures@[k] == moves@[taken[k]]);
            }
            if spec_successors(*board).contains(x) && spec_is_capture(*board, x.0) {
                let k = choose|k: int| 0 <= k < moves@.len() && moves@[k] == x;
                assert(captures@.contains(moves@[k]));
                let c = choose|c: int| 0 <= c < captures@.len() && captures@[c] == x;
                assert(r@.contains(captures@[c]));
            }
        }
    }
    r
}

} // verus!
