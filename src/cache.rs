//! The transposition cache: earlier search results by position hash, kept in
//! an LRU map of bounded size, and the best replies found at a node.

use vstd::prelude::*;
use crate::move_ordering::{order_by_priority, is_permutation_of_indices, spec_order};
use crate::position::{board_hash, hash_of, Move};
use crate::score::Score;

verus! {

/// The index of the lowest score in `s` (the last one, if several tie: the
/// entries are kept in the order they came, so that is the latest of them).
pub open spec fn lowest_index(s: Seq<(i32, Move)>) -> int
    decreases s.len(),
{
    if s.len() <= 1 {
        0
    } else {
        let m = lowest_index(s.drop_last());
        if s.last().0 <= s[m].0 {
            s.len() - 1
        } else {
            m
        }
    }
}

proof fn lemma_lowest_index(s: Seq<(i32, Move)>)
    requires
        s.len() > 0,
    ensures
        0 <= lowest_index(s) < s.len(),
        forall|j: int| 0 <= j < s.len() ==> s[lowest_index(s)].0 <= (#[trigger] s[j]).0,
    decreases s.len(),
{
    if s.len() > 1 {
        lemma_lowest_index(s.drop_last());
        assert forall|j: int| 0 <= j < s.len() implies s[lowest_index(s)].0 <= (#[trigger] s[j]).0 by {
            if j < s.len() - 1 {
                assert(s.drop_last()[j] == s[j]);
            }
        }
    }
}

/// The entries kept after offering `item` to a collection of at most `max`
/// entries, kept in the order they came: it is added while there is room;
/// once full, it displaces the lowest entry (the latest of equally low ones,
/// so that ties keep the first seen) if it scores strictly higher, and is
/// dropped otherwise.
pub open spec fn spec_offer(s: Seq<(i32, Move)>, max: nat, item: (i32, Move)) -> Seq<(i32, Move)> {
    if s.len() < max {
        s.push(item)
    } else if s.len() > 0 && s[lowest_index(s)].0 < item.0 {
        s.remove(lowest_index(s)).push(item)
    } else {
        s
    }
}

/// The entries kept after offering each of `items` in turn.
pub open spec fn spec_offer_all(s: Seq<(i32, Move)>, max: nat, items: Seq<(i32, Move)>) -> Seq<(i32, Move)>
    decreases items.len(),
{
    if items.len() == 0 {
        s
    } else {
        spec_offer(spec_offer_all(s, max, items.drop_last()), max, items.last())
    }
}

/// The negated scores, as sort keys.
pub open spec fn score_keys(entries: Seq<(i32, Move)>) -> Seq<i64> {
    Seq::new(entries.len(), |k: int| (-(entries[k].0 as int)) as i64)
}

/// The kept replies, lowest score first, equal scores in the order kept.
pub open spec fn spec_ordered_moves(entries: Seq<(i32, Move)>) -> Seq<Move> {
    spec_order(score_keys(entries)).map_values(|i: usize| entries[i as int].1)
}

/// The best-scoring replies seen while expanding one node, at most
/// `max_size` of them.
#[derive(Clone, Debug)]
pub struct TopTargets {
    moves: Vec<(i32, Move)>,
    max_size: usize,
}

impl TopTargets {
    pub closed spec fn entries(&self) -> Seq<(i32, Move)> {
        self.moves@
    }

    pub closed spec fn capacity(&self) -> nat {
        self.max_size as nat
    }

    pub open spec fn wf(&self) -> bool {
        self.entries().len() <= self.capacity()
    }

    /// An empty collection that keeps at most `max_size` entries.
    pub fn new(max_size: usize) -> (r: Self)
        ensures
            r.entries().len() == 0,
            r.capacity() == max_size,
    {
        Self { moves: Vec::new(), max_size }
    }

    /// Offers a reply with its score.
    pub fn try_insert(&mut self, score: i32, chess_move: &Move)
        requires
            old(self).wf(),
        ensures
            final(self).wf(),
            final(self).capacity() == old(self).capacity(),
            final(self).entries() == spec_offer(old(self).entries(), old(self).capacity(), (score, *chess_move)),
    {
        if self.moves.len() < self.max_size {
            self.moves.push((score, *chess_move));
        } else if self.moves.len() > 0 {
            let mut low: usize = 0;
            let mut i: usize = 1;
            while i < self.moves.len()
                invariant
                    1 <= i <= self.moves@.len(),
                    low == lowest_index(self.moves@.take(i as int)),
                decreases self.moves@.len() - i,
            {
                assert(self.moves@.take(i as int + 1).drop_last() =~= self.moves@.take(i as int));
                proof {
                    lemma_lowest_index(self.moves@.take(i as int));
                }
                if self.moves[i].0 <= self.moves[low].0 {
                    low = i;
                }
                i += 1;
            }
            assert(self.moves@.take(i as int) =~= self.moves@);
            proof {
                lemma_lowest_index(self.moves@);
            }
            if self.moves[low].0 < score {
                self.moves.remove(low);
                self.moves.push((score, *chess_move));
            }
        }
    }

    /// The number of entries held.
    pub fn len(&self) -> (r: usize)
        ensures
            r == self.entries().len(),
    {
        self.moves.len()
    }

    /// The kept replies, lowest score first.
    pub fn ordered_moves(&self) -> (r: Vec<Move>)
        ensures
            r@ == spec_ordered_moves(self.entries()),
            exists|p: Seq<usize>|
                {
                    &&& is_permutation_of_indices(p, self.entries().len())
                    &&& r@.len() == p.len()
                    &&& forall|i: int| 0 <= i < r@.len() ==> #[trigger] r@[i] == self.entries()[p[i] as int].1
                    &&& forall|i: int, j: int|
                        0 <= i < j < p.len() ==> self.entries()[#[trigger] p[i] as int].0
                            <= self.entries()[#[trigger] p[j] as int].0
                    &&& forall|i: int, j: int|
                        0 <= i < j < p.len() && self.entries()[#[trigger] p[i] as int].0
                            == self.entries()[#[trigger] p[j] as int].0 ==> p[i] < p[j]
                },
    {
        let mut keys: Vec<i64> = Vec::new();
        let mut k: usize = 0;
        while k < self.moves.len()
            invariant
                k <= self.moves@.len(),
                keys@.len() == k,
                forall|i: int| 0 <= i < k ==> #[trigger] keys@[i] == -(self.moves@[i].0 as int),
            decreases self.moves@.len() - k,
        {
            keys.push(-(self.moves[k].0 as i64));
            k += 1;
        }
        let order = order_by_priority(&keys);
        let mut out: Vec<Move> = Vec::new();
        let mut i: usize = 0;
        while i < order.len()
            invariant
                is_permutation_of_indices(order@, self.moves@.len() as nat),
                i <= order@.len(),
                out@.len() == i,
                forall|j: int| 0 <= j < i ==> #[trigger] out@[j] == self.moves@[order@[j] as int].1,
            decreases order@.len() - i,
        {
            out.push(self.moves[order[i]].1);
            i += 1;
        }
        proof {
            assert forall|a: int, b: int| 0 <= a < b < order@.len() implies self.entries()[
                #[trigger] order@[a] as int].0 <= self.entries()[#[trigger] order@[b] as int].0 by {
                assert(keys@[order@[a] as int] >= keys@[order@[b] as int]);
            }
            assert forall|a: int, b: int| 0 <= a < b < order@.len() && self.entries()[
                #[trigger] order@[a] as int].0 == self.entries()[#[trigger] order@[b] as int].0 implies order@[a] < order@[b] by {
                assert(keys@[order@[a] as int] == keys@[order@[b] as int]);
            }
            assert(is_permutation_of_indices(order@, self.entries().len()));
            assert(forall|i: int| 0 <= i < out@.len() ==> #[trigger] out@[i] == self.entries()[order@[i] as int].1);
            assert(keys@ =~= score_keys(self.entries()));
            assert(out@ =~= spec_ordered_moves(self.entries()));
        }
        out
    }
}

/// After any run of offers into an empty collection of capacity `max`: it
/// holds `min(max, n)` entries for `n` offers, all of them offered, and every
/// offered entry that was not kept scores no higher than any kept one.
pub proof fn lemma_top_targets_keep_best(items: Seq<(i32, Move)>, max: nat)
    ensures
        spec_offer_all(Seq::empty(), max, items).len() == if items.len() < max {
            items.len()
        } else {
            max
        },
        spec_offer_all(Seq::empty(), max, items).to_multiset().subset_of(items.to_multiset()),
        forall|x: (i32, Move), j: int|
            #![trigger items.to_multiset().count(x), spec_offer_all(Seq::empty(), max, items)[j]]
            items.to_multiset().count(x) > spec_offer_all(Seq::empty(), max, items).to_multiset().count(x)
                && 0 <= j < spec_offer_all(Seq::empty(), max, items).len()
                ==> x.0 <= spec_offer_all(Seq::empty(), max, items)[j].0,
    decreases items.len(),
{
    broadcast use vstd::seq_lib::group_to_multiset_ensures;
    broadcast use vstd::multiset::group_multiset_axioms;
    broadcast use vstd::seq_lib::to_multiset_remove;

    let r = spec_offer_all(Seq::empty(), max, items);
    if items.len() == 0 {
        assert(r.to_multiset() =~= vstd::multiset::Multiset::empty());
    } else {
        let prev_items = items.drop_last();
        let y = items.last();
        assert(prev_items.push(y) =~= items);
        lemma_top_targets_keep_best(prev_items, max);
        let t = spec_offer_all(Seq::empty(), max, prev_items);
        assert(r == spec_offer(t, max, y));
        assert(items.to_multiset() =~= prev_items.to_multiset().insert(y));
        if t.len() < max {
            assert(r =~= t.push(y));
            assert(r.to_multiset() =~= t.to_multiset().insert(y));
            assert forall|x: (i32, Move), j: int|
                #![trigger items.to_multiset().count(x), r[j]]
                items.to_multiset().count(x) > r.to_multiset().count(x) && 0 <= j < r.len()
                    implies x.0 <= r[j].0 by {
                assert(t.to_multiset().count(x) == r.to_multiset().count(x) - if x == y { 1int } else { 0 });
                if j < t.len() {
                    assert(prev_items.to_multiset().count(x) > t.to_multiset().count(x));
                    assert(r[j] == t[j]);
                } else {
                    // items offered so far all fit: nothing was dropped
                    assert(prev_items.len() < max);
                    assert(false) by {
                        assert(t.to_multiset().subset_of(prev_items.to_multiset()));
                        assert(prev_items.to_multiset().count(x) > t.to_multiset().count(x));
                        lemma_sub_bag_same_size(t, prev_items, x);
                    }
                }
            }
        } else if t.len() == 0 {
            assert(r == t);
        } else {
            lemma_lowest_index(t);
            let m = lowest_index(t);
            if t[m].0 < y.0 {
                let u = t.remove(m);
                assert(r == u.push(y));
                assert(u.to_multiset() == t.to_multiset().remove(t[m]));
                assert(r.to_multiset() =~= t.to_multiset().remove(t[m]).insert(y));
                assert(t.to_multiset().count(t[m]) > 0);
                assert forall|x: (i32, Move), j: int|
                    #![trigger items.to_multiset().count(x), r[j]]
                    items.to_multiset().count(x) > r.to_multiset().count(x) && 0 <= j < r.len()
                        implies x.0 <= r[j].0 by {
                    if j == r.len() - 1 {
                        assert(r[j] == y);
                        if x == t[m] {
                        } else if x != y {
                            assert(prev_items.to_multiset().count(x) > t.to_multiset().count(x));
                        }
                    } else {
                        if j < m {
                            assert(r[j] == t[j]);
                        } else {
                            assert(r[j] == t[j + 1]);
                        }
                        if x == t[m] {
                        } else if x != y {
                            assert(prev_items.to_multiset().count(x) > t.to_multiset().count(x));
                        }
                    }
                }
            } else {
                assert(r == t);
                assert forall|x: (i32, Move), j: int|
                    #![trigger items.to_multiset().count(x), r[j]]
                    items.to_multiset().count(x) > r.to_multiset().count(x) && 0 <= j < r.len()
                        implies x.0 <= r[j].0 by {
                    if x != y {
                        assert(prev_items.to_multiset().count(x) > t.to_multiset().count(x));
                    } else if t.len() > 0 {
                        assert(t[m].0 <= t[j].0);
                    }
                }
            }
        }
    }
}

/// A sub-bag of a sequence with as many elements as the sequence holds every
/// element as often.
proof fn lemma_sub_bag_same_size(t: Seq<(i32, Move)>, s: Seq<(i32, Move)>, x: (i32, Move))
    requires
        t.to_multiset().subset_of(s.to_multiset()),
        t.len() == s.len(),
    ensures
        t.to_multiset().count(x) == s.to_multiset().count(x),
{
    broadcast use vstd::seq_lib::group_to_multiset_ensures;
    broadcast use vstd::multiset::group_multiset_axioms;

    let d = s.to_multiset().sub(t.to_multiset());
    assert(s.to_multiset() =~= t.to_multiset().add(d));
    assert(s.to_multiset().len() == t.to_multiset().len() + d.len());
    if d.count(x) > 0 {
        assert(d.count(x) <= d.len());
    }
}

/// An earlier search result for a position.
#[derive(Clone, Debug)]
pub struct CacheData {
    /// The remaining depth the position was searched to.
    pub depth: i32,
    pub score: Score,
    /// The best replies found, to steer move ordering on a later visit.
    pub targets: TopTargets,
}

#[verifier::external_type_specification]
#[verifier::external_body]
#[verifier::reject_recursive_types(K)]
#[verifier::reject_recursive_types(V)]
pub struct ExLruCache<K: Eq + core::hash::Hash, V>(hashlru::Cache<K, V>);

/// The transposition cache: search results keyed by position hash.
pub type SWCache = hashlru::Cache<u64, CacheData>;

/// The entries an LRU cache holds, by key.
pub uninterp spec fn lru_entries(c: hashlru::Cache<u64, CacheData>) -> Map<u64, CacheData>;

/// The number of entries an LRU cache was made to hold.
pub uninterp spec fn lru_capacity(c: hashlru::Cache<u64, CacheData>) -> nat;

/// What the search stores: an exact value or a lower bound, negatable.
pub open spec fn storable(s: Score) -> bool {
    s.wf() && !(s is UpperBound)
}

/// Every cached score is storable.
pub open spec fn cache_wf(m: Map<u64, CacheData>) -> bool {
    forall|k: u64| #[trigger] m.contains_key(k) ==> storable(m[k].score)
}

/// Relies on hashlru::Cache::new: an empty cache holding at most `capacity`
/// entries.
#[verifier::external_body]
pub(crate) fn new_cache(capacity: usize) -> (r: SWCache)
    ensures
        lru_entries(r).is_empty(),
        lru_entries(r).dom().finite(),
        lru_capacity(r) == capacity,
{
    hashlru::Cache::new(capacity)
}

/// An empty transposition cache for at most `capacity` entries.
pub fn new_transposition_cache(capacity: usize) -> (r: SWCache)
    requires
        capacity > 0,
    ensures
        lru_entries(r).is_empty(),
        lru_capacity(r) == capacity,
        cache_wf(lru_entries(r)),
{
    new_cache(capacity)
}

/// Relies on hashlru::Cache::get: the entry under `key`, if any. The read
/// marks it as most recently used, which changes no entry.
#[verifier::external_body]
fn cache_get(cache: &mut SWCache, key: u64) -> (r: Option<CacheData>)
    ensures
        lru_entries(*final(cache)) == lru_entries(*old(cache)),
        lru_capacity(*final(cache)) == lru_capacity(*old(cache)),
        r == if lru_entries(*old(cache)).contains_key(key) {
            Some(lru_entries(*old(cache))[key])
        } else {
            None
        },
{
    cache.get(&key).cloned()
}

/// Relies on hashlru::Cache::insert: with a capacity of zero nothing is
/// stored; otherwise `key` then holds `value`, an entry already under `key`
/// is replaced in place, and when a new key finds the cache full the least
/// recently used entry is evicted.
#[verifier::external_body]
fn cache_insert(cache: &mut SWCache, key: u64, value: CacheData)
    ensures
        lru_capacity(*final(cache)) == lru_capacity(*old(cache)),
        lru_capacity(*old(cache)) == 0 ==> lru_entries(*final(cache)) == lru_entries(*old(cache)),
        lru_capacity(*old(cache)) > 0 ==> stored(lru_entries(*old(cache)), key, value, lru_entries(*final(cache))),
        lru_capacity(*old(cache)) > 0 && lru_entries(*old(cache)).dom().finite() && lru_entries(*old(cache)).len()
            < lru_capacity(*old(cache)) ==> lru_entries(*final(cache)) == lru_entries(*old(cache)).insert(key, value),
        lru_capacity(*old(cache)) > 0 && !lru_entries(*old(cache)).contains_key(key) ==> (lru_entries(*final(cache))
            == lru_entries(*old(cache)).insert(key, value) || exists|j: u64|
            #![trigger lru_entries(*old(cache)).remove(j)]
            lru_entries(*old(cache)).contains_key(j) && lru_entries(*final(cache)) == lru_entries(*old(cache)).remove(j).insert(key, value)),
        lru_entries(*old(cache)).dom().finite() ==> lru_entries(*final(cache)).dom().finite(),
        lru_entries(*old(cache)).dom().finite() && lru_entries(*old(cache)).len() <= lru_capacity(*old(cache))
            ==> lru_entries(*final(cache)).len() <= lru_capacity(*final(cache)),
{
    cache.insert(key, value);
}

/// `new` is `old` with `key` holding `entry`, save that other keys may have
/// been evicted; nothing is evicted when `key` was already present.
pub open spec fn stored(old: Map<u64, CacheData>, key: u64, entry: CacheData, new: Map<u64, CacheData>) -> bool {
    &&& new.contains_key(key)
    &&& new[key] == entry
    &&& forall|j: u64| #[trigger] new.contains_key(j) && j != key ==> old.contains_key(j) && new[j] == old[j]
    &&& old.contains_key(key) ==> new == old.insert(key, entry)
}

/// The depth rule of the cache: a new result for `key` is stored unless the
/// entry already there was searched strictly deeper, in which case the cache
/// is left as it was.
pub open spec fn stored_if_better(old: Map<u64, CacheData>, key: u64, entry: CacheData, new: Map<u64, CacheData>) -> bool {
    if old.contains_key(key) && old[key].depth > entry.depth {
        new == old
    } else {
        stored(old, key, entry, new)
    }
}

/// Looks up the cached result for a position hash.
pub fn lookup(cache: &mut SWCache, hash: u64) -> (r: Option<CacheData>)
    ensures
        lru_entries(*final(cache)) == lru_entries(*old(cache)),
        lru_capacity(*final(cache)) == lru_capacity(*old(cache)),
        r == if lru_entries(*old(cache)).contains_key(hash) {
            Some(lru_entries(*old(cache))[hash])
        } else {
            None
        },
{
    cache_get(cache, hash)
}

/// Stores `entry` under `hash` following the depth rule: an absent key is
/// inserted, a present one is overwritten when the new depth is at least the
/// stored one (so ties go to the latest write).
pub fn insert_hash_if_better(hash: u64, entry: CacheData, cache: &mut SWCache)
    requires
        lru_capacity(*old(cache)) > 0,
    ensures
        lru_capacity(*final(cache)) == lru_capacity(*old(cache)),
        stored_if_better(lru_entries(*old(cache)), hash, entry, lru_entries(*final(cache))),
        cache_wf(lru_entries(*old(cache))) && storable(entry.score) ==> cache_wf(lru_entries(*final(cache))),
        lru_entries(*old(cache)).dom().finite() ==> lru_entries(*final(cache)).dom().finite(),
        lru_entries(*old(cache)).dom().finite() && lru_entries(*old(cache)).len() <= lru_capacity(*old(cache))
            ==> lru_entries(*final(cache)).len() <= lru_capacity(*final(cache)),
        !lru_entries(*old(cache)).contains_key(hash) && lru_entries(*old(cache)).dom().finite()
            && lru_entries(*old(cache)).len() < lru_capacity(*old(cache)) ==> lru_entries(*final(cache))
            == lru_entries(*old(cache)).insert(hash, entry),
        !lru_entries(*old(cache)).contains_key(hash) ==> (lru_entries(*final(cache)) == lru_entries(*old(cache)).insert(
            hash,
            entry,
        ) || exists|j: u64|
            #![trigger lru_entries(*old(cache)).remove(j)]
            lru_entries(*old(cache)).contains_key(j) && lru_entries(*final(cache)) == lru_entries(*old(cache)).remove(j).insert(hash, entry)),
{
    let depth = entry.depth;
    match cache_get(cache, hash) {
        Some(cached) => {
            if depth >= cached.depth {
                cache_insert(cache, hash, entry);
            }
        },
        None => {
            cache_insert(cache, hash, entry);
        },
    }
}

/// Stores a search result for `board` following the depth rule, under the
/// position's hash.
pub fn insert_in_cache_if_better(
    board: &chess::Board,
    depth: i32,
    score: &Score,
    targets: TopTargets,
    cache: &mut SWCache,
)
    requires
        lru_capacity(*old(cache)) > 0,
    ensures
        lru_capacity(*final(cache)) == lru_capacity(*old(cache)),
        stored_if_better(
            lru_entries(*old(cache)),
            hash_of(*board),
            (CacheData { depth, score: *score, targets }),
            lru_entries(*final(cache)),
        ),
        cache_wf(lru_entries(*old(cache))) && storable(*score) ==> cache_wf(lru_entries(*final(cache))),
        lru_entries(*old(cache)).dom().finite() ==> lru_entries(*final(cache)).dom().finite(),
        lru_entries(*old(cache)).dom().finite() && lru_entries(*old(cache)).len() <= lru_capacity(*old(cache))
            ==> lru_entries(*final(cache)).len() <= lru_capacity(*final(cache)),
        !lru_entries(*old(cache)).contains_key(hash_of(*board)) && lru_entries(*old(cache)).dom().finite()
            && lru_entries(*old(cache)).len() < lru_capacity(*old(cache)) ==> lru_entries(*final(cache))
            == lru_entries(*old(cache)).insert(hash_of(*board), (CacheData { depth, score: *score, targets })),
        !lru_entries(*old(cache)).contains_key(hash_of(*board)) ==> (lru_entries(*final(cache)) == lru_entries(
            *old(cache),
        ).insert(hash_of(*board), (CacheData { depth, score: *score, targets })) || exists|j: u64|
            #![trigger lru_entries(*old(cache)).remove(j)]
            lru_entries(*old(cache)).contains_key(j) && lru_entries(*final(cache)) == lru_entries(*old(cache)).remove(
                j,
            ).insert(hash_of(*board), (CacheData { depth, score: *score, targets }))),
{
    let hash = board_hash(board);
    insert_hash_if_better(hash, CacheData { depth, score: *score, targets }, cache);
}

/// The depth rule never lowers the depth stored for a key.
pub proof fn lemma_depth_never_decreases(old: Map<u64, CacheData>, key: u64, entry: CacheData, new: Map<u64, CacheData>)
    requires
        stored_if_better(old, key, entry, new),
        old.contains_key(key),
    ensures
        new.contains_key(key),
        new[key].depth >= old[key].depth,
{
}

/// After two stores for one key with depths `d1` and `d2`, in either order,
/// the key holds the deeper result; with equal depths, the later one.
pub proof fn lemma_deeper_result_kept(
    m0: Map<u64, CacheData>,
    key: u64,
    first: CacheData,
    m1: Map<u64, CacheData>,
    second: CacheData,
    m2: Map<u64, CacheData>,
)
    requires
        stored_if_better(m0, key, first, m1),
        stored_if_better(m1, key, second, m2),
    ensures
        m2.contains_key(key) || (m0.contains_key(key) && m0[key].depth > first.depth && m0[key].depth
            > second.depth),
        m2.contains_key(key) ==> m2[key].depth >= first.depth && m2[key].depth >= second.depth,
        !m0.contains_key(key) && first.depth <= second.depth ==> m2[key] == second,
        !m0.contains_key(key) && first.depth > second.depth ==> m2[key] == first,
{
}

} // verus!
