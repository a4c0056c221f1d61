//! The model of the completion cache: which completions are kept, and which
//! of them leaves first.

use vstd::prelude::*;

verus! {

/// Maximum number of cached completions.
pub const MAX_CACHE_SIZE: usize = 50;

/// The cached completions by the hash of their prompt, and those hashes in the
/// order in which their completions came, oldest first.
#[verifier::ext_equal]
pub struct CacheView {
    pub entries: Map<u64, Seq<char>>,
    pub order: Seq<u64>,
}

/// A sequence of completions to be cached, each with the hash of its prompt.
pub type Stores = Seq<(u64, Seq<char>)>;

impl CacheView {
    /// The cache that holds nothing.
    pub open spec fn empty() -> CacheView {
        CacheView { entries: Map::empty(), order: Seq::empty() }
    }

    /// The order lists every cached hash once, and the cache is not over its
    /// size.
    pub open spec fn well_formed(self) -> bool {
        &&& self.entries.dom().finite()
        &&& self.entries.len() <= MAX_CACHE_SIZE
        &&& self.order.no_duplicates()
        &&& self.order.to_set() == self.entries.dom()
    }

    /// The completion that is found for a hash.
    pub open spec fn get(self, hash: u64) -> Option<Seq<char>> {
        if self.entries.contains_key(hash) {
            Some(self.entries[hash])
        } else {
            None
        }
    }

    /// The order without a hash.
    pub open spec fn order_without(self, hash: u64) -> Seq<u64> {
        without(self.order, hash)
    }

    /// The cache after a completion was stored, as the newest one. Where it takes
    /// the place of another completion under its hash nothing else leaves; else a
    /// full cache gives up its oldest completion.
    pub open spec fn store(self, hash: u64, completion: Seq<char>) -> CacheView {
        let kept = self.order_without(hash);
        if !self.entries.contains_key(hash) && self.entries.len() >= MAX_CACHE_SIZE {
            CacheView {
                entries: self.entries.remove(kept[0]).insert(hash, completion),
                order: kept.skip(1).push(hash),
            }
        } else {
            CacheView {
                entries: self.entries.insert(hash, completion),
                order: kept.push(hash),
            }
        }
    }

    /// The cache after a sequence of completions was stored, one by one.
    pub open spec fn store_all(self, stores: Stores) -> CacheView
        decreases stores.len(),
    {
        if stores.len() == 0 {
            self
        } else {
            self.store_all(stores.drop_last()).store(stores.last().0, stores.last().1)
        }
    }
}

/// A list of hashes without one of them.
pub open spec fn without(list: Seq<u64>, hash: u64) -> Seq<u64> {
    list.filter(|h: u64| h != hash)
}

/// Taking a hash out of a list that holds every element once.
pub proof fn lemma_order_without(order: Seq<u64>, hash: u64)
    requires
        order.no_duplicates(),
    ensures
        without(order, hash).no_duplicates(),
        without(order, hash).to_set() == order.to_set().remove(hash),
        order.contains(hash) ==> without(order, hash).len() == order.len() - 1,
        !order.contains(hash) ==> without(order, hash) == order,
    decreases order.len(),
{
    reveal(Seq::filter);
    if order.len() == 0 {
        assert(without(order, hash) =~= order);
        assert(without(order, hash).to_set() =~= order.to_set().remove(hash));
    } else {
        let init = order.drop_last();
        let last = order.last();
        lemma_order_without(init, hash);
        let rest = without(init, hash);
        assert(order =~= init.push(last));
        assert(!init.contains(last));
        assert(forall|x: u64| order.contains(x) <==> init.contains(x) || x == last) by {
            assert(order[order.len() - 1] == last);
            assert forall|x: u64| init.contains(x) implies order.contains(x) by {
                let i = choose|i: int| 0 <= i < init.len() && init[i] == x;
                assert(order[i] == x);
            }
        }
        assert(forall|x: u64| rest.contains(x) <==> rest.to_set().contains(x));
        assert(forall|x: u64| init.contains(x) <==> init.to_set().contains(x));
        assert(!rest.contains(last));
        if last != hash {
            let all = rest.push(last);
            assert(without(order, hash) =~= all);
            assert(forall|x: u64| all.contains(x) <==> rest.contains(x) || x == last) by {
                assert(all[all.len() - 1] == last);
                assert forall|x: u64| rest.contains(x) implies all.contains(x) by {
                    let i = choose|i: int| 0 <= i < rest.len() && rest[i] == x;
                    assert(all[i] == x);
                }
            }
            assert(all.no_duplicates()) by {
                assert forall|i: int, j: int| 0 <= i < j < all.len() implies all[i] != all[j] by {
                    if j == all.len() - 1 {
                        assert(rest.contains(rest[i]));
                    }
                }
            }
            assert(all.to_set() =~= order.to_set().remove(hash));
        } else {
            assert(without(order, hash) =~= rest);
            assert(rest.to_set() =~= order.to_set().remove(hash));
        }
    }
}

/// The oldest hash of a list taken away.
proof fn lemma_without_first(list: Seq<u64>)
    requires
        list.no_duplicates(),
        list.len() > 0,
    ensures
        list.skip(1).no_duplicates(),
        list.skip(1).to_set() == list.to_set().remove(list[0]),
{
    let rest = list.skip(1);
    assert forall|x: u64| rest.contains(x) <==> list.contains(x) && x != list[0] by {
        if rest.contains(x) {
            let i = choose|i: int| 0 <= i < rest.len() && rest[i] == x;
            assert(list[i + 1] == x);
        }
        if list.contains(x) && x != list[0] {
            let i = choose|i: int| 0 <= i < list.len() && list[i] == x;
            assert(rest[i - 1] == x);
        }
    }
    assert(rest.to_set() =~= list.to_set().remove(list[0]));
}

/// A new hash added to a list.
proof fn lemma_with_last(list: Seq<u64>, hash: u64)
    requires
        list.no_duplicates(),
        !list.contains(hash),
    ensures
        list.push(hash).no_duplicates(),
        list.push(hash).to_set() == list.to_set().insert(hash),
{
    let all = list.push(hash);
    assert forall|x: u64| all.contains(x) <==> list.contains(x) || x == hash by {
        assert(all[all.len() - 1] == hash);
        if list.contains(x) {
            let i = choose|i: int| 0 <= i < list.len() && list[i] == x;
            assert(all[i] == x);
        }
    }
    assert forall|i: int, j: int| 0 <= i < j < all.len() implies all[i] != all[j] by {
        if j == all.len() - 1 {
            assert(list.contains(list[i]));
        }
    }
    assert(all.to_set() =~= list.to_set().insert(hash));
}

/// The facts about the order that every store builds on.
pub proof fn lemma_order(cache: CacheView, hash: u64)
    requires
        cache.well_formed(),
    ensures
        cache.order.len() == cache.entries.len(),
        cache.order_without(hash).no_duplicates(),
        cache.order_without(hash).to_set() == cache.entries.dom().remove(hash),
        cache.order_without(hash).len() == if cache.entries.contains_key(hash) {
            cache.entries.len() - 1
        } else {
            cache.entries.len() as int
        },
        forall|h: u64|
            #[trigger] cache.order_without(hash).contains(h) <==> cache.entries.contains_key(h) && h
                != hash,
{
    lemma_order_without(cache.order, hash);
    cache.order.unique_seq_to_set();
    assert(cache.order.contains(hash) <==> cache.order.to_set().contains(hash));
    let kept = cache.order_without(hash);
    assert forall|h: u64| #[trigger] kept.contains(h) <==> cache.entries.contains_key(h) && h
        != hash by {
        assert(kept.contains(h) <==> kept.to_set().contains(h));
    }
}

/// Storing keeps the cache well-formed: it never holds more than
/// `MAX_CACHE_SIZE` completions, and lists each of them once.
pub proof fn store_keeps_well_formed(cache: CacheView, hash: u64, completion: Seq<char>)
    requires
        cache.well_formed(),
    ensures
        cache.store(hash, completion).well_formed(),
{
    lemma_order(cache, hash);
    let kept = cache.order_without(hash);
    let after = cache.store(hash, completion);
    if !cache.entries.contains_key(hash) && cache.entries.len() >= MAX_CACHE_SIZE {
        let oldest = kept[0];
        assert(kept.contains(oldest));
        lemma_without_first(kept);
        assert(!kept.skip(1).to_set().contains(hash));
        assert(!kept.skip(1).contains(hash));
        lemma_with_last(kept.skip(1), hash);
        assert(after.order.to_set() =~= after.entries.dom());
        assert(cache.entries.remove(oldest).len() == cache.entries.len() - 1);
    } else {
        if cache.entries.contains_key(hash) {
            assert(after.entries.dom() =~= cache.entries.dom());
        }
        assert(!kept.to_set().contains(hash));
        assert(!kept.contains(hash));
        lemma_with_last(kept, hash);
        assert(after.order.to_set() =~= after.entries.dom());
    }
}

/// A list without the one place at which a hash stands in it.
proof fn lemma_without_at(list: Seq<u64>, hash: u64, at: int)
    requires
        list.no_duplicates(),
        0 <= at < list.len(),
        list[at] == hash,
    ensures
        without(list, hash) == list.take(at) + list.skip(at + 1),
{
    let head = list.take(at);
    let tail = list.skip(at + 1);
    let differs = |h: u64| h != hash;
    assert(list =~= head.push(hash) + tail);
    Seq::filter_distributes_over_add(head.push(hash), tail, differs);
    assert(head.no_duplicates());
    assert(tail.no_duplicates());
    assert(!head.contains(hash));
    assert(!tail.contains(hash));
    lemma_order_without(head, hash);
    lemma_order_without(tail, hash);
    assert(head.push(hash).drop_last() =~= head);
    assert(without(head.push(hash), hash) =~= head) by {
        reveal(Seq::filter);
    }
    assert(without(list, hash) =~= head + tail);
}

/// What a store does. A completion under a hash that is cached, at the place `at`
/// of the order, is replaced, and its hash moves to the end of the order. One under
/// a new hash is added, its hash at the end; where 50 completions are cached before,
/// the one at the beginning of the order leaves for it. Nothing else changes.
pub proof fn store_replaces_or_adds(cache: CacheView, hash: u64, completion: Seq<char>, at: int)
    requires
        cache.well_formed(),
    ensures
        ({
            let after = cache.store(hash, completion);
            if cache.entries.contains_key(hash) {
                &&& after.entries == cache.entries.insert(hash, completion)
                &&& 0 <= at < cache.order.len() && cache.order[at] == hash ==> after.order
                    == cache.order.take(at) + cache.order.skip(at + 1) + seq![hash]
            } else if cache.entries.len() < 50 {
                &&& after.entries == cache.entries.insert(hash, completion)
                &&& after.order == cache.order + seq![hash]
            } else {
                &&& after.entries == cache.entries.remove(cache.order[0]).insert(hash, completion)
                &&& after.order == cache.order.skip(1) + seq![hash]
            }
        }),
        cache.get(hash) == if cache.entries.contains_key(hash) {
            Some(cache.entries[hash])
        } else {
            None
        },
{
    let after = cache.store(hash, completion);
    lemma_order(cache, hash);
    lemma_order_without(cache.order, hash);
    assert(cache.order.contains(hash) <==> cache.order.to_set().contains(hash));
    if cache.entries.contains_key(hash) {
        if 0 <= at < cache.order.len() && cache.order[at] == hash {
            lemma_without_at(cache.order, hash, at);
            assert(after.order =~= cache.order.take(at) + cache.order.skip(at + 1) + seq![hash]);
        }
    } else if cache.entries.len() < 50 {
        assert(after.order =~= cache.order + seq![hash]);
    } else {
        assert(after.order =~= cache.order.skip(1) + seq![hash]);
    }
}

/// A well-formed cache holds at most 50 completions, and its order lists the
/// hash of each of them once, and no other.
pub proof fn order_lists_what_is_cached(cache: CacheView, hash: u64)
    requires
        cache.well_formed(),
    ensures
        cache.entries.len() <= 50,
        cache.order.len() == cache.entries.len(),
        forall|i: int, j: int|
            0 <= i < j < cache.order.len() ==> cache.order[i] != cache.order[j],
        cache.get(hash) is Some <==> exists|i: int|
            0 <= i < cache.order.len() && #[trigger] cache.order[i] == hash,
        CacheView::empty().well_formed(),
        CacheView::empty().get(hash) is None,
{
    lemma_order(cache, hash);
    assert(cache.order.contains(hash) <==> cache.order.to_set().contains(hash));
    assert(CacheView::empty().order.to_set() =~= CacheView::empty().entries.dom());
}

/// A stored completion is found again under its hash, as the newest one.
pub proof fn stored_completion_is_found(cache: CacheView, hash: u64, completion: Seq<char>)
    ensures
        cache.store(hash, completion).get(hash) == Some(completion),
        cache.store(hash, completion).order.last() == hash,
{
}

/// Storing a completion changes nothing that is found under another hash, but
/// that a full cache gives up its oldest completion for one under a new hash.
pub proof fn other_completions_stay(
    cache: CacheView,
    hash: u64,
    completion: Seq<char>,
    other: u64,
)
    requires
        cache.well_formed(),
        other != hash,
    ensures
        cache.store(hash, completion).get(other) == if !cache.entries.contains_key(hash)
            && cache.entries.len() == MAX_CACHE_SIZE && other == cache.order[0] {
            None
        } else {
            cache.get(other)
        },
{
    lemma_order(cache, hash);
    lemma_order_without(cache.order, hash);
}

/// Storing a completion under a hash that is cached already evicts nothing, be
/// the cache full or not: the same hashes stay cached, every other completion
/// stays as it is, and the stored one becomes the newest.
pub proof fn storing_again_evicts_nothing(cache: CacheView, hash: u64, completion: Seq<char>)
    requires
        cache.well_formed(),
        cache.entries.contains_key(hash),
    ensures
        cache.store(hash, completion).entries == cache.entries.insert(hash, completion),
        cache.store(hash, completion).entries.dom() == cache.entries.dom(),
        cache.store(hash, completion).entries.len() == cache.entries.len(),
        cache.store(hash, completion).order == cache.order_without(hash).push(hash),
{
    assert(cache.store(hash, completion).entries.dom() =~= cache.entries.dom());
}

/// Storing a completion leaves the order of the others as it is.
pub proof fn order_of_others_stays(cache: CacheView, hash: u64, completion: Seq<char>)
    requires
        cache.well_formed(),
    ensures
        cache.store(hash, completion).order.drop_last() == if !cache.entries.contains_key(hash)
            && cache.entries.len() == MAX_CACHE_SIZE {
            cache.order.skip(1)
        } else {
            cache.order_without(hash)
        },
{
    let after = cache.store(hash, completion);
    lemma_order(cache, hash);
    lemma_order_without(cache.order, hash);
    if !cache.entries.contains_key(hash) && cache.entries.len() == MAX_CACHE_SIZE {
        assert(after.order.drop_last() =~= cache.order.skip(1));
    } else {
        assert(after.order.drop_last() =~= cache.order_without(hash));
    }
}

/// The hashes of a sequence of stores.
pub open spec fn hashes(stores: Stores) -> Seq<u64> {
    stores.map_values(|s: (u64, Seq<char>)| s.0)
}

/// The index of the first of `n` stores whose completion a cache still holds
/// that was empty before them.
pub open spec fn first_held(n: int) -> int {
    if n > MAX_CACHE_SIZE {
        n - MAX_CACHE_SIZE
    } else {
        0
    }
}

/// What an empty cache holds after stores under distinct hashes: the last
/// `MAX_CACHE_SIZE` of them, in their order.
proof fn lemma_distinct_stores(stores: Stores)
    requires
        hashes(stores).no_duplicates(),
    ensures
        ({
            let after = CacheView::empty().store_all(stores);
            let first = first_held(stores.len() as int);
            &&& after.well_formed()
            &&& after.order == hashes(stores).skip(first)
            &&& forall|i: int|
                first <= i < stores.len() ==> after.get((#[trigger] stores[i]).0) == Some(
                    stores[i].1,
                )
        }),
    decreases stores.len(),
{
    let after = CacheView::empty().store_all(stores);
    let n = stores.len() as int;
    let first = first_held(n);
    if n == 0 {
        assert(after.order =~= hashes(stores).skip(first));
        assert(after.order.to_set() =~= after.entries.dom());
    } else {
        let init = stores.drop_last();
        let (hash, completion) = stores.last();
        let before = CacheView::empty().store_all(init);
        assert forall|i: int, j: int| 0 <= i < j < init.len() implies hashes(init)[i] != hashes(
            init,
        )[j] by {
            assert(hashes(init)[i] == hashes(stores)[i]);
            assert(hashes(init)[j] == hashes(stores)[j]);
        }
        lemma_distinct_stores(init);
        store_keeps_well_formed(before, hash, completion);
        lemma_order(before, hash);
        let held = hashes(init).skip(first_held(n - 1));
        assert forall|i: int| 0 <= i < held.len() implies held[i] != hash by {
            assert(held[i] == hashes(stores)[first_held(n - 1) + i]);
            assert(hashes(stores)[n - 1] == hash);
        }
        assert(!held.contains(hash));
        lemma_order_without(before.order, hash);
        assert(before.order_without(hash) == held);
        assert(after.order =~= hashes(stores).skip(first));
        assert forall|i: int| first <= i < n implies after.get((#[trigger] stores[i]).0) == Some(
            stores[i].1,
        ) by {
            if i < n - 1 {
                assert(init[i] == stores[i]);
                assert(hashes(stores)[i] != hashes(stores)[n - 1]);
                if before.entries.len() == MAX_CACHE_SIZE {
                    assert(held[0] == hashes(stores)[first_held(n - 1)]);
                    assert(hashes(stores)[i] != hashes(stores)[first_held(n - 1)]);
                }
                other_completions_stay(before, hash, completion, stores[i].0);
            }
        }
    }
}

/// After stores under distinct hashes, a cache that was empty before them holds
/// as many completions as were stored, or `MAX_CACHE_SIZE` where that is fewer,
/// and holds the last ones: the earlier ones are gone.
pub proof fn oldest_completions_leave_first(stores: Stores)
    requires
        hashes(stores).no_duplicates(),
    ensures
        CacheView::empty().store_all(stores).entries.len() == stores.len() - first_held(
            stores.len() as int,
        ),
        forall|i: int|
            0 <= i < stores.len() ==> CacheView::empty().store_all(stores).get(
                (#[trigger] stores[i]).0,
            ) == if i < first_held(stores.len() as int) {
                None
            } else {
                Some(stores[i].1)
            },
{
    lemma_distinct_stores(stores);
    let after = CacheView::empty().store_all(stores);
    let first = first_held(stores.len() as int);
    lemma_order(after, 0);
    assert forall|i: int| 0 <= i < first implies after.get((#[trigger] stores[i]).0) is None by {
        let hash = stores[i].0;
        assert(hashes(stores)[i] == hash);
        if after.entries.contains_key(hash) {
            assert(after.order.to_set().contains(hash));
            let j = choose|j: int| 0 <= j < after.order.len() && after.order[j] == hash;
            assert(hashes(stores)[first + j] == hash);
        }
    }
}

/// The hashes of a sequence of stores, each once, in the order in which a
/// completion was last stored under them.
pub open spec fn recency(stores: Stores) -> Seq<u64>
    decreases stores.len(),
{
    if stores.len() == 0 {
        Seq::empty()
    } else {
        without(recency(stores.drop_last()), stores.last().0).push(stores.last().0)
    }
}

/// The completion that was last stored under a hash.
pub open spec fn latest(stores: Stores, hash: u64) -> Option<Seq<char>>
    decreases stores.len(),
{
    if stores.len() == 0 {
        None
    } else if stores.last().0 == hash {
        Some(stores.last().1)
    } else {
        latest(stores.drop_last(), hash)
    }
}

/// `recency` lists every hash once.
proof fn lemma_recency(stores: Stores)
    ensures
        recency(stores).no_duplicates(),
    decreases stores.len(),
{
    if stores.len() > 0 {
        let hash = stores.last().0;
        let earlier = recency(stores.drop_last());
        lemma_recency(stores.drop_last());
        lemma_order_without(earlier, hash);
        let kept = without(earlier, hash);
        assert(!kept.to_set().contains(hash));
        assert(!kept.contains(hash));
        lemma_with_last(kept, hash);
    }
}

/// The last entries of a recency list after one more store.
proof fn lemma_recency_step(list: Seq<u64>, hash: u64)
    requires
        list.no_duplicates(),
    ensures
        ({
            let held = list.skip(first_held(list.len() as int));
            let next = without(list, hash).push(hash);
            next.skip(first_held(next.len() as int)) == if !held.contains(hash) && held.len()
                == MAX_CACHE_SIZE {
                held.skip(1).push(hash)
            } else {
                without(held, hash).push(hash)
            }
        }),
{
    let first = first_held(list.len() as int);
    let gone = list.take(first);
    let held = list.skip(first);
    let next = without(list, hash).push(hash);
    assert(list =~= gone + held);
    Seq::filter_distributes_over_add(gone, held, |h: u64| h != hash);
    assert(without(list, hash) =~= without(gone, hash) + without(held, hash));
    assert(gone.no_duplicates());
    assert(held.no_duplicates());
    lemma_order_without(gone, hash);
    lemma_order_without(held, hash);
    if held.contains(hash) {
        let at = choose|at: int| 0 <= at < held.len() && held[at] == hash;
        assert forall|i: int| 0 <= i < gone.len() implies gone[i] != hash by {
            assert(gone[i] == list[i]);
            assert(held[at] == list[first + at]);
        }
        assert(!gone.contains(hash));
    } else if held.len() < MAX_CACHE_SIZE {
        assert(gone.len() == 0);
        assert(!gone.contains(hash));
    }
    assert(next.skip(first_held(next.len() as int)) =~= if !held.contains(hash) && held.len()
        == MAX_CACHE_SIZE {
        held.skip(1).push(hash)
    } else {
        without(held, hash).push(hash)
    });
}

/// Whatever is stored in a cache that was empty before, it holds the
/// `MAX_CACHE_SIZE` hashes under which a completion was stored most recently, or
/// all of them where they are fewer, in the order of their last store, and finds
/// under each of them the completion that was stored last.
pub proof fn most_recently_stored_stay(stores: Stores)
    ensures
        ({
            let after = CacheView::empty().store_all(stores);
            &&& after.well_formed()
            &&& after.order == recency(stores).skip(first_held(recency(stores).len() as int))
            &&& forall|hash: u64| #[trigger]
                after.get(hash) == if after.order.contains(hash) {
                    latest(stores, hash)
                } else {
                    None
                }
        }),
    decreases stores.len(),
{
    let after = CacheView::empty().store_all(stores);
    if stores.len() == 0 {
        assert(after.order =~= recency(stores).skip(0));
        assert(after.order.to_set() =~= after.entries.dom());
    } else {
        let init = stores.drop_last();
        let (hash, completion) = stores.last();
        let before = CacheView::empty().store_all(init);
        most_recently_stored_stay(init);
        store_keeps_well_formed(before, hash, completion);
        lemma_order(before, hash);
        lemma_order_without(before.order, hash);
        lemma_recency(init);
        lemma_recency_step(recency(init), hash);
        assert(before.order.contains(hash) <==> before.order.to_set().contains(hash));
        assert forall|h: u64| #[trigger]
            after.get(h) == if after.order.contains(h) {
                latest(stores, h)
            } else {
                None
            } by {
            assert(after.order.contains(h) <==> after.order.to_set().contains(h));
            assert(before.order.contains(h) <==> before.order.to_set().contains(h));
            assert(before.get(h) == if before.order.contains(h) {
                latest(init, h)
            } else {
                None
            });
        }
    }
}

} // verus!
