//! A cache of whole blocks that keeps those used last.

use vstd::prelude::*;

verus! {

/// The cache of crate `lru`.
#[verifier::external_type_specification]
#[verifier::external_body]
#[verifier::reject_recursive_types(K)]
#[verifier::reject_recursive_types(V)]
#[verifier::reject_recursive_types(S)]
pub struct ExLruCache<K, V, S>(lru::LruCache<K, V, S>);

/// The hasher that crate `lru` uses unless it is told otherwise.
#[verifier::external_type_specification]
#[verifier::external_body]
pub struct ExDefaultHasher(lru::DefaultHasher);

/// What a cache holds, the block used last first.
pub uninterp spec fn lru_items(cache: lru::LruCache<u32, Vec<u8>>) -> Seq<(u32, Seq<u8>)>;

/// The number of blocks that a cache was made for.
pub uninterp spec fn lru_cap(cache: lru::LruCache<u32, Vec<u8>>) -> nat;

/// The block that is held under `k`.
pub open spec fn cached(items: Seq<(u32, Seq<u8>)>, k: u32) -> Option<Seq<u8>>
    decreases items.len(),
{
    if items.len() == 0 {
        None
    } else if items[0].0 == k {
        Some(items[0].1)
    } else {
        cached(items.skip(1), k)
    }
}

/// What is held but for `k`.
pub open spec fn dropped(items: Seq<(u32, Seq<u8>)>, k: u32) -> Seq<(u32, Seq<u8>)>
    decreases items.len(),
{
    if items.len() == 0 {
        items
    } else if items[0].0 == k {
        dropped(items.skip(1), k)
    } else {
        seq![items[0]] + dropped(items.skip(1), k)
    }
}

/// What is held after `k` was looked up.
pub open spec fn touched(items: Seq<(u32, Seq<u8>)>, k: u32) -> Seq<(u32, Seq<u8>)> {
    match cached(items, k) {
        Some(block) => seq![(k, block)] + dropped(items, k),
        None => items,
    }
}

/// What is held after `block` was put in under `k`: where there is no room, the
/// block goes that was not used for the longest time.
pub open spec fn put_in(items: Seq<(u32, Seq<u8>)>, cap: nat, k: u32, block: Seq<u8>) -> Seq<
    (u32, Seq<u8>),
> {
    if cached(items, k) is Some {
        seq![(k, block)] + dropped(items, k)
    } else if items.len() == cap {
        seq![(k, block)] + items.drop_last()
    } else {
        seq![(k, block)] + items
    }
}

/// A new cache, by `LruCache::new`: it is empty and made for `cap` blocks.
#[verifier::external_body]
fn lru_new(cap: usize) -> (cache: lru::LruCache<u32, Vec<u8>>)
    requires
        1 <= cap <= 4096,
    ensures
        lru_items(cache) == Seq::<(u32, Seq<u8>)>::empty(),
        lru_cap(cache) == cap,
{
    lru::LruCache::new(std::num::NonZeroUsize::new(cap).unwrap())
}

/// Looks a block up, by `LruCache::get`: gives a copy of it, and makes it the
/// one used last.
#[verifier::external_body]
fn lru_get(cache: &mut lru::LruCache<u32, Vec<u8>>, k: u32) -> (block: Option<Vec<u8>>)
    ensures
        lru_items(*final(cache)) == touched(lru_items(*old(cache)), k),
        lru_cap(*final(cache)) == lru_cap(*old(cache)),
        match block {
            Some(b) => cached(lru_items(*old(cache)), k) == Some(b@),
            None => cached(lru_items(*old(cache)), k) is None,
        },
{
    cache.get(&k).cloned()
}

/// Puts a block in, by `LruCache::put`: in place of the one of that number, or
/// of the one not used for the longest time where the cache is full. No cache
/// is made for less than one block.
#[verifier::external_body]
fn lru_put(cache: &mut lru::LruCache<u32, Vec<u8>>, k: u32, block: Vec<u8>)
    ensures
        lru_items(*final(cache)) == put_in(
            lru_items(*old(cache)),
            lru_cap(*old(cache)),
            k,
            block@,
        ),
        lru_cap(*final(cache)) == lru_cap(*old(cache)),
        lru_cap(*final(cache)) >= 1,
{
    cache.put(k, block);
}

/// Takes a block out, by `LruCache::pop`.
#[verifier::external_body]
fn lru_pop(cache: &mut lru::LruCache<u32, Vec<u8>>, k: u32)
    ensures
        lru_items(*final(cache)) == dropped(lru_items(*old(cache)), k),
        lru_cap(*final(cache)) == lru_cap(*old(cache)),
{
    cache.pop(&k);
}

/// Takes all blocks out, by `LruCache::clear`.
#[verifier::external_body]
fn lru_clear(cache: &mut lru::LruCache<u32, Vec<u8>>)
    ensures
        lru_items(*final(cache)) == Seq::<(u32, Seq<u8>)>::empty(),
        lru_cap(*final(cache)) == lru_cap(*old(cache)),
{
    cache.clear();
}

proof fn lemma_dropped(items: Seq<(u32, Seq<u8>)>, gone: u32, k: u32)
    ensures
        cached(dropped(items, gone), k) == if k == gone {
            None
        } else {
            cached(items, k)
        },
    decreases items.len(),
{
    if items.len() > 0 {
        lemma_dropped(items.skip(1), gone, k);
        if items[0].0 != gone {
            let d = dropped(items, gone);
            assert(d.skip(1) =~= dropped(items.skip(1), gone));
        }
    }
}

proof fn lemma_last_gone(items: Seq<(u32, Seq<u8>)>, k: u32)
    requires
        items.len() > 0,
        cached(items.drop_last(), k) is Some,
    ensures
        cached(items, k) == cached(items.drop_last(), k),
    decreases items.len(),
{
    let less = items.drop_last();
    if less.len() > 0 && less[0].0 != k {
        assert(less.skip(1) =~= items.skip(1).drop_last());
        lemma_last_gone(items.skip(1), k);
    }
}

/// A cache of blocks. With no room at all it holds nothing.
pub(crate) struct BlockCache {
    lru: lru::LruCache<u32, Vec<u8>>,
    enabled: bool,
}

impl BlockCache {
    /// What the cache holds, the block used last first.
    pub closed spec fn items(&self) -> Seq<(u32, Seq<u8>)> {
        lru_items(self.lru)
    }

    /// The number of blocks that the cache was made for.
    pub closed spec fn cap(&self) -> nat {
        lru_cap(self.lru)
    }

    /// Blocks are put into the cache.
    pub closed spec fn enabled(&self) -> bool {
        self.enabled
    }

    /// The block that is held under `k`.
    pub closed spec fn holds(&self, k: u32) -> Option<Seq<u8>> {
        if self.enabled {
            cached(self.items(), k)
        } else {
            None
        }
    }

    /// What a cache that was `before` gives for `k`, and what it then is.
    pub open spec fn looked_up(
        before: BlockCache,
        after: BlockCache,
        k: u32,
        block: Option<Vec<u8>>,
    ) -> bool {
        &&& after.cap() == before.cap()
        &&& after.enabled() == before.enabled()
        &&& after.items() == if before.enabled() {
            touched(before.items(), k)
        } else {
            before.items()
        }
        &&& match block {
            Some(b) => before.holds(k) == Some(b@),
            None => before.holds(k) is None,
        }
    }

    /// What a cache that was `before` is once `block` was put in under `k`.
    pub open spec fn taken_in(
        before: BlockCache,
        after: BlockCache,
        k: u32,
        block: Seq<u8>,
    ) -> bool {
        &&& after.cap() == before.cap()
        &&& after.enabled() == before.enabled()
        &&& after.items() == if before.enabled() {
            put_in(before.items(), before.cap(), k, block)
        } else {
            before.items()
        }
        &&& before.enabled() ==> after.holds(k) == Some(block)
    }

    /// A new cache for `capacity` blocks; one that stays empty unless `enabled`.
    pub fn new(capacity: usize, enabled: bool) -> (cache: BlockCache)
        requires
            1 <= capacity <= 4096,
        ensures
            cache.items() == Seq::<(u32, Seq<u8>)>::empty(),
            cache.cap() == capacity,
            cache.enabled() == enabled,
            forall|k: u32| #[trigger] cache.holds(k) is None,
    {
        BlockCache { lru: lru_new(capacity), enabled }
    }

    /// Looks a block up.
    pub fn get(&mut self, k: u32) -> (block: Option<Vec<u8>>)
        ensures
            Self::looked_up(*old(self), *final(self), k, block),
            forall|j: u32| #[trigger] final(self).holds(j) == old(self).holds(j),
    {
        if !self.enabled {
            return None;
        }
        let ghost items = lru_items(self.lru);
        let block: Option<Vec<u8>> = lru_get(&mut self.lru, k);
        proof {
            assert forall|j: u32| #[trigger] self.holds(j) == cached(items, j) by {
                let after = lru_items(self.lru);
                if cached(items, k) is Some {
                    lemma_dropped(items, k, j);
                    assert(after.skip(1) =~= dropped(items, k));
                }
            }
        }
        block
    }

    /// Puts a block in. Others may go for it.
    pub fn put(&mut self, k: u32, block: Vec<u8>)
        ensures
            Self::taken_in(*old(self), *final(self), k, block@),
            forall|j: u32| #[trigger]
                final(self).holds(j) is Some ==> final(self).holds(j) == old(self).holds(j) || (j
                    == k && final(self).holds(j) == Some(block@)),
    {
        if !self.enabled {
            return ;
        }
        let ghost items = lru_items(self.lru);
        lru_put(&mut self.lru, k, block);
        proof {
            let after = lru_items(self.lru);
            assert(after[0] == (k, block@));
            assert forall|j: u32|
                #![trigger self.holds(j)]
                self.holds(j) is Some && j != k implies self.holds(j) == cached(items, j) by {
                if cached(items, k) is Some {
                    lemma_dropped(items, k, j);
                    assert(after.skip(1) =~= dropped(items, k));
                } else if items.len() == lru_cap(old(self).lru) {
                    assert(after.skip(1) =~= items.drop_last());
                    if items.len() > 0 {
                        lemma_last_gone(items, j);
                    }
                } else {
                    assert(after.skip(1) =~= items);
                }
            }
        }
    }

    /// Takes a block out.
    pub fn evict(&mut self, k: u32)
        ensures
            final(self).items() == dropped(old(self).items(), k),
            final(self).cap() == old(self).cap(),
            final(self).enabled() == old(self).enabled(),
            forall|j: u32| #[trigger]
                final(self).holds(j) == if j == k {
                    None
                } else {
                    old(self).holds(j)
                },
    {
        let ghost items = lru_items(self.lru);
        lru_pop(&mut self.lru, k);
        proof {
            assert forall|j: u32| #[trigger] self.holds(j) == if j == k {
                None
            } else {
                old(self).holds(j)
            } by {
                lemma_dropped(items, k, j);
            }
        }
    }

    /// Takes all blocks out.
    pub fn clear(&mut self)
        ensures
            final(self).items() == Seq::<(u32, Seq<u8>)>::empty(),
            final(self).cap() == old(self).cap(),
            final(self).enabled() == old(self).enabled(),
            forall|j: u32| #[trigger] final(self).holds(j) is None,
    {
        lru_clear(&mut self.lru);
    }
}

} // verus!
