//! A bounded least-recently-used cache of parsed blocks, keyed by the table
//! they belong to and their offset in it.
use vstd::prelude::*;

use crate::block::Block;
use crate::block_spec::KV;

verus! {

/// Identifies the table a cached block belongs to.
pub type CacheID = u64;

/// Entry `i` of `items` is cached for `(id, offset)`.
pub open spec fn holds_key(items: Seq<(CacheID, u64, u64, Seq<KV>)>, id: CacheID, offset: u64, i: int) -> bool {
    items[i].0 == id && items[i].1 == offset
}

/// Entry `i` is the first one cached for `(id, offset)`.
pub open spec fn first_key(items: Seq<(CacheID, u64, u64, Seq<KV>)>, id: CacheID, offset: u64, i: int) -> bool {
    &&& 0 <= i < items.len()
    &&& holds_key(items, id, offset, i)
    &&& forall|j: int| 0 <= j < i ==> !#[trigger] holds_key(items, id, offset, j)
}

/// No entry is cached for `(id, offset)`.
pub open spec fn lacks_key(items: Seq<(CacheID, u64, u64, Seq<KV>)>, id: CacheID, offset: u64) -> bool {
    forall|i: int| 0 <= i < items.len() ==> !#[trigger] holds_key(items, id, offset, i)
}

/// Where some entry is cached for `(id, offset)`, a first one is.
pub proof fn lemma_first_key_exists(items: Seq<(CacheID, u64, u64, Seq<KV>)>, id: CacheID, offset: u64, k: int)
    requires
        0 <= k < items.len(),
        holds_key(items, id, offset, k),
    ensures
        exists|i: int| first_key(items, id, offset, i),
    decreases k,
{
    if forall|j: int| 0 <= j < k ==> !#[trigger] holds_key(items, id, offset, j) {
        assert(first_key(items, id, offset, k));
    } else {
        let j = choose|j: int| 0 <= j < k && holds_key(items, id, offset, j);
        lemma_first_key_exists(items, id, offset, j);
    }
}

/// A cached block with its key.
pub struct CacheEntry {
    id: CacheID,
    offset: u64,
    size: u64,
    block: Block,
}

/// A bounded cache of blocks. Entries are kept from least to most
/// recently used; a full cache drops the least recently used one.
pub struct Cache {
    capacity: usize,
    entries: Vec<CacheEntry>,
    next_id: CacheID,
}

impl Cache {
    /// The cached entries, least recently used first: the table, the
    /// offset of the block, and its entries.
    pub closed spec fn view(&self) -> Seq<(CacheID, u64, Seq<KV>)> {
        Seq::new(self.entries@.len(), |i: int| (self.entries@[i].id, self.entries@[i].offset, self.entries@[i].block.view()))
    }

    /// The cached entries with the stored size of each block.
    pub closed spec fn items(&self) -> Seq<(CacheID, u64, u64, Seq<KV>)> {
        Seq::new(self.entries@.len(), |i: int| (self.entries@[i].id, self.entries@[i].offset, self.entries@[i].size, self.entries@[i].block.view()))
    }

    /// The stored size of each cached block, in the same order.
    pub closed spec fn sizes(&self) -> Seq<u64> {
        Seq::new(self.entries@.len(), |i: int| self.entries@[i].size)
    }

    /// The most entries the cache holds.
    pub closed spec fn cap(&self) -> nat {
        self.capacity as nat
    }

    /// The identifier the next table gets.
    pub closed spec fn next(&self) -> CacheID {
        self.next_id
    }

    pub closed spec fn wf(&self) -> bool {
        &&& self.entries@.len() <= self.capacity
        &&& forall|i: int| 0 <= i < self.entries@.len() ==> #[trigger] self.entries@[i].id < self.next_id
    }

    /// An empty cache that holds up to `capacity` blocks.
    pub fn new(capacity: usize) -> (r: Cache)
        ensures
            r.wf(),
            r.view() == Seq::<(CacheID, u64, Seq<KV>)>::empty(),
            r.cap() == capacity,
            r.next() == 1,
    {
        let r = Cache { capacity, entries: Vec::new(), next_id: 1 };
        assert(r.view() =~= Seq::<(CacheID, u64, Seq<KV>)>::empty());
        r
    }

    /// A fresh identifier for a table; identifiers increase.
    pub fn new_cache_id(&mut self) -> (r: CacheID)
        requires
            old(self).next() < u64::MAX,
        ensures
            r == old(self).next(),
            final(self).next() == r + 1,
            final(self).view() == old(self).view(),
            final(self).cap() == old(self).cap(),
            old(self).wf() ==> final(self).wf(),
            final(self).items() == old(self).items(),
            old(self).wf() ==> forall|i: int| 0 <= i < final(self).items().len() ==> (#[trigger] final(self).items()[i]).0 < r,
    {
        let id = self.next_id;
        self.next_id = id + 1;
        assert(forall|i: int| 0 <= i < self.items().len() ==> #[trigger] self.items()[i] == (self.entries@[i].id, self.entries@[i].offset, self.entries@[i].size, self.entries@[i].block.view()));
        id
    }

    /// The identifier the next table gets.
    pub fn next_id(&self) -> (r: CacheID)
        ensures
            r == self.next(),
    {
        self.next_id
    }

    /// A copy of this cache, blocks included.
    pub fn duplicate(&self) -> (r: Cache)
        requires
            self.wf(),
        ensures
            r.wf(),
            r.items() == self.items(),
            r.view() == self.view(),
            r.cap() == self.cap(),
            r.next() == self.next(),
    {
        let mut entries: Vec<CacheEntry> = Vec::with_capacity(self.entries.len());
        let mut i: usize = 0;
        while i < self.entries.len()
            invariant
                i <= self.entries@.len(),
                entries@.len() == i,
                forall|j: int| 0 <= j < i ==> {
                    &&& (#[trigger] entries@[j]).id == self.entries@[j].id
                    &&& entries@[j].offset == self.entries@[j].offset
                    &&& entries@[j].size == self.entries@[j].size
                    &&& entries@[j].block.view() == self.entries@[j].block.view()
                },
            decreases self.entries@.len() - i,
        {
            let e = &self.entries[i];
            entries.push(CacheEntry { id: e.id, offset: e.offset, size: e.size, block: e.block.duplicate() });
            i = i + 1;
        }
        let r = Cache { capacity: self.capacity, entries, next_id: self.next_id };
        assert(r.items() =~= self.items());
        assert(r.view() =~= self.view());
        r
    }

    /// The number of cached blocks.
    pub fn count(&self) -> (r: usize)
        ensures
            r == self.view().len(),
            r == self.items().len(),
    {
        self.entries.len()
    }

    /// Where the block for `(id, offset)` stands, if it is cached.
    fn find(&self, id: CacheID, offset: u64) -> (r: Option<usize>)
        ensures
            match r {
                Some(i) => i < self.view().len() && self.view()[i as int].0 == id && self.view()[i as int].1 == offset
                    && first_key(self.items(), id, offset, i as int),
                None => (forall|i: int| 0 <= i < self.view().len() ==> !(#[trigger] self.view()[i].0 == id && self.view()[i].1 == offset))
                    && lacks_key(self.items(), id, offset),
            },
    {
        let mut i: usize = 0;
        while i < self.entries.len()
            invariant
                i <= self.entries@.len(),
                forall|j: int| 0 <= j < i ==> !(#[trigger] self.view()[j].0 == id && self.view()[j].1 == offset),
                forall|j: int| 0 <= j < i ==> !#[trigger] holds_key(self.items(), id, offset, j),
            decreases self.entries@.len() - i,
        {
            if self.entries[i].id == id && self.entries[i].offset == offset {
                return Some(i);
            }
            assert(!holds_key(self.items(), id, offset, i as int));
            i = i + 1;
        }
        None
    }

    /// A copy of the block cached for `(id, offset)`, which becomes the
    /// most recently used; `None` if it is not cached.
    pub fn get(&mut self, id: CacheID, offset: u64) -> (r: Option<(u64, Block)>)
        requires
            old(self).wf(),
        ensures
            final(self).wf(),
            final(self).cap() == old(self).cap(),
            final(self).next() == old(self).next(),
            final(self).items().len() == old(self).items().len(),
            forall|i: int| 0 <= i < final(self).items().len() ==> old(self).items().contains(#[trigger] final(self).items()[i]),
            r matches Some((size, b)) ==> old(self).items().contains((id, offset, size, b.view())),
            forall|i: int| first_key(old(self).items(), id, offset, i) ==> {
                &&& r matches Some((size, b)) && size == old(self).items()[i].2 && b.view() == old(self).items()[i].3
                &&& final(self).items() == old(self).items().remove(i).push(old(self).items()[i])
            },
            lacks_key(old(self).items(), id, offset) ==> r is None && final(self).items() == old(self).items(),
            match r {
                Some((size, b)) => exists|i: int| 0 <= i < old(self).view().len() && #[trigger] old(self).view()[i] == (id, offset, b.view())
                    && old(self).sizes()[i] == size
                    && final(self).view() == old(self).view().remove(i).push(old(self).view()[i])
                    && final(self).sizes() == old(self).sizes().remove(i).push(old(self).sizes()[i]),
                None => final(self).view() == old(self).view() && final(self).sizes() == old(self).sizes()
                    && forall|i: int| 0 <= i < old(self).view().len() ==> !(#[trigger] old(self).view()[i].0 == id && old(self).view()[i].1 == offset),
            },
    {
        match self.find(id, offset) {
            Some(i) => {
                let ghost v0 = self.view();
                let ghost z0 = self.sizes();
                let ghost t0 = self.items();
                let e = self.entries.remove(i);
                let b = e.block.duplicate();
                let size = e.size;
                self.entries.push(e);
                assert(self.view() =~= v0.remove(i as int).push(v0[i as int]));
                assert(self.sizes() =~= z0.remove(i as int).push(z0[i as int]));
                assert(v0[i as int] == (id, offset, b.view()));
                assert(self.items() =~= t0.remove(i as int).push(t0[i as int]));
                assert(t0[i as int] == (id, offset, size, b.view()));
                assert forall|j: int| 0 <= j < self.items().len() implies t0.contains(#[trigger] self.items()[j]) by {
                    if j < i {
                        assert(self.items()[j] == t0[j]);
                    } else if j < self.items().len() - 1 {
                        assert(self.items()[j] == t0[j + 1]);
                    } else {
                        assert(self.items()[j] == t0[i as int]);
                    }
                }
                Some((size, b))
            },
            None => {
                assert forall|j: int| 0 <= j < self.items().len() implies old(self).items().contains(#[trigger] self.items()[j]) by {
                    assert(self.items()[j] == old(self).items()[j]);
                }
                None
            },
        }
    }

    /// Caches `block` for `(id, offset)` as the most recently used entry,
    /// replacing any block cached for that key; a full cache first drops
    /// its least recently used entry. A cache of capacity zero holds nothing.
    pub fn insert(&mut self, id: CacheID, offset: u64, size: u64, block: Block)
        requires
            old(self).wf(),
            id < old(self).next(),
        ensures
            final(self).wf(),
            final(self).cap() == old(self).cap(),
            final(self).next() == old(self).next(),
            old(self).cap() == 0 ==> final(self).view() == old(self).view() && final(self).sizes() == old(self).sizes(),
            old(self).cap() > 0 ==> final(self).view().last() == (id, offset, block.view()) && final(self).sizes().last() == size,
            old(self).cap() > 0 ==> final(self).view().len() >= 1,
            old(self).cap() == 0 ==> final(self).items() == old(self).items(),
            old(self).cap() > 0 ==> final(self).items().last() == (id, offset, size, block.view()),
            old(self).cap() > 0 ==> forall|i: int| 0 <= i < final(self).items().len() - 1 ==> old(self).items().contains(#[trigger] final(self).items()[i]),
            old(self).cap() > 0 ==> final(self).items().len() >= 1 && final(self).items().last() == (id, offset, size, block.view()),
            old(self).items().len() <= old(self).cap(),
            old(self).cap() > 0 ==> forall|i: int| first_key(old(self).items(), id, offset, i) ==>
                final(self).items() == old(self).items().remove(i).push((id, offset, size, block.view())),
            old(self).cap() > 0 && lacks_key(old(self).items(), id, offset) && old(self).items().len() < old(self).cap() ==>
                final(self).items() == old(self).items().push((id, offset, size, block.view())),
            old(self).cap() > 0 && lacks_key(old(self).items(), id, offset) && old(self).items().len() == old(self).cap() ==>
                final(self).items() == old(self).items().remove(0).push((id, offset, size, block.view())),
    {
        if self.capacity == 0 {
            return;
        }
        let ghost e0 = self.entries@;
        let ghost v0 = self.view();
        let ghost z0 = self.sizes();
        let ghost mut k: int = 0;
        match self.find(id, offset) {
            Some(i) => {
                self.entries.remove(i);
                proof { k = i as int; }
            },
            None => {
                if self.entries.len() == self.capacity {
                    self.entries.remove(0);
                    proof { k = 0; }
                } else {
                    proof { k = e0.len() as int; }
                }
            },
        }
        let ghost e1 = self.entries@;
        assert(forall|i: int| 0 <= i < e1.len() ==> (#[trigger] e1[i] == e0[if i < k { i } else { i + 1 }]));
        let ghost bv = block.view();
        self.entries.push(CacheEntry { id, offset, size, block });
        assert forall|i: int| 0 <= i < self.items().len() - 1 implies old(self).items().contains(#[trigger] self.items()[i]) by {
            let j = if i < k { i } else { i + 1 };
            assert(self.entries@[i] == e0[j]);
            assert(self.items()[i] == old(self).items()[j]);
        }
    }
}

} // verus!
