//! The sparse part of a sparse set: for each entity index, where its component lies.
use crate::entity_id::{EntityId, BUCKET_SIZE, DEAD_GEN};
use crate::sparse_set::bucket_index::BucketIndex;
use vstd::prelude::*;

verus! {

/// Pages of entries, each covering `BUCKET_SIZE` entity indexes.
///
/// The entry of an entity holding a component has the entity's generation and, as its
/// index, the position of the component in its bucket. Other entries are dead.
#[derive(Debug)]
pub struct SparseArray {
    /// Entries by page; an unallocated page is empty.
    pub pages: Vec<Vec<EntityId>>,
    /// Bucket of each entity, by page, in the same shape as `pages`.
    pub bucket_pages: Vec<Vec<BucketIndex>>,
    /// Pages with entities waiting to be placed in a group, in the order they were first marked.
    pub pending_placement_pages: Vec<usize>,
    /// For each page, one bit per entity waiting to be placed in a group.
    pub pending_placement_masks: Vec<u32>,
    /// Entities removed from a group bucket, with the group.
    pub removed_from_groups: Vec<(EntityId, usize)>,
}

/// The dead entry.
pub open spec fn dead_entry() -> EntityId {
    EntityId { index: u32::MAX, gen: DEAD_GEN }
}

/// Number of pages among the first `p` of `pages` that are allocated.
pub open spec fn allocated_count(pages: Seq<Vec<EntityId>>, p: int) -> int
    decreases p,
{
    if p <= 0 {
        0
    } else {
        allocated_count(pages, p - 1) + (if pages[p - 1]@.len() > 0 { 1int } else { 0int })
    }
}

impl SparseArray {
    /// Every page is either unallocated or full, in both lists.
    pub open spec fn wf(&self) -> bool {
        &&& self.bucket_pages@.len() == self.pages@.len()
        &&& forall|p: int| 0 <= p < self.pages@.len() ==> {
            ||| (#[trigger] self.pages@[p])@.len() == 0 && self.bucket_pages@[p]@.len() == 0
            ||| self.pages@[p]@.len() == BUCKET_SIZE && self.bucket_pages@[p]@.len() == BUCKET_SIZE
        }
    }

    /// The page holding entity index `i` is allocated.
    pub open spec fn allocated(&self, i: int) -> bool {
        &&& 0 <= i / (BUCKET_SIZE as int) < self.pages@.len()
        &&& self.pages@[i / (BUCKET_SIZE as int)]@.len() == BUCKET_SIZE
    }

    /// Entry of entity index `i`: dead where no page is allocated.
    pub open spec fn entry(&self, i: int) -> EntityId {
        if self.allocated(i) {
            self.pages@[i / (BUCKET_SIZE as int)]@[i % (BUCKET_SIZE as int)]
        } else {
            dead_entry()
        }
    }

    /// Bucket of entity index `i`: unclassified where no page is allocated.
    pub open spec fn bucket_of(&self, i: int) -> u16 {
        if self.allocated(i) {
            self.bucket_pages@[i / (BUCKET_SIZE as int)]@[i % (BUCKET_SIZE as int)].0
        } else {
            0
        }
    }

    /// Mask of entities of page `p` waiting to be placed in a group.
    pub open spec fn mask(&self, p: int) -> u32 {
        if 0 <= p < self.pending_placement_masks@.len() {
            self.pending_placement_masks@[p]
        } else {
            0
        }
    }

    /// A sparse array without pages.
    pub fn new() -> (s: SparseArray)
        ensures
            s.wf(),
            s.pages@.len() == 0,
            s.pending_placement_pages@.len() == 0,
            s.pending_placement_masks@.len() == 0,
            s.removed_from_groups@.len() == 0,
            forall|i: int| #[trigger] s.entry(i) == dead_entry(),
            forall|i: int| #[trigger] s.bucket_of(i) == 0,
    {
        SparseArray {
            pages: Vec::new(),
            bucket_pages: Vec::new(),
            pending_placement_pages: Vec::new(),
            pending_placement_masks: Vec::new(),
            removed_from_groups: Vec::new(),
        }
    }

    /// Number of pages, allocated or not.
    pub fn len(&self) -> (n: usize)
        ensures
            n == self.pages@.len(),
    {
        self.pages.len()
    }

    /// Number of allocated pages.
    pub fn allocated_pages(&self) -> (n: usize)
        ensures
            n == allocated_count(self.pages@, self.pages@.len() as int),
            n <= self.pages@.len(),
    {
        let mut n: usize = 0;
        let mut p: usize = 0;
        while p < self.pages.len()
            invariant
                p <= self.pages@.len(),
                n == allocated_count(self.pages@, p as int),
                n <= p,
            decreases self.pages@.len() - p,
        {
            if self.pages[p].len() > 0 {
                n += 1;
            }
            p += 1;
        }
        n
    }

    /// Allocates the page of `entity`, its entries dead and unclassified. The entity is not
    /// the dead one.
    pub fn allocate_at(&mut self, entity: EntityId)
        requires
            old(self).wf(),
            entity.gen != DEAD_GEN,
        ensures
            final(self).wf(),
            final(self).allocated(entity.index as int),
            final(self).pages@.len() >= old(self).pages@.len(),
            forall|i: int| #[trigger] final(self).entry(i) == old(self).entry(i),
            forall|i: int| #[trigger] final(self).bucket_of(i) == old(self).bucket_of(i),
            forall|i: int| old(self).allocated(i) ==> #[trigger] final(self).allocated(i),
            final(self).pending_placement_pages == old(self).pending_placement_pages,
            final(self).pending_placement_masks == old(self).pending_placement_masks,
            final(self).removed_from_groups == old(self).removed_from_groups,
    {
        let page = entity.bucket();
        let ghost s0 = *old(self);
        while self.pages.len() <= page
            invariant
                self.wf(),
                forall|i: int| #[trigger] self.entry(i) == s0.entry(i),
                forall|i: int| #[trigger] self.bucket_of(i) == s0.bucket_of(i),
                forall|i: int| #[trigger] s0.allocated(i) ==> self.allocated(i),
                forall|i: int| #[trigger] self.allocated(i) ==> s0.allocated(i),
                self.pending_placement_pages == s0.pending_placement_pages,
                self.pending_placement_masks == s0.pending_placement_masks,
                self.removed_from_groups == s0.removed_from_groups,
                self.pages@.len() >= s0.pages@.len(),
                page == entity.index / 32,
            decreases page + 1 - self.pages@.len(),
        {
            let ghost before = *self;
            self.pages.push(Vec::new());
            self.bucket_pages.push(Vec::new());
            proof {
                assert forall|i: int| #[trigger] self.allocated(i) == before.allocated(i) by {
                    if 0 <= i / 32 < before.pages@.len() {
                        assert(self.pages@[i / 32] == before.pages@[i / 32]);
                    }
                }
                assert forall|i: int| #[trigger] self.entry(i) == before.entry(i) by {
                    if before.allocated(i) {
                        assert(self.pages@[i / 32] == before.pages@[i / 32]);
                    }
                }
                assert forall|i: int| #[trigger] self.bucket_of(i) == before.bucket_of(i) by {
                    if before.allocated(i) {
                        assert(self.bucket_pages@[i / 32] == before.bucket_pages@[i / 32]);
                    }
                }
            }
        }
        if self.pages[page].len() == 0 {
            let ghost before = *self;
            let mut entries: Vec<EntityId> = Vec::new();
            let mut buckets: Vec<BucketIndex> = Vec::new();
            let mut k: usize = 0;
            while k < BUCKET_SIZE
                invariant
                    k <= BUCKET_SIZE,
                    entries@.len() == k,
                    buckets@.len() == k,
                    forall|j: int| 0 <= j < k ==> #[trigger] entries@[j] == dead_entry(),
                    forall|j: int| 0 <= j < k ==> (#[trigger] buckets@[j]).0 == 0,
                decreases BUCKET_SIZE - k,
            {
                entries.push(EntityId::dead());
                buckets.push(BucketIndex::unclassified());
                k += 1;
            }
            self.pages.set(page, entries);
            self.bucket_pages.set(page, buckets);
            proof {
                assert forall|i: int| #[trigger] self.entry(i) == before.entry(i) by {
                    if i / 32 != page as int && 0 <= i / 32 < before.pages@.len() {
                        assert(self.pages@[i / 32] == before.pages@[i / 32]);
                    }
                    if i / 32 == page as int {
                        assert(0 <= i % 32 < 32);
                    }
                }
                assert forall|i: int| #[trigger] self.bucket_of(i) == before.bucket_of(i) by {
                    if i / 32 != page as int && 0 <= i / 32 < before.pages@.len() {
                        assert(self.bucket_pages@[i / 32] == before.bucket_pages@[i / 32]);
                        assert(self.pages@[i / 32] == before.pages@[i / 32]);
                    }
                    if i / 32 == page as int {
                        assert(0 <= i % 32 < 32);
                    }
                }
                assert forall|i: int| #[trigger] before.allocated(i) implies self.allocated(i) by {
                    if i / 32 != page as int {
                        assert(self.pages@[i / 32] == before.pages@[i / 32]);
                    }
                }
            }
        }
    }

    /// Allocates the pages from that of `start` to that of `end`, their new entries dead and
    /// unclassified; the list of pages reaches at least the page of `end`.
    pub fn bulk_allocate(&mut self, start: EntityId, end: EntityId)
        requires
            old(self).wf(),
        ensures
            final(self).wf(),
            final(self).pages@.len() >= end.bucket_spec() + 1,
            forall|i: int| start.bucket_spec() <= i / (BUCKET_SIZE as int) <= end.bucket_spec() && 0 <= i
                ==> #[trigger] final(self).allocated(i),
            forall|i: int| #[trigger] final(self).entry(i) == old(self).entry(i),
            forall|i: int| #[trigger] final(self).bucket_of(i) == old(self).bucket_of(i),
            forall|i: int| old(self).allocated(i) ==> #[trigger] final(self).allocated(i),
            final(self).pending_placement_pages == old(self).pending_placement_pages,
            final(self).pending_placement_masks == old(self).pending_placement_masks,
            final(self).removed_from_groups == old(self).removed_from_groups,
    {
        let ghost s0 = *old(self);
        let last = end.bucket();
        if last >= self.pages.len() {
            self.allocate_at(EntityId { index: end.index, gen: 0 });
        }
        let mut page = start.bucket();
        while page <= last
            invariant
                self.wf(),
                self.pages@.len() >= last + 1,
                last == end.bucket_spec(),
                page >= start.bucket_spec(),
                forall|i: int| start.bucket_spec() <= i / (BUCKET_SIZE as int) < page && 0 <= i ==> #[trigger] self.allocated(i),
                forall|i: int| #[trigger] self.entry(i) == s0.entry(i),
                forall|i: int| #[trigger] self.bucket_of(i) == s0.bucket_of(i),
                forall|i: int| s0.allocated(i) ==> #[trigger] self.allocated(i),
                self.pending_placement_pages == s0.pending_placement_pages,
                self.pending_placement_masks == s0.pending_placement_masks,
                self.removed_from_groups == s0.removed_from_groups,
            decreases last + 1 - page,
        {
            let ghost before = *self;
            let index = (page * BUCKET_SIZE) as u32;
            self.allocate_at(EntityId { index, gen: 0 });
            proof {
                assert(index as int / (BUCKET_SIZE as int) == page);
                assert forall|i: int| start.bucket_spec() <= i / (BUCKET_SIZE as int) < page + 1 && 0 <= i
                    implies #[trigger] self.allocated(i) by {
                    if i / (BUCKET_SIZE as int) < page {
                        assert(before.allocated(i));
                    } else {
                        assert(i / (BUCKET_SIZE as int) == index as int / (BUCKET_SIZE as int));
                    }
                }
            }
            page += 1;
        }
    }

    /// The entry of `entity`, if its page is allocated.
    pub fn get(&self, entity: EntityId) -> (r: Option<EntityId>)
        requires
            self.wf(),
        ensures
            r == (if self.allocated(entity.index as int) { Some(self.entry(entity.index as int)) } else { None::<EntityId> }),
    {
        let page = entity.bucket();
        if page < self.pages.len() && self.pages[page].len() > 0 {
            Some(self.pages[page][entity.bucket_index()])
        } else {
            None
        }
    }

    /// Returns `true` if the entry of `entity` has its generation.
    pub fn contains(&self, entity: EntityId) -> (b: bool)
        requires
            self.wf(),
        ensures
            b == (self.allocated(entity.index as int) && self.entry(entity.index as int).gen == entity.gen),
    {
        match self.get(entity) {
            Some(e) => e.gen == entity.gen,
            None => false,
        }
    }

    /// Sets the entry of `entity`.
    pub fn set_entry(&mut self, entity: EntityId, value: EntityId)
        requires
            old(self).wf(),
            old(self).allocated(entity.index as int),
        ensures
            final(self).wf(),
            final(self).entry(entity.index as int) == value,
            forall|i: int| i != entity.index ==> #[trigger] final(self).entry(i) == old(self).entry(i),
            forall|i: int| #[trigger] final(self).bucket_of(i) == old(self).bucket_of(i),
            forall|i: int| #[trigger] final(self).allocated(i) == old(self).allocated(i),
            final(self).bucket_pages == old(self).bucket_pages,
            final(self).pending_placement_pages == old(self).pending_placement_pages,
            final(self).pending_placement_masks == old(self).pending_placement_masks,
            final(self).removed_from_groups == old(self).removed_from_groups,
    {
        let page = entity.bucket();
        let slot = entity.bucket_index();
        let ghost before = *self;
        self.pages[page].set(slot, value);
        proof {
            assert forall|i: int| #[trigger] self.allocated(i) == before.allocated(i) by {
                if 0 <= i / 32 < before.pages@.len() && i / 32 != page as int {
                    assert(self.pages@[i / 32] == before.pages@[i / 32]);
                }
            }
            assert forall|i: int| i != entity.index implies #[trigger] self.entry(i) == before.entry(i) by {
                if before.allocated(i) && i / 32 != page as int {
                    assert(self.pages@[i / 32] == before.pages@[i / 32]);
                }
                if before.allocated(i) && i / 32 == page as int && i % 32 == slot as int {
                    lemma_slot_distinct(i, entity.index as int);
                }
            }
        }
    }

    /// Bucket of `entity`; unclassified where its page is not allocated.
    pub fn bucket_index(&self, entity: EntityId) -> (b: BucketIndex)
        requires
            self.wf(),
        ensures
            b.0 == self.bucket_of(entity.index as int),
    {
        let page = entity.bucket();
        if page < self.bucket_pages.len() && self.bucket_pages[page].len() > 0 {
            assert(self.pages@[page as int]@.len() == BUCKET_SIZE);
            self.bucket_pages[page][entity.bucket_index()]
        } else {
            BucketIndex::unclassified()
        }
    }

    /// Sets the bucket of `entity`.
    pub fn set_bucket_index(&mut self, entity: EntityId, bucket: BucketIndex)
        requires
            old(self).wf(),
            old(self).allocated(entity.index as int),
        ensures
            final(self).wf(),
            final(self).bucket_of(entity.index as int) == bucket.0,
            forall|i: int| i != entity.index ==> #[trigger] final(self).bucket_of(i) == old(self).bucket_of(i),
            forall|i: int| #[trigger] final(self).entry(i) == old(self).entry(i),
            forall|i: int| #[trigger] final(self).allocated(i) == old(self).allocated(i),
            final(self).pages == old(self).pages,
            final(self).pending_placement_pages == old(self).pending_placement_pages,
            final(self).pending_placement_masks == old(self).pending_placement_masks,
            final(self).removed_from_groups == old(self).removed_from_groups,
    {
        let page = entity.bucket();
        let slot = entity.bucket_index();
        let ghost before = *self;
        self.bucket_pages[page].set(slot, bucket);
        proof {
            assert forall|i: int| i != entity.index implies #[trigger] self.bucket_of(i) == before.bucket_of(i) by {
                if before.allocated(i) && i / 32 != page as int {
                    assert(self.bucket_pages@[i / 32] == before.bucket_pages@[i / 32]);
                }
                if before.allocated(i) && i / 32 == page as int && i % 32 == slot as int {
                    lemma_slot_distinct(i, entity.index as int);
                }
            }
        }
    }

    /// Pages with entities waiting to be placed in a group.
    pub fn pending_placement_pages(&self) -> (r: &Vec<usize>)
        ensures
            r == &self.pending_placement_pages,
    {
        &self.pending_placement_pages
    }

    /// Mask of the entities of page `page` waiting to be placed in a group.
    pub fn pending_placement_mask(&self, page: usize) -> (m: u32)
        ensures
            m == self.mask(page as int),
    {
        if page < self.pending_placement_masks.len() {
            self.pending_placement_masks[page]
        } else {
            0
        }
    }

    /// Marks `entity` as waiting to be placed in a group. Its page is listed the first
    /// time one of its entities is marked.
    pub fn set_pending_placement(&mut self, entity: EntityId)
        ensures
            final(self).pages == old(self).pages,
            final(self).bucket_pages == old(self).bucket_pages,
            final(self).removed_from_groups == old(self).removed_from_groups,
            final(self).mask(entity.bucket_spec()) == old(self).mask(entity.bucket_spec()) | (1u32 << (entity.bucket_index_spec() as u32)),
            forall|p: int| p != entity.bucket_spec() ==> #[trigger] final(self).mask(p) == old(self).mask(p),
            old(self).mask(entity.bucket_spec()) == 0 ==> final(self).pending_placement_pages@ == old(self).pending_placement_pages@.push(entity.bucket_spec() as usize),
            old(self).mask(entity.bucket_spec()) != 0 ==> final(self).pending_placement_pages == old(self).pending_placement_pages,
    {
        let page = entity.bucket();
        let bit = entity.bucket_index() as u32;
        let ghost before = *self;
        while self.pending_placement_masks.len() <= page
            invariant
                forall|p: int| #[trigger] self.mask(p) == before.mask(p),
                self.pages == before.pages,
                self.bucket_pages == before.bucket_pages,
                self.removed_from_groups == before.removed_from_groups,
                self.pending_placement_pages == before.pending_placement_pages,
            decreases page + 1 - self.pending_placement_masks@.len(),
        {
            let ghost b = *self;
            self.pending_placement_masks.push(0);
            proof {
                assert forall|p: int| #[trigger] self.mask(p) == b.mask(p) by {
                    if 0 <= p < b.pending_placement_masks@.len() {
                        assert(self.pending_placement_masks@[p] == b.pending_placement_masks@[p]);
                    }
                }
            }
        }
        let ghost b1 = *self;
        let mask = self.pending_placement_masks[page];
        assert(mask == b1.mask(page as int));
        assert(b1.mask(page as int) == before.mask(page as int));
        if mask == 0 {
            self.pending_placement_pages.push(page);
        }
        let ghost b2 = *self;
        self.pending_placement_masks.set(page, mask | (1u32 << bit));
        proof {
            assert forall|p: int| p != entity.bucket_spec() implies #[trigger] self.mask(p) == before.mask(p) by {
                assert(self.mask(p) == b2.mask(p));
                assert(b2.mask(p) == b1.mask(p));
                assert(b1.mask(p) == before.mask(p));
            }
        }
    }
}

/// Two entity indexes with the same page and slot are equal.
pub proof fn lemma_slot_distinct(i: int, j: int)
    requires
        i / 32 == j / 32,
        i % 32 == j % 32,
    ensures
        i == j,
{
    assert(i == 32 * (i / 32) + i % 32);
    assert(j == 32 * (j / 32) + j % 32);
}

} // verus!
