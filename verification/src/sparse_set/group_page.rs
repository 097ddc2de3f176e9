//! The bucket of each entity of a page.
use crate::entity_id::BUCKET_SIZE;
use crate::sparse_set::bucket_index::BucketIndex;
use vstd::prelude::*;

verus! {

/// The bucket of each of the `BUCKET_SIZE` entities of a page.
#[derive(Debug)]
pub struct GroupPage {
    pub bucket_indices: Vec<BucketIndex>,
}

impl GroupPage {
    /// A page with every entity unclassified.
    pub fn new() -> (p: GroupPage)
        ensures
            p.bucket_indices@.len() == BUCKET_SIZE,
            forall|i: int| 0 <= i < BUCKET_SIZE ==> (#[trigger] p.bucket_indices@[i]).0 == 0,
    {
        let mut bucket_indices: Vec<BucketIndex> = Vec::new();
        let mut k: usize = 0;
        while k < BUCKET_SIZE
            invariant
                k <= BUCKET_SIZE,
                bucket_indices@.len() == k,
                forall|i: int| 0 <= i < k ==> (#[trigger] bucket_indices@[i]).0 == 0,
            decreases BUCKET_SIZE - k,
        {
            bucket_indices.push(BucketIndex::unclassified());
            k += 1;
        }
        GroupPage { bucket_indices }
    }

    /// Bucket of the entity in `slot`.
    pub fn bucket_index(&self, slot: usize) -> (b: BucketIndex)
        requires
            slot < self.bucket_indices@.len(),
        ensures
            b == self.bucket_indices@[slot as int],
    {
        self.bucket_indices[slot]
    }

    /// Sets the bucket of the entity in `slot`.
    pub fn set_bucket_index(&mut self, slot: usize, bucket: BucketIndex)
        requires
            slot < old(self).bucket_indices@.len(),
        ensures
            final(self).bucket_indices@ == old(self).bucket_indices@.update(slot as int, bucket),
    {
        self.bucket_indices.set(slot, bucket);
    }
}

} // verus!
