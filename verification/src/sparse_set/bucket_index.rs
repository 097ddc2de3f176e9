use vstd::prelude::*;

verus! {

/// Which bucket of a sparse set holds a component: 0 is the unclassified
/// bucket, `g + 1` is the bucket of group `g`.
#[derive(Clone, Copy, Debug, PartialEq, Eq, Structural)]
pub struct BucketIndex(pub u16);

impl BucketIndex {
    /// The bucket of components that belong to no group.
    pub fn unclassified() -> (b: BucketIndex)
        ensures
            b.0 == 0,
    {
        BucketIndex(0)
    }

    pub open spec fn group_index_spec(self) -> Option<usize> {
        if self.0 == 0 {
            None
        } else {
            Some((self.0 - 1) as usize)
        }
    }

    /// Bucket of group `group_index`.
    pub fn from_group_index(group_index: usize) -> (b: BucketIndex)
        requires
            group_index < u16::MAX,
        ensures
            b.0 == group_index + 1,
            b.group_index_spec() == Some(group_index),
    {
        BucketIndex((group_index + 1) as u16)
    }

    /// The group this bucket belongs to, `None` for the unclassified bucket.
    pub fn group_index(self) -> (g: Option<usize>)
        ensures
            g == self.group_index_spec(),
    {
        match self.0.checked_sub(1) {
            Some(g) => Some(g as usize),
            None => None,
        }
    }

    /// Returns `true` for the unclassified bucket.
    pub fn is_unclassified(self) -> (b: bool)
        ensures
            b == (self.0 == 0),
            b == (self.group_index_spec() is None),
    {
        self.0 == 0
    }
}

} // verus!
