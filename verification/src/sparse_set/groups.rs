//! The groups a sparse set takes part in: lists of storage types.
use crate::type_id::TypeId;
use vstd::prelude::*;

verus! {

/// Nested lists of storage types, one list per group.
#[derive(Debug)]
pub struct Groups {
    /// The lists, one after the other.
    pub type_ids: Vec<TypeId>,
    /// Start of each list in `type_ids`.
    pub offsets: Vec<usize>,
}

impl Groups {
    /// Offsets are in order and inside `type_ids`.
    pub open spec fn wf(&self) -> bool {
        &&& forall|i: int, j: int| 0 <= i <= j < self.offsets@.len() ==> self.offsets@[i] <= self.offsets@[j]
        &&& forall|i: int| 0 <= i < self.offsets@.len() ==> #[trigger] self.offsets@[i] <= self.type_ids@.len()
    }

    /// End of group `index` in `type_ids`.
    pub open spec fn end_of(&self, index: int) -> int {
        if index + 1 < self.offsets@.len() {
            self.offsets@[index + 1] as int
        } else {
            self.type_ids@.len() as int
        }
    }

    /// The storage types of group `index`.
    pub open spec fn group(&self, index: int) -> Seq<TypeId> {
        self.type_ids@.subrange(self.offsets@[index] as int, self.end_of(index))
    }

    /// No group.
    pub fn new() -> (g: Groups)
        ensures
            g.wf(),
            g.offsets@.len() == 0,
            g.type_ids@.len() == 0,
    {
        Groups { type_ids: Vec::new(), offsets: Vec::new() }
    }

    /// Returns `true` if there is no group.
    pub fn is_empty(&self) -> (b: bool)
        ensures
            b == (self.offsets@.len() == 0),
    {
        self.offsets.len() == 0
    }

    /// Number of groups.
    pub fn len(&self) -> (n: usize)
        ensures
            n == self.offsets@.len(),
    {
        self.offsets.len()
    }

    /// Adds a group and returns its index.
    pub fn add(&mut self, group: &Vec<TypeId>) -> (index: usize)
        requires
            old(self).wf(),
        ensures
            final(self).wf(),
            index == old(self).offsets@.len(),
            final(self).offsets@.len() == old(self).offsets@.len() + 1,
            final(self).group(index as int) == group@,
            forall|i: int| 0 <= i < old(self).offsets@.len() ==> #[trigger] final(self).group(i) == old(self).group(i),
    {
        let index = self.offsets.len();
        let start = self.type_ids.len();
        let ghost before = *self;
        self.offsets.push(start);
        let mut k: usize = 0;
        while k < group.len()
            invariant
                k <= group@.len(),
                self.offsets@ == before.offsets@.push(start),
                start == before.type_ids@.len(),
                self.type_ids@ == before.type_ids@ + group@.subrange(0, k as int),
            decreases group@.len() - k,
        {
            self.type_ids.push(group[k]);
            assert(self.type_ids@ =~= before.type_ids@ + group@.subrange(0, k + 1));
            k += 1;
        }
        proof {
            assert(group@.subrange(0, k as int) =~= group@);
            assert(self.group(index as int) =~= group@);
            assert forall|i: int| 0 <= i < before.offsets@.len() implies #[trigger] self.group(i) == before.group(i) by {
                assert(self.group(i) =~= before.group(i));
            }
        }
        index
    }

    /// The storage types of group `index`.
    pub fn get(&self, index: usize) -> (g: Vec<TypeId>)
        requires
            self.wf(),
            index < self.offsets@.len(),
        ensures
            g@ == self.group(index as int),
    {
        let start = self.offsets[index];
        let end = if index < self.offsets.len() - 1 { self.offsets[index + 1] } else { self.type_ids.len() };
        let mut g: Vec<TypeId> = Vec::new();
        let mut k: usize = start;
        while k < end
            invariant
                start <= k <= end,
                end <= self.type_ids@.len(),
                g@ == self.type_ids@.subrange(start as int, k as int),
            decreases end - k,
        {
            g.push(self.type_ids[k]);
            assert(g@ =~= self.type_ids@.subrange(start as int, k + 1));
            k += 1;
        }
        g
    }

    /// Index of the first group with exactly the types of `group`, in order.
    pub fn position(&self, group: &Vec<TypeId>) -> (r: Option<usize>)
        requires
            self.wf(),
        ensures
            r matches Some(i) ==> i < self.offsets@.len() && self.group(i as int) == group@
                && forall|j: int| 0 <= j < i ==> #[trigger] self.group(j) != group@,
            r is None ==> forall|j: int| 0 <= j < self.offsets@.len() ==> #[trigger] self.group(j) != group@,
    {
        let mut i: usize = 0;
        while i < self.offsets.len()
            invariant
                self.wf(),
                i <= self.offsets@.len(),
                forall|j: int| 0 <= j < i ==> #[trigger] self.group(j) != group@,
            decreases self.offsets@.len() - i,
        {
            let g = self.get(i);
            if same_types(&g, group) {
                return Some(i);
            }
            i += 1;
        }
        None
    }
}

/// Returns `true` if both lists hold the same types in the same order.
pub fn same_types(a: &Vec<TypeId>, b: &Vec<TypeId>) -> (r: bool)
    ensures
        r == (a@ == b@),
{
    if a.len() != b.len() {
        return false;
    }
    let mut k: usize = 0;
    while k < a.len()
        invariant
            k <= a@.len(),
            a@.len() == b@.len(),
            forall|j: int| 0 <= j < k ==> a@[j] == b@[j],
        decreases a@.len() - k,
    {
        if a[k] != b[k] {
            return false;
        }
        k += 1;
    }
    assert(a@ =~= b@);
    true
}

} // verus!
