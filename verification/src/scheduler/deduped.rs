use vstd::prelude::*;

verus! {

/// Sorted list of system positions without duplicates.
pub struct DedupedUniqueIds(pub Vec<usize>);

impl DedupedUniqueIds {
    pub open spec fn wf(&self) -> bool {
        forall|i: int, j: int| 0 <= i < j < self.0@.len() ==> self.0@[i] < self.0@[j]
    }

    pub open spec fn has(&self, x: usize) -> bool {
        self.0@.contains(x)
    }

    /// An empty list.
    pub fn new() -> (d: DedupedUniqueIds)
        ensures
            d.wf(),
            d.0@.len() == 0,
            forall|x: usize| !d.has(x),
    {
        DedupedUniqueIds(Vec::new())
    }

    /// Position where `id` is or would be inserted.
    fn search(&self, id: usize) -> (p: usize)
        requires
            self.wf(),
        ensures
            p <= self.0@.len(),
            forall|k: int| 0 <= k < p ==> self.0@[k] < id,
            forall|k: int| p <= k < self.0@.len() ==> self.0@[k] >= id,
    {
        let mut lo: usize = 0;
        let mut hi: usize = self.0.len();
        while lo < hi
            invariant
                self.wf(),
                lo <= hi <= self.0@.len(),
                forall|k: int| 0 <= k < lo ==> self.0@[k] < id,
                forall|k: int| hi <= k < self.0@.len() ==> self.0@[k] >= id,
            decreases hi - lo,
        {
            let mid = lo + (hi - lo) / 2;
            if self.0[mid] < id {
                lo = mid + 1;
            } else {
                hi = mid;
            }
        }
        lo
    }

    /// Adds `id`. Returns `true` if it was already present.
    pub fn add(&mut self, id: usize) -> (present: bool)
        requires
            old(self).wf(),
        ensures
            final(self).wf(),
            present == old(self).has(id),
            forall|x: usize| final(self).has(x) <==> (old(self).has(x) || x == id),
    {
        let p = self.search(id);
        if p < self.0.len() && self.0[p] == id {
            true
        } else {
            proof {
                assert forall|k: int| 0 <= k < self.0@.len() implies self.0@[k] != id by {}
            }
            self.0.insert(p, id);
            proof {
                let v = self.0@;
                assert forall|x: usize| v.contains(x) <==> (old(self).has(x) || x == id) by {
                    if v.contains(x) {
                        let k = choose|k: int| 0 <= k < v.len() && v[k] == x;
                        if k < p {
                            assert(old(self).0@[k] == x);
                        } else if k > p {
                            assert(old(self).0@[k - 1] == x);
                        }
                    }
                    if old(self).has(x) {
                        let k = choose|k: int| 0 <= k < old(self).0@.len() && old(self).0@[k] == x;
                        if k < p {
                            assert(v[k] == x);
                        } else {
                            assert(v[k + 1] == x);
                        }
                    }
                    if x == id {
                        assert(v[p as int] == id);
                    }
                }
            }
            false
        }
    }

    /// Returns `true` if `id` is present.
    pub fn contains(&self, id: usize) -> (b: bool)
        requires
            self.wf(),
        ensures
            b == self.has(id),
    {
        let p = self.search(id);
        p < self.0.len() && self.0[p] == id
    }

    /// Returns `true` if no id is present.
    pub fn is_empty(&self) -> (b: bool)
        ensures
            b == (self.0@.len() == 0),
            b == (forall|x: usize| !self.has(x)),
    {
        proof {
            if self.0@.len() > 0 {
                assert(self.has(self.0@[0]));
            }
        }
        self.0.len() == 0
    }

    /// Returns a copy of the list.
    pub fn duplicate(&self) -> (d: DedupedUniqueIds)
        ensures
            d.0@ == self.0@,
    {
        let mut v: Vec<usize> = Vec::new();
        let mut i: usize = 0;
        while i < self.0.len()
            invariant
                i <= self.0@.len(),
                v@ == self.0@.subrange(0, i as int),
            decreases self.0@.len() - i,
        {
            v.push(self.0[i]);
            i += 1;
            assert(v@ =~= self.0@.subrange(0, i as int));
        }
        assert(v@ =~= self.0@);
        DedupedUniqueIds(v)
    }
}

} // verus!
