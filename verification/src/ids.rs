//! A small executable set of non-fungible ids, viewed as a `Set<u64>`.

use vstd::prelude::*;

verus! {

broadcast use vstd::seq_lib::group_seq_properties;

/// A finite set of non-fungible ids, stored as a vector without duplicates.
#[derive(Debug, Clone)]
pub struct IdSet {
    pub ids: Vec<u64>,
}

impl IdSet {
    /// The mathematical set of ids held.
    pub open spec fn set(self) -> Set<u64> {
        self.ids@.to_set()
    }

    /// Well-formed: no id is stored twice.
    pub open spec fn inv(self) -> bool {
        self.ids@.no_duplicates()
    }

    pub fn new() -> (r: IdSet)
        ensures
            r.inv(),
            r.set() =~= Set::<u64>::empty(),
            r.ids@.len() == 0,
    {
        IdSet { ids: Vec::new() }
    }

    /// Builds a set from a list of ids; duplicates in the input collapse.
    pub fn from_ids(ids: Vec<u64>) -> (r: IdSet)
        ensures
            r.inv(),
            r.set() =~= ids@.to_set(),
    {
        let mut r = IdSet::new();
        let mut i: usize = 0;
        while i < ids.len()
            invariant
                i <= ids.len(),
                r.inv(),
                r.set() =~= ids@.take(i as int).to_set(),
            decreases ids.len() - i,
        {
            proof {
                assert(ids@.take(i + 1) =~= ids@.take(i as int).push(ids@[i as int]));
            }
            r.insert(ids[i]);
            i += 1;
        }
        proof {
            assert(ids@.take(ids@.len() as int) =~= ids@);
        }
        r
    }

    pub fn len(&self) -> (r: usize)
        requires
            self.inv(),
        ensures
            r == self.set().len(),
    {
        proof {
            self.ids@.unique_seq_to_set();
        }
        self.ids.len()
    }

    pub fn is_empty(&self) -> (r: bool)
        requires
            self.inv(),
        ensures
            r == self.set().is_empty(),
    {
        proof {
            self.ids@.unique_seq_to_set();
            if self.ids@.len() == 0 {
                assert(self.set() =~= Set::<u64>::empty());
            }
        }
        self.ids.len() == 0
    }

    pub fn contains(&self, id: u64) -> (r: bool)
        ensures
            r == self.set().contains(id),
    {
        let mut i: usize = 0;
        while i < self.ids.len()
            invariant
                i <= self.ids.len(),
                forall|k: int| 0 <= k < i ==> self.ids@[k] != id,
            decreases self.ids.len() - i,
        {
            if self.ids[i] == id {
                return true;
            }
            i += 1;
        }
        false
    }

    pub fn insert(&mut self, id: u64)
        requires
            old(self).inv(),
        ensures
            final(self).inv(),
            final(self).set() =~= old(self).set().insert(id),
    {
        if !self.contains(id) {
            self.ids.push(id);
            proof {
                assert(self.ids@ =~= old(self).ids@.push(id));
            }
        } else {
            proof {
                assert(self.set() =~= old(self).set().insert(id));
            }
        }
    }

    /// Removes an id if present.
    pub fn remove(&mut self, id: u64)
        requires
            old(self).inv(),
        ensures
            final(self).inv(),
            final(self).set() =~= old(self).set().remove(id),
    {
        let mut r: Vec<u64> = Vec::new();
        let mut i: usize = 0;
        while i < self.ids.len()
            invariant
                i <= self.ids@.len(),
                self == old(self),
                old(self).inv(),
                r@.no_duplicates(),
                r@.to_set() =~= old(self).ids@.take(i as int).to_set().remove(id),
                forall|k: int| 0 <= k < r@.len() ==> old(self).ids@.take(i as int).contains(r@[k]),
            decreases self.ids@.len() - i,
        {
            proof {
                assert(self.ids@.take(i + 1) =~= self.ids@.take(i as int).push(self.ids@[i as int]));
                assert(self.ids@.take(i + 1).to_set() =~= self.ids@.take(i as int).to_set().insert(
                    self.ids@[i as int],
                ));
            }
            let ghost r0 = r@;
            if self.ids[i] != id {
                proof {
                    assert(!old(self).ids@.take(i as int).contains(old(self).ids@[i as int]));
                }
                r.push(self.ids[i]);
                proof {
                    assert(r@.to_set() =~= r0.to_set().insert(old(self).ids@[i as int]));
                }
            }
            i += 1;
        }
        proof {
            assert(old(self).ids@.take(old(self).ids@.len() as int) =~= old(self).ids@);
        }
        self.ids = r;
    }

    pub fn is_subset_of(&self, other: &IdSet) -> (r: bool)
        ensures
            r == self.set().subset_of(other.set()),
    {
        let mut i: usize = 0;
        while i < self.ids.len()
            invariant
                i <= self.ids@.len(),
                forall|k: int| 0 <= k < i ==> other.set().contains(#[trigger] self.ids@[k]),
            decreases self.ids@.len() - i,
        {
            if !other.contains(self.ids[i]) {
                return false;
            }
            i += 1;
        }
        true
    }

    /// Adds every id of `other` to `self`.
    pub fn union_with(&mut self, other: &IdSet)
        requires
            old(self).inv(),
        ensures
            final(self).inv(),
            final(self).set() =~= old(self).set().union(other.set()),
    {
        let mut i: usize = 0;
        while i < other.ids.len()
            invariant
                i <= other.ids@.len(),
                self.inv(),
                self.set() =~= old(self).set().union(other.ids@.take(i as int).to_set()),
            decreases other.ids@.len() - i,
        {
            proof {
                assert(other.ids@.take(i + 1) =~= other.ids@.take(i as int).push(other.ids@[i as int]));
            }
            self.insert(other.ids[i]);
            i += 1;
        }
        proof {
            assert(other.ids@.take(other.ids@.len() as int) =~= other.ids@);
        }
    }

    /// The ids present in both sets.
    pub fn intersect(&self, other: &IdSet) -> (r: IdSet)
        requires
            self.inv(),
        ensures
            r.inv(),
            r.set() =~= self.set().intersect(other.set()),
    {
        let mut r = IdSet::new();
        let mut i: usize = 0;
        while i < self.ids.len()
            invariant
                i <= self.ids@.len(),
                self.inv(),
                r.inv(),
                r.set() =~= self.ids@.take(i as int).to_set().intersect(other.set()),
            decreases self.ids@.len() - i,
        {
            proof {
                assert(self.ids@.take(i + 1) =~= self.ids@.take(i as int).push(self.ids@[i as int]));
            }
            if other.contains(self.ids[i]) {
                r.insert(self.ids[i]);
            }
            i += 1;
        }
        proof {
            assert(self.ids@.take(self.ids@.len() as int) =~= self.ids@);
        }
        r
    }

    /// Removes every id of `other` from `self`.
    pub fn remove_all(&mut self, other: &IdSet)
        requires
            old(self).inv(),
        ensures
            final(self).inv(),
            final(self).set() =~= old(self).set().difference(other.set()),
    {
        let mut i: usize = 0;
        while i < other.ids.len()
            invariant
                i <= other.ids@.len(),
                self.inv(),
                self.set() =~= old(self).set().difference(other.ids@.take(i as int).to_set()),
            decreases other.ids@.len() - i,
        {
            proof {
                assert(other.ids@.take(i + 1) =~= other.ids@.take(i as int).push(other.ids@[i as int]));
            }
            self.remove(other.ids[i]);
            i += 1;
        }
        proof {
            assert(other.ids@.take(other.ids@.len() as int) =~= other.ids@);
        }
    }

    /// An element-for-element copy, with the same view.
    pub fn copied(&self) -> (r: IdSet)
        ensures
            r.ids@ == self.ids@,
    {
        let mut v: Vec<u64> = Vec::new();
        let mut i: usize = 0;
        while i < self.ids.len()
            invariant
                i <= self.ids@.len(),
                v@ == self.ids@.take(i as int),
            decreases self.ids@.len() - i,
        {
            v.push(self.ids[i]);
            i += 1;
        }
        proof {
            assert(self.ids@.take(self.ids@.len() as int) =~= self.ids@);
        }
        IdSet { ids: v }
    }

    /// The stored ids as a plain vector, for callers outside the library.
    pub fn to_vec(&self) -> (r: Vec<u64>)
        ensures
            r@ == self.ids@,
    {
        self.copied().ids
    }
}

} // verus!
