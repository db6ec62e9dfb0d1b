//! Resource containers: the owning store of one resource's balance, with
//! reference-counted locks over it, and the table that holds the containers
//! a call can reach.
//!
//! A lock is additive: it never removes anything from the balance, it only
//! records a claim. The same units may be claimed by many locks at once; each
//! lock record is released exactly once by `unlock`.

use vstd::prelude::*;
use crate::ids::IdSet;
use crate::locked::{LockedAmountOrIds, ResourceType};

verus! {

broadcast use vstd::seq_lib::group_seq_properties, vstd::seq_lib::group_to_multiset_ensures;

/// Error produced by a resource container.
#[derive(Debug, Clone, Copy, PartialEq, Eq, Structural)]
pub enum ResourceContainerError {
    /// An amount operation was applied to a non-fungible container, or the
    /// reverse.
    ResourceTypeMismatch,
    /// A zero amount cannot be locked.
    InvalidZeroAmount,
    /// An id to lock is not in the container's id set.
    NonFungibleNotFound,
    /// An unlock asked for a record that is not held.
    LockNotFound,
}

/// The authoritative balance of one resource address, with its outstanding
/// lock records.
#[derive(Debug)]
pub struct ResourceContainer {
    pub resource_def_id: u64,
    pub resource_type: ResourceType,
    /// Fungible balance; zero for a non-fungible container.
    pub liquid_amount: u128,
    /// Non-fungible balance; empty for a fungible container.
    pub liquid_ids: IdSet,
    /// One record per outstanding fungible lock: the amount it covers.
    pub locked_amounts: Vec<u128>,
    /// One occurrence per id per outstanding non-fungible lock.
    pub locked_ids: Vec<u64>,
}

impl ResourceContainer {
    pub open spec fn inv(self) -> bool {
        &&& self.liquid_ids.inv()
        &&& (self.resource_type.is_fungible_spec() ==> self.liquid_ids.ids@.len() == 0
            && self.locked_ids@.len() == 0)
        &&& (!self.resource_type.is_fungible_spec() ==> self.liquid_amount == 0
            && self.locked_amounts@.len() == 0)
        &&& (forall|k: int|
            0 <= k < self.locked_ids@.len() ==> self.liquid_ids.set().contains(
                #[trigger] self.locked_ids@[k],
            ))
    }

    /// How many outstanding locks cover exactly this amount.
    pub open spec fn amount_lock_count_spec(self, amount: u128) -> nat {
        self.locked_amounts@.to_multiset().count(amount)
    }

    /// How many outstanding locks cover this id.
    pub open spec fn id_lock_count_spec(self, id: u64) -> nat {
        self.locked_ids@.to_multiset().count(id)
    }

    pub fn new_fungible(resource_def_id: u64, divisibility: u8, liquid_amount: u128) -> (r:
        ResourceContainer)
        ensures
            r.inv(),
            r.resource_def_id == resource_def_id,
            r.resource_type == (ResourceType::Fungible { divisibility }),
            r.liquid_amount == liquid_amount,
            r.locked_amounts@.len() == 0,
            r.locked_ids@.len() == 0,
    {
        ResourceContainer {
            resource_def_id,
            resource_type: ResourceType::Fungible { divisibility },
            liquid_amount,
            liquid_ids: IdSet::new(),
            locked_amounts: Vec::new(),
            locked_ids: Vec::new(),
        }
    }

    pub fn new_non_fungible(resource_def_id: u64, liquid_ids: IdSet) -> (r: ResourceContainer)
        requires
            liquid_ids.inv(),
        ensures
            r.inv(),
            r.resource_def_id == resource_def_id,
            r.resource_type == ResourceType::NonFungible,
            r.liquid_ids.ids@ == liquid_ids.ids@,
            r.locked_amounts@.len() == 0,
            r.locked_ids@.len() == 0,
    {
        ResourceContainer {
            resource_def_id,
            resource_type: ResourceType::NonFungible,
            liquid_amount: 0,
            liquid_ids,
            locked_amounts: Vec::new(),
            locked_ids: Vec::new(),
        }
    }
}

/// Everything but the lock records is the same.
pub open spec fn same_except_locks(a: ResourceContainer, b: ResourceContainer) -> bool {
    &&& a.resource_def_id == b.resource_def_id
    &&& a.resource_type == b.resource_type
    &&& a.liquid_amount == b.liquid_amount
    &&& a.liquid_ids.ids@ == b.liquid_ids.ids@
}

/// The two containers hold the same lock records, counted as multisets.
pub open spec fn same_locks(a: ResourceContainer, b: ResourceContainer) -> bool {
    &&& a.locked_amounts@.to_multiset() == b.locked_amounts@.to_multiset()
    &&& a.locked_ids@.to_multiset() == b.locked_ids@.to_multiset()
}

/// Observably the same container state: same balance and same lock counts.
pub open spec fn same_container_state(a: ResourceContainer, b: ResourceContainer) -> bool {
    same_except_locks(a, b) && same_locks(a, b)
}

/// `post` is `pre` with one more lock record covering `amount`.
pub open spec fn amount_lock_added(pre: ResourceContainer, post: ResourceContainer, amount: u128) -> bool {
    &&& same_except_locks(pre, post)
    &&& post.locked_amounts@.to_multiset() == pre.locked_amounts@.to_multiset().insert(amount)
    &&& post.locked_ids@.to_multiset() == pre.locked_ids@.to_multiset()
}

/// `post` is `pre` with one more lock on every id of `s`.
pub open spec fn id_locks_added(pre: ResourceContainer, post: ResourceContainer, s: Set<u64>) -> bool {
    &&& same_except_locks(pre, post)
    &&& post.locked_amounts@.to_multiset() == pre.locked_amounts@.to_multiset()
    &&& (forall|id: u64|
        #[trigger] post.id_lock_count_spec(id) == pre.id_lock_count_spec(id) + (if s.contains(id) {
            1int
        } else {
            0int
        }))
}

/// `post` is `pre` with the lock record `l` added.
pub open spec fn lock_added(pre: ResourceContainer, post: ResourceContainer, l: LockedAmountOrIds) -> bool {
    match l {
        LockedAmountOrIds::Amount(a) => amount_lock_added(pre, post, a),
        LockedAmountOrIds::Ids(s) => id_locks_added(pre, post, s.ids@.to_set()),
    }
}

/// `post` is `pre` with the lock record `l` released.
pub open spec fn lock_removed(pre: ResourceContainer, post: ResourceContainer, l: LockedAmountOrIds) -> bool {
    match l {
        LockedAmountOrIds::Amount(a) => {
            &&& same_except_locks(pre, post)
            &&& post.locked_amounts@.to_multiset() == pre.locked_amounts@.to_multiset().remove(a)
            &&& post.locked_ids@.to_multiset() == pre.locked_ids@.to_multiset()
        },
        LockedAmountOrIds::Ids(s) => {
            &&& same_except_locks(pre, post)
            &&& post.locked_amounts@.to_multiset() == pre.locked_amounts@.to_multiset()
            &&& (forall|id: u64|
                #[trigger] post.id_lock_count_spec(id) + (if s.ids@.to_set().contains(id) {
                    1int
                } else {
                    0int
                }) == pre.id_lock_count_spec(id))
        },
    }
}

/// The container holds at least one lock record matching `l`, so that
/// releasing `l` cannot drive a count below zero.
pub open spec fn lock_present(c: ResourceContainer, l: LockedAmountOrIds) -> bool {
    match l {
        LockedAmountOrIds::Amount(a) => c.amount_lock_count_spec(a) >= 1,
        LockedAmountOrIds::Ids(s) => forall|id: u64|
            s.ids@.to_set().contains(id) ==> #[trigger] c.id_lock_count_spec(id) >= 1,
    }
}

/// `l` names a quantity the container's type can hold.
pub open spec fn lock_type_matches(c: ResourceContainer, l: LockedAmountOrIds) -> bool {
    l.is_amount() == c.resource_type.is_fungible_spec()
}

fn find_amount(v: &Vec<u128>, a: u128) -> (r: Option<usize>)
    ensures
        match r {
            Option::Some(i) => i < v@.len() && v@[i as int] == a,
            Option::None => !v@.contains(a),
        },
{
    let mut i: usize = 0;
    while i < v.len()
        invariant
            i <= v@.len(),
            forall|k: int| 0 <= k < i ==> v@[k] != a,
        decreases v@.len() - i,
    {
        if v[i] == a {
            return Option::Some(i);
        }
        i += 1;
    }
    Option::None
}

fn find_id(v: &Vec<u64>, id: u64) -> (r: Option<usize>)
    ensures
        match r {
            Option::Some(i) => i < v@.len() && v@[i as int] == id,
            Option::None => !v@.contains(id),
        },
{
    let mut i: usize = 0;
    while i < v.len()
        invariant
            i <= v@.len(),
            forall|k: int| 0 <= k < i ==> v@[k] != id,
        decreases v@.len() - i,
    {
        if v[i] == id {
            return Option::Some(i);
        }
        i += 1;
    }
    Option::None
}

impl ResourceContainer {
    /// Records one more additive lock covering `amount`. The balance is not
    /// touched: a lock is a claim, not a withdrawal.
    pub fn lock_by_amount(&mut self, amount: u128) -> (r: Result<(), ResourceContainerError>)
        requires
            old(self).inv(),
        ensures
            final(self).inv(),
            r is Ok <==> old(self).resource_type.is_fungible_spec() && amount > 0,
            r is Ok ==> amount_lock_added(*old(self), *final(self), amount),
            r is Err ==> *final(self) == *old(self),
            r matches Err(e) ==> e == (if !old(self).resource_type.is_fungible_spec() {
                ResourceContainerError::ResourceTypeMismatch
            } else {
                ResourceContainerError::InvalidZeroAmount
            }),
    {
        if !self.resource_type.is_fungible() {
            return Result::Err(ResourceContainerError::ResourceTypeMismatch);
        }
        if amount == 0 {
            return Result::Err(ResourceContainerError::InvalidZeroAmount);
        }
        self.locked_amounts.push(amount);
        Result::Ok(())
    }

    /// Records one more additive lock on every id of `ids`; every id must be
    /// in the container's id set.
    pub fn lock_by_ids(&mut self, ids: &IdSet) -> (r: Result<(), ResourceContainerError>)
        requires
            old(self).inv(),
            ids.inv(),
        ensures
            final(self).inv(),
            r is Ok <==> !old(self).resource_type.is_fungible_spec() && ids.set().subset_of(
                old(self).liquid_ids.set(),
            ),
            r is Ok ==> id_locks_added(*old(self), *final(self), ids.set()),
            r is Err ==> *final(self) == *old(self),
            r matches Err(e) ==> e == (if old(self).resource_type.is_fungible_spec() {
                ResourceContainerError::ResourceTypeMismatch
            } else {
                ResourceContainerError::NonFungibleNotFound
            }),
    {
        if self.resource_type.is_fungible() {
            return Result::Err(ResourceContainerError::ResourceTypeMismatch);
        }
        if !ids.is_subset_of(&self.liquid_ids) {
            return Result::Err(ResourceContainerError::NonFungibleNotFound);
        }
        let ghost pre = *self;
        let mut j: usize = 0;
        while j < ids.ids.len()
            invariant
                j <= ids.ids@.len(),
                ids.inv(),
                ids.set().subset_of(pre.liquid_ids.set()),
                same_except_locks(pre, *self),
                self.resource_type == pre.resource_type,
                self.locked_amounts@ == pre.locked_amounts@,
                self.liquid_ids == pre.liquid_ids,
                self.locked_ids@ == pre.locked_ids@ + ids.ids@.take(j as int),
            decreases ids.ids@.len() - j,
        {
            self.locked_ids.push(ids.ids[j]);
            proof {
                assert(self.locked_ids@ =~= pre.locked_ids@ + ids.ids@.take(j + 1));
            }
            j += 1;
        }
        proof {
            assert(ids.ids@.take(ids.ids@.len() as int) =~= ids.ids@);
            lemma_append_distinct_counts(pre.locked_ids@, ids.ids@);
            assert(forall|k: int|
                0 <= k < self.locked_ids@.len() ==> self.liquid_ids.set().contains(
                    #[trigger] self.locked_ids@[k],
                ));
        }
        Result::Ok(())
    }

    /// Releases one prior lock record. Fails, leaving the container as it
    /// was, if no matching record is held.
    pub fn unlock(&mut self, l: &LockedAmountOrIds) -> (r: Result<(), ResourceContainerError>)
        requires
            old(self).inv(),
            l.inv(),
        ensures
            final(self).inv(),
            r is Ok <==> lock_type_matches(*old(self), *l) && lock_present(*old(self), *l),
            r is Ok ==> lock_removed(*old(self), *final(self), *l),
            r is Err ==> *final(self) == *old(self),
            r matches Err(e) ==> e == (if !lock_type_matches(*old(self), *l) {
                ResourceContainerError::ResourceTypeMismatch
            } else {
                ResourceContainerError::LockNotFound
            }),
    {
        match l {
            LockedAmountOrIds::Amount(a) => {
                if !self.resource_type.is_fungible() {
                    return Result::Err(ResourceContainerError::ResourceTypeMismatch);
                }
                match find_amount(&self.locked_amounts, *a) {
                    Option::Some(i) => {
                        proof {
                            assert(self.locked_amounts@.contains(*a));
                            assert(self.locked_amounts@.to_multiset().count(*a) > 0);
                        }
                        let ghost before = self.locked_amounts@;
                        self.locked_amounts.remove(i);
                        proof {
                            assert(self.locked_amounts@ == before.remove(i as int));
                            assert(before.remove(i as int).to_multiset() == before.to_multiset()
                                .remove(before[i as int]));
                        }
                        Result::Ok(())
                    },
                    Option::None => {
                        proof {
                            assert(self.locked_amounts@.to_multiset().count(*a) == 0);
                        }
                        Result::Err(ResourceContainerError::LockNotFound)
                    },
                }
            },
            LockedAmountOrIds::Ids(s) => {
                if self.resource_type.is_fungible() {
                    return Result::Err(ResourceContainerError::ResourceTypeMismatch);
                }
                // First check that every id is covered by a lock record, so
                // that failure leaves the container untouched.
                let mut j: usize = 0;
                while j < s.ids.len()
                    invariant
                        j <= s.ids@.len(),
                        s.inv(),
                        *self == *old(self),
                        old(self).inv(),
                        !old(self).resource_type.is_fungible_spec(),
                        *l == LockedAmountOrIds::Ids(*s),
                        forall|k: int|
                            0 <= k < j ==> self.locked_ids@.contains(#[trigger] s.ids@[k]),
                    decreases s.ids@.len() - j,
                {
                    if find_id(&self.locked_ids, s.ids[j]).is_none() {
                        proof {
                            assert(s.ids@.contains(s.ids@[j as int]));
                            assert(s.ids@.to_set().contains(s.ids@[j as int]));
                            assert(old(self).id_lock_count_spec(s.ids@[j as int]) == 0);
                            assert(!lock_present(*old(self), *l)) by {
                                let idw = s.ids@[j as int];
                                assert(s.ids@.to_set().contains(idw));
                                assert(old(self).id_lock_count_spec(idw) < 1);
                                if lock_present(*old(self), LockedAmountOrIds::Ids(*s)) {
                                    assert(old(self).id_lock_count_spec(idw) >= 1);
                                }
                            }
                        }
                        return Result::Err(ResourceContainerError::LockNotFound);
                    }
                    j += 1;
                }
                proof {
                    assert forall|id: u64| s.ids@.to_set().contains(id) implies old(
                        self,
                    ).id_lock_count_spec(id) >= 1 by {
                        let k = choose|k: int| 0 <= k < s.ids@.len() && s.ids@[k] == id;
                        assert(self.locked_ids@.contains(s.ids@[k]));
                    }
                }
                let ghost pre = *self;
                let mut j: usize = 0;
                while j < s.ids.len()
                    invariant
                        j <= s.ids@.len(),
                        s.inv(),
                        pre.inv(),
                        forall|id: u64|
                            s.ids@.to_set().contains(id) ==> pre.id_lock_count_spec(id) >= 1,
                        same_except_locks(pre, *self),
                        self.resource_type == pre.resource_type,
                        self.liquid_ids == pre.liquid_ids,
                        self.locked_amounts@ == pre.locked_amounts@,
                        forall|id: u64|
                            self.locked_ids@.to_multiset().count(id) + (if s.ids@.take(
                                j as int,
                            ).to_set().contains(id) {
                                1int
                            } else {
                                0int
                            }) == pre.id_lock_count_spec(id),
                        forall|k: int|
                            0 <= k < self.locked_ids@.len() ==> pre.liquid_ids.set().contains(
                                #[trigger] self.locked_ids@[k],
                            ),
                    decreases s.ids@.len() - j,
                {
                    proof {
                        assert(!s.ids@.take(j as int).to_set().contains(s.ids@[j as int])) by {
                            if s.ids@.take(j as int).contains(s.ids@[j as int]) {
                                let k = choose|k: int|
                                    0 <= k < j && s.ids@.take(j as int)[k] == s.ids@[j as int];
                                assert(s.ids@[k] == s.ids@[j as int]);
                            }
                        }
                        assert(s.ids@.contains(s.ids@[j as int]));
                        assert(s.ids@.to_set().contains(s.ids@[j as int]));
                        assert(pre.id_lock_count_spec(s.ids@[j as int]) >= 1);
                        assert(self.locked_ids@.to_multiset().count(s.ids@[j as int]) >= 1);
                        assert(self.locked_ids@.contains(s.ids@[j as int]));
                    }
                    let i = match find_id(&self.locked_ids, s.ids[j]) {
                        Option::Some(i) => i,
                        Option::None => {
                            proof {
                                assert(false);
                            }
                            0
                        },
                    };
                    let ghost before = self.locked_ids@;
                    self.locked_ids.remove(i);
                    proof {
                        assert(self.locked_ids@ == before.remove(i as int));
                        assert(before.remove(i as int).to_multiset() == before.to_multiset()
                            .remove(before[i as int]));
                        assert(self.locked_ids@.to_multiset() == before.to_multiset().remove(
                            s.ids@[j as int],
                        ));
                        assert(s.ids@.take(j + 1) =~= s.ids@.take(j as int).push(s.ids@[j as int]));
                        assert forall|id: u64|
                            self.locked_ids@.to_multiset().count(id) + (if s.ids@.take(
                                j + 1,
                            ).to_set().contains(id) {
                                1int
                            } else {
                                0int
                            }) == pre.id_lock_count_spec(id) by {
                            if id == s.ids@[j as int] {
                            } else {
                            }
                        }
                        assert forall|k: int|
                            0 <= k < self.locked_ids@.len() implies pre.liquid_ids.set().contains(
                            #[trigger] self.locked_ids@[k],
                        ) by {
                            assert(before.contains(self.locked_ids@[k]));
                            let m = choose|m: int| 0 <= m < before.len() && before[m]
                                == self.locked_ids@[k];
                        }
                    }
                    j += 1;
                }
                proof {
                    assert(s.ids@.take(s.ids@.len() as int) =~= s.ids@);
                }
                Result::Ok(())
            },
        }
    }
}

/// Appending a duplicate-free sequence raises each appended id's count by
/// exactly one and leaves other counts alone.
proof fn lemma_append_distinct_counts(base: Seq<u64>, add: Seq<u64>)
    requires
        add.no_duplicates(),
    ensures
        forall|id: u64|
            (base + add).to_multiset().count(id) == base.to_multiset().count(id) + (
            if add.to_set().contains(id) {
                1int
            } else {
                0int
            }),
    decreases add.len(),
{
    if add.len() == 0 {
        assert(base + add =~= base);
        assert(add.to_set() =~= Set::<u64>::empty());
    } else {
        let head = add.drop_last();
        let x = add.last();
        lemma_append_distinct_counts(base, head);
        assert(base + add =~= (base + head).push(x));
        assert(!head.to_set().contains(x));
        assert forall|id: u64|
            (base + add).to_multiset().count(id) == base.to_multiset().count(id) + (
            if add.to_set().contains(id) {
                1int
            } else {
                0int
            }) by {
            if id == x {
                assert(add.to_set().contains(x));
            } else {
                assert(add.to_set().contains(id) == head.to_set().contains(id));
            }
        }
    }
}


/// `post` is `pre` with at most the container at `h` changed.
pub open spec fn table_same_except(
    pre: Seq<ResourceContainer>,
    post: Seq<ResourceContainer>,
    h: int,
) -> bool {
    &&& post.len() == pre.len()
    &&& (forall|j: int| 0 <= j < pre.len() && j != h ==> post[j] == pre[j])
}

/// The containers a call can reach, addressed by stable integer handles.
/// Proofs store handles into this table; every lock and unlock goes through
/// it.
#[derive(Debug)]
pub struct ContainerTable {
    pub containers: Vec<ResourceContainer>,
}

impl ContainerTable {
    pub open spec fn inv(self) -> bool {
        forall|j: int| 0 <= j < self.containers@.len() ==> (#[trigger] self.containers@[j]).inv()
    }

    pub open spec fn len_spec(self) -> nat {
        self.containers@.len()
    }

    pub fn new() -> (r: ContainerTable)
        ensures
            r.inv(),
            r.containers@.len() == 0,
    {
        ContainerTable { containers: Vec::new() }
    }

    /// Adds a container and returns its handle.
    pub fn add(&mut self, c: ResourceContainer) -> (h: usize)
        requires
            old(self).inv(),
            c.inv(),
        ensures
            final(self).inv(),
            final(self).containers@ == old(self).containers@.push(c),
            h == old(self).containers@.len(),
    {
        let h = self.containers.len();
        self.containers.push(c);
        h
    }

    pub fn count(&self) -> (r: usize)
        ensures
            r == self.containers@.len(),
    {
        self.containers.len()
    }

    pub fn resource_def_id_of(&self, h: usize) -> (r: u64)
        requires
            h < self.containers@.len(),
        ensures
            r == self.containers@[h as int].resource_def_id,
    {
        self.containers[h].resource_def_id
    }

    pub fn resource_type_of(&self, h: usize) -> (r: ResourceType)
        requires
            h < self.containers@.len(),
        ensures
            r == self.containers@[h as int].resource_type,
    {
        self.containers[h].resource_type
    }

    /// Records an additive lock covering `amount` on container `h`.
    pub fn lock_by_amount(&mut self, h: usize, amount: u128) -> (r: Result<
        (),
        ResourceContainerError,
    >)
        requires
            old(self).inv(),
            h < old(self).containers@.len(),
        ensures
            final(self).inv(),
            table_same_except(old(self).containers@, final(self).containers@, h as int),
            r is Ok <==> old(self).containers@[h as int].resource_type.is_fungible_spec() && amount
                > 0,
            r is Ok ==> amount_lock_added(
                old(self).containers@[h as int],
                final(self).containers@[h as int],
                amount,
            ),
            r is Err ==> final(self).containers@ == old(self).containers@,
    {
        let c = &mut self.containers[h];
        c.lock_by_amount(amount)
    }

    /// Records an additive lock on every id of `ids` on container `h`.
    pub fn lock_by_ids(&mut self, h: usize, ids: &IdSet) -> (r: Result<(), ResourceContainerError>)
        requires
            old(self).inv(),
            ids.inv(),
            h < old(self).containers@.len(),
        ensures
            final(self).inv(),
            table_same_except(old(self).containers@, final(self).containers@, h as int),
            r is Ok <==> !old(self).containers@[h as int].resource_type.is_fungible_spec()
                && ids.set().subset_of(old(self).containers@[h as int].liquid_ids.set()),
            r is Ok ==> id_locks_added(
                old(self).containers@[h as int],
                final(self).containers@[h as int],
                ids.set(),
            ),
            r is Err ==> final(self).containers@ == old(self).containers@,
    {
        let c = &mut self.containers[h];
        c.lock_by_ids(ids)
    }

    /// Releases one prior lock record on container `h`.
    pub fn unlock(&mut self, h: usize, l: &LockedAmountOrIds) -> (r: Result<
        (),
        ResourceContainerError,
    >)
        requires
            old(self).inv(),
            l.inv(),
            h < old(self).containers@.len(),
        ensures
            final(self).inv(),
            table_same_except(old(self).containers@, final(self).containers@, h as int),
            r is Ok <==> lock_type_matches(old(self).containers@[h as int], *l) && lock_present(
                old(self).containers@[h as int],
                *l,
            ),
            r is Ok ==> lock_removed(
                old(self).containers@[h as int],
                final(self).containers@[h as int],
                *l,
            ),
            r is Err ==> final(self).containers@ == old(self).containers@,
    {
        let c = &mut self.containers[h];
        c.unlock(l)
    }

    /// How many outstanding locks on container `h` cover exactly `amount`.
    pub fn amount_lock_count(&self, h: usize, amount: u128) -> (n: usize)
        requires
            h < self.containers@.len(),
        ensures
            n == self.containers@[h as int].amount_lock_count_spec(amount),
    {
        let v = &self.containers[h].locked_amounts;
        let mut n: usize = 0;
        let mut i: usize = 0;
        while i < v.len()
            invariant
                i <= v@.len(),
                n <= i,
                n == v@.take(i as int).to_multiset().count(amount),
            decreases v@.len() - i,
        {
            proof {
                assert(v@.take(i + 1) =~= v@.take(i as int).push(v@[i as int]));
            }
            if v[i] == amount {
                n += 1;
            }
            i += 1;
        }
        proof {
            assert(v@.take(v@.len() as int) =~= v@);
        }
        n
    }

    /// How many outstanding locks on container `h` cover the id.
    pub fn id_lock_count(&self, h: usize, id: u64) -> (n: usize)
        requires
            h < self.containers@.len(),
        ensures
            n == self.containers@[h as int].id_lock_count_spec(id),
    {
        let v = &self.containers[h].locked_ids;
        let mut n: usize = 0;
        let mut i: usize = 0;
        while i < v.len()
            invariant
                i <= v@.len(),
                n <= i,
                n == v@.take(i as int).to_multiset().count(id),
            decreases v@.len() - i,
        {
            proof {
                assert(v@.take(i + 1) =~= v@.take(i as int).push(v@[i as int]));
            }
            if v[i] == id {
                n += 1;
            }
            i += 1;
        }
        proof {
            assert(v@.take(v@.len() as int) =~= v@);
        }
        n
    }

    /// The number of outstanding lock records on container `h`, of both
    /// kinds together.
    pub fn lock_record_count(&self, h: usize) -> (n: usize)
        requires
            h < self.containers@.len(),
            self.containers@[h as int].locked_amounts@.len()
                + self.containers@[h as int].locked_ids@.len() <= usize::MAX,
        ensures
            n == self.containers@[h as int].locked_amounts@.len()
                + self.containers@[h as int].locked_ids@.len(),
    {
        self.containers[h].locked_amounts.len() + self.containers[h].locked_ids.len()
    }
}

} // verus!
