//! Proofs: immutable capabilities attesting possession of locked value in
//! one or more resource containers, without transferring it.
//!
//! A proof records, per backing container, the quantity it has locked there.
//! Cloning a proof locks the same quantities again; dropping it releases
//! every record exactly once.

use vstd::prelude::*;
use crate::ids::IdSet;
use crate::locked::{LockedAmountOrIds, ResourceType, same_locked};
use crate::container::{
    ContainerTable, ResourceContainerError, lock_added, lock_present, lock_removed,
    lock_type_matches,
};

verus! {

broadcast use vstd::seq_lib::group_seq_properties, vstd::seq_lib::group_to_multiset_ensures;

#[derive(Debug, Clone, PartialEq, Eq, Structural)]
pub enum ProofError {
    /// Error produced by a resource container.
    ResourceContainerError(ResourceContainerError),
    /// Can't generate zero-amount or empty non-fungible set proofs.
    EmptyProofNotAllowed,
    /// The base proofs are not enough to cover the requested amount or
    /// non-fungible ids.
    InsufficientBaseProofs,
    /// Can't apply a non-fungible operation on fungible proofs.
    NonFungibleOperationNotAllowed,
    /// Can't apply a fungible operation on non-fungible proofs.
    FungibleOperationNotAllowed,
}

/// A capability referencing containers by handle, with the quantity locked
/// in each on its behalf.
#[derive(Debug)]
pub struct Proof {
    /// The resource definition id.
    pub resource_def_id: u64,
    /// The resource type, copied from the containers at construction.
    pub resource_type: ResourceType,
    /// Whether this proof may still feed further composition.
    pub restricted: bool,
    /// The total locked amount or non-fungible ids.
    pub total_locked: LockedAmountOrIds,
    /// The supporting containers: handle, and the quantity locked there.
    pub evidence: Vec<(usize, LockedAmountOrIds)>,
}

impl Proof {
    /// Structural well-formedness: a non-empty single-typed total, evidence
    /// entries of the same type, one per container, each covering something.
    pub open spec fn wf(self) -> bool {
        &&& self.total_locked.inv()
        &&& !self.total_locked.is_empty_spec()
        &&& self.total_locked.is_amount() == self.resource_type.is_fungible_spec()
        &&& (forall|k1: int, k2: int|
            0 <= k1 < k2 < self.evidence@.len() ==> self.evidence@[k1].0 != self.evidence@[k2].0)
        &&& (forall|k: int|
            0 <= k < self.evidence@.len() ==> {
                let l = (#[trigger] self.evidence@[k]).1;
                &&& l.inv()
                &&& l.is_amount() == self.resource_type.is_fungible_spec()
                &&& (l is Amount ==> l.amount_spec() > 0)
            })
    }

    /// The proof's evidence is backed by `table`: every handle points at a
    /// container of the right resource, holding a matching lock record.
    pub open spec fn wf_in(self, table: ContainerTable) -> bool {
        &&& self.wf()
        &&& (forall|k: int|
            0 <= k < self.evidence@.len() ==> {
                let e = #[trigger] self.evidence@[k];
                &&& (e.0 as int) < table.containers@.len()
                &&& table.containers@[e.0 as int].resource_def_id == self.resource_def_id
                &&& table.containers@[e.0 as int].resource_type == self.resource_type
                &&& lock_present(table.containers@[e.0 as int], e.1)
            })
    }

    /// Creates a proof. The only validation is that the total is not empty;
    /// callers are responsible for evidence being consistent with the total.
    pub fn new(
        resource_def_id: u64,
        resource_type: ResourceType,
        restricted: bool,
        total_locked: LockedAmountOrIds,
        evidence: Vec<(usize, LockedAmountOrIds)>,
    ) -> (r: Result<Proof, ProofError>)
        requires
            total_locked.inv(),
        ensures
            r is Ok <==> !total_locked.is_empty_spec(),
            r matches Err(e) ==> e == ProofError::EmptyProofNotAllowed,
            r matches Ok(p) ==> {
                &&& p.resource_def_id == resource_def_id
                &&& p.resource_type == resource_type
                &&& p.restricted == restricted
                &&& p.total_locked == total_locked
                &&& p.evidence@ == evidence@
            },
    {
        if total_locked.is_empty() {
            return Result::Err(ProofError::EmptyProofNotAllowed);
        }
        Result::Ok(
            Proof { resource_def_id, resource_type, restricted, total_locked, evidence },
        )
    }

    /// Makes a clone of this proof, locking every evidence quantity once
    /// more in its container: cloning a capability costs a fresh lock.
    pub fn clone(&self, table: &mut ContainerTable) -> (r: Proof)
        requires
            old(table).inv(),
            self.wf_in(*old(table)),
        ensures
            final(table).inv(),
            final(table).containers@.len() == old(table).containers@.len(),
            table_locks_added(old(table).containers@, final(table).containers@, self.evidence@),
            r.resource_def_id == self.resource_def_id,
            r.resource_type == self.resource_type,
            r.restricted == self.restricted,
            same_locked(r.total_locked, self.total_locked),
            r.evidence@.len() == self.evidence@.len(),
            forall|k: int|
                0 <= k < self.evidence@.len() ==> (#[trigger] r.evidence@[k]).0
                    == self.evidence@[k].0 && same_locked(r.evidence@[k].1, self.evidence@[k].1),
            r.wf_in(*final(table)),
            self.wf_in(*final(table)),
    {
        let ghost pre = table.containers@;
        let mut evidence: Vec<(usize, LockedAmountOrIds)> = Vec::new();
        let mut i: usize = 0;
        while i < self.evidence.len()
            invariant
                i <= self.evidence@.len(),
                old(table).inv(),
                self.wf_in(*old(table)),
                pre == old(table).containers@,
                table.inv(),
                table.containers@.len() == pre.len(),
                evidence@.len() == i,
                forall|k: int|
                    0 <= k < i ==> (#[trigger] evidence@[k]).0 == self.evidence@[k].0
                        && same_locked(evidence@[k].1, self.evidence@[k].1),
                forall|j: int|
                    0 <= j < pre.len() && !evidence_has(self.evidence@.take(i as int), j)
                        ==> table.containers@[j] == pre[j],
                forall|k: int|
                    0 <= k < i ==> lock_added(
                        pre[self.evidence@[k].0 as int],
                        table.containers@[self.evidence@[k].0 as int],
                        (#[trigger] self.evidence@[k]).1,
                    ),
            decreases self.evidence@.len() - i,
        {
            let h = self.evidence[i].0;
            let l = self.evidence[i].1.copied();
            proof {
                assert(self.evidence@[i as int].0 == h);
                assert(self.evidence@.take(i + 1)[i as int].0 as int == h as int);
                assert(evidence_has(self.evidence@.take(i + 1), h as int));
                assert(!evidence_has(self.evidence@.take(i as int), h as int)) by {
                    if evidence_has(self.evidence@.take(i as int), h as int) {
                        let k = choose|k: int|
                            0 <= k < i && (self.evidence@.take(i as int)[k]).0 as int == h as int;
                        assert(self.evidence@[k].0 == self.evidence@[i as int].0);
                    }
                }
                assert(table.containers@[h as int] == pre[h as int]);
            }
            match &self.evidence[i].1 {
                LockedAmountOrIds::Amount(a) => {
                    let res = table.lock_by_amount(h, *a);
                    proof {
                        assert(res is Ok);
                    }
                },
                LockedAmountOrIds::Ids(s) => {
                    proof {
                        lemma_present_ids_subset_liquid(pre[h as int], s);
                    }
                    let res = table.lock_by_ids(h, s);
                    proof {
                        assert(res is Ok);
                    }
                },
            }
            evidence.push((h, l));
            proof {
                assert forall|j: int|
                    0 <= j < pre.len() && !evidence_has(self.evidence@.take(i + 1), j) implies
                    table.containers@[j] == pre[j] by {
                    assert(!evidence_has(self.evidence@.take(i as int), j));
                }
                assert forall|k: int| 0 <= k < i + 1 implies lock_added(
                    pre[self.evidence@[k].0 as int],
                    table.containers@[self.evidence@[k].0 as int],
                    (#[trigger] self.evidence@[k]).1,
                ) by {
                    if k < i {
                        assert(self.evidence@[k].0 != self.evidence@[i as int].0);
                    }
                }
            }
            i += 1;
        }
        proof {
            assert(self.evidence@.take(self.evidence@.len() as int) =~= self.evidence@);
            lemma_wf_in_after_add(*self, pre, table.containers@);
        }
        let r = Proof {
            resource_def_id: self.resource_def_id,
            resource_type: self.resource_type,
            restricted: self.restricted,
            total_locked: self.total_locked.copied(),
            evidence,
        };
        proof {
            assert(r.wf_in(*table)) by {
                assert forall|k: int| 0 <= k < r.evidence@.len() implies {
                    let e = #[trigger] r.evidence@[k];
                    &&& (e.0 as int) < table.containers@.len()
                    &&& table.containers@[e.0 as int].resource_def_id == r.resource_def_id
                    &&& table.containers@[e.0 as int].resource_type == r.resource_type
                    &&& lock_present(table.containers@[e.0 as int], e.1)
                } by {
                    assert(self.evidence@[k].0 == r.evidence@[k].0);
                    assert(same_locked(r.evidence@[k].1, self.evidence@[k].1));
                    lemma_same_locked_present(
                        table.containers@[r.evidence@[k].0 as int],
                        self.evidence@[k].1,
                        r.evidence@[k].1,
                    );
                }
            }
        }
        r
    }

    /// Disposes of this proof, releasing every evidence lock exactly once.
    pub fn drop(self, table: &mut ContainerTable)
        requires
            old(table).inv(),
            self.wf_in(*old(table)),
        ensures
            final(table).inv(),
            final(table).containers@.len() == old(table).containers@.len(),
            table_locks_removed(old(table).containers@, final(table).containers@, self.evidence@),
    {
        let ghost pre = table.containers@;
        let mut i: usize = 0;
        while i < self.evidence.len()
            invariant
                i <= self.evidence@.len(),
                old(table).inv(),
                self.wf_in(*old(table)),
                pre == old(table).containers@,
                table.inv(),
                table.containers@.len() == pre.len(),
                forall|j: int|
                    0 <= j < pre.len() && !evidence_has(self.evidence@.take(i as int), j)
                        ==> table.containers@[j] == pre[j],
                forall|k: int|
                    0 <= k < i ==> lock_removed(
                        pre[self.evidence@[k].0 as int],
                        table.containers@[self.evidence@[k].0 as int],
                        (#[trigger] self.evidence@[k]).1,
                    ),
            decreases self.evidence@.len() - i,
        {
            let h = self.evidence[i].0;
            proof {
                assert(self.evidence@[i as int].0 == h);
                assert(self.evidence@.take(i + 1)[i as int].0 as int == h as int);
                assert(evidence_has(self.evidence@.take(i + 1), h as int));
                assert(!evidence_has(self.evidence@.take(i as int), h as int)) by {
                    if evidence_has(self.evidence@.take(i as int), h as int) {
                        let k = choose|k: int|
                            0 <= k < i && (self.evidence@.take(i as int)[k]).0 as int == h as int;
                        assert(self.evidence@[k].0 == self.evidence@[i as int].0);
                    }
                }
                assert(table.containers@[h as int] == pre[h as int]);
                assert(lock_type_matches(pre[h as int], self.evidence@[i as int].1));
            }
            let res = table.unlock(h, &self.evidence[i].1);
            proof {
                assert(res is Ok);
                assert forall|j: int|
                    0 <= j < pre.len() && !evidence_has(self.evidence@.take(i + 1), j) implies
                    table.containers@[j] == pre[j] by {
                    assert(!evidence_has(self.evidence@.take(i as int), j));
                }
                assert forall|k: int| 0 <= k < i + 1 implies lock_removed(
                    pre[self.evidence@[k].0 as int],
                    table.containers@[self.evidence@[k].0 as int],
                    (#[trigger] self.evidence@[k]).1,
                ) by {
                    if k < i {
                        assert(self.evidence@[k].0 != self.evidence@[i as int].0);
                    }
                }
            }
            i += 1;
        }
        proof {
            assert(self.evidence@.take(self.evidence@.len() as int) =~= self.evidence@);
        }
    }

    /// Marks the proof as restricted: it may no longer feed composition.
    /// Irreversible for the life of the proof.
    pub fn change_to_restricted(&mut self)
        ensures
            final(self).restricted,
            final(self).resource_def_id == old(self).resource_def_id,
            final(self).resource_type == old(self).resource_type,
            final(self).total_locked == old(self).total_locked,
            final(self).evidence@ == old(self).evidence@,
    {
        self.restricted = true;
    }

    pub fn resource_def_id(&self) -> (r: u64)
        ensures
            r == self.resource_def_id,
    {
        self.resource_def_id
    }

    /// The total locked quantity as an amount; an id set counts its ids.
    pub fn total_amount(&self) -> (r: u128)
        requires
            self.total_locked.inv(),
        ensures
            r == self.total_locked.amount_spec(),
    {
        self.total_locked.amount()
    }

    /// The total locked ids; fails on a fungible proof.
    pub fn total_ids(&self) -> (r: Result<IdSet, ProofError>)
        ensures
            r is Ok <==> self.total_locked is Ids,
            r matches Ok(s) ==> s.ids@ == self.total_locked.ids_seq(),
            r matches Err(e) ==> e == ProofError::NonFungibleOperationNotAllowed,
    {
        match self.total_locked.ids() {
            Option::Some(s) => Result::Ok(s),
            Option::None => Result::Err(ProofError::NonFungibleOperationNotAllowed),
        }
    }

    pub fn is_restricted(&self) -> (r: bool)
        ensures
            r == self.restricted,
    {
        self.restricted
    }
}

/// Some evidence entry names container `j`.
pub open spec fn evidence_has(evidence: Seq<(usize, LockedAmountOrIds)>, j: int) -> bool {
    exists|k: int| 0 <= k < evidence.len() && (#[trigger] evidence[k]).0 as int == j
}

/// `post` is `pre` with, for each evidence entry, one more lock record in
/// that entry's container; containers no entry names are untouched.
pub open spec fn table_locks_added(
    pre: Seq<crate::container::ResourceContainer>,
    post: Seq<crate::container::ResourceContainer>,
    evidence: Seq<(usize, LockedAmountOrIds)>,
) -> bool {
    &&& post.len() == pre.len()
    &&& (forall|j: int| 0 <= j < pre.len() && !evidence_has(evidence, j) ==> post[j] == pre[j])
    &&& (forall|k: int|
        0 <= k < evidence.len() ==> lock_added(
            pre[(#[trigger] evidence[k]).0 as int],
            post[evidence[k].0 as int],
            evidence[k].1,
        ))
}

/// `post` is `pre` with, for each evidence entry, one lock record released
/// from that entry's container; containers no entry names are untouched.
pub open spec fn table_locks_removed(
    pre: Seq<crate::container::ResourceContainer>,
    post: Seq<crate::container::ResourceContainer>,
    evidence: Seq<(usize, LockedAmountOrIds)>,
) -> bool {
    &&& post.len() == pre.len()
    &&& (forall|j: int| 0 <= j < pre.len() && !evidence_has(evidence, j) ==> post[j] == pre[j])
    &&& (forall|k: int|
        0 <= k < evidence.len() ==> lock_removed(
            pre[(#[trigger] evidence[k]).0 as int],
            post[evidence[k].0 as int],
            evidence[k].1,
        ))
}

/// If every id of a held record is covered by a lock, those ids are in the
/// container's id set (locks are only ever taken on present ids).
proof fn lemma_present_ids_subset_liquid(c: crate::container::ResourceContainer, s: &IdSet)
    requires
        c.inv(),
        lock_present(c, LockedAmountOrIds::Ids(*s)),
    ensures
        s.set().subset_of(c.liquid_ids.set()),
{
    assert forall|id: u64| s.set().contains(id) implies c.liquid_ids.set().contains(id) by {
        assert(c.id_lock_count_spec(id) >= 1);
        assert(c.locked_ids@.to_multiset().count(id) > 0);
        assert(c.locked_ids@.contains(id));
        let k = choose|k: int| 0 <= k < c.locked_ids@.len() && c.locked_ids@[k] == id;
        assert(c.liquid_ids.set().contains(c.locked_ids@[k]));
    }
}

/// Two records with the same contents are covered by the same lock counts.
proof fn lemma_same_locked_present(
    c: crate::container::ResourceContainer,
    a: LockedAmountOrIds,
    b: LockedAmountOrIds,
)
    requires
        same_locked(b, a),
        lock_present(c, a),
    ensures
        lock_present(c, b),
{
    match b {
        LockedAmountOrIds::Amount(x) => {
            assert(a is Amount && a.amount_spec() == x);
        },
        LockedAmountOrIds::Ids(s) => {
            assert(a is Ids);
            assert forall|id: u64| s.ids@.to_set().contains(id) implies c.id_lock_count_spec(id)
                >= 1 by {
                assert(a.ids_seq().to_set().contains(id));
            }
        },
    }
}

/// A proof stays backed after its own locks are added once more: counts only
/// grew.
proof fn lemma_wf_in_after_add(
    p: Proof,
    pre: Seq<crate::container::ResourceContainer>,
    post: Seq<crate::container::ResourceContainer>,
)
    requires
        p.wf(),
        forall|k: int|
            0 <= k < p.evidence@.len() ==> {
                let e = #[trigger] p.evidence@[k];
                &&& (e.0 as int) < pre.len()
                &&& pre[e.0 as int].resource_def_id == p.resource_def_id
                &&& pre[e.0 as int].resource_type == p.resource_type
                &&& lock_present(pre[e.0 as int], e.1)
            },
        table_locks_added(pre, post, p.evidence@),
    ensures
        forall|k: int|
            0 <= k < p.evidence@.len() ==> {
                let e = #[trigger] p.evidence@[k];
                &&& (e.0 as int) < post.len()
                &&& post[e.0 as int].resource_def_id == p.resource_def_id
                &&& post[e.0 as int].resource_type == p.resource_type
                &&& lock_present(post[e.0 as int], e.1)
            },
{
    assert forall|k: int| 0 <= k < p.evidence@.len() implies {
        let e = #[trigger] p.evidence@[k];
        &&& (e.0 as int) < post.len()
        &&& post[e.0 as int].resource_def_id == p.resource_def_id
        &&& post[e.0 as int].resource_type == p.resource_type
        &&& lock_present(post[e.0 as int], e.1)
    } by {
        let e = p.evidence@[k];
        assert(lock_added(pre[e.0 as int], post[e.0 as int], e.1));
        match e.1 {
            LockedAmountOrIds::Amount(x) => {
                assert(post[e.0 as int].amount_lock_count_spec(x) >= 1);
            },
            LockedAmountOrIds::Ids(s) => {
                assert forall|id: u64| s.ids@.to_set().contains(id) implies post[e.0 as int]
                    .id_lock_count_spec(id) >= 1 by {
                    assert(post[e.0 as int].id_lock_count_spec(id) == pre[e.0 as int]
                        .id_lock_count_spec(id) + 1);
                }
            },
        }
    }
}


/// The proof contributes to an aggregate over this resource: it matches the
/// resource and is not restricted.
pub open spec fn proof_matches(p: Proof, resource_def_id: u64) -> bool {
    p.resource_def_id == resource_def_id && !p.restricted
}

/// Evidence entries reduced to (container, amount) pairs.
pub open spec fn amount_entries(evidence: Seq<(usize, LockedAmountOrIds)>) -> Seq<(usize, u128)>
    decreases evidence.len(),
{
    if evidence.len() == 0 {
        Seq::empty()
    } else {
        amount_entries(evidence.drop_last()).push(
            (evidence.last().0, evidence.last().1.amount_spec()),
        )
    }
}

proof fn lemma_amount_entries(evidence: Seq<(usize, LockedAmountOrIds)>)
    ensures
        amount_entries(evidence).len() == evidence.len(),
        forall|k: int|
            0 <= k < evidence.len() ==> #[trigger] amount_entries(evidence)[k] == (
                evidence[k].0,
                evidence[k].1.amount_spec(),
            ),
    decreases evidence.len(),
{
    if evidence.len() > 0 {
        lemma_amount_entries(evidence.drop_last());
    }
}

/// Every (container, amount) evidence entry of every matching proof, in
/// proof order.
pub open spec fn flat_amounts(proofs: Seq<Proof>, resource_def_id: u64) -> Seq<(usize, u128)>
    decreases proofs.len(),
{
    if proofs.len() == 0 {
        Seq::empty()
    } else {
        let rest = flat_amounts(proofs.drop_last(), resource_def_id);
        if proof_matches(proofs.last(), resource_def_id) {
            rest + amount_entries(proofs.last().evidence@)
        } else {
            rest
        }
    }
}

/// Some entry names container `c`.
pub open spec fn entries_contain(entries: Seq<(usize, u128)>, c: int) -> bool {
    exists|k: int| 0 <= k < entries.len() && (#[trigger] entries[k]).0 as int == c
}

/// The greatest amount any entry records for container `c`; zero if none
/// does.
pub open spec fn max_amount_for(entries: Seq<(usize, u128)>, c: int) -> u128
    decreases entries.len(),
{
    if entries.len() == 0 {
        0
    } else {
        let m = max_amount_for(entries.drop_last(), c);
        let e = entries.last();
        if e.0 as int == c && e.1 > m {
            e.1
        } else {
            m
        }
    }
}

/// The sum, over every container any entry names, of the greatest amount
/// recorded for it: the aggregate total that avoids double-counting
/// re-attested locks.
pub open spec fn total_max_amount(entries: Seq<(usize, u128)>) -> int
    decreases entries.len(),
{
    if entries.len() == 0 {
        0int
    } else {
        let t = total_max_amount(entries.drop_last());
        let e = entries.last();
        let m = max_amount_for(entries.drop_last(), e.0 as int);
        t + (if e.1 > m {
            e.1 - m
        } else {
            0int
        })
    }
}

/// The sum of the amounts of a per-container list.
pub open spec fn sum_amounts(per: Seq<(usize, u128)>) -> int
    decreases per.len(),
{
    if per.len() == 0 {
        0int
    } else {
        sum_amounts(per.drop_last()) + per.last().1
    }
}

proof fn lemma_max_absent(entries: Seq<(usize, u128)>, c: int)
    requires
        !entries_contain(entries, c),
    ensures
        max_amount_for(entries, c) == 0,
    decreases entries.len(),
{
    if entries.len() > 0 {
        assert(entries.last().0 as int != c) by {
            if entries.last().0 as int == c {
                assert(entries[entries.len() - 1].0 as int == c);
            }
        }
        assert(!entries_contain(entries.drop_last(), c)) by {
            if entries_contain(entries.drop_last(), c) {
                let k = choose|k: int|
                    0 <= k < entries.drop_last().len() && (entries.drop_last()[k]).0 as int == c;
                assert(entries[k].0 as int == c);
            }
        }
        lemma_max_absent(entries.drop_last(), c);
    }
}

proof fn lemma_total_max_prefix(entries: Seq<(usize, u128)>, j: int)
    requires
        0 <= j <= entries.len(),
    ensures
        total_max_amount(entries.take(j)) <= total_max_amount(entries),
    decreases entries.len() - j,
{
    if j == entries.len() {
        assert(entries.take(j) =~= entries);
    } else {
        assert(entries.take(j + 1).drop_last() =~= entries.take(j));
        assert(entries.take(j + 1).last() == entries[j]);
        lemma_total_max_prefix(entries, j + 1);
    }
}

proof fn lemma_sum_update(per: Seq<(usize, u128)>, pos: int, e: (usize, u128))
    requires
        0 <= pos < per.len(),
    ensures
        sum_amounts(per.update(pos, e)) == sum_amounts(per) - per[pos].1 + e.1,
    decreases per.len(),
{
    if pos == per.len() - 1 {
        assert(per.update(pos, e).drop_last() =~= per.drop_last());
        assert(per.update(pos, e).last() == e);
    } else {
        assert(per.update(pos, e).drop_last() =~= per.drop_last().update(pos, e));
        assert(per.update(pos, e).last() == per.last());
        lemma_sum_update(per.drop_last(), pos, e);
    }
}

fn find_per_amount(per: &Vec<(usize, u128)>, c: usize) -> (r: Option<usize>)
    ensures
        match r {
            Option::Some(i) => i < per@.len() && per@[i as int].0 == c,
            Option::None => forall|k: int| 0 <= k < per@.len() ==> (#[trigger] per@[k]).0 != c,
        },
{
    let mut i: usize = 0;
    while i < per.len()
        invariant
            i <= per@.len(),
            forall|k: int| 0 <= k < i ==> (#[trigger] per@[k]).0 != c,
        decreases per@.len() - i,
    {
        if per[i].0 == c {
            return Option::Some(i);
        }
        i += 1;
    }
    Option::None
}

/// Computes, per container, the greatest amount any matching proof has
/// locked there, and the sum of those maxima.
pub fn compute_max_amounts(proofs: &Vec<Proof>, resource_def_id: u64) -> (r: (
    u128,
    Vec<(usize, u128)>,
))
    requires
        forall|i: int| 0 <= i < proofs@.len() ==> (#[trigger] proofs@[i]).wf(),
        total_max_amount(flat_amounts(proofs@, resource_def_id)) <= u128::MAX,
    ensures
        ({
            let fl = flat_amounts(proofs@, resource_def_id);
            &&& r.0 as int == total_max_amount(fl)
            &&& r.0 as int == sum_amounts(r.1@)
            &&& (forall|k1: int, k2: int|
                0 <= k1 < k2 < r.1@.len() ==> (#[trigger] r.1@[k1]).0 != (#[trigger] r.1@[k2]).0)
            &&& (forall|k: int|
                0 <= k < r.1@.len() ==> entries_contain(fl, (#[trigger] r.1@[k]).0 as int)
                    && r.1@[k].1 == max_amount_for(fl, r.1@[k].0 as int))
            &&& (forall|c: int|
                entries_contain(fl, c) ==> exists|k: int|
                    0 <= k < r.1@.len() && (#[trigger] r.1@[k]).0 as int == c)
        }),
{
    let ghost fl = flat_amounts(proofs@, resource_def_id);

    // Flatten the evidence of every matching proof.
    let mut flat: Vec<(usize, u128)> = Vec::new();
    let mut i: usize = 0;
    while i < proofs.len()
        invariant
            i <= proofs@.len(),
            forall|t: int| 0 <= t < proofs@.len() ==> (#[trigger] proofs@[t]).wf(),
            flat@ == flat_amounts(proofs@.take(i as int), resource_def_id),
        decreases proofs@.len() - i,
    {
        proof {
            assert(proofs@.take(i + 1).drop_last() =~= proofs@.take(i as int));
            assert(proofs@.take(i + 1).last() == proofs@[i as int]);
        }
        let p = &proofs[i];
        if p.resource_def_id == resource_def_id && !p.is_restricted() {
            let mut j: usize = 0;
            while j < p.evidence.len()
                invariant
                    j <= p.evidence@.len(),
                    p.wf(),
                    flat@ == flat_amounts(proofs@.take(i as int), resource_def_id)
                        + amount_entries(p.evidence@.take(j as int)),
                decreases p.evidence@.len() - j,
            {
                proof {
                    assert(p.evidence@.take(j + 1).drop_last() =~= p.evidence@.take(j as int));
                    assert(p.evidence@.take(j + 1).last() == p.evidence@[j as int]);
                }
                let entry_amount = p.evidence[j].1.amount();
                flat.push((p.evidence[j].0, entry_amount));
                proof {
                    assert(flat@ =~= flat_amounts(proofs@.take(i as int), resource_def_id)
                        + amount_entries(p.evidence@.take(j + 1)));
                }
                j += 1;
            }
            proof {
                assert(p.evidence@.take(p.evidence@.len() as int) =~= p.evidence@);
                assert(proof_matches(proofs@[i as int], resource_def_id));
            }
        } else {
            proof {
                assert(flat@ =~= flat_amounts(proofs@.take(i as int), resource_def_id)
                    + Seq::<(usize, u128)>::empty());
            }
        }
        i += 1;
    }
    proof {
        assert(proofs@.take(proofs@.len() as int) =~= proofs@);
        assert(flat@ == fl);
    }

    // Merge: keep the maximum per container, and the running sum of maxima.
    let mut per: Vec<(usize, u128)> = Vec::new();
    let mut total: u128 = 0;
    let mut j: usize = 0;
    while j < flat.len()
        invariant
            j <= flat@.len(),
            flat@ == fl,
            total_max_amount(fl) <= u128::MAX,
            (forall|k1: int, k2: int|
                0 <= k1 < k2 < per@.len() ==> (#[trigger] per@[k1]).0 != (#[trigger] per@[k2]).0),
            forall|k: int|
                0 <= k < per@.len() ==> entries_contain(fl.take(j as int), (#[trigger] per@[k]).0 as int)
                    && per@[k].1 == max_amount_for(fl.take(j as int), per@[k].0 as int),
            forall|c: int|
                entries_contain(fl.take(j as int), c) ==> exists|k: int|
                    0 <= k < per@.len() && (#[trigger] per@[k]).0 as int == c,
            total as int == total_max_amount(fl.take(j as int)),
            total as int == sum_amounts(per@),
        decreases flat@.len() - j,
    {
        let c = flat[j].0;
        let a = flat[j].1;
        proof {
            assert(fl.take(j + 1).drop_last() =~= fl.take(j as int));
            assert(fl.take(j + 1).last() == fl[j as int]);
            lemma_total_max_prefix(fl, j + 1);
        }
        match find_per_amount(&per, c) {
            Option::Some(pos) => {
                let m = per[pos].1;
                let ghost per0 = per@;
                if a > m {
                    total = total + (a - m);
                    let e = &mut per[pos];
                    e.1 = a;
                    proof {
                        assert(per@ =~= per0.update(pos as int, (c, a)));
                        lemma_sum_update(per0, pos as int, (c, a));
                    }
                }
                proof {
                    assert forall|k: int|
                        0 <= k < per@.len() implies entries_contain(
                        fl.take(j + 1),
                        (#[trigger] per@[k]).0 as int,
                    ) && per@[k].1 == max_amount_for(fl.take(j + 1), per@[k].0 as int) by {
                        let kc = per@[k].0 as int;
                        assert(entries_contain(fl.take(j as int), per0[k].0 as int));
                        let w = choose|w: int|
                            0 <= w < fl.take(j as int).len() && (fl.take(j as int)[w]).0 as int
                                == per0[k].0 as int;
                        assert((fl.take(j + 1)[w]).0 as int == kc);
                        if k == pos {
                            assert(per0[k].1 == max_amount_for(fl.take(j as int), kc));
                        } else {
                            assert(per@[k] == per0[k]);
                            assert(per@[pos as int].0 == c);
                            assert(kc != c as int);
                        }
                    }
                    assert forall|cx: int| #[trigger] entries_contain(fl.take(j + 1), cx) implies exists|k: int|
                        0 <= k < per@.len() && (#[trigger] per@[k]).0 as int == cx by {
                        let w = choose|w: int|
                            0 <= w < fl.take(j + 1).len() && (#[trigger] fl.take(j + 1)[w]).0 as int
                                == cx;
                        if w < j {
                            assert((fl.take(j as int)[w]).0 as int == cx);
                            assert(entries_contain(fl.take(j as int), cx));
                            let k = choose|k: int|
                                0 <= k < per0.len() && (#[trigger] per0[k]).0 as int == cx;
                            assert(per@[k].0 as int == cx);
                        } else {
                            assert(cx == c as int);
                            assert(per@[pos as int].0 as int == cx);
                        }
                    }
                }
            },
            Option::None => {
                proof {
                    assert(!entries_contain(fl.take(j as int), c as int)) by {
                        if entries_contain(fl.take(j as int), c as int) {
                            let k = choose|k: int|
                                0 <= k < per@.len() && (#[trigger] per@[k]).0 as int == c as int;
                            assert(per@[k].0 == c);
                        }
                    }
                    lemma_max_absent(fl.take(j as int), c as int);
                }
                let ghost per0 = per@;
                total = total + a;
                per.push((c, a));
                proof {
                    assert(per@.drop_last() =~= per0);
                    assert forall|k: int|
                        0 <= k < per@.len() implies entries_contain(
                        fl.take(j + 1),
                        (#[trigger] per@[k]).0 as int,
                    ) && per@[k].1 == max_amount_for(fl.take(j + 1), per@[k].0 as int) by {
                        let kc = per@[k].0 as int;
                        if k < per0.len() {
                            assert(per@[k] == per0[k]);
                            assert(entries_contain(fl.take(j as int), kc));
                            let w = choose|w: int|
                                0 <= w < fl.take(j as int).len() && (fl.take(j as int)[w]).0 as int
                                    == kc;
                            assert((fl.take(j + 1)[w]).0 as int == kc);
                            assert(kc != c as int);
                        } else {
                            assert(per@[k] == (c, a));
                            assert((fl.take(j + 1)[j as int]).0 as int == c as int);
                        }
                    }
                    assert forall|cx: int| #[trigger] entries_contain(fl.take(j + 1), cx) implies exists|k: int|
                        0 <= k < per@.len() && (#[trigger] per@[k]).0 as int == cx by {
                        let w = choose|w: int|
                            0 <= w < fl.take(j + 1).len() && (#[trigger] fl.take(j + 1)[w]).0 as int
                                == cx;
                        if w < j {
                            assert((fl.take(j as int)[w]).0 as int == cx);
                            assert(entries_contain(fl.take(j as int), cx));
                            let k = choose|k: int|
                                0 <= k < per0.len() && (#[trigger] per0[k]).0 as int == cx;
                            assert(per@[k].0 as int == cx);
                        } else {
                            assert(cx == c as int);
                            assert(per@[per@.len() - 1].0 as int == cx);
                        }
                    }
                }
            },
        }
        j += 1;
    }
    proof {
        assert(fl.take(fl.len() as int) =~= fl);
    }
    (total, per)
}


/// Evidence entries reduced to (container, ids) pairs.
pub open spec fn id_entries(evidence: Seq<(usize, LockedAmountOrIds)>) -> Seq<(usize, Seq<u64>)>
    decreases evidence.len(),
{
    if evidence.len() == 0 {
        Seq::empty()
    } else {
        id_entries(evidence.drop_last()).push((evidence.last().0, evidence.last().1.ids_seq()))
    }
}

proof fn lemma_id_entries(evidence: Seq<(usize, LockedAmountOrIds)>)
    ensures
        id_entries(evidence).len() == evidence.len(),
        forall|k: int|
            0 <= k < evidence.len() ==> #[trigger] id_entries(evidence)[k] == (
                evidence[k].0,
                evidence[k].1.ids_seq(),
            ),
    decreases evidence.len(),
{
    if evidence.len() > 0 {
        lemma_id_entries(evidence.drop_last());
    }
}

/// Every (container, ids) evidence entry of every matching proof, in proof
/// order.
pub open spec fn flat_id_entries(proofs: Seq<Proof>, resource_def_id: u64) -> Seq<(usize, Seq<u64>)>
    decreases proofs.len(),
{
    if proofs.len() == 0 {
        Seq::empty()
    } else {
        let rest = flat_id_entries(proofs.drop_last(), resource_def_id);
        if proof_matches(proofs.last(), resource_def_id) {
            rest + id_entries(proofs.last().evidence@)
        } else {
            rest
        }
    }
}

/// Some entry names container `c`.
pub open spec fn id_entries_contain(entries: Seq<(usize, Seq<u64>)>, c: int) -> bool {
    exists|k: int| 0 <= k < entries.len() && (#[trigger] entries[k]).0 as int == c
}

/// The union of the ids every entry records for container `c`.
pub open spec fn union_ids_for(entries: Seq<(usize, Seq<u64>)>, c: int) -> Set<u64>
    decreases entries.len(),
{
    if entries.len() == 0 {
        Set::empty()
    } else {
        let rest = union_ids_for(entries.drop_last(), c);
        if entries.last().0 as int == c {
            rest.union(entries.last().1.to_set())
        } else {
            rest
        }
    }
}

/// The union of the ids of every entry: the aggregate id set.
pub open spec fn union_all_ids(entries: Seq<(usize, Seq<u64>)>) -> Set<u64>
    decreases entries.len(),
{
    if entries.len() == 0 {
        Set::empty()
    } else {
        union_all_ids(entries.drop_last()).union(entries.last().1.to_set())
    }
}

/// The union of the id sets of a per-container list.
pub open spec fn union_per_sets(per: Seq<(usize, IdSet)>) -> Set<u64>
    decreases per.len(),
{
    if per.len() == 0 {
        Set::empty()
    } else {
        union_per_sets(per.drop_last()).union(per.last().1.set())
    }
}

proof fn lemma_union_absent(entries: Seq<(usize, Seq<u64>)>, c: int)
    requires
        !id_entries_contain(entries, c),
    ensures
        union_ids_for(entries, c) == Set::<u64>::empty(),
    decreases entries.len(),
{
    if entries.len() > 0 {
        assert(entries.last().0 as int != c) by {
            if entries.last().0 as int == c {
                assert(entries[entries.len() - 1].0 as int == c);
            }
        }
        assert(!id_entries_contain(entries.drop_last(), c)) by {
            if id_entries_contain(entries.drop_last(), c) {
                let k = choose|k: int|
                    0 <= k < entries.drop_last().len() && (#[trigger] entries.drop_last()[k]).0
                        as int == c;
                assert(entries[k].0 as int == c);
            }
        }
        lemma_union_absent(entries.drop_last(), c);
    }
}

proof fn lemma_union_per_update(per: Seq<(usize, IdSet)>, pos: int, e: (usize, IdSet))
    requires
        0 <= pos < per.len(),
        per[pos].1.set().subset_of(e.1.set()),
    ensures
        union_per_sets(per.update(pos, e)) =~= union_per_sets(per).union(e.1.set()),
    decreases per.len(),
{
    if pos == per.len() - 1 {
        assert(per.update(pos, e).drop_last() =~= per.drop_last());
        assert(per.update(pos, e).last() == e);
    } else {
        assert(per.update(pos, e).drop_last() =~= per.drop_last().update(pos, e));
        assert(per.update(pos, e).last() == per.last());
        lemma_union_per_update(per.drop_last(), pos, e);
    }
}

proof fn lemma_union_per_member(per: Seq<(usize, IdSet)>, k: int)
    requires
        0 <= k < per.len(),
    ensures
        per[k].1.set().subset_of(union_per_sets(per)),
    decreases per.len(),
{
    if k == per.len() - 1 {
    } else {
        lemma_union_per_member(per.drop_last(), k);
    }
}

fn find_per_ids(per: &Vec<(usize, IdSet)>, c: usize) -> (r: Option<usize>)
    ensures
        match r {
            Option::Some(i) => i < per@.len() && per@[i as int].0 == c,
            Option::None => forall|k: int| 0 <= k < per@.len() ==> (#[trigger] per@[k]).0 != c,
        },
{
    let mut i: usize = 0;
    while i < per.len()
        invariant
            i <= per@.len(),
            forall|k: int| 0 <= k < i ==> (#[trigger] per@[k]).0 != c,
        decreases per@.len() - i,
    {
        if per[i].0 == c {
            return Option::Some(i);
        }
        i += 1;
    }
    Option::None
}

/// Computes, per container, the union of the ids matching proofs have
/// locked there, and the union of those unions.
#[verifier::rlimit(60)]
#[verifier::spinoff_prover]
pub fn compute_union_ids(proofs: &Vec<Proof>, resource_def_id: u64) -> (r: (
    IdSet,
    Vec<(usize, IdSet)>,
))
    requires
        forall|i: int| 0 <= i < proofs@.len() ==> (#[trigger] proofs@[i]).wf(),
    ensures
        ({
            let fl = flat_id_entries(proofs@, resource_def_id);
            &&& r.0.inv()
            &&& r.0.set() == union_all_ids(fl)
            &&& r.0.set() == union_per_sets(r.1@)
            &&& (forall|k1: int, k2: int|
                0 <= k1 < k2 < r.1@.len() ==> (#[trigger] r.1@[k1]).0 != (#[trigger] r.1@[k2]).0)
            &&& (forall|k: int|
                0 <= k < r.1@.len() ==> (#[trigger] r.1@[k]).1.inv() && id_entries_contain(
                    fl,
                    r.1@[k].0 as int,
                ) && r.1@[k].1.set() == union_ids_for(fl, r.1@[k].0 as int))
            &&& (forall|c: int|
                id_entries_contain(fl, c) ==> exists|k: int|
                    0 <= k < r.1@.len() && (#[trigger] r.1@[k]).0 as int == c)
        }),
{
    let ghost fl = flat_id_entries(proofs@, resource_def_id);

    // Flatten the evidence of every matching proof.
    let mut flat: Vec<(usize, IdSet)> = Vec::new();
    let mut i: usize = 0;
    while i < proofs.len()
        invariant
            i <= proofs@.len(),
            forall|t: int| 0 <= t < proofs@.len() ==> (#[trigger] proofs@[t]).wf(),
            flat@.len() == flat_id_entries(proofs@.take(i as int), resource_def_id).len(),
            forall|k: int|
                0 <= k < flat@.len() ==> {
                    let fe = flat_id_entries(proofs@.take(i as int), resource_def_id)[k];
                    &&& (#[trigger] flat@[k]).0 == fe.0
                    &&& flat@[k].1.ids@ == fe.1
                    &&& flat@[k].1.inv()
                },
        decreases proofs@.len() - i,
    {
        proof {
            assert(proofs@.take(i + 1).drop_last() =~= proofs@.take(i as int));
            assert(proofs@.take(i + 1).last() == proofs@[i as int]);
        }
        let p = &proofs[i];
        if p.resource_def_id == resource_def_id && !p.is_restricted() {
            proof {
                lemma_id_entries(p.evidence@);
            }
            let mut j: usize = 0;
            while j < p.evidence.len()
                invariant
                    j <= p.evidence@.len(),
                    p.wf(),
                    p == &proofs@[i as int],
                    0 <= i < proofs@.len(),
                    proof_matches(proofs@[i as int], resource_def_id),
                    flat@.len() == flat_id_entries(proofs@.take(i as int), resource_def_id).len()
                        + j,
                    flat_id_entries(proofs@.take(i + 1), resource_def_id)
                        == flat_id_entries(proofs@.take(i as int), resource_def_id) + id_entries(
                        p.evidence@,
                    ),
                    forall|k: int|
                        0 <= k < flat@.len() ==> {
                            let fe = flat_id_entries(proofs@.take(i + 1), resource_def_id)[k];
                            &&& (#[trigger] flat@[k]).0 == fe.0
                            &&& flat@[k].1.ids@ == fe.1
                            &&& flat@[k].1.inv()
                        },
                decreases p.evidence@.len() - j,
            {
                proof {
                    lemma_id_entries(p.evidence@);
                }
                match &p.evidence[j].1 {
                    LockedAmountOrIds::Ids(entry_ids) => {
                        flat.push((p.evidence[j].0, entry_ids.copied()));
                    },
                    LockedAmountOrIds::Amount(_) => {
                        flat.push((p.evidence[j].0, IdSet::new()));
                    },
                }
                j += 1;
            }
            proof {
                assert(flat@.len() == flat_id_entries(proofs@.take(i + 1), resource_def_id).len());
            }
        } else {
            proof {
                assert(flat_id_entries(proofs@.take(i + 1), resource_def_id)
                    =~= flat_id_entries(proofs@.take(i as int), resource_def_id));
            }
        }
        i += 1;
    }
    proof {
        assert(proofs@.take(proofs@.len() as int) =~= proofs@);
    }

    // Merge: union per container, and the running union of everything.
    let mut per: Vec<(usize, IdSet)> = Vec::new();
    let mut total = IdSet::new();
    let mut j: usize = 0;
    proof {
        assert(flat@.len() == fl.len());
    }
    while j < flat.len()
        invariant
            j <= flat@.len(),
            flat@.len() == fl.len(),
            forall|k: int|
                0 <= k < flat@.len() ==> (#[trigger] flat@[k]).0 == fl[k].0 && flat@[k].1.ids@
                    == fl[k].1 && flat@[k].1.inv(),
            (forall|k1: int, k2: int|
                0 <= k1 < k2 < per@.len() ==> (#[trigger] per@[k1]).0 != (#[trigger] per@[k2]).0),
            forall|k: int|
                0 <= k < per@.len() ==> (#[trigger] per@[k]).1.inv() && id_entries_contain(
                    fl.take(j as int),
                    per@[k].0 as int,
                ) && per@[k].1.set() == union_ids_for(fl.take(j as int), per@[k].0 as int),
            forall|c: int|
                id_entries_contain(fl.take(j as int), c) ==> exists|k: int|
                    0 <= k < per@.len() && (#[trigger] per@[k]).0 as int == c,
            total.inv(),
            total.set() == union_all_ids(fl.take(j as int)),
            total.set() == union_per_sets(per@),
        decreases flat@.len() - j,
    {
        let c = flat[j].0;
        proof {
            assert(fl.take(j + 1).drop_last() =~= fl.take(j as int));
            assert(fl.take(j + 1).last() == fl[j as int]);
            assert(flat@[j as int].1.ids@ == fl[j as int].1);
        }
        total.union_with(&flat[j].1);
        proof {
            assert(total.set() =~= union_all_ids(fl.take(j + 1)));
        }
        match find_per_ids(&per, c) {
            Option::Some(pos) => {
                let ghost per0 = per@;
                let ghost oldset = per@[pos as int].1.set();
                let e = &mut per[pos];
                e.1.union_with(&flat[j].1);
                proof {
                    assert(per@ =~= per0.update(pos as int, per@[pos as int]));
                    assert(per@[pos as int].1.set() =~= union_ids_for(fl.take(j + 1), c as int));
                    lemma_union_per_update(per0, pos as int, per@[pos as int]);
                    lemma_union_per_member(per0, pos as int);
                    assert(union_per_sets(per@) =~= union_per_sets(per0).union(
                        per@[pos as int].1.set(),
                    ));
                    assert(total.set() =~= union_per_sets(per@));
                    assert forall|k: int|
                        0 <= k < per@.len() implies (#[trigger] per@[k]).1.inv()
                        && id_entries_contain(fl.take(j + 1), per@[k].0 as int) && per@[k].1.set()
                        == union_ids_for(fl.take(j + 1), per@[k].0 as int) by {
                        let kc = per@[k].0 as int;
                        assert(id_entries_contain(fl.take(j as int), per0[k].0 as int));
                        let w = choose|w: int|
                            0 <= w < fl.take(j as int).len() && (#[trigger] fl.take(j as int)[w]).0
                                as int == per0[k].0 as int;
                        assert((fl.take(j + 1)[w]).0 as int == kc);
                        if k != pos {
                            assert(per@[k] == per0[k]);
                            assert(per@[pos as int].0 == c);
                            assert(kc != c as int);
                        }
                    }
                    assert forall|cx: int| #[trigger] id_entries_contain(fl.take(j + 1), cx) implies
                        exists|k: int| 0 <= k < per@.len() && (#[trigger] per@[k]).0 as int == cx by {
                        let w = choose|w: int|
                            0 <= w < fl.take(j + 1).len() && (#[trigger] fl.take(j + 1)[w]).0 as int
                                == cx;
                        if w < j {
                            assert((fl.take(j as int)[w]).0 as int == cx);
                            assert(id_entries_contain(fl.take(j as int), cx));
                            let k = choose|k: int|
                                0 <= k < per0.len() && (#[trigger] per0[k]).0 as int == cx;
                            assert(per@[k].0 as int == cx);
                        } else {
                            assert(cx == c as int);
                            assert(per@[pos as int].0 as int == cx);
                        }
                    }
                }
            },
            Option::None => {
                proof {
                    assert(!id_entries_contain(fl.take(j as int), c as int)) by {
                        if id_entries_contain(fl.take(j as int), c as int) {
                            let k = choose|k: int|
                                0 <= k < per@.len() && (#[trigger] per@[k]).0 as int == c as int;
                            assert(per@[k].0 == c);
                        }
                    }
                    lemma_union_absent(fl.take(j as int), c as int);
                }
                let ghost per0 = per@;
                per.push((c, flat[j].1.copied()));
                proof {
                    assert(per@.drop_last() =~= per0);
                    assert(per@.last().1.set() =~= union_ids_for(fl.take(j + 1), c as int));
                    assert(total.set() =~= union_per_sets(per@));
                    assert forall|k: int|
                        0 <= k < per@.len() implies (#[trigger] per@[k]).1.inv()
                        && id_entries_contain(fl.take(j + 1), per@[k].0 as int) && per@[k].1.set()
                        == union_ids_for(fl.take(j + 1), per@[k].0 as int) by {
                        let kc = per@[k].0 as int;
                        if k < per0.len() {
                            assert(per@[k] == per0[k]);
                            assert(id_entries_contain(fl.take(j as int), kc));
                            let w = choose|w: int|
                                0 <= w < fl.take(j as int).len() && (#[trigger] fl.take(
                                    j as int,
                                )[w]).0 as int == kc;
                            assert((fl.take(j + 1)[w]).0 as int == kc);
                            assert(kc != c as int);
                        } else {
                            assert((fl.take(j + 1)[j as int]).0 as int == c as int);
                        }
                    }
                    assert forall|cx: int| #[trigger] id_entries_contain(fl.take(j + 1), cx) implies
                        exists|k: int| 0 <= k < per@.len() && (#[trigger] per@[k]).0 as int == cx by {
                        let w = choose|w: int|
                            0 <= w < fl.take(j + 1).len() && (#[trigger] fl.take(j + 1)[w]).0 as int
                                == cx;
                        if w < j {
                            assert((fl.take(j as int)[w]).0 as int == cx);
                            assert(id_entries_contain(fl.take(j as int), cx));
                            let k = choose|k: int|
                                0 <= k < per0.len() && (#[trigger] per0[k]).0 as int == cx;
                            assert(per@[k].0 as int == cx);
                        } else {
                            assert(cx == c as int);
                            assert(per@[per@.len() - 1].0 as int == cx);
                        }
                    }
                }
            },
        }
        j += 1;
    }
    proof {
        assert(fl.take(fl.len() as int) =~= fl);
    }
    (total, per)
}


/// Every flat amount entry comes from a matching proof's evidence.
proof fn lemma_flat_amount_entry_source(proofs: Seq<Proof>, resource_def_id: u64, w: int)
    requires
        0 <= w < flat_amounts(proofs, resource_def_id).len(),
    ensures
        exists|i: int, k: int|
            {
                &&& 0 <= i < proofs.len()
                &&& #[trigger] proof_matches(proofs[i], resource_def_id)
                &&& 0 <= k < proofs[i].evidence@.len()
                &&& flat_amounts(proofs, resource_def_id)[w] == (
                    (#[trigger] proofs[i].evidence@[k]).0,
                    proofs[i].evidence@[k].1.amount_spec(),
                )
            },
    decreases proofs.len(),
{
    let fl = flat_amounts(proofs, resource_def_id);
    let rest = flat_amounts(proofs.drop_last(), resource_def_id);
    if proof_matches(proofs.last(), resource_def_id) {
        lemma_amount_entries(proofs.last().evidence@);
        if w < rest.len() {
            lemma_flat_amount_entry_source(proofs.drop_last(), resource_def_id, w);
            let (i, k) = choose|i: int, k: int|
                {
                    &&& 0 <= i < proofs.drop_last().len()
                    &&& #[trigger] proof_matches(proofs.drop_last()[i], resource_def_id)
                    &&& 0 <= k < proofs.drop_last()[i].evidence@.len()
                    &&& rest[w] == (
                        (#[trigger] proofs.drop_last()[i].evidence@[k]).0,
                        proofs.drop_last()[i].evidence@[k].1.amount_spec(),
                    )
                };
            assert(proofs[i] == proofs.drop_last()[i]);
            assert(proof_matches(proofs[i], resource_def_id));
            assert(fl[w] == (proofs[i].evidence@[k].0, proofs[i].evidence@[k].1.amount_spec()));
        } else {
            let i = proofs.len() - 1;
            let k = w - rest.len();
            assert(proofs[i] == proofs.last());
            assert(fl[w] == amount_entries(proofs.last().evidence@)[k]);
            assert(fl[w] == (proofs[i].evidence@[k].0, proofs[i].evidence@[k].1.amount_spec()));
        }
    } else {
        lemma_flat_amount_entry_source(proofs.drop_last(), resource_def_id, w);
        let (i, k) = choose|i: int, k: int|
            {
                &&& 0 <= i < proofs.drop_last().len()
                &&& #[trigger] proof_matches(proofs.drop_last()[i], resource_def_id)
                &&& 0 <= k < proofs.drop_last()[i].evidence@.len()
                &&& rest[w] == (
                    (#[trigger] proofs.drop_last()[i].evidence@[k]).0,
                    proofs.drop_last()[i].evidence@[k].1.amount_spec(),
                )
            };
        assert(proofs[i] == proofs.drop_last()[i]);
        assert(proof_matches(proofs[i], resource_def_id));
        assert(fl[w] == (proofs[i].evidence@[k].0, proofs[i].evidence@[k].1.amount_spec()));
    }
}

/// A container some flat amount entry names is, in a table every matching
/// proof is backed by, a fungible container of the requested resource.
proof fn lemma_contained_amount_container(
    proofs: Seq<Proof>,
    resource_def_id: u64,
    resource_type: ResourceType,
    table: ContainerTable,
    c: int,
)
    requires
        entries_contain(flat_amounts(proofs, resource_def_id), c),
        forall|i: int|
            0 <= i < proofs.len() && #[trigger] proof_matches(proofs[i], resource_def_id)
                ==> proofs[i].resource_type == resource_type && proofs[i].wf_in(table),
    ensures
        0 <= c < table.containers@.len(),
        table.containers@[c].resource_def_id == resource_def_id,
        table.containers@[c].resource_type == resource_type,
{
    let fl = flat_amounts(proofs, resource_def_id);
    let w = choose|w: int| 0 <= w < fl.len() && (#[trigger] fl[w]).0 as int == c;
    lemma_flat_amount_entry_source(proofs, resource_def_id, w);
    let (i, k) = choose|i: int, k: int|
        {
            &&& 0 <= i < proofs.len()
            &&& #[trigger] proof_matches(proofs[i], resource_def_id)
            &&& 0 <= k < proofs[i].evidence@.len()
            &&& fl[w] == (
                (#[trigger] proofs[i].evidence@[k]).0,
                proofs[i].evidence@[k].1.amount_spec(),
            )
        };
    assert(proofs[i].wf_in(table));
    assert(proofs[i].evidence@[k].0 as int == c);
}

impl Proof {
    /// Computes the locked amount or non-fungible ids, in total and per
    /// container, over the proofs that match the resource and are not
    /// restricted.
    ///
    /// Per container the maximum amount (or id-set union) is kept, not the
    /// sum: overlapping proofs re-attest to the same locked units, and
    /// summing would double-count them. The total sums (or unions) those
    /// per-container maxima.
    pub fn compute_total_locked(
        proofs: &Vec<Proof>,
        resource_def_id: u64,
        resource_type: ResourceType,
    ) -> (r: (LockedAmountOrIds, Vec<(usize, LockedAmountOrIds)>))
        requires
            forall|i: int| 0 <= i < proofs@.len() ==> (#[trigger] proofs@[i]).wf(),
            forall|i: int|
                0 <= i < proofs@.len() && #[trigger] proof_matches(proofs@[i], resource_def_id)
                    ==> proofs@[i].resource_type == resource_type,
            resource_type.is_fungible_spec() ==> total_max_amount(
                flat_amounts(proofs@, resource_def_id),
            ) <= u128::MAX,
        ensures
            resource_type.is_fungible_spec() ==> ({
                let fl = flat_amounts(proofs@, resource_def_id);
                &&& r.0 is Amount
                &&& r.0.amount_spec() as int == total_max_amount(fl)
                &&& (forall|k1: int, k2: int|
                    0 <= k1 < k2 < r.1@.len() ==> (#[trigger] r.1@[k1]).0 != (
                    #[trigger] r.1@[k2]).0)
                &&& (forall|k: int|
                    0 <= k < r.1@.len() ==> (#[trigger] r.1@[k]).1 is Amount && entries_contain(
                        fl,
                        r.1@[k].0 as int,
                    ) && r.1@[k].1.amount_spec() == max_amount_for(fl, r.1@[k].0 as int))
                &&& (forall|c: int|
                    entries_contain(fl, c) ==> exists|k: int|
                        0 <= k < r.1@.len() && (#[trigger] r.1@[k]).0 as int == c)
            }),
            !resource_type.is_fungible_spec() ==> ({
                let fl = flat_id_entries(proofs@, resource_def_id);
                &&& r.0 is Ids
                &&& r.0.inv()
                &&& r.0.ids_set() == union_all_ids(fl)
                &&& (forall|k1: int, k2: int|
                    0 <= k1 < k2 < r.1@.len() ==> (#[trigger] r.1@[k1]).0 != (
                    #[trigger] r.1@[k2]).0)
                &&& (forall|k: int|
                    0 <= k < r.1@.len() ==> (#[trigger] r.1@[k]).1 is Ids && r.1@[k].1.inv()
                        && id_entries_contain(fl, r.1@[k].0 as int) && r.1@[k].1.ids_set()
                        == union_ids_for(fl, r.1@[k].0 as int))
                &&& (forall|c: int|
                    id_entries_contain(fl, c) ==> exists|k: int|
                        0 <= k < r.1@.len() && (#[trigger] r.1@[k]).0 as int == c)
            }),
    {
        if resource_type.is_fungible() {
            let (total, per) = compute_max_amounts(proofs, resource_def_id);
            let mut wrapped: Vec<(usize, LockedAmountOrIds)> = Vec::new();
            let mut k: usize = 0;
            while k < per.len()
                invariant
                    k <= per@.len(),
                    wrapped@.len() == k,
                    forall|t: int|
                        0 <= t < k ==> (#[trigger] wrapped@[t]).0 == per@[t].0 && wrapped@[t].1
                            == LockedAmountOrIds::Amount(per@[t].1),
                decreases per@.len() - k,
            {
                wrapped.push((per[k].0, LockedAmountOrIds::Amount(per[k].1)));
                k += 1;
            }
            proof {
                let fl = flat_amounts(proofs@, resource_def_id);
                assert forall|c: int| entries_contain(fl, c) implies exists|t: int|
                    0 <= t < wrapped@.len() && (#[trigger] wrapped@[t]).0 as int == c by {
                    let t = choose|t: int|
                        0 <= t < per@.len() && (#[trigger] per@[t]).0 as int == c;
                    assert(wrapped@[t].0 as int == c);
                }
            }
            (LockedAmountOrIds::Amount(total), wrapped)
        } else {
            let (total, per) = compute_union_ids(proofs, resource_def_id);
            let mut wrapped: Vec<(usize, LockedAmountOrIds)> = Vec::new();
            let mut k: usize = 0;
            while k < per.len()
                invariant
                    k <= per@.len(),
                    wrapped@.len() == k,
                    forall|t: int|
                        0 <= t < per@.len() ==> (#[trigger] per@[t]).1.inv(),
                    forall|t: int|
                        0 <= t < k ==> (#[trigger] wrapped@[t]).0 == per@[t].0 && wrapped@[t].1
                            is Ids && wrapped@[t].1.inv() && wrapped@[t].1.ids_seq()
                            == per@[t].1.ids@,
                decreases per@.len() - k,
            {
                wrapped.push((per[k].0, LockedAmountOrIds::Ids(per[k].1.copied())));
                k += 1;
            }
            proof {
                let fl = flat_id_entries(proofs@, resource_def_id);
                assert forall|c: int| id_entries_contain(fl, c) implies exists|t: int|
                    0 <= t < wrapped@.len() && (#[trigger] wrapped@[t]).0 as int == c by {
                    let t = choose|t: int|
                        0 <= t < per@.len() && (#[trigger] per@[t]).0 as int == c;
                    assert(wrapped@[t].0 as int == c);
                }
                assert forall|t: int|
                    0 <= t < wrapped@.len() implies (#[trigger] wrapped@[t]).1.ids_set()
                    == union_ids_for(fl, wrapped@[t].0 as int) by {
                    assert(wrapped@[t].1.ids_seq() == per@[t].1.ids@);
                    assert(per@[t].1.set() == union_ids_for(fl, per@[t].0 as int));
                }
            }
            (LockedAmountOrIds::Ids(total), wrapped)
        }
    }

    /// Derives a new fungible proof covering exactly `amount`, locking each
    /// selected container for the share it contributes; no container is
    /// asked for more than its own per-container maximum.
    pub fn compose_by_amount(
        proofs: &Vec<Proof>,
        amount: u128,
        resource_def_id: u64,
        resource_type: ResourceType,
        table: &mut ContainerTable,
    ) -> (r: Result<Proof, ProofError>)
        requires
            old(table).inv(),
            forall|i: int| 0 <= i < proofs@.len() ==> (#[trigger] proofs@[i]).wf(),
            forall|i: int|
                0 <= i < proofs@.len() && #[trigger] proof_matches(proofs@[i], resource_def_id)
                    ==> proofs@[i].resource_type == resource_type && proofs@[i].wf_in(*old(table)),
            resource_type.is_fungible_spec() ==> total_max_amount(
                flat_amounts(proofs@, resource_def_id),
            ) <= u128::MAX,
        ensures
            final(table).inv(),
            final(table).containers@.len() == old(table).containers@.len(),
            ({
                let fl = flat_amounts(proofs@, resource_def_id);
                let total = total_max_amount(fl);
                &&& (r is Ok <==> resource_type.is_fungible_spec() && 0 < amount && amount
                    <= total)
                &&& (r matches Err(e) ==> e == (if !resource_type.is_fungible_spec() {
                    ProofError::FungibleOperationNotAllowed
                } else if amount as int > total {
                    ProofError::InsufficientBaseProofs
                } else {
                    ProofError::EmptyProofNotAllowed
                }))
                &&& (r is Err ==> final(table).containers@ == old(table).containers@)
                &&& (r matches Ok(p) ==> {
                    &&& p.wf_in(*final(table))
                    &&& p.resource_def_id == resource_def_id
                    &&& p.resource_type == resource_type
                    &&& !p.restricted
                    &&& p.total_locked is Amount
                    &&& p.total_locked.amount_spec() == amount
                    &&& sum_amounts(amount_entries(p.evidence@)) == amount as int
                    &&& (forall|k: int|
                        0 <= k < p.evidence@.len() ==> (#[trigger] p.evidence@[k]).1 is Amount
                            && entries_contain(fl, p.evidence@[k].0 as int)
                            && p.evidence@[k].1.amount_spec() <= max_amount_for(
                            fl,
                            p.evidence@[k].0 as int,
                        ))
                    &&& table_locks_added(
                        old(table).containers@,
                        final(table).containers@,
                        p.evidence@,
                    )
                })
            }),
    {
        if !resource_type.is_fungible() {
            return Result::Err(ProofError::FungibleOperationNotAllowed);
        }
        let ghost fl = flat_amounts(proofs@, resource_def_id);
        let (total, per) = compute_max_amounts(proofs, resource_def_id);
        if amount > total {
            return Result::Err(ProofError::InsufficientBaseProofs);
        }
        if amount == 0 {
            return Result::Err(ProofError::EmptyProofNotAllowed);
        }
        let ghost pre = table.containers@;
        let mut evidence: Vec<(usize, LockedAmountOrIds)> = Vec::new();
        let mut remaining: u128 = amount;
        let mut k: usize = 0;
        while k < per.len() && remaining > 0
            invariant
                k <= per@.len(),
                resource_type.is_fungible_spec(),
                amount <= total,
                total as int == sum_amounts(per@),
                (forall|k1: int, k2: int|
                    0 <= k1 < k2 < per@.len() ==> (#[trigger] per@[k1]).0 != (
                    #[trigger] per@[k2]).0),
                forall|t: int|
                    0 <= t < per@.len() ==> entries_contain(fl, (#[trigger] per@[t]).0 as int)
                        && per@[t].1 == max_amount_for(fl, per@[t].0 as int),
                forall|i: int|
                    0 <= i < proofs@.len() && #[trigger] proof_matches(proofs@[i], resource_def_id)
                        ==> proofs@[i].resource_type == resource_type && proofs@[i].wf_in(
                        *old(table),
                    ),
                fl == flat_amounts(proofs@, resource_def_id),
                total as int == total_max_amount(fl),
                pre == old(table).containers@,
                old(table).inv(),
                table.inv(),
                table.containers@.len() == pre.len(),
                table_locks_added(pre, table.containers@, evidence@),
                remaining <= amount,
                remaining as int == (if amount as int - sum_amounts(per@.take(k as int)) > 0 {
                    amount as int - sum_amounts(per@.take(k as int))
                } else {
                    0int
                }),
                sum_amounts(amount_entries(evidence@)) == amount as int - remaining as int,
                (forall|e1: int, e2: int|
                    0 <= e1 < e2 < evidence@.len() ==> (#[trigger] evidence@[e1]).0 != (
                    #[trigger] evidence@[e2]).0),
                forall|e: int|
                    0 <= e < evidence@.len() ==> (#[trigger] evidence@[e]).1 is Amount
                        && evidence@[e].1.amount_spec() > 0 && entries_contain(
                        fl,
                        evidence@[e].0 as int,
                    ) && evidence@[e].1.amount_spec() <= max_amount_for(fl, evidence@[e].0 as int)
                        && (exists|t: int|
                        0 <= t < k && (#[trigger] per@[t]).0 == evidence@[e].0),
            decreases per@.len() - k,
        {
            let c = per[k].0;
            let m = per[k].1;
            proof {
                assert(per@.take(k + 1).drop_last() =~= per@.take(k as int));
                assert(per@.take(k + 1).last() == per@[k as int]);
                lemma_amount_entries(evidence@);
            }
            let take_amt = if remaining > m {
                m
            } else {
                remaining
            };
            if take_amt > 0 {
                proof {
                    assert(per@[k as int].0 == c);
                    assert(entries_contain(fl, c as int));
                    lemma_contained_amount_container(
                        proofs@,
                        resource_def_id,
                        resource_type,
                        *old(table),
                        c as int,
                    );
                    assert(!evidence_has(evidence@, c as int)) by {
                        if evidence_has(evidence@, c as int) {
                            let e = choose|e: int|
                                0 <= e < evidence@.len() && (#[trigger] evidence@[e]).0 as int
                                    == c as int;
                            let t = choose|t: int|
                                0 <= t < k && (#[trigger] per@[t]).0 == evidence@[e].0;
                            assert(per@[t].0 == per@[k as int].0);
                        }
                    }
                    assert(table.containers@[c as int] == pre[c as int]);
                }
                let ghost ev0 = evidence@;
                let ghost tb = table.containers@;
                let res = table.lock_by_amount(c, take_amt);
                proof {
                    assert(res is Ok);
                    assert(crate::container::table_same_except(tb, table.containers@, c as int));
                    assert(table_locks_added(pre, tb, ev0));
                }
                evidence.push((c, LockedAmountOrIds::Amount(take_amt)));
                remaining = remaining - take_amt;
                proof {
                    lemma_amount_entries(evidence@);
                    assert(amount_entries(evidence@).drop_last() =~= amount_entries(ev0));
                    assert(sum_amounts(amount_entries(evidence@)) == sum_amounts(
                        amount_entries(ev0),
                    ) + take_amt);
                    assert forall|j: int|
                        0 <= j < pre.len() && !evidence_has(evidence@, j) implies
                        table.containers@[j] == pre[j] by {
                        assert(!evidence_has(ev0, j)) by {
                            if evidence_has(ev0, j) {
                                let e = choose|e: int|
                                    0 <= e < ev0.len() && (#[trigger] ev0[e]).0 as int == j;
                                assert((evidence@[e]).0 as int == j);
                            }
                        }
                        assert(j != c as int);
                    }
                    assert forall|e: int| 0 <= e < evidence@.len() implies lock_added(
                        pre[(#[trigger] evidence@[e]).0 as int],
                        table.containers@[evidence@[e].0 as int],
                        evidence@[e].1,
                    ) by {
                        if e < ev0.len() {
                            assert(evidence@[e] == ev0[e]);
                            let t = choose|t: int|
                                0 <= t < k && (#[trigger] per@[t]).0 == ev0[e].0;
                            assert(per@[t].0 != per@[k as int].0);
                            assert(evidence@[e].0 != c);
                            assert(entries_contain(fl, ev0[e].0 as int));
                            lemma_contained_amount_container(
                                proofs@,
                                resource_def_id,
                                resource_type,
                                *old(table),
                                ev0[e].0 as int,
                            );
                            assert((ev0[e].0 as int) < tb.len());
                            assert(lock_added(pre[ev0[e].0 as int], tb[ev0[e].0 as int], ev0[e].1));
                            assert(table.containers@[ev0[e].0 as int] == tb[ev0[e].0 as int]);
                        } else {
                            assert(evidence@[e] == (c, LockedAmountOrIds::Amount(take_amt)));
                            assert(tb[c as int] == pre[c as int]);
                        }
                    }
                    assert(evidence_has(evidence@, c as int)) by {
                        assert((evidence@[evidence@.len() - 1]).0 as int == c as int);
                    }
                }
            } else {
                proof {
                    lemma_amount_entries(evidence@);
                }
            }
            k += 1;
        }
        proof {
            if k == per@.len() {
                assert(per@.take(k as int) =~= per@);
            }
            assert(remaining == 0);
        }
        let total_locked = LockedAmountOrIds::Amount(amount);
        match Proof::new(resource_def_id, resource_type, false, total_locked, evidence) {
            Result::Ok(p) => {
                proof {
                    assert(p.wf());
                    assert(p.wf_in(*table)) by {
                        assert forall|e: int| 0 <= e < p.evidence@.len() implies {
                            let en = #[trigger] p.evidence@[e];
                            &&& (en.0 as int) < table.containers@.len()
                            &&& table.containers@[en.0 as int].resource_def_id == resource_def_id
                            &&& table.containers@[en.0 as int].resource_type == resource_type
                            &&& lock_present(table.containers@[en.0 as int], en.1)
                        } by {
                            assert(p.evidence@[e] == evidence@[e]);
                            assert(entries_contain(fl, evidence@[e].0 as int));
                            lemma_contained_amount_container(
                                proofs@,
                                resource_def_id,
                                resource_type,
                                *old(table),
                                p.evidence@[e].0 as int,
                            );
                            assert(lock_added(
                                pre[p.evidence@[e].0 as int],
                                table.containers@[p.evidence@[e].0 as int],
                                p.evidence@[e].1,
                            ));
                        }
                    }
                }
                Result::Ok(p)
            },
            Result::Err(e) => {
                proof {
                    assert(false);
                }
                Result::Err(e)
            },
        }
    }
}


/// Every flat id entry comes from a matching proof's evidence.
proof fn lemma_flat_id_entry_source(proofs: Seq<Proof>, resource_def_id: u64, w: int)
    requires
        0 <= w < flat_id_entries(proofs, resource_def_id).len(),
    ensures
        exists|i: int, k: int|
            {
                &&& 0 <= i < proofs.len()
                &&& #[trigger] proof_matches(proofs[i], resource_def_id)
                &&& 0 <= k < proofs[i].evidence@.len()
                &&& flat_id_entries(proofs, resource_def_id)[w] == (
                    (#[trigger] proofs[i].evidence@[k]).0,
                    proofs[i].evidence@[k].1.ids_seq(),
                )
            },
    decreases proofs.len(),
{
    let fl = flat_id_entries(proofs, resource_def_id);
    let rest = flat_id_entries(proofs.drop_last(), resource_def_id);
    if proof_matches(proofs.last(), resource_def_id) {
        lemma_id_entries(proofs.last().evidence@);
        if w < rest.len() {
            lemma_flat_id_entry_source(proofs.drop_last(), resource_def_id, w);
            let (i, k) = choose|i: int, k: int|
                {
                    &&& 0 <= i < proofs.drop_last().len()
                    &&& #[trigger] proof_matches(proofs.drop_last()[i], resource_def_id)
                    &&& 0 <= k < proofs.drop_last()[i].evidence@.len()
                    &&& rest[w] == (
                        (#[trigger] proofs.drop_last()[i].evidence@[k]).0,
                        proofs.drop_last()[i].evidence@[k].1.ids_seq(),
                    )
                };
            assert(proofs[i] == proofs.drop_last()[i]);
            assert(proof_matches(proofs[i], resource_def_id));
            assert(fl[w] == (proofs[i].evidence@[k].0, proofs[i].evidence@[k].1.ids_seq()));
        } else {
            let i = proofs.len() - 1;
            let k = w - rest.len();
            assert(proofs[i] == proofs.last());
            assert(fl[w] == id_entries(proofs.last().evidence@)[k]);
            assert(fl[w] == (proofs[i].evidence@[k].0, proofs[i].evidence@[k].1.ids_seq()));
        }
    } else {
        lemma_flat_id_entry_source(proofs.drop_last(), resource_def_id, w);
        let (i, k) = choose|i: int, k: int|
            {
                &&& 0 <= i < proofs.drop_last().len()
                &&& #[trigger] proof_matches(proofs.drop_last()[i], resource_def_id)
                &&& 0 <= k < proofs.drop_last()[i].evidence@.len()
                &&& rest[w] == (
                    (#[trigger] proofs.drop_last()[i].evidence@[k]).0,
                    proofs.drop_last()[i].evidence@[k].1.ids_seq(),
                )
            };
        assert(proofs[i] == proofs.drop_last()[i]);
        assert(proof_matches(proofs[i], resource_def_id));
        assert(fl[w] == (proofs[i].evidence@[k].0, proofs[i].evidence@[k].1.ids_seq()));
    }
}

/// A container some flat id entry names is, in a table every matching proof
/// is backed by, a non-fungible container of the requested resource.
proof fn lemma_contained_id_container(
    proofs: Seq<Proof>,
    resource_def_id: u64,
    resource_type: ResourceType,
    table: ContainerTable,
    c: int,
)
    requires
        id_entries_contain(flat_id_entries(proofs, resource_def_id), c),
        forall|i: int|
            0 <= i < proofs.len() && #[trigger] proof_matches(proofs[i], resource_def_id)
                ==> proofs[i].resource_type == resource_type && proofs[i].wf_in(table),
    ensures
        0 <= c < table.containers@.len(),
        table.containers@[c].resource_def_id == resource_def_id,
        table.containers@[c].resource_type == resource_type,
{
    let fl = flat_id_entries(proofs, resource_def_id);
    let w = choose|w: int| 0 <= w < fl.len() && (#[trigger] fl[w]).0 as int == c;
    lemma_flat_id_entry_source(proofs, resource_def_id, w);
    let (i, k) = choose|i: int, k: int|
        {
            &&& 0 <= i < proofs.len()
            &&& #[trigger] proof_matches(proofs[i], resource_def_id)
            &&& 0 <= k < proofs[i].evidence@.len()
            &&& fl[w] == ((#[trigger] proofs[i].evidence@[k]).0, proofs[i].evidence@[k].1.ids_seq())
        };
    assert(proofs[i].wf_in(table));
    assert(proofs[i].evidence@[k].0 as int == c);
}

/// An id in a per-container union comes from some entry for that container.
proof fn lemma_union_ids_member(entries: Seq<(usize, Seq<u64>)>, c: int, id: u64)
    requires
        union_ids_for(entries, c).contains(id),
    ensures
        exists|w: int|
            0 <= w < entries.len() && (#[trigger] entries[w]).0 as int == c
                && entries[w].1.to_set().contains(id),
    decreases entries.len(),
{
    let rest = entries.drop_last();
    if entries.last().0 as int == c && entries.last().1.to_set().contains(id) {
        assert((entries[entries.len() - 1]).0 as int == c);
    } else {
        lemma_union_ids_member(rest, c, id);
        let w = choose|w: int|
            0 <= w < rest.len() && (#[trigger] rest[w]).0 as int == c && rest[w].1.to_set()
                .contains(id);
        assert((entries[w]).0 as int == c && entries[w].1.to_set().contains(id));
    }
}

/// Everything the matching proofs have locked in a container is inside that
/// container's own id set: locks are only ever taken on present ids.
proof fn lemma_union_subset_liquid(
    proofs: Seq<Proof>,
    resource_def_id: u64,
    resource_type: ResourceType,
    table: ContainerTable,
    c: int,
)
    requires
        table.inv(),
        0 <= c < table.containers@.len(),
        forall|i: int|
            0 <= i < proofs.len() && #[trigger] proof_matches(proofs[i], resource_def_id)
                ==> proofs[i].resource_type == resource_type && proofs[i].wf_in(table),
    ensures
        union_ids_for(flat_id_entries(proofs, resource_def_id), c).subset_of(
            table.containers@[c].liquid_ids.set(),
        ),
{
    let fl = flat_id_entries(proofs, resource_def_id);
    let cont = table.containers@[c];
    assert forall|id: u64| union_ids_for(fl, c).contains(id) implies cont.liquid_ids.set()
        .contains(id) by {
        lemma_union_ids_member(fl, c, id);
        let w = choose|w: int|
            0 <= w < fl.len() && (#[trigger] fl[w]).0 as int == c && fl[w].1.to_set().contains(id);
        lemma_flat_id_entry_source(proofs, resource_def_id, w);
        let (i, k) = choose|i: int, k: int|
            {
                &&& 0 <= i < proofs.len()
                &&& #[trigger] proof_matches(proofs[i], resource_def_id)
                &&& 0 <= k < proofs[i].evidence@.len()
                &&& fl[w] == (
                    (#[trigger] proofs[i].evidence@[k]).0,
                    proofs[i].evidence@[k].1.ids_seq(),
                )
            };
        assert(proofs[i].wf_in(table));
        let e = proofs[i].evidence@[k];
        assert(lock_present(cont, e.1));
        match e.1 {
            LockedAmountOrIds::Ids(es) => {
                assert(es.ids@.to_set().contains(id));
                assert(cont.id_lock_count_spec(id) >= 1);
                assert(cont.locked_ids@.to_multiset().count(id) > 0);
                assert(cont.locked_ids@.contains(id));
                let m = choose|m: int| 0 <= m < cont.locked_ids@.len() && cont.locked_ids@[m] == id;
                assert(cont.liquid_ids.set().contains(cont.locked_ids@[m]));
            },
            LockedAmountOrIds::Amount(_) => {
                assert(e.1.ids_seq() == Seq::<u64>::empty());
                assert(fl[w].1.to_set().contains(id));
                assert(false);
            },
        }
    }
}

impl Proof {
    /// Derives a new non-fungible proof covering exactly the requested ids,
    /// locking each selected container for the ids it contributes.
    pub fn compose_by_ids(
        proofs: &Vec<Proof>,
        ids: &IdSet,
        resource_def_id: u64,
        resource_type: ResourceType,
        table: &mut ContainerTable,
    ) -> (r: Result<Proof, ProofError>)
        requires
            old(table).inv(),
            ids.inv(),
            forall|i: int| 0 <= i < proofs@.len() ==> (#[trigger] proofs@[i]).wf(),
            forall|i: int|
                0 <= i < proofs@.len() && #[trigger] proof_matches(proofs@[i], resource_def_id)
                    ==> proofs@[i].resource_type == resource_type && proofs@[i].wf_in(*old(table)),
        ensures
            final(table).inv(),
            final(table).containers@.len() == old(table).containers@.len(),
            ({
                let fl = flat_id_entries(proofs@, resource_def_id);
                let total = union_all_ids(fl);
                &&& (r is Ok <==> !resource_type.is_fungible_spec() && !ids.set().is_empty()
                    && ids.set().subset_of(total))
                &&& (r matches Err(e) ==> e == (if resource_type.is_fungible_spec() {
                    ProofError::NonFungibleOperationNotAllowed
                } else if !ids.set().subset_of(total) {
                    ProofError::InsufficientBaseProofs
                } else {
                    ProofError::EmptyProofNotAllowed
                }))
                &&& (r is Err ==> final(table).containers@ == old(table).containers@)
                &&& (r matches Ok(p) ==> {
                    &&& p.wf_in(*final(table))
                    &&& p.resource_def_id == resource_def_id
                    &&& p.resource_type == resource_type
                    &&& !p.restricted
                    &&& p.total_locked is Ids
                    &&& p.total_locked.ids_set() == ids.set()
                    &&& union_all_ids(id_entries(p.evidence@)) == ids.set()
                    &&& (forall|k: int|
                        0 <= k < p.evidence@.len() ==> (#[trigger] p.evidence@[k]).1 is Ids
                            && id_entries_contain(fl, p.evidence@[k].0 as int)
                            && p.evidence@[k].1.ids_set().subset_of(
                            union_ids_for(fl, p.evidence@[k].0 as int),
                        ))
                    &&& table_locks_added(
                        old(table).containers@,
                        final(table).containers@,
                        p.evidence@,
                    )
                })
            }),
    {
        if resource_type.is_fungible() {
            return Result::Err(ProofError::NonFungibleOperationNotAllowed);
        }
        let ghost fl = flat_id_entries(proofs@, resource_def_id);
        let (total, per) = compute_union_ids(proofs, resource_def_id);
        if !ids.is_subset_of(&total) {
            return Result::Err(ProofError::InsufficientBaseProofs);
        }
        if ids.is_empty() {
            return Result::Err(ProofError::EmptyProofNotAllowed);
        }
        let ghost pre = table.containers@;
        let mut evidence: Vec<(usize, LockedAmountOrIds)> = Vec::new();
        let mut remaining = ids.copied();
        let mut k: usize = 0;
        while k < per.len()
            invariant
                k <= per@.len(),
                !resource_type.is_fungible_spec(),
                ids.inv(),
                fl == flat_id_entries(proofs@, resource_def_id),
                total.inv(),
                total.set() == union_all_ids(fl),
                total.set() == union_per_sets(per@),
                ids.set().subset_of(total.set()),
                (forall|k1: int, k2: int|
                    0 <= k1 < k2 < per@.len() ==> (#[trigger] per@[k1]).0 != (
                    #[trigger] per@[k2]).0),
                forall|t: int|
                    0 <= t < per@.len() ==> (#[trigger] per@[t]).1.inv() && id_entries_contain(
                        fl,
                        per@[t].0 as int,
                    ) && per@[t].1.set() == union_ids_for(fl, per@[t].0 as int),
                forall|i: int|
                    0 <= i < proofs@.len() && #[trigger] proof_matches(proofs@[i], resource_def_id)
                        ==> proofs@[i].resource_type == resource_type && proofs@[i].wf_in(
                        *old(table),
                    ),
                pre == old(table).containers@,
                old(table).inv(),
                table.inv(),
                table.containers@.len() == pre.len(),
                table_locks_added(pre, table.containers@, evidence@),
                remaining.inv(),
                remaining.set() == ids.set().difference(union_per_sets(per@.take(k as int))),
                remaining.set().subset_of(ids.set()),
                union_all_ids(id_entries(evidence@)) == ids.set().difference(remaining.set()),
                (forall|e1: int, e2: int|
                    0 <= e1 < e2 < evidence@.len() ==> (#[trigger] evidence@[e1]).0 != (
                    #[trigger] evidence@[e2]).0),
                forall|e: int|
                    0 <= e < evidence@.len() ==> (#[trigger] evidence@[e]).1 is Ids
                        && evidence@[e].1.inv() && id_entries_contain(fl, evidence@[e].0 as int)
                        && evidence@[e].1.ids_set().subset_of(
                        union_ids_for(fl, evidence@[e].0 as int),
                    ) && (exists|t: int| 0 <= t < k && (#[trigger] per@[t]).0 == evidence@[e].0),
            decreases per@.len() - k,
        {
            let c = per[k].0;
            proof {
                assert(per@.take(k + 1).drop_last() =~= per@.take(k as int));
                assert(per@.take(k + 1).last() == per@[k as int]);
            }
            let take_set = remaining.intersect(&per[k].1);
            if !take_set.is_empty() {
                proof {
                    assert(per@[k as int].0 == c);
                    assert(id_entries_contain(fl, c as int));
                    lemma_contained_id_container(
                        proofs@,
                        resource_def_id,
                        resource_type,
                        *old(table),
                        c as int,
                    );
                    lemma_union_subset_liquid(
                        proofs@,
                        resource_def_id,
                        resource_type,
                        *old(table),
                        c as int,
                    );
                    assert(take_set.set().subset_of(pre[c as int].liquid_ids.set()));
                    assert(!evidence_has(evidence@, c as int)) by {
                        if evidence_has(evidence@, c as int) {
                            let e = choose|e: int|
                                0 <= e < evidence@.len() && (#[trigger] evidence@[e]).0 as int
                                    == c as int;
                            let t = choose|t: int|
                                0 <= t < k && (#[trigger] per@[t]).0 == evidence@[e].0;
                            assert(per@[t].0 == per@[k as int].0);
                        }
                    }
                    assert(table.containers@[c as int] == pre[c as int]);
                }
                let ghost ev0 = evidence@;
                let ghost rem0 = remaining;
                let ghost tb = table.containers@;
                let res = table.lock_by_ids(c, &take_set);
                proof {
                    assert(res is Ok);
                    assert(crate::container::table_same_except(tb, table.containers@, c as int));
                    assert(table_locks_added(pre, tb, ev0));
                }
                remaining.remove_all(&take_set);
                evidence.push((c, LockedAmountOrIds::Ids(take_set)));
                proof {
                    assert(evidence@.drop_last() =~= ev0);
                    assert(id_entries(evidence@).drop_last() =~= id_entries(ev0));
                    assert(remaining.set() =~= ids.set().difference(
                        union_per_sets(per@.take(k + 1)),
                    )) by {
                        assert(rem0.set() == ids.set().difference(
                            union_per_sets(per@.take(k as int)),
                        ));
                    }
                    assert(union_all_ids(id_entries(evidence@)) =~= ids.set().difference(
                        remaining.set(),
                    )) by {
                        assert(union_all_ids(id_entries(evidence@)) =~= union_all_ids(
                            id_entries(ev0),
                        ).union(take_set.set()));
                        assert(rem0.set().subset_of(ids.set()));
                    }
                    assert forall|j: int|
                        0 <= j < pre.len() && !evidence_has(evidence@, j) implies
                        table.containers@[j] == pre[j] by {
                        assert(!evidence_has(ev0, j)) by {
                            if evidence_has(ev0, j) {
                                let e = choose|e: int|
                                    0 <= e < ev0.len() && (#[trigger] ev0[e]).0 as int == j;
                                assert((evidence@[e]).0 as int == j);
                            }
                        }
                        assert(j != c as int);
                    }
                    assert forall|e: int| 0 <= e < evidence@.len() implies lock_added(
                        pre[(#[trigger] evidence@[e]).0 as int],
                        table.containers@[evidence@[e].0 as int],
                        evidence@[e].1,
                    ) by {
                        if e < ev0.len() {
                            assert(evidence@[e] == ev0[e]);
                            let t = choose|t: int|
                                0 <= t < k && (#[trigger] per@[t]).0 == ev0[e].0;
                            assert(per@[t].0 != per@[k as int].0);
                            assert(evidence@[e].0 != c);
                            assert(id_entries_contain(fl, ev0[e].0 as int));
                            lemma_contained_id_container(
                                proofs@,
                                resource_def_id,
                                resource_type,
                                *old(table),
                                ev0[e].0 as int,
                            );
                            assert((ev0[e].0 as int) < tb.len());
                            assert(lock_added(pre[ev0[e].0 as int], tb[ev0[e].0 as int], ev0[e].1));
                            assert(table.containers@[ev0[e].0 as int] == tb[ev0[e].0 as int]);
                        } else {
                            assert(tb[c as int] == pre[c as int]);
                        }
                    }
                    assert(evidence_has(evidence@, c as int)) by {
                        assert((evidence@[evidence@.len() - 1]).0 as int == c as int);
                    }
                }
            } else {
                proof {
                    assert(remaining.set().intersect(per@[k as int].1.set()) =~= Set::<
                        u64,
                    >::empty());
                    assert(union_per_sets(per@.take(k + 1)) =~= union_per_sets(
                        per@.take(k as int),
                    ).union(per@[k as int].1.set()));
                    assert forall|x: u64| remaining.set().contains(x) implies !per@[k as int]
                        .1.set().contains(x) by {
                        assert(!remaining.set().intersect(per@[k as int].1.set()).contains(x));
                    }
                    assert(remaining.set() =~= ids.set().difference(
                        union_per_sets(per@.take(k + 1)),
                    ));
                }
            }
            k += 1;
        }
        proof {
            assert(per@.take(per@.len() as int) =~= per@);
            assert(remaining.set() =~= Set::<u64>::empty());
            assert(ids.set().difference(remaining.set()) =~= ids.set());
        }
        let total_locked = LockedAmountOrIds::Ids(ids.copied());
        match Proof::new(resource_def_id, resource_type, false, total_locked, evidence) {
            Result::Ok(p) => {
                proof {
                    assert(!p.total_locked.is_empty_spec());
                    assert(p.wf());
                    assert(p.wf_in(*table)) by {
                        assert forall|e: int| 0 <= e < p.evidence@.len() implies {
                            let en = #[trigger] p.evidence@[e];
                            &&& (en.0 as int) < table.containers@.len()
                            &&& table.containers@[en.0 as int].resource_def_id == resource_def_id
                            &&& table.containers@[en.0 as int].resource_type == resource_type
                            &&& lock_present(table.containers@[en.0 as int], en.1)
                        } by {
                            assert(p.evidence@[e] == evidence@[e]);
                            assert(id_entries_contain(fl, evidence@[e].0 as int));
                            lemma_contained_id_container(
                                proofs@,
                                resource_def_id,
                                resource_type,
                                *old(table),
                                p.evidence@[e].0 as int,
                            );
                            assert(lock_added(
                                pre[p.evidence@[e].0 as int],
                                table.containers@[p.evidence@[e].0 as int],
                                p.evidence@[e].1,
                            ));
                            match p.evidence@[e].1 {
                                LockedAmountOrIds::Ids(es) => {
                                    assert forall|id: u64|
                                        es.ids@.to_set().contains(id) implies table.containers@[
                                        p.evidence@[e].0 as int].id_lock_count_spec(id) >= 1 by {
                                        assert(table.containers@[p.evidence@[e].0 as int]
                                            .id_lock_count_spec(id) == pre[p.evidence@[e].0 as int]
                                            .id_lock_count_spec(id) + 1);
                                    }
                                },
                                LockedAmountOrIds::Amount(_) => {},
                            }
                        }
                    }
                }
                Result::Ok(p)
            },
            Result::Err(e) => {
                proof {
                    assert(false);
                }
                Result::Err(e)
            },
        }
    }

    /// Creates a composite proof covering everything the given proofs
    /// jointly attest to for this resource: the maximum composable proof.
    pub fn compose(
        proofs: &Vec<Proof>,
        resource_def_id: u64,
        resource_type: ResourceType,
        table: &mut ContainerTable,
    ) -> (r: Result<Proof, ProofError>)
        requires
            old(table).inv(),
            forall|i: int| 0 <= i < proofs@.len() ==> (#[trigger] proofs@[i]).wf(),
            forall|i: int|
                0 <= i < proofs@.len() && #[trigger] proof_matches(proofs@[i], resource_def_id)
                    ==> proofs@[i].resource_type == resource_type && proofs@[i].wf_in(*old(table)),
            resource_type.is_fungible_spec() ==> total_max_amount(
                flat_amounts(proofs@, resource_def_id),
            ) <= u128::MAX,
        ensures
            final(table).inv(),
            final(table).containers@.len() == old(table).containers@.len(),
            ({
                let total_a = total_max_amount(flat_amounts(proofs@, resource_def_id));
                let total_i = union_all_ids(flat_id_entries(proofs@, resource_def_id));
                &&& (r is Ok <==> (if resource_type.is_fungible_spec() {
                    total_a > 0
                } else {
                    !total_i.is_empty()
                }))
                &&& (r matches Err(e) ==> e == ProofError::EmptyProofNotAllowed)
                &&& (r is Err ==> final(table).containers@ == old(table).containers@)
                &&& (r matches Ok(p) ==> {
                    &&& p.wf_in(*final(table))
                    &&& p.resource_def_id == resource_def_id
                    &&& p.resource_type == resource_type
                    &&& !p.restricted
                    &&& (resource_type.is_fungible_spec() ==> p.total_locked is Amount
                        && p.total_locked.amount_spec() as int == total_a)
                    &&& (!resource_type.is_fungible_spec() ==> p.total_locked is Ids
                        && p.total_locked.ids_set() == total_i)
                    &&& table_locks_added(
                        old(table).containers@,
                        final(table).containers@,
                        p.evidence@,
                    )
                })
            }),
    {
        if resource_type.is_fungible() {
            let (total, _per) = compute_max_amounts(proofs, resource_def_id);
            Proof::compose_by_amount(proofs, total, resource_def_id, resource_type, table)
        } else {
            let (total, _per) = compute_union_ids(proofs, resource_def_id);
            let r = Proof::compose_by_ids(proofs, &total, resource_def_id, resource_type, table);
            proof {
                if total.set().is_empty() {
                    assert(total.set() =~= Set::<u64>::empty());
                }
            }
            r
        }
    }
}

} // verus!
