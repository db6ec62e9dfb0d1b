//! Laws of the lock accounting: aggregate maxima and unions for overlapping
//! proofs, and round-trip restoration of container lock state.

use vstd::prelude::*;
use crate::container::{
    ResourceContainer, lock_present, lock_removed, same_container_state, same_locks,
};
use crate::ids::IdSet;
use crate::locked::{LockedAmountOrIds, same_locked};
use crate::proofs::{
    Proof, amount_entries, evidence_has, flat_amounts, flat_id_entries, id_entries,
    max_amount_for, proof_matches, table_locks_added, table_locks_removed, total_max_amount,
    union_all_ids, union_ids_for,
};

verus! {

broadcast use vstd::seq_lib::group_seq_properties;

/// For two fungible proofs over the same resource and the same container,
/// with locked amounts `a1` and `a2`, the aggregate per that container is
/// `max(a1, a2)` — not `a1 + a2` — and so is the total: overlapping proofs
/// re-attest to the same locked units.
pub proof fn lemma_overlap_aggregates_max(
    p1: Proof,
    p2: Proof,
    c: usize,
    a1: u128,
    a2: u128,
    resource_def_id: u64,
)
    requires
        proof_matches(p1, resource_def_id),
        proof_matches(p2, resource_def_id),
        p1.evidence@ == seq![(c, LockedAmountOrIds::Amount(a1))],
        p2.evidence@ == seq![(c, LockedAmountOrIds::Amount(a2))],
    ensures
        max_amount_for(flat_amounts(seq![p1, p2], resource_def_id), c as int) == (if a1 > a2 {
            a1
        } else {
            a2
        }),
        total_max_amount(flat_amounts(seq![p1, p2], resource_def_id)) == (if a1 > a2 {
            a1
        } else {
            a2
        }),
{
    reveal_with_fuel(amount_entries, 3);
    reveal_with_fuel(flat_amounts, 3);
    reveal_with_fuel(max_amount_for, 3);
    reveal_with_fuel(total_max_amount, 3);
    let ps = seq![p1, p2];
    assert(ps.drop_last() =~= seq![p1]);
    assert(seq![p1].drop_last() =~= Seq::<Proof>::empty());
    assert(amount_entries(p1.evidence@) =~= seq![(c, a1)]) by {
        assert(p1.evidence@.drop_last() =~= Seq::<(usize, LockedAmountOrIds)>::empty());
        assert(p1.evidence@.last() == (c, LockedAmountOrIds::Amount(a1)));
    }
    assert(amount_entries(p2.evidence@) =~= seq![(c, a2)]) by {
        assert(p2.evidence@.drop_last() =~= Seq::<(usize, LockedAmountOrIds)>::empty());
        assert(p2.evidence@.last() == (c, LockedAmountOrIds::Amount(a2)));
    }
    let fl = flat_amounts(ps, resource_def_id);
    assert(flat_amounts(seq![p1], resource_def_id) =~= seq![(c, a1)]);
    assert(fl =~= seq![(c, a1), (c, a2)]);
    assert(fl.drop_last() =~= seq![(c, a1)]);
    assert(seq![(c, a1)].drop_last() =~= Seq::<(usize, u128)>::empty());
}

/// For two non-fungible proofs over the same resource and the same
/// container, with locked id sets `s1` and `s2`, the aggregate per that
/// container — and the total — is the union `s1 ∪ s2`.
pub proof fn lemma_overlap_aggregates_union(
    p1: Proof,
    p2: Proof,
    c: usize,
    s1: IdSet,
    s2: IdSet,
    resource_def_id: u64,
)
    requires
        proof_matches(p1, resource_def_id),
        proof_matches(p2, resource_def_id),
        p1.evidence@ == seq![(c, LockedAmountOrIds::Ids(s1))],
        p2.evidence@ == seq![(c, LockedAmountOrIds::Ids(s2))],
    ensures
        union_ids_for(flat_id_entries(seq![p1, p2], resource_def_id), c as int) =~= s1.set().union(
            s2.set(),
        ),
        union_all_ids(flat_id_entries(seq![p1, p2], resource_def_id)) =~= s1.set().union(s2.set()),
{
    reveal_with_fuel(id_entries, 3);
    reveal_with_fuel(flat_id_entries, 3);
    reveal_with_fuel(union_ids_for, 3);
    reveal_with_fuel(union_all_ids, 3);
    let ps = seq![p1, p2];
    assert(ps.drop_last() =~= seq![p1]);
    assert(seq![p1].drop_last() =~= Seq::<Proof>::empty());
    assert(id_entries(p1.evidence@) =~= seq![(c, s1.ids@)]) by {
        assert(p1.evidence@.drop_last() =~= Seq::<(usize, LockedAmountOrIds)>::empty());
        assert(p1.evidence@.last() == (c, LockedAmountOrIds::Ids(s1)));
    }
    assert(id_entries(p2.evidence@) =~= seq![(c, s2.ids@)]) by {
        assert(p2.evidence@.drop_last() =~= Seq::<(usize, LockedAmountOrIds)>::empty());
        assert(p2.evidence@.last() == (c, LockedAmountOrIds::Ids(s2)));
    }
    let fl = flat_id_entries(ps, resource_def_id);
    assert(flat_id_entries(seq![p1], resource_def_id) =~= seq![(c, s1.ids@)]);
    assert(fl =~= seq![(c, s1.ids@), (c, s2.ids@)]);
    assert(fl.drop_last() =~= seq![(c, s1.ids@)]);
    assert(seq![(c, s1.ids@)].drop_last() =~= Seq::<(usize, Seq<u64>)>::empty());
}

/// Locking a proof's evidence and then releasing it — composing and then
/// dropping the result — leaves every container's balance and lock counts
/// exactly as they were.
pub proof fn lemma_compose_drop_round_trip(
    pre: Seq<ResourceContainer>,
    mid: Seq<ResourceContainer>,
    post: Seq<ResourceContainer>,
    p: Proof,
)
    requires
        p.wf(),
        table_locks_added(pre, mid, p.evidence@),
        table_locks_removed(mid, post, p.evidence@),
    ensures
        post.len() == pre.len(),
        forall|j: int| 0 <= j < pre.len() ==> same_container_state(post[j], pre[j]),
{
    assert forall|j: int| 0 <= j < pre.len() implies same_container_state(post[j], pre[j]) by {
        if evidence_has(p.evidence@, j) {
            let k = choose|k: int|
                0 <= k < p.evidence@.len() && (#[trigger] p.evidence@[k]).0 as int == j;
            let l = p.evidence@[k].1;
            assert(crate::container::lock_added(pre[j], mid[j], l));
            assert(lock_removed(mid[j], post[j], l));
            match l {
                LockedAmountOrIds::Amount(a) => {
                    assert(post[j].locked_amounts@.to_multiset() =~= pre[j].locked_amounts@
                        .to_multiset());
                    assert(post[j].locked_ids@.to_multiset() =~= pre[j].locked_ids@.to_multiset());
                },
                LockedAmountOrIds::Ids(s) => {
                    assert(post[j].locked_amounts@.to_multiset() =~= pre[j].locked_amounts@
                        .to_multiset());
                    assert forall|id: u64|
                        post[j].id_lock_count_spec(id) == pre[j].id_lock_count_spec(id) by {}
                    assert(post[j].locked_ids@.to_multiset() =~= pre[j].locked_ids@.to_multiset())
                        by {
                        assert forall|id: u64|
                            post[j].locked_ids@.to_multiset().count(id) == pre[j].locked_ids@
                                .to_multiset().count(id) by {
                            assert(post[j].id_lock_count_spec(id) == pre[j].id_lock_count_spec(
                                id,
                            ));
                        }
                    }
                },
            }
        } else {
            assert(mid[j] == pre[j]);
            assert(post[j] == mid[j]);
        }
    }
}

/// Cloning a proof locks its evidence once more; dropping the clone — whose
/// evidence holds the same containers and quantities — releases exactly
/// those locks again, so every container returns to its pre-clone state,
/// and in particular the original proof's own lock records are intact.
pub proof fn lemma_clone_drop_round_trip(
    pre: Seq<ResourceContainer>,
    mid: Seq<ResourceContainer>,
    post: Seq<ResourceContainer>,
    original: Proof,
    copy: Proof,
)
    requires
        original.wf(),
        copy.evidence@.len() == original.evidence@.len(),
        forall|k: int|
            0 <= k < original.evidence@.len() ==> (#[trigger] copy.evidence@[k]).0
                == original.evidence@[k].0 && same_locked(
                copy.evidence@[k].1,
                original.evidence@[k].1,
            ),
        forall|k: int|
            0 <= k < original.evidence@.len() ==> ((#[trigger] original.evidence@[k]).0 as int)
                < pre.len() && lock_present(
                pre[original.evidence@[k].0 as int],
                original.evidence@[k].1,
            ),
        table_locks_added(pre, mid, original.evidence@),
        table_locks_removed(mid, post, copy.evidence@),
    ensures
        post.len() == pre.len(),
        forall|j: int| 0 <= j < pre.len() ==> same_container_state(post[j], pre[j]),
        forall|k: int|
            0 <= k < original.evidence@.len() ==> lock_present(
                post[(#[trigger] original.evidence@[k]).0 as int],
                original.evidence@[k].1,
            ),
{
    assert(table_locks_removed(mid, post, original.evidence@)) by {
        assert forall|j: int|
            0 <= j < mid.len() && !evidence_has(original.evidence@, j) implies post[j] == mid[j] by {
            assert(!evidence_has(copy.evidence@, j)) by {
                if evidence_has(copy.evidence@, j) {
                    let k = choose|k: int|
                        0 <= k < copy.evidence@.len() && (#[trigger] copy.evidence@[k]).0 as int
                            == j;
                    assert((original.evidence@[k]).0 as int == j);
                }
            }
        }
        assert forall|k: int| 0 <= k < original.evidence@.len() implies lock_removed(
            mid[(#[trigger] original.evidence@[k]).0 as int],
            post[original.evidence@[k].0 as int],
            original.evidence@[k].1,
        ) by {
            assert(lock_removed(
                mid[copy.evidence@[k].0 as int],
                post[copy.evidence@[k].0 as int],
                copy.evidence@[k].1,
            ));
            assert(same_locked(copy.evidence@[k].1, original.evidence@[k].1));
            match original.evidence@[k].1 {
                LockedAmountOrIds::Amount(a) => {
                    assert(copy.evidence@[k].1 is Amount);
                    assert(copy.evidence@[k].1.amount_spec() == a);
                },
                LockedAmountOrIds::Ids(s) => {
                    assert(copy.evidence@[k].1 is Ids);
                    assert(copy.evidence@[k].1.ids_seq() == s.ids@);
                },
            }
        }
    }
    lemma_compose_drop_round_trip(pre, mid, post, original);
    assert forall|k: int| 0 <= k < original.evidence@.len() implies lock_present(
        post[(#[trigger] original.evidence@[k]).0 as int],
        original.evidence@[k].1,
    ) by {
        let j = original.evidence@[k].0 as int;
        let l = original.evidence@[k].1;
        assert(same_container_state(post[j], pre[j]));
        match l {
            LockedAmountOrIds::Amount(a) => {
                assert(post[j].amount_lock_count_spec(a) == pre[j].amount_lock_count_spec(a)) by {
                    assert(same_locks(post[j], pre[j]));
                }
            },
            LockedAmountOrIds::Ids(s) => {
                assert forall|id: u64| s.ids@.to_set().contains(id) implies post[j]
                    .id_lock_count_spec(id) >= 1 by {
                    assert(same_locks(post[j], pre[j]));
                    assert(post[j].id_lock_count_spec(id) == pre[j].id_lock_count_spec(id));
                }
            },
        }
    }
}


/// A proof that does not match the aggregation — it is restricted, or it is
/// over another resource — contributes nothing to the aggregate: restricted
/// proofs can only be exercised directly, never used to derive new proofs.
pub proof fn lemma_non_matching_does_not_contribute(
    proofs: Seq<Proof>,
    p: Proof,
    resource_def_id: u64,
)
    requires
        !proof_matches(p, resource_def_id),
    ensures
        flat_amounts(proofs.push(p), resource_def_id) == flat_amounts(proofs, resource_def_id),
        flat_id_entries(proofs.push(p), resource_def_id) == flat_id_entries(
            proofs,
            resource_def_id,
        ),
{
    assert(proofs.push(p).drop_last() =~= proofs);
    assert(proofs.push(p).last() == p);
}

} // verus!
