use resource_auth::container::{ContainerTable, ResourceContainer, ResourceContainerError};
use resource_auth::ids::IdSet;
use resource_auth::locked::{LockedAmountOrIds, ResourceType};
use resource_auth::proofs::{Proof, ProofError};

const FUNGIBLE: ResourceType = ResourceType::Fungible { divisibility: 18 };

fn fungible_proof(table: &mut ContainerTable, h: usize, rid: u64, amount: u128) -> Proof {
    table.lock_by_amount(h, amount).unwrap();
    Proof::new(
        rid,
        FUNGIBLE,
        false,
        LockedAmountOrIds::Amount(amount),
        vec![(h, LockedAmountOrIds::Amount(amount))],
    )
    .unwrap()
}

fn non_fungible_proof(table: &mut ContainerTable, h: usize, rid: u64, ids: Vec<u64>) -> Proof {
    let set = IdSet::from_ids(ids);
    table.lock_by_ids(h, &set).unwrap();
    Proof::new(
        rid,
        ResourceType::NonFungible,
        false,
        LockedAmountOrIds::Ids(set.copied()),
        vec![(h, LockedAmountOrIds::Ids(set))],
    )
    .unwrap()
}

#[test]
fn zero_amount_proof_is_rejected() {
    let r = Proof::new(
        7,
        FUNGIBLE,
        false,
        LockedAmountOrIds::Amount(0),
        Vec::new(),
    );
    assert_eq!(r.unwrap_err(), ProofError::EmptyProofNotAllowed);
}

#[test]
fn empty_id_set_proof_is_rejected() {
    let r = Proof::new(
        7,
        ResourceType::NonFungible,
        false,
        LockedAmountOrIds::Ids(IdSet::new()),
        Vec::new(),
    );
    assert_eq!(r.unwrap_err(), ProofError::EmptyProofNotAllowed);
}

#[test]
fn overlapping_fungible_proofs_aggregate_to_max_not_sum() {
    let mut table = ContainerTable::new();
    let h = table.add(ResourceContainer::new_fungible(1, 18, 100));
    let p1 = fungible_proof(&mut table, h, 1, 30);
    let p2 = fungible_proof(&mut table, h, 1, 50);
    let proofs = vec![p1, p2];
    let (total, per) = Proof::compute_total_locked(&proofs, 1, FUNGIBLE);
    assert_eq!(total.amount(), 50);
    assert_eq!(per.len(), 1);
    assert_eq!(per[0].0, h);
    assert_eq!(per[0].1.amount(), 50);
}

#[test]
fn fungible_proofs_in_different_containers_sum_their_maxima() {
    let mut table = ContainerTable::new();
    let h1 = table.add(ResourceContainer::new_fungible(1, 18, 100));
    let h2 = table.add(ResourceContainer::new_fungible(1, 18, 100));
    let p1 = fungible_proof(&mut table, h1, 1, 30);
    let p2 = fungible_proof(&mut table, h2, 1, 50);
    let proofs = vec![p1, p2];
    let (total, per) = Proof::compute_total_locked(&proofs, 1, FUNGIBLE);
    assert_eq!(total.amount(), 80);
    assert_eq!(per.len(), 2);
}

#[test]
fn overlapping_non_fungible_proofs_aggregate_to_union() {
    let mut table = ContainerTable::new();
    let h = table.add(ResourceContainer::new_non_fungible(
        2,
        IdSet::from_ids(vec![10, 11, 12, 13]),
    ));
    let p1 = non_fungible_proof(&mut table, h, 2, vec![10, 11]);
    let p2 = non_fungible_proof(&mut table, h, 2, vec![11, 12]);
    let proofs = vec![p1, p2];
    let (total, _per) = Proof::compute_total_locked(&proofs, 2, ResourceType::NonFungible);
    let ids = total.ids().unwrap();
    assert_eq!(ids.len(), 3);
    assert!(ids.contains(10) && ids.contains(11) && ids.contains(12));
    assert!(!ids.contains(13));
}

#[test]
fn restricted_proofs_do_not_contribute() {
    let mut table = ContainerTable::new();
    let h = table.add(ResourceContainer::new_fungible(1, 18, 100));
    let p1 = fungible_proof(&mut table, h, 1, 30);
    let mut p2 = fungible_proof(&mut table, h, 1, 50);
    p2.change_to_restricted();
    assert!(p2.is_restricted());
    let proofs = vec![p1, p2];
    let (total, _) = Proof::compute_total_locked(&proofs, 1, FUNGIBLE);
    assert_eq!(total.amount(), 30);
}

#[test]
fn other_resources_do_not_contribute() {
    let mut table = ContainerTable::new();
    let h1 = table.add(ResourceContainer::new_fungible(1, 18, 100));
    let h2 = table.add(ResourceContainer::new_fungible(9, 18, 100));
    let p1 = fungible_proof(&mut table, h1, 1, 30);
    let p2 = fungible_proof(&mut table, h2, 9, 50);
    let proofs = vec![p1, p2];
    let (total, per) = Proof::compute_total_locked(&proofs, 1, FUNGIBLE);
    assert_eq!(total.amount(), 30);
    assert_eq!(per.len(), 1);
}

#[test]
fn compose_then_drop_restores_lock_counts() {
    let mut table = ContainerTable::new();
    let h = table.add(ResourceContainer::new_fungible(1, 18, 100));
    let p1 = fungible_proof(&mut table, h, 1, 30);
    let p2 = fungible_proof(&mut table, h, 1, 50);
    let records_before = table.lock_record_count(h);
    let count_30 = table.amount_lock_count(h, 30);
    let count_50 = table.amount_lock_count(h, 50);
    let proofs = vec![p1, p2];
    let composed = Proof::compose(&proofs, 1, FUNGIBLE, &mut table).unwrap();
    assert_eq!(composed.total_amount(), 50);
    assert!(table.lock_record_count(h) > records_before);
    composed.drop(&mut table);
    assert_eq!(table.lock_record_count(h), records_before);
    assert_eq!(table.amount_lock_count(h, 30), count_30);
    assert_eq!(table.amount_lock_count(h, 50), count_50);
}

#[test]
fn compose_by_ids_then_drop_restores_lock_counts() {
    let mut table = ContainerTable::new();
    let h = table.add(ResourceContainer::new_non_fungible(
        2,
        IdSet::from_ids(vec![10, 11, 12]),
    ));
    let p1 = non_fungible_proof(&mut table, h, 2, vec![10, 11]);
    let count_10 = table.id_lock_count(h, 10);
    let count_11 = table.id_lock_count(h, 11);
    let proofs = vec![p1];
    let wanted = IdSet::from_ids(vec![10, 11]);
    let composed =
        Proof::compose_by_ids(&proofs, &wanted, 2, ResourceType::NonFungible, &mut table).unwrap();
    assert_eq!(table.id_lock_count(h, 10), count_10 + 1);
    composed.drop(&mut table);
    assert_eq!(table.id_lock_count(h, 10), count_10);
    assert_eq!(table.id_lock_count(h, 11), count_11);
}

#[test]
fn clone_locks_again_and_double_drop_restores() {
    let mut table = ContainerTable::new();
    let h = table.add(ResourceContainer::new_fungible(1, 18, 100));
    let p = fungible_proof(&mut table, h, 1, 40);
    assert_eq!(table.amount_lock_count(h, 40), 1);
    let copy = p.clone(&mut table);
    assert_eq!(table.amount_lock_count(h, 40), 2);
    copy.drop(&mut table);
    // One drop leaves the original's lock intact.
    assert_eq!(table.amount_lock_count(h, 40), 1);
    p.drop(&mut table);
    // Dropping both instances releases everything.
    assert_eq!(table.amount_lock_count(h, 40), 0);
    assert_eq!(table.lock_record_count(h), 0);
}

#[test]
fn clone_of_non_fungible_proof_locks_ids_again() {
    let mut table = ContainerTable::new();
    let h = table.add(ResourceContainer::new_non_fungible(
        2,
        IdSet::from_ids(vec![5, 6]),
    ));
    let p = non_fungible_proof(&mut table, h, 2, vec![5, 6]);
    let copy = p.clone(&mut table);
    assert_eq!(table.id_lock_count(h, 5), 2);
    assert_eq!(table.id_lock_count(h, 6), 2);
    copy.drop(&mut table);
    p.drop(&mut table);
    assert_eq!(table.id_lock_count(h, 5), 0);
    assert_eq!(table.id_lock_count(h, 6), 0);
}

#[test]
fn compose_by_amount_beyond_total_is_insufficient() {
    let mut table = ContainerTable::new();
    let h = table.add(ResourceContainer::new_fungible(1, 18, 100));
    let p1 = fungible_proof(&mut table, h, 1, 30);
    let p2 = fungible_proof(&mut table, h, 1, 50);
    let proofs = vec![p1, p2];
    let r = Proof::compose_by_amount(&proofs, 51, 1, FUNGIBLE, &mut table);
    assert_eq!(r.unwrap_err(), ProofError::InsufficientBaseProofs);
    let r2 = Proof::compose_by_amount(&proofs, 50, 1, FUNGIBLE, &mut table);
    assert_eq!(r2.unwrap().total_amount(), 50);
}

#[test]
fn compose_by_amount_zero_is_empty_proof() {
    let mut table = ContainerTable::new();
    let h = table.add(ResourceContainer::new_fungible(1, 18, 100));
    let p1 = fungible_proof(&mut table, h, 1, 30);
    let proofs = vec![p1];
    let r = Proof::compose_by_amount(&proofs, 0, 1, FUNGIBLE, &mut table);
    assert_eq!(r.unwrap_err(), ProofError::EmptyProofNotAllowed);
}

#[test]
fn compose_by_ids_missing_id_is_insufficient() {
    let mut table = ContainerTable::new();
    let h = table.add(ResourceContainer::new_non_fungible(
        2,
        IdSet::from_ids(vec![10, 11]),
    ));
    let p1 = non_fungible_proof(&mut table, h, 2, vec![10]);
    let proofs = vec![p1];
    let wanted = IdSet::from_ids(vec![10, 11]);
    let r = Proof::compose_by_ids(&proofs, &wanted, 2, ResourceType::NonFungible, &mut table);
    assert_eq!(r.unwrap_err(), ProofError::InsufficientBaseProofs);
}

#[test]
fn compose_with_nothing_to_draw_from_is_empty() {
    let mut table = ContainerTable::new();
    let proofs: Vec<Proof> = Vec::new();
    let r = Proof::compose(&proofs, 1, FUNGIBLE, &mut table);
    assert_eq!(r.unwrap_err(), ProofError::EmptyProofNotAllowed);
}

#[test]
fn compose_draws_across_containers() {
    let mut table = ContainerTable::new();
    let h1 = table.add(ResourceContainer::new_fungible(1, 18, 100));
    let h2 = table.add(ResourceContainer::new_fungible(1, 18, 100));
    let p1 = fungible_proof(&mut table, h1, 1, 30);
    let p2 = fungible_proof(&mut table, h2, 1, 50);
    let proofs = vec![p1, p2];
    let composed = Proof::compose(&proofs, 1, FUNGIBLE, &mut table).unwrap();
    assert_eq!(composed.total_amount(), 80);
    assert_eq!(composed.resource_def_id(), 1);
    assert!(!composed.is_restricted());
    composed.drop(&mut table);
}

#[test]
fn total_ids_on_fungible_proof_is_an_error() {
    let mut table = ContainerTable::new();
    let h = table.add(ResourceContainer::new_fungible(1, 18, 100));
    let p = fungible_proof(&mut table, h, 1, 30);
    assert_eq!(
        p.total_ids().unwrap_err(),
        ProofError::NonFungibleOperationNotAllowed
    );
}

#[test]
fn total_amount_of_id_proof_counts_ids() {
    let mut table = ContainerTable::new();
    let h = table.add(ResourceContainer::new_non_fungible(
        2,
        IdSet::from_ids(vec![1, 2, 3]),
    ));
    let p = non_fungible_proof(&mut table, h, 2, vec![1, 3]);
    assert_eq!(p.total_amount(), 2);
    let ids = p.total_ids().unwrap();
    assert_eq!(ids.len(), 2);
}

#[test]
fn compose_by_amount_on_non_fungible_type_is_rejected() {
    let mut table = ContainerTable::new();
    let proofs: Vec<Proof> = Vec::new();
    let r = Proof::compose_by_amount(&proofs, 5, 2, ResourceType::NonFungible, &mut table);
    assert_eq!(r.unwrap_err(), ProofError::FungibleOperationNotAllowed);
}

#[test]
fn compose_by_ids_on_fungible_type_is_rejected() {
    let mut table = ContainerTable::new();
    let proofs: Vec<Proof> = Vec::new();
    let wanted = IdSet::from_ids(vec![1]);
    let r = Proof::compose_by_ids(&proofs, &wanted, 1, FUNGIBLE, &mut table);
    assert_eq!(r.unwrap_err(), ProofError::NonFungibleOperationNotAllowed);
}

#[test]
fn container_lock_errors_are_exact() {
    let mut table = ContainerTable::new();
    let hf = table.add(ResourceContainer::new_fungible(1, 18, 100));
    let hn = table.add(ResourceContainer::new_non_fungible(
        2,
        IdSet::from_ids(vec![10]),
    ));
    assert_eq!(
        table.lock_by_amount(hn, 5).unwrap_err(),
        ResourceContainerError::ResourceTypeMismatch
    );
    assert_eq!(
        table.lock_by_amount(hf, 0).unwrap_err(),
        ResourceContainerError::InvalidZeroAmount
    );
    let missing = IdSet::from_ids(vec![10, 99]);
    assert_eq!(
        table.lock_by_ids(hn, &missing).unwrap_err(),
        ResourceContainerError::NonFungibleNotFound
    );
    assert_eq!(
        table.lock_by_ids(hf, &missing).unwrap_err(),
        ResourceContainerError::ResourceTypeMismatch
    );
    assert_eq!(
        table
            .unlock(hf, &LockedAmountOrIds::Amount(5))
            .unwrap_err(),
        ResourceContainerError::LockNotFound
    );
    assert_eq!(
        table
            .unlock(hn, &LockedAmountOrIds::Amount(5))
            .unwrap_err(),
        ResourceContainerError::ResourceTypeMismatch
    );
}

#[test]
fn unlock_releases_one_record_at_a_time() {
    let mut table = ContainerTable::new();
    let h = table.add(ResourceContainer::new_fungible(1, 18, 100));
    table.lock_by_amount(h, 5).unwrap();
    table.lock_by_amount(h, 5).unwrap();
    assert_eq!(table.amount_lock_count(h, 5), 2);
    table.unlock(h, &LockedAmountOrIds::Amount(5)).unwrap();
    assert_eq!(table.amount_lock_count(h, 5), 1);
    table.unlock(h, &LockedAmountOrIds::Amount(5)).unwrap();
    assert_eq!(table.amount_lock_count(h, 5), 0);
    assert_eq!(
        table
            .unlock(h, &LockedAmountOrIds::Amount(5))
            .unwrap_err(),
        ResourceContainerError::LockNotFound
    );
}
