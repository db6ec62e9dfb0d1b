use resource_auth::container::{ContainerTable, ResourceContainer};
use resource_auth::ids::IdSet;
use resource_auth::locked::{LockedAmountOrIds, NonFungibleAddress, ResourceType};
use resource_auth::proofs::{Proof, ProofError};
use resource_auth::rules::{
    check_proof_rule, resolve_static_rule, HardProofRule, HardResourceOrNonFungible, ProofRule,
    SoftResource, SoftResourceOrNonFungible, SoftResourceOrNonFungibleList,
};
use resource_auth::sbor_path::SborPath;

const FUNGIBLE: ResourceType = ResourceType::Fungible { divisibility: 18 };

fn fungible_proof(table: &mut ContainerTable, h: usize, rid: u64, amount: u128) -> Proof {
    table.lock_by_amount(h, amount).unwrap();
    Proof::new(
        rid,
        FUNGIBLE,
        false,
        LockedAmountOrIds::Amount(amount),
        vec![(h, LockedAmountOrIds::Amount(amount))],
    )
    .unwrap()
}

fn non_fungible_proof(table: &mut ContainerTable, h: usize, rid: u64, ids: Vec<u64>) -> Proof {
    let set = IdSet::from_ids(ids);
    table.lock_by_ids(h, &set).unwrap();
    Proof::new(
        rid,
        ResourceType::NonFungible,
        false,
        LockedAmountOrIds::Ids(set.copied()),
        vec![(h, LockedAmountOrIds::Ids(set))],
    )
    .unwrap()
}

/// A proof set where resources 1 and 2 are held but 3 is not.
fn two_of_three(table: &mut ContainerTable) -> Vec<Proof> {
    let h1 = table.add(ResourceContainer::new_fungible(1, 18, 100));
    let h2 = table.add(ResourceContainer::new_fungible(2, 18, 100));
    let p1 = fungible_proof(table, h1, 1, 10);
    let p2 = fungible_proof(table, h2, 2, 10);
    vec![p1, p2]
}

#[test]
fn this_resource_is_satisfied_by_a_held_proof() {
    let mut table = ContainerTable::new();
    let proofs = two_of_three(&mut table);
    let rule = HardProofRule::This(HardResourceOrNonFungible::Resource(1));
    assert_eq!(check_proof_rule(&rule, &proofs).unwrap(), true);
    let rule = HardProofRule::This(HardResourceOrNonFungible::Resource(3));
    assert_eq!(check_proof_rule(&rule, &proofs).unwrap(), false);
}

#[test]
fn this_non_fungible_needs_the_specific_id() {
    let mut table = ContainerTable::new();
    let h = table.add(ResourceContainer::new_non_fungible(
        5,
        IdSet::from_ids(vec![7, 8]),
    ));
    let p = non_fungible_proof(&mut table, h, 5, vec![7]);
    let proofs = vec![p];
    let held = HardProofRule::This(HardResourceOrNonFungible::NonFungible(NonFungibleAddress {
        resource_def_id: 5,
        non_fungible_id: 7,
    }));
    let not_held = HardProofRule::This(HardResourceOrNonFungible::NonFungible(
        NonFungibleAddress { resource_def_id: 5, non_fungible_id: 8 },
    ));
    assert_eq!(check_proof_rule(&held, &proofs).unwrap(), true);
    assert_eq!(check_proof_rule(&not_held, &proofs).unwrap(), false);
}

#[test]
fn unresolved_reference_satisfies_nothing() {
    let mut table = ContainerTable::new();
    let proofs = two_of_three(&mut table);
    let rule = HardProofRule::This(HardResourceOrNonFungible::SoftResourceNotFound);
    assert_eq!(check_proof_rule(&rule, &proofs).unwrap(), false);
}

#[test]
fn any_of_matches_or() {
    let mut table = ContainerTable::new();
    let proofs = two_of_three(&mut table);
    let a = HardResourceOrNonFungible::Resource(1);
    let b = HardResourceOrNonFungible::Resource(3);
    let c = HardResourceOrNonFungible::Resource(4);
    // One of the two satisfied.
    let rule = HardProofRule::AnyOf(vec![a.clone(), b.clone()]);
    assert_eq!(check_proof_rule(&rule, &proofs).unwrap(), true);
    // Neither satisfied.
    let rule = HardProofRule::AnyOf(vec![b, c]);
    assert_eq!(check_proof_rule(&rule, &proofs).unwrap(), false);
}

#[test]
fn all_of_matches_and() {
    let mut table = ContainerTable::new();
    let proofs = two_of_three(&mut table);
    let a = HardResourceOrNonFungible::Resource(1);
    let b = HardResourceOrNonFungible::Resource(2);
    let c = HardResourceOrNonFungible::Resource(3);
    let rule = HardProofRule::AllOf(vec![a.clone(), b.clone()]);
    assert_eq!(check_proof_rule(&rule, &proofs).unwrap(), true);
    let rule = HardProofRule::AllOf(vec![a, b, c]);
    assert_eq!(check_proof_rule(&rule, &proofs).unwrap(), false);
}

#[test]
fn count_of_two_needs_two_of_three() {
    let mut table = ContainerTable::new();
    let proofs = two_of_three(&mut table);
    let held1 = HardResourceOrNonFungible::Resource(1);
    let held2 = HardResourceOrNonFungible::Resource(2);
    let missing3 = HardResourceOrNonFungible::Resource(3);
    let missing4 = HardResourceOrNonFungible::Resource(4);
    let missing5 = HardResourceOrNonFungible::Resource(5);
    // Exactly 0 of 3 hold.
    let rule = HardProofRule::CountOf(
        2,
        vec![missing3.clone(), missing4.clone(), missing5.clone()],
    );
    assert_eq!(check_proof_rule(&rule, &proofs).unwrap(), false);
    // Exactly 1 of 3 holds.
    let rule = HardProofRule::CountOf(2, vec![held1.clone(), missing3.clone(), missing4.clone()]);
    assert_eq!(check_proof_rule(&rule, &proofs).unwrap(), false);
    // Exactly 2 of 3 hold.
    let rule = HardProofRule::CountOf(2, vec![held1.clone(), held2.clone(), missing3.clone()]);
    assert_eq!(check_proof_rule(&rule, &proofs).unwrap(), true);
    // Exactly 3 of 3 hold: build a third held resource.
    let h3 = table.add(ResourceContainer::new_fungible(3, 18, 100));
    let mut proofs3 = proofs;
    proofs3.push(fungible_proof(&mut table, h3, 3, 10));
    let rule = HardProofRule::CountOf(2, vec![held1, held2, missing3]);
    assert_eq!(check_proof_rule(&rule, &proofs3).unwrap(), true);
}

#[test]
fn amount_of_compares_the_aggregate() {
    let mut table = ContainerTable::new();
    let h = table.add(ResourceContainer::new_fungible(1, 18, 100));
    let p1 = fungible_proof(&mut table, h, 1, 30);
    let p2 = fungible_proof(&mut table, h, 1, 50);
    let proofs = vec![p1, p2];
    // Aggregate is max(30, 50) == 50.
    let rule = HardProofRule::AmountOf(50, HardResourceOrNonFungible::Resource(1));
    assert_eq!(check_proof_rule(&rule, &proofs).unwrap(), true);
    let rule = HardProofRule::AmountOf(51, HardResourceOrNonFungible::Resource(1));
    assert_eq!(check_proof_rule(&rule, &proofs).unwrap(), false);
}

#[test]
fn amount_of_over_non_fungible_proofs_is_a_hard_error() {
    let mut table = ContainerTable::new();
    let h = table.add(ResourceContainer::new_non_fungible(
        5,
        IdSet::from_ids(vec![7]),
    ));
    let p = non_fungible_proof(&mut table, h, 5, vec![7]);
    let proofs = vec![p];
    let rule = HardProofRule::AmountOf(1, HardResourceOrNonFungible::Resource(5));
    assert_eq!(
        check_proof_rule(&rule, &proofs).unwrap_err(),
        ProofError::FungibleOperationNotAllowed
    );
}

#[test]
fn amount_of_an_absent_resource_holds_only_for_zero() {
    let mut table = ContainerTable::new();
    let proofs = two_of_three(&mut table);
    let rule = HardProofRule::AmountOf(0, HardResourceOrNonFungible::Resource(9));
    assert_eq!(check_proof_rule(&rule, &proofs).unwrap(), true);
    let rule = HardProofRule::AmountOf(1, HardResourceOrNonFungible::Resource(9));
    assert_eq!(check_proof_rule(&rule, &proofs).unwrap(), false);
}

#[test]
fn static_rules_resolve_to_their_hard_form() {
    let rule = ProofRule::AnyOf(SoftResourceOrNonFungibleList::Static(vec![
        SoftResourceOrNonFungible::StaticResource(1),
        SoftResourceOrNonFungible::StaticNonFungible(NonFungibleAddress {
            resource_def_id: 5,
            non_fungible_id: 7,
        }),
    ]));
    match resolve_static_rule(&rule).unwrap() {
        HardProofRule::AnyOf(list) => {
            assert_eq!(list.len(), 2);
            assert!(matches!(list[0], HardResourceOrNonFungible::Resource(1)));
            assert!(matches!(
                list[1],
                HardResourceOrNonFungible::NonFungible(NonFungibleAddress {
                    resource_def_id: 5,
                    non_fungible_id: 7,
                })
            ));
        }
        _ => panic!("wrong variant"),
    }
}

#[test]
fn dynamic_rules_are_not_resolved_statically() {
    let rule = ProofRule::This(SoftResourceOrNonFungible::Dynamic(
        SborPath::new().field("auth"),
    ));
    assert!(resolve_static_rule(&rule).is_none());
    let rule = ProofRule::AmountOf(5, SoftResource::Dynamic(SborPath::new().field("auth")));
    assert!(resolve_static_rule(&rule).is_none());
}
